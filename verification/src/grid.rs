//! Coordinates on the grid and the three units a cell belongs to.

use vstd::prelude::*;
use crate::rules::{box_of, col_of, in_grid, placement_free, row_of, sees};
use crate::types::{BOX_SIZE, GRID_SIZE};

verus! {

/// Index (0 to 80) of the cell in row `row` and column `col`.
pub fn coords_to_index(row: usize, col: usize) -> (index: usize)
    requires
        row * 9 + col <= usize::MAX,
    ensures
        index == row * 9 + col,
        row < 9 && col < 9 ==> index < 81 && row_of(index as int) == row && col_of(index as int)
            == col,
{
    row * GRID_SIZE + col
}

/// Row and column of the cell with the given index.
pub fn index_to_coords(index: usize) -> (coords: (usize, usize))
    ensures
        coords.0 == row_of(index as int),
        coords.1 == col_of(index as int),
        coords.0 * 9 + coords.1 == index,
        coords.1 < 9,
        index < 81 ==> coords.0 < 9,
{
    (index / GRID_SIZE, index % GRID_SIZE)
}

/// Box (0 to 8, left to right, top to bottom) of the cell in row `row` and column `col`.
pub fn get_box_index(row: usize, col: usize) -> (b: usize)
    requires
        (row / 3) * 3 + col / 3 <= usize::MAX,
    ensures
        b == (row / 3) * 3 + col / 3,
        row < 9 && col < 9 ==> b < 9 && b == box_of(row * 9 + col),
{
    proof {
        if row < 9 && col < 9 {
            lemma_box_of_coords(row as int, col as int);
        }
    }
    (row / BOX_SIZE) * BOX_SIZE + (col / BOX_SIZE)
}

/// Row and column of the top-left cell of a box.
pub fn get_box_start_coords(box_index: usize) -> (start: (usize, usize))
    ensures
        start.0 == (box_index / 3) * 3,
        start.1 == (box_index % 3) * 3,
        box_index < 9 ==> start.0 <= 6 && start.1 <= 6 && box_of(start.0 * 9 + start.1)
            == box_index,
{
    let box_row: usize = box_index / 3;
    let box_col: usize = box_index % 3;
    (box_row * BOX_SIZE, box_col * BOX_SIZE)
}

/// The `k`-th cell of a row, left to right.
pub open spec fn row_cell(row: int, k: int) -> int {
    row * 9 + k
}

/// The `k`-th cell of a column, top to bottom.
pub open spec fn col_cell(col: int, k: int) -> int {
    k * 9 + col
}

/// The `k`-th cell of a box, row by row.
pub open spec fn box_cell(b: int, k: int) -> int {
    ((b / 3) * 3 + k / 3) * 9 + (b % 3) * 3 + k % 3
}

/// The cells of row `row` are exactly the cells `row_cell(row, k)`.
pub proof fn lemma_row_cells(row: int)
    requires
        0 <= row < 9,
    ensures
        forall|k: int|
            0 <= k < 9 ==> in_grid(#[trigger] row_cell(row, k)) && row_of(row_cell(row, k)) == row
                && col_of(row_cell(row, k)) == k,
        forall|j: int| in_grid(j) && row_of(j) == row ==> j == row_cell(row, col_of(j)),
{
}

/// The cells of column `col` are exactly the cells `col_cell(col, k)`.
pub proof fn lemma_col_cells(col: int)
    requires
        0 <= col < 9,
    ensures
        forall|k: int|
            0 <= k < 9 ==> in_grid(#[trigger] col_cell(col, k)) && col_of(col_cell(col, k)) == col
                && row_of(col_cell(col, k)) == k,
        forall|j: int| in_grid(j) && col_of(j) == col ==> j == col_cell(col, row_of(j)),
{
}

/// Position (0 to 8) of a cell inside its box, row by row.
pub open spec fn slot_in_box(j: int) -> int {
    (row_of(j) % 3) * 3 + col_of(j) % 3
}

/// The cells of box `b` are exactly the cells `box_cell(b, k)`.
pub proof fn lemma_box_cells(b: int)
    requires
        0 <= b < 9,
    ensures
        forall|k: int|
            0 <= k < 9 ==> in_grid(#[trigger] box_cell(b, k)) && box_of(box_cell(b, k)) == b
                && slot_in_box(box_cell(b, k)) == k,
        forall|j: int|
            in_grid(j) && box_of(j) == b ==> 0 <= slot_in_box(j) < 9 && j == box_cell(
                b,
                slot_in_box(j),
            ),
{
    assert forall|k: int| 0 <= k < 9 implies in_grid(#[trigger] box_cell(b, k)) && box_of(
        box_cell(b, k),
    ) == b && slot_in_box(box_cell(b, k)) == k by {
        lemma_box_cell_at(b, k);
    }
    assert forall|j: int| in_grid(j) && box_of(j) == b implies 0 <= slot_in_box(j) < 9 && j
        == box_cell(b, slot_in_box(j)) by {
        lemma_box_cell_of(j);
    }
}

/// The box of the cell at (`row`, `col`), by its coordinates.
pub proof fn lemma_box_of_coords(row: int, col: int)
    requires
        0 <= row < 9,
        0 <= col < 9,
    ensures
        row_of(row * 9 + col) == row,
        col_of(row * 9 + col) == col,
        box_of(row * 9 + col) == (row / 3) * 3 + col / 3,
        0 <= box_of(row * 9 + col) < 9,
        box_of(row * 9 + col) / 3 == row / 3,
        box_of(row * 9 + col) % 3 == col / 3,
{
    let i = row * 9 + col;
    let br = row / 3;
    let bc = col / 3;
    assert(i / 9 == row);
    assert(i % 9 == col);
    assert(i == 27 * br + 9 * (row % 3) + col);
    assert(i / 27 == br);
    let b = br * 3 + bc;
    assert(b / 3 == br);
    assert(b % 3 == bc);
}

pub proof fn lemma_box_cell_at(b: int, k: int)
    requires
        0 <= b < 9,
        0 <= k < 9,
    ensures
        in_grid(box_cell(b, k)),
        box_of(box_cell(b, k)) == b,
        slot_in_box(box_cell(b, k)) == k,
        row_of(box_cell(b, k)) == (b / 3) * 3 + k / 3,
        col_of(box_cell(b, k)) == (b % 3) * 3 + k % 3,
{
    let br = b / 3;
    let bc = b % 3;
    let kr = k / 3;
    let kc = k % 3;
    let cell = box_cell(b, k);
    assert(cell == 27 * br + 9 * kr + 3 * bc + kc);
    assert(cell / 9 == 3 * br + kr);
    assert(cell % 9 == 3 * bc + kc);
    assert(cell / 27 == br);
}

proof fn lemma_box_cell_of(j: int)
    requires
        in_grid(j),
    ensures
        0 <= box_of(j) < 9,
        0 <= slot_in_box(j) < 9,
        j == box_cell(box_of(j), slot_in_box(j)),
{
    let r = j / 9;
    let c = j % 9;
    let br = r / 3;
    let bc = c / 3;
    assert(j / 27 == br);
    let b = box_of(j);
    assert(b == br * 3 + bc);
    assert(b / 3 == br);
    assert(b % 3 == bc);
    let k = slot_in_box(j);
    assert(k == (r % 3) * 3 + c % 3);
    assert(k / 3 == r % 3);
    assert(k % 3 == c % 3);
}

/// Whether `num` may be placed in row `row`, column `col`: no cell of that
/// row, column or box holds it already.
pub fn is_valid_placement(board: &[Option<u8>], row: usize, col: usize, num: u8) -> (ok: bool)
    requires
        board@.len() == 81,
        row < 9,
        col < 9,
    ensures
        ok == placement_free(board@, row * 9 + col, num),
{
    let hit_row = has_conflict_in_row(board, row, num);
    let hit_col = has_conflict_in_column(board, col, num);
    let hit_box = has_conflict_in_box(board, row, col, num);
    proof {
        let i = (row * 9 + col) as int;
        lemma_row_cells(row as int);
        lemma_col_cells(col as int);
        lemma_box_cells(box_of(i));
        if hit_row || hit_col || hit_box {
            let j = choose|j: int|
                in_grid(j) && board@[j] == Some(num) && (row_of(j) == row || col_of(j) == col
                    || box_of(j) == box_of(i));
            assert(sees(i, j));
        } else {
            assert forall|j: int| in_grid(j) && #[trigger] sees(i, j) implies board@[j] != Some(
                num,
            ) by {}
        }
    }
    !hit_row && !hit_col && !hit_box
}

/// Whether some cell of row `row` holds `num`.
pub fn has_conflict_in_row(board: &[Option<u8>], row: usize, num: u8) -> (hit: bool)
    requires
        board@.len() == 81,
        row < 9,
    ensures
        hit == exists|j: int| in_grid(j) && row_of(j) == row && board@[j] == Some(num),
{
    let mut col: usize = 0;
    while col < GRID_SIZE
        invariant
            board@.len() == 81,
            row < 9,
            col <= 9,
            forall|k: int| 0 <= k < col ==> board@[#[trigger] row_cell(row as int, k)] != Some(num),
        decreases 9 - col,
    {
        let index: usize = coords_to_index(row, col);
        assert(index == row_cell(row as int, col as int));
        if holds_digit(board, index, num) {
            return true;
        }
        col += 1;
    }
    proof {
        lemma_row_cells(row as int);
    }
    false
}

/// Whether some cell of column `col` holds `num`.
pub fn has_conflict_in_column(board: &[Option<u8>], col: usize, num: u8) -> (hit: bool)
    requires
        board@.len() == 81,
        col < 9,
    ensures
        hit == exists|j: int| in_grid(j) && col_of(j) == col && board@[j] == Some(num),
{
    let mut row: usize = 0;
    while row < GRID_SIZE
        invariant
            board@.len() == 81,
            col < 9,
            row <= 9,
            forall|k: int| 0 <= k < row ==> board@[#[trigger] col_cell(col as int, k)] != Some(num),
        decreases 9 - row,
    {
        let index: usize = coords_to_index(row, col);
        assert(index == col_cell(col as int, row as int));
        if holds_digit(board, index, num) {
            return true;
        }
        row += 1;
    }
    proof {
        lemma_col_cells(col as int);
    }
    false
}

/// Whether some cell of the box around row `row`, column `col` holds `num`.
pub fn has_conflict_in_box(board: &[Option<u8>], row: usize, col: usize, num: u8) -> (hit: bool)
    requires
        board@.len() == 81,
        row < 9,
        col < 9,
    ensures
        hit == exists|j: int|
            in_grid(j) && box_of(j) == box_of(row * 9 + col) && board@[j] == Some(num),
{
    let box_start_row: usize = (row / BOX_SIZE) * BOX_SIZE;
    let box_start_col: usize = (col / BOX_SIZE) * BOX_SIZE;
    let ghost b = box_of(row * 9 + col);
    proof {
        lemma_box_of_coords(row as int, col as int);
    }
    let mut k: usize = 0;
    while k < 9
        invariant
            board@.len() == 81,
            k <= 9,
            0 <= b < 9,
            b == box_of(row * 9 + col),
            box_start_row == (b / 3) * 3,
            box_start_col == (b % 3) * 3,
            forall|m: int| 0 <= m < k ==> board@[#[trigger] box_cell(b, m)] != Some(num),
        decreases 9 - k,
    {
        let r: usize = box_start_row + k / BOX_SIZE;
        let c: usize = box_start_col + k % BOX_SIZE;
        proof {
            lemma_box_cell_at(b, k as int);
        }
        let index: usize = coords_to_index(r, c);
        assert(index == box_cell(b, k as int));
        if holds_digit(board, index, num) {
            assert(in_grid(index as int) && box_of(index as int) == b);
            return true;
        }
        k += 1;
    }
    proof {
        lemma_box_cells(b);
    }
    false
}

/// Whether cell `index` holds `num`.
pub fn holds_digit(board: &[Option<u8>], index: usize, num: u8) -> (hit: bool)
    requires
        index < board@.len(),
    ensures
        hit == (board@[index as int] == Some(num)),
{
    match board[index] {
        Some(d) => d == num,
        None => false,
    }
}

/// Whether two cells share a row, a column or a box.
pub fn cells_see(a: usize, b: usize) -> (seen: bool)
    requires
        a < 81,
        b < 81,
    ensures
        seen == sees(a as int, b as int),
{
    let (row_a, col_a) = index_to_coords(a);
    let (row_b, col_b) = index_to_coords(b);
    row_a == row_b || col_a == col_b || get_box_index(row_a, col_a) == get_box_index(row_b, col_b)
}

/// Box (0 to 8) of a cell.
pub fn box_of_cell(a: usize) -> (b: usize)
    requires
        a < 81,
    ensures
        b == box_of(a as int),
        b < 9,
{
    let (row, col) = index_to_coords(a);
    get_box_index(row, col)
}

/// Whether two cells lie in the same unit of the given kind: 0 for rows, 1
/// for columns, 2 for boxes.
pub fn same_unit(kind: u8, a: usize, b: usize) -> (same: bool)
    requires
        a < 81,
        b < 81,
    ensures
        same == crate::solver::patterns::in_unit(kind as int, a as int, b as int),
{
    if kind == 0 {
        a / GRID_SIZE == b / GRID_SIZE
    } else if kind == 1 {
        a % GRID_SIZE == b % GRID_SIZE
    } else {
        box_of_cell(a) == box_of_cell(b)
    }
}

/// The nine cells of the row of cell `index`, left to right.
pub fn get_row_indices(index: usize) -> (cells: Vec<usize>)
    requires
        index <= usize::MAX - 8,
    ensures
        cells@.len() == 9,
        forall|k: int| 0 <= k < 9 ==> cells@[k] == row_cell(row_of(index as int), k),
{
    let (row, _) = index_to_coords(index);
    let mut cells: Vec<usize> = Vec::new();
    let mut col: usize = 0;
    while col < GRID_SIZE
        invariant
            col <= 9,
            row == row_of(index as int),
            index <= usize::MAX - 8,
            cells@.len() == col,
            forall|k: int| 0 <= k < col ==> cells@[k] == row_cell(row as int, k),
        decreases 9 - col,
    {
        cells.push(coords_to_index(row, col));
        col += 1;
    }
    cells
}

/// The nine cells of the column of cell `index`, top to bottom.
pub fn get_column_indices(index: usize) -> (cells: Vec<usize>)
    ensures
        cells@.len() == 9,
        forall|k: int| 0 <= k < 9 ==> cells@[k] == col_cell(col_of(index as int), k),
{
    let (_, col) = index_to_coords(index);
    let mut cells: Vec<usize> = Vec::new();
    let mut row: usize = 0;
    while row < GRID_SIZE
        invariant
            row <= 9,
            col == col_of(index as int),
            col < 9,
            cells@.len() == row,
            forall|k: int| 0 <= k < row ==> cells@[k] == col_cell(col as int, k),
        decreases 9 - row,
    {
        cells.push(coords_to_index(row, col));
        row += 1;
    }
    cells
}

/// The nine cells of the box of cell `index`, row by row.
pub fn get_box_indices(index: usize) -> (cells: Vec<usize>)
    requires
        index < 81,
    ensures
        cells@.len() == 9,
        forall|k: int| 0 <= k < 9 ==> cells@[k] == box_cell(box_of(index as int), k),
{
    let (row, col) = index_to_coords(index);
    let box_start_row: usize = (row / BOX_SIZE) * BOX_SIZE;
    let box_start_col: usize = (col / BOX_SIZE) * BOX_SIZE;
    let ghost b = box_of(index as int);
    proof {
        lemma_box_of_coords(row as int, col as int);
    }
    let mut cells: Vec<usize> = Vec::new();
    let mut k: usize = 0;
    while k < 9
        invariant
            k <= 9,
            0 <= b < 9,
            box_start_row == (b / 3) * 3,
            box_start_col == (b % 3) * 3,
            cells@.len() == k,
            forall|m: int| 0 <= m < k ==> cells@[m] == box_cell(b, m),
        decreases 9 - k,
    {
        let r: usize = box_start_row + k / BOX_SIZE;
        let c: usize = box_start_col + k % BOX_SIZE;
        proof {
            lemma_box_cell_at(b, k as int);
        }
        cells.push(coords_to_index(r, c));
        k += 1;
    }
    cells
}

} // verus!
