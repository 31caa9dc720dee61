//! Synthesis of a full grid: backtracking over the cells in index order,
//! with the digits tried in a shuffled order and one bit mask per row,
//! column and box for the digits already placed there.

use rand::rngs::SmallRng;
use vstd::prelude::*;
use crate::generator::PuzzleGenerator;
use crate::grid::lemma_box_of_coords;
use crate::random::{lemma_shuffled, shuffle};
use crate::rules::{
    box_of, col_of, conflict_free, conflicts, extends, in_grid, is_digit, is_solution, peers,
    peers_free, placement_free, row_of, sees, solvable, solves,
};
use crate::types::BOARD_SIZE;
use crate::validator::lemma_placement_keeps_conflict_free;

verus! {

/// The board that a grid of plain digits stands for: 0 is an empty cell.
pub open spec fn cells_of(grid: Seq<u8>) -> Seq<Option<u8>> {
    Seq::new(
        81,
        |i: int|
            if grid[i] == 0 {
                None
            } else {
                Some(grid[i])
            },
    )
}

/// Digit `d` is marked in the mask.
pub open spec fn marked(mask: u16, d: int) -> bool {
    mask & (1u16 << ((d - 1) as u16)) != 0
}

/// The masks record exactly the digits that the rows, columns and boxes of
/// the grid hold.
pub open spec fn masks_match(
    grid: Seq<u8>,
    rows: Seq<u16>,
    cols: Seq<u16>,
    boxes: Seq<u16>,
) -> bool {
    &&& rows.len() == 9 && cols.len() == 9 && boxes.len() == 9
    &&& forall|j: int, d: int|
        #![trigger marked(rows[row_of(j)], d), grid[j]]
        in_grid(j) && is_digit(d) && grid[j] == d ==> marked(rows[row_of(j)], d) && marked(
            cols[col_of(j)],
            d,
        ) && marked(boxes[box_of(j)], d)
    &&& forall|u: int, d: int|
        0 <= u < 9 && is_digit(d) && #[trigger] marked(rows[u], d) ==> exists|j: int|
            in_grid(j) && row_of(j) == u && grid[j] == d
    &&& forall|u: int, d: int|
        0 <= u < 9 && is_digit(d) && #[trigger] marked(cols[u], d) ==> exists|j: int|
            in_grid(j) && col_of(j) == u && grid[j] == d
    &&& forall|u: int, d: int|
        0 <= u < 9 && is_digit(d) && #[trigger] marked(boxes[u], d) ==> exists|j: int|
            in_grid(j) && box_of(j) == u && grid[j] == d
}

proof fn lemma_mark_added(m: u16, a: u16, b: u16)
    by (bit_vector)
    requires
        a < 9,
        b < 9,
    ensures
        ((m | (1u16 << a)) & (1u16 << b) != 0) == ((m & (1u16 << b) != 0) || a == b),
{
}

proof fn lemma_mark_restored(m: u16, a: u16)
    by (bit_vector)
    requires
        a < 9,
        m & (1u16 << a) == 0,
    ensures
        (m | (1u16 << a)) & !(1u16 << a) == m,
{
}

proof fn lemma_no_mark_in_zero(b: u16)
    by (bit_vector)
    requires
        b < 9,
    ensures
        0u16 & (1u16 << b) == 0,
{
}

/// The empty grid goes with empty masks.
pub proof fn lemma_empty_masks(grid: Seq<u8>, masks: Seq<u16>)
    requires
        grid.len() == 81,
        masks.len() == 9,
        forall|j: int| 0 <= j < 81 ==> grid[j] == 0,
        forall|u: int| 0 <= u < 9 ==> masks[u] == 0,
    ensures
        masks_match(grid, masks, masks, masks),
        conflict_free(cells_of(grid)),
{
    assert forall|u: int, d: int| 0 <= u < 9 && is_digit(d) implies !#[trigger] marked(
        masks[u],
        d,
    ) by {
        lemma_no_mark_in_zero((d - 1) as u16);
    }
}

/// A digit that the three masks of a cell do not mark can be placed there,
/// and a marked one cannot.
pub proof fn lemma_masks_decide(
    grid: Seq<u8>,
    rows: Seq<u16>,
    cols: Seq<u16>,
    boxes: Seq<u16>,
    idx: int,
    d: u8,
)
    requires
        grid.len() == 81,
        masks_match(grid, rows, cols, boxes),
        in_grid(idx),
        1 <= d <= 9,
    ensures
        placement_free(cells_of(grid), idx, d) <==> !marked(rows[row_of(idx)], d as int)
            && !marked(cols[col_of(idx)], d as int) && !marked(boxes[box_of(idx)], d as int),
{
    let cells = cells_of(grid);
    let free = !marked(rows[row_of(idx)], d as int) && !marked(cols[col_of(idx)], d as int)
        && !marked(boxes[box_of(idx)], d as int);
    if free {
        assert forall|j: int| in_grid(j) && #[trigger] sees(idx, j) implies cells[j] != Some(
            d,
        ) by {
            if grid[j] == d {
                assert(marked(rows[row_of(j)], d as int));
            }
        }
    } else {
        assert(0 <= box_of(idx) < 9) by {
            lemma_box_of_coords(row_of(idx), col_of(idx));
        }
        if marked(rows[row_of(idx)], d as int) {
            let j = choose|j: int| in_grid(j) && row_of(j) == row_of(idx) && grid[j] == d;
            assert(sees(idx, j) && cells[j] == Some(d));
        } else if marked(cols[col_of(idx)], d as int) {
            let j = choose|j: int| in_grid(j) && col_of(j) == col_of(idx) && grid[j] == d;
            assert(sees(idx, j) && cells[j] == Some(d));
        } else {
            let j = choose|j: int| in_grid(j) && box_of(j) == box_of(idx) && grid[j] == d;
            assert(sees(idx, j) && cells[j] == Some(d));
        }
    }
}

/// Marking a placed digit in the three masks of its cell keeps the masks
/// in step with the grid.
pub proof fn lemma_masks_after_place(
    grid: Seq<u8>,
    rows: Seq<u16>,
    cols: Seq<u16>,
    boxes: Seq<u16>,
    idx: int,
    d: u8,
)
    requires
        grid.len() == 81,
        masks_match(grid, rows, cols, boxes),
        in_grid(idx),
        grid[idx] == 0,
        1 <= d <= 9,
    ensures
        0 <= box_of(idx) < 9,
        masks_match(
            grid.update(idx, d),
            rows.update(row_of(idx), rows[row_of(idx)] | (1u16 << ((d - 1) as u16))),
            cols.update(col_of(idx), cols[col_of(idx)] | (1u16 << ((d - 1) as u16))),
            boxes.update(box_of(idx), boxes[box_of(idx)] | (1u16 << ((d - 1) as u16))),
        ),
{
    lemma_box_of_coords(row_of(idx), col_of(idx));
    let bit = 1u16 << ((d - 1) as u16);
    let grid2 = grid.update(idx, d);
    let rows2 = rows.update(row_of(idx), rows[row_of(idx)] | bit);
    let cols2 = cols.update(col_of(idx), cols[col_of(idx)] | bit);
    let boxes2 = boxes.update(box_of(idx), boxes[box_of(idx)] | bit);
    assert forall|u: int, e: int| 0 <= u < 9 && is_digit(e) implies (marked(rows2[u], e) <==> marked(
        rows[u],
        e,
    ) || (u == row_of(idx) && e == d)) && (marked(cols2[u], e) <==> marked(cols[u], e) || (u
        == col_of(idx) && e == d)) && (marked(boxes2[u], e) <==> marked(boxes[u], e) || (u
        == box_of(idx) && e == d)) by {
        lemma_mark_added(rows[u], (d - 1) as u16, (e - 1) as u16);
        lemma_mark_added(cols[u], (d - 1) as u16, (e - 1) as u16);
        lemma_mark_added(boxes[u], (d - 1) as u16, (e - 1) as u16);
    }
    assert forall|j: int, e: int|
        #![trigger marked(rows2[row_of(j)], e), grid2[j]]
        in_grid(j) && is_digit(e) && grid2[j] == e implies marked(rows2[row_of(j)], e) && marked(
        cols2[col_of(j)],
        e,
    ) && marked(boxes2[box_of(j)], e) by {
        lemma_box_of_coords(row_of(j), col_of(j));
        if j != idx {
            assert(grid[j] == e);
            assert(marked(rows[row_of(j)], e));
        }
    }
    assert forall|u: int, e: int| 0 <= u < 9 && is_digit(e) && #[trigger] marked(
        rows2[u],
        e,
    ) implies exists|j: int| in_grid(j) && row_of(j) == u && grid2[j] == e by {
        if marked(rows[u], e) {
            let j = choose|j: int| in_grid(j) && row_of(j) == u && grid[j] == e;
            assert(grid2[j] == e);
        } else {
            assert(grid2[idx] == e);
        }
    }
    assert forall|u: int, e: int| 0 <= u < 9 && is_digit(e) && #[trigger] marked(
        cols2[u],
        e,
    ) implies exists|j: int| in_grid(j) && col_of(j) == u && grid2[j] == e by {
        if marked(cols[u], e) {
            let j = choose|j: int| in_grid(j) && col_of(j) == u && grid[j] == e;
            assert(grid2[j] == e);
        } else {
            assert(grid2[idx] == e);
        }
    }
    assert forall|u: int, e: int| 0 <= u < 9 && is_digit(e) && #[trigger] marked(
        boxes2[u],
        e,
    ) implies exists|j: int| in_grid(j) && box_of(j) == u && grid2[j] == e by {
        if marked(boxes[u], e) {
            let j = choose|j: int| in_grid(j) && box_of(j) == u && grid[j] == e;
            assert(grid2[j] == e);
        } else {
            assert(grid2[idx] == e);
        }
    }
}

/// The digits 1 to 9 in ascending order.
pub open spec fn digits_in_order() -> Seq<u8> {
    seq![1u8, 2u8, 3u8, 4u8, 5u8, 6u8, 7u8, 8u8, 9u8]
}

/// No completion of the board holds, in cell `idx`, one of the first `k`
/// digits of the list.
pub open spec fn none_of_first(cells: Seq<Option<u8>>, idx: int, digits: Seq<u8>, k: int) -> bool {
    forall|i: int, t: Seq<Option<u8>>|
        0 <= i < k && #[trigger] solves(t, cells) ==> t[idx] != Some(#[trigger] digits[i])
}

impl PuzzleGenerator {
    /// Fills the grid from cell `idx` on by backtracking; the cells before
    /// `idx` are full already. The digits of each cell are tried in a
    /// shuffled order.
    ///
    /// Returns `true` with a finished grid that keeps what was there, or
    /// `false` with everything as it was when the grid has no completion.
    pub fn fill_board_fast(
        &self,
        b: &mut [u8; 81],
        row_m: &mut [u16; 9],
        col_m: &mut [u16; 9],
        box_m: &mut [u16; 9],
        idx: usize,
        rng: &mut SmallRng,
    ) -> (filled: bool)
        requires
            idx <= 81,
            forall|j: int| 0 <= j < idx ==> old(b)@[j] != 0,
            forall|j: int| 0 <= j < 81 ==> old(b)@[j] <= 9,
            masks_match(old(b)@, old(row_m)@, old(col_m)@, old(box_m)@),
            conflict_free(cells_of(old(b)@)),
        ensures
            forall|j: int| 0 <= j < 81 ==> final(b)@[j] <= 9,
            filled == solvable(cells_of(old(b)@)),
            filled ==> solves(cells_of(final(b)@), cells_of(old(b)@)),
            !filled ==> final(b)@ == old(b)@ && final(row_m)@ == old(row_m)@ && final(col_m)@
                == old(col_m)@ && final(box_m)@ == old(box_m)@,
        decreases 81 - idx, 1int,
    {
        let ghost cells0 = cells_of(b@);
        if idx == BOARD_SIZE {
            proof {
                assert(is_solution(cells0));
                assert(solves(cells0, cells0));
            }
            return true;
        }
        if b[idx] != 0 {
            return self.fill_board_fast(b, row_m, col_m, box_m, idx + 1, rng);
        }
        let mut digits: Vec<u8> = Vec::new();
        digits.push(1);
        digits.push(2);
        digits.push(3);
        digits.push(4);
        digits.push(5);
        digits.push(6);
        digits.push(7);
        digits.push(8);
        digits.push(9);
        proof {
            assert(digits@ =~= digits_in_order());
        }
        shuffle(&mut digits, rng);
        proof {
            lemma_shuffled(digits_in_order(), digits@);
            assert forall|k: int| 0 <= k < digits@.len() implies 1 <= #[trigger] digits@[k]
                <= 9 by {
                assert(digits@.contains(digits@[k]));
                assert(digits_in_order().contains(digits@[k]));
            }
        }
        let filled = self.place_first_fitting(b, row_m, col_m, box_m, idx, &digits, rng);
        proof {
            if !filled && solvable(cells0) {
                let t = choose|t: Seq<Option<u8>>| solves(t, cells0);
                assert(t[idx as int] is Some);
                let d = t[idx as int]->0;
                assert(1 <= d <= 9);
                assert(digits_in_order()[d - 1] == d);
                assert(digits_in_order().contains(d));
                assert(digits@.contains(d));
                let i = choose|i: int| 0 <= i < digits@.len() && digits@[i] == d;
                assert(t[idx as int] != Some(digits@[i]));
            }
        }
        filled
    }

    /// Tries the digits of `digits`, in their order, in the empty cell
    /// `idx`, and fills the rest of the grid behind the first that fits:
    /// a digit fits if the grid has a completion with it.
    ///
    /// Returns `true` with a finished grid whose cell `idx` holds the first
    /// digit of the list that fits, or `false` with everything as it was
    /// when no digit of the list fits.
    pub fn place_first_fitting(
        &self,
        b: &mut [u8; 81],
        row_m: &mut [u16; 9],
        col_m: &mut [u16; 9],
        box_m: &mut [u16; 9],
        idx: usize,
        digits: &Vec<u8>,
        rng: &mut SmallRng,
    ) -> (filled: bool)
        requires
            idx < 81,
            old(b)@[idx as int] == 0,
            forall|j: int| 0 <= j < idx ==> old(b)@[j] != 0,
            forall|j: int| 0 <= j < 81 ==> old(b)@[j] <= 9,
            forall|i: int| 0 <= i < digits@.len() ==> 1 <= #[trigger] digits@[i] <= 9,
            masks_match(old(b)@, old(row_m)@, old(col_m)@, old(box_m)@),
            conflict_free(cells_of(old(b)@)),
        ensures
            forall|j: int| 0 <= j < 81 ==> final(b)@[j] <= 9,
            filled ==> solves(cells_of(final(b)@), cells_of(old(b)@)),
            filled ==> exists|k: int|
                0 <= k < digits@.len() && final(b)@[idx as int] == #[trigger] digits@[k]
                    && none_of_first(cells_of(old(b)@), idx as int, digits@, k),
            !filled ==> final(b)@ == old(b)@ && final(row_m)@ == old(row_m)@ && final(col_m)@
                == old(col_m)@ && final(box_m)@ == old(box_m)@,
            !filled ==> none_of_first(
                cells_of(old(b)@),
                idx as int,
                digits@,
                digits@.len() as int,
            ),
        decreases 81 - idx, 0int,
    {
        let ghost grid0 = b@;
        let ghost rows0 = row_m@;
        let ghost cols0 = col_m@;
        let ghost boxes0 = box_m@;
        let ghost cells0 = cells_of(grid0);
        let r: usize = idx / 9;
        let c: usize = idx % 9;
        let bx: usize = (r / 3) * 3 + (c / 3);
        proof {
            lemma_box_of_coords(r as int, c as int);
        }
        let mut k: usize = 0;
        while k < digits.len()
            invariant
                k <= digits@.len(),
                idx < 81,
                r == row_of(idx as int),
                c == col_of(idx as int),
                bx == box_of(idx as int),
                bx < 9,
                r < 9,
                c < 9,
                forall|i: int| 0 <= i < digits@.len() ==> 1 <= #[trigger] digits@[i] <= 9,
                b@ == grid0,
                row_m@ == rows0,
                col_m@ == cols0,
                box_m@ == boxes0,
                grid0 == old(b)@,
                rows0 == old(row_m)@,
                cols0 == old(col_m)@,
                boxes0 == old(box_m)@,
                cells0 == cells_of(grid0),
                grid0[idx as int] == 0,
                forall|j: int| 0 <= j < idx ==> grid0[j] != 0,
                forall|j: int| 0 <= j < 81 ==> grid0[j] <= 9,
                masks_match(grid0, rows0, cols0, boxes0),
                conflict_free(cells0),
                none_of_first(cells0, idx as int, digits@, k as int),
            decreases digits@.len() - k,
        {
            let d: u8 = digits[k];
            let bit: u16 = 1u16 << ((d - 1) as u16);
            proof {
                lemma_masks_decide(grid0, rows0, cols0, boxes0, idx as int, d);
            }
            if row_m[r] & bit == 0 && col_m[c] & bit == 0 && box_m[bx] & bit == 0 {
                b[idx] = d;
                row_m[r] = row_m[r] | bit;
                col_m[c] = col_m[c] | bit;
                box_m[bx] = box_m[bx] | bit;
                let ghost grid1 = b@;
                let ghost cells1 = cells_of(grid1);
                proof {
                    lemma_masks_after_place(grid0, rows0, cols0, boxes0, idx as int, d);
                    assert(grid1 =~= grid0.update(idx as int, d));
                    assert(row_m@ =~= rows0.update(r as int, rows0[r as int] | bit));
                    assert(col_m@ =~= cols0.update(c as int, cols0[c as int] | bit));
                    assert(box_m@ =~= boxes0.update(bx as int, boxes0[bx as int] | bit));
                    assert(cells1 =~= cells0.update(idx as int, Some(d)));
                    lemma_placement_keeps_conflict_free(cells0, idx as int, d);
                }
                if self.fill_board_fast(b, row_m, col_m, box_m, idx + 1, rng) {
                    proof {
                        let done = cells_of(b@);
                        assert forall|j: int|
                            0 <= j < cells0.len() && (#[trigger] cells0[j]) is Some implies done[j]
                            == cells0[j] by {
                            assert(cells1[j] == cells0[j]);
                        }
                        assert(extends(done, cells0));
                        assert(done[idx as int] == cells1[idx as int]);
                        assert(b@[idx as int] == digits@[k as int]);
                    }
                    return true;
                }
                b[idx] = 0;
                row_m[r] = row_m[r] & !bit;
                col_m[c] = col_m[c] & !bit;
                box_m[bx] = box_m[bx] & !bit;
                proof {
                    lemma_mark_restored(rows0[r as int], (d - 1) as u16);
                    lemma_mark_restored(cols0[c as int], (d - 1) as u16);
                    lemma_mark_restored(boxes0[bx as int], (d - 1) as u16);
                    assert(b@ =~= grid0);
                    assert(row_m@ =~= rows0);
                    assert(col_m@ =~= cols0);
                    assert(box_m@ =~= boxes0);
                    assert forall|t: Seq<Option<u8>>| #[trigger]
                        solves(t, cells0) implies t[idx as int] != Some(d) by {
                        if t[idx as int] == Some(d) {
                            assert(extends(t, cells1));
                            assert(solves(t, cells1));
                        }
                    }
                }
            } else {
                proof {
                    assert(!placement_free(cells0, idx as int, d));
                    assert forall|t: Seq<Option<u8>>| #[trigger]
                        solves(t, cells0) implies t[idx as int] != Some(d) by {
                        if t[idx as int] == Some(d) {
                            let i = idx as int;
                            let j = choose|j: int|
                                in_grid(j) && #[trigger] sees(i, j) && cells0[j] == Some(d);
                            assert(t[j] == cells0[j]);
                            assert(peers(i, j));
                            assert(!peers_free(t, i, d));
                            assert(conflicts(t, i));
                        }
                    }
                }
            }
            k += 1;
        }
        false
    }
}

} // verus!
