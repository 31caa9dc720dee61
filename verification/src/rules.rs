//! The rules of Sudoku as mathematics: cells, units, conflicts, solutions.
//!
//! A board is a sequence of 81 cells in row-major order, each empty or
//! holding a digit. Every contract in the crate is phrased over the
//! definitions in this module.

use vstd::prelude::*;

verus! {

/// The index lies on the 9x9 grid.
pub open spec fn in_grid(i: int) -> bool {
    0 <= i < 81
}

/// The value is one of the digits 1 to 9.
pub open spec fn is_digit(d: int) -> bool {
    1 <= d <= 9
}

/// Row (0 to 8) of a cell.
pub open spec fn row_of(i: int) -> int {
    i / 9
}

/// Column (0 to 8) of a cell.
pub open spec fn col_of(i: int) -> int {
    i % 9
}

/// Box (0 to 8, left to right, top to bottom) of a cell.
pub open spec fn box_of(i: int) -> int {
    (i / 27) * 3 + (i % 9) / 3
}

/// Two cells share a row, a column or a box. Every cell sees itself.
pub open spec fn sees(i: int, j: int) -> bool {
    row_of(i) == row_of(j) || col_of(i) == col_of(j) || box_of(i) == box_of(j)
}

/// Two different cells that share a unit.
pub open spec fn peers(i: int, j: int) -> bool {
    i != j && sees(i, j)
}

/// No cell in the row, column or box of cell `i` (cell `i` included) holds `num`.
pub open spec fn placement_free(board: Seq<Option<u8>>, i: int, num: u8) -> bool {
    forall|j: int| in_grid(j) && #[trigger] sees(i, j) ==> board[j] != Some(num)
}

/// No peer of cell `i` holds `num`.
pub open spec fn peers_free(board: Seq<Option<u8>>, i: int, num: u8) -> bool {
    forall|j: int| in_grid(j) && #[trigger] peers(i, j) ==> board[j] != Some(num)
}

/// Cell `i` is filled and a peer holds the same digit.
pub open spec fn conflicts(board: Seq<Option<u8>>, i: int) -> bool {
    board[i] is Some && !peers_free(board, i, board[i]->0)
}

/// No filled cell repeats the digit of a peer.
pub open spec fn conflict_free(board: Seq<Option<u8>>) -> bool {
    forall|i: int| in_grid(i) ==> !#[trigger] conflicts(board, i)
}

/// Every cell is filled.
pub open spec fn complete(board: Seq<Option<u8>>) -> bool {
    forall|i: int| 0 <= i < board.len() ==> (#[trigger] board[i]) is Some
}

/// Every filled cell holds a digit 1 to 9.
pub open spec fn digits_in_range(board: Seq<Option<u8>>) -> bool {
    forall|i: int|
        0 <= i < board.len() && (#[trigger] board[i]) is Some ==> 1 <= board[i]->0 <= 9
}

/// A finished Sudoku: 81 digits, none repeated within a row, column or box.
pub open spec fn is_solution(s: Seq<Option<u8>>) -> bool {
    &&& s.len() == 81
    &&& complete(s)
    &&& digits_in_range(s)
    &&& conflict_free(s)
}

/// `s` keeps every filled cell of `board`.
pub open spec fn extends(s: Seq<Option<u8>>, board: Seq<Option<u8>>) -> bool {
    &&& s.len() == board.len()
    &&& forall|i: int| 0 <= i < board.len() && (#[trigger] board[i]) is Some ==> s[i] == board[i]
}

/// `s` is a finished Sudoku that keeps the clues of `board`.
pub open spec fn solves(s: Seq<Option<u8>>, board: Seq<Option<u8>>) -> bool {
    is_solution(s) && extends(s, board)
}

/// The board can be completed to a finished Sudoku.
pub open spec fn solvable(board: Seq<Option<u8>>) -> bool {
    exists|s: Seq<Option<u8>>| solves(s, board)
}

/// Number of empty cells among the first `n`.
pub open spec fn empty_upto(board: Seq<Option<u8>>, n: int) -> int
    decreases n,
{
    if n <= 0 {
        0
    } else {
        empty_upto(board, n - 1) + if board[n - 1] is None { 1int } else { 0int }
    }
}

/// Number of empty cells.
pub open spec fn empty_count(board: Seq<Option<u8>>) -> int {
    empty_upto(board, board.len() as int)
}

/// Number of filled cells.
pub open spec fn clue_count(board: Seq<Option<u8>>) -> int {
    board.len() - empty_count(board)
}

/// Lexicographic order on finished grids, compared cell by cell from index 0.
pub open spec fn lex_le(a: Seq<Option<u8>>, b: Seq<Option<u8>>) -> bool {
    a == b || exists|k: int|
        0 <= k < a.len() && k < b.len() && #[trigger] lex_below_at(a, b, k)
}

/// `a` and `b` agree before cell `k`, and `a` holds the smaller digit there.
pub open spec fn lex_below_at(a: Seq<Option<u8>>, b: Seq<Option<u8>>, k: int) -> bool {
    &&& forall|j: int| 0 <= j < k ==> a[j] == b[j]
    &&& a[k] is Some
    &&& b[k] is Some
    &&& a[k]->0 < b[k]->0
}

/// `s` is the least completion of `board` in lexicographic order.
pub open spec fn is_first_solution(s: Seq<Option<u8>>, board: Seq<Option<u8>>) -> bool {
    &&& solves(s, board)
    &&& forall|t: Seq<Option<u8>>| #[trigger] solves(t, board) ==> lex_le(s, t)
}

/// The number of empty cells is between 0 and `n`.
pub proof fn lemma_empty_upto_bounds(board: Seq<Option<u8>>, n: int)
    requires
        0 <= n,
    ensures
        0 <= empty_upto(board, n) <= n,
    decreases n,
{
    if n > 0 {
        lemma_empty_upto_bounds(board, n - 1);
    }
}

/// Filling one empty cell lowers the number of empty cells by one.
pub proof fn lemma_fill_lowers_empty_count(board: Seq<Option<u8>>, i: int, v: Option<u8>)
    requires
        0 <= i < board.len(),
        board[i] is None,
        v is Some,
    ensures
        empty_count(board.update(i, v)) == empty_count(board) - 1,
{
    lemma_fill_lowers_upto(board, i, v, board.len() as int);
}

proof fn lemma_fill_lowers_upto(board: Seq<Option<u8>>, i: int, v: Option<u8>, n: int)
    requires
        0 <= i < board.len(),
        0 <= n <= board.len(),
        board[i] is None,
        v is Some,
    ensures
        empty_upto(board.update(i, v), n) == empty_upto(board, n) - if i < n { 1int } else { 0int },
    decreases n,
{
    if n > 0 {
        lemma_fill_lowers_upto(board, i, v, n - 1);
    }
}

/// A board without empty cells among the first `n` counts zero there, and the converse.
pub proof fn lemma_empty_upto_zero(board: Seq<Option<u8>>, n: int)
    requires
        0 <= n <= board.len(),
    ensures
        empty_upto(board, n) == 0 <==> forall|i: int| 0 <= i < n ==> (#[trigger] board[i]) is Some,
    decreases n,
{
    if n > 0 {
        lemma_empty_upto_zero(board, n - 1);
        lemma_empty_upto_bounds(board, n - 1);
        if empty_upto(board, n) == 0 {
            assert forall|i: int| 0 <= i < n implies (#[trigger] board[i]) is Some by {
                if i < n - 1 {
                } else {
                    assert(board[n - 1] is Some);
                }
            }
        } else {
            if forall|i: int| 0 <= i < n ==> (#[trigger] board[i]) is Some {
                assert(board[n - 1] is Some);
                assert(forall|i: int| 0 <= i < n - 1 ==> (#[trigger] board[i]) is Some);
            }
        }
    }
}

} // verus!
