//! Validation of boards and the backtracking solver.
//!
//! The solver walks the empty cells in index order and tries the digits 1 to
//! 9 in ascending order, so the completion it returns is the least one in
//! lexicographic order. "Unique" is the engine's working notion of
//! uniqueness: one such run finds a completion.

use vstd::prelude::*;
use vstd::slice::slice_to_vec;
use crate::grid::{index_to_coords, is_valid_placement};
use crate::rules::{
    clue_count, complete, conflict_free, conflicts, digits_in_range, empty_count, empty_upto,
    extends, in_grid, is_first_solution, is_solution, lemma_empty_upto_bounds,
    lemma_fill_lowers_empty_count, lex_below_at, lex_le, peers, peers_free,
    placement_free, sees, solvable, solves,
};
use crate::types::{ValidationResult, BOARD_SIZE};

verus! {

/// `list` names, in ascending order, exactly the cells of `board` that are in conflict.
pub open spec fn lists_conflicts(list: Seq<usize>, board: Seq<Option<u8>>) -> bool {
    &&& forall|a: int, b: int| 0 <= a < b < list.len() ==> list[a] < list[b]
    &&& forall|a: int| 0 <= a < list.len() ==> in_grid(#[trigger] list[a] as int)
    &&& forall|i: int| in_grid(i) ==> (list.contains(i as usize) <==> #[trigger] conflicts(board, i))
}

/// Finds every filled cell whose digit is repeated in its row, column or
/// box, and tells whether the board is finished.
pub fn validate_board(board: &[Option<u8>]) -> (result: ValidationResult)
    requires
        board@.len() == 81,
    ensures
        lists_conflicts(result.invalid_indices@, board@),
        result.invalid_indices@.len() == 0 <==> conflict_free(board@),
        result.is_complete == (complete(board@) && conflict_free(board@)),
{
    let mut invalid_indices: Vec<usize> = Vec::new();
    let mut is_complete = true;
    let mut index: usize = 0;
    while index < BOARD_SIZE
        invariant
            board@.len() == 81,
            index <= 81,
            is_complete == forall|i: int| 0 <= i < index ==> (#[trigger] board@[i]) is Some,
            forall|a: int, b: int|
                0 <= a < b < invalid_indices@.len() ==> invalid_indices@[a] < invalid_indices@[b],
            forall|a: int| 0 <= a < invalid_indices@.len() ==> (#[trigger] invalid_indices@[a]) < index,
            forall|i: int|
                0 <= i < index ==> (invalid_indices@.contains(i as usize) <==> #[trigger] conflicts(
                    board@,
                    i,
                )),
        decreases 81 - index,
    {
        let ghost before = invalid_indices@;
        match board[index] {
            None => {
                is_complete = false;
            },
            Some(num) => {
                if !is_placement_valid_at_index(board, index, num) {
                    invalid_indices.push(index);
                    assert(invalid_indices@[before.len() as int] == index);
                }
            },
        }
        proof {
            assert forall|i: int| 0 <= i < index + 1 implies (invalid_indices@.contains(i as usize)
                <==> #[trigger] conflicts(board@, i)) by {
                if invalid_indices@.contains(i as usize) {
                    let a = choose|a: int|
                        0 <= a < invalid_indices@.len() && invalid_indices@[a] == i as usize;
                    if a < before.len() {
                        assert(before[a] == i as usize);
                        assert(before.contains(i as usize));
                    }
                }
                if i < index && before.contains(i as usize) {
                    let a = choose|a: int| 0 <= a < before.len() && before[a] == i as usize;
                    assert(invalid_indices@[a] == i as usize);
                }
            }
        }
        index += 1;
    }
    let none_invalid = invalid_indices.len() == 0;
    proof {
        if none_invalid {
            assert forall|i: int| in_grid(i) implies !#[trigger] conflicts(board@, i) by {
                assert(!invalid_indices@.contains(i as usize));
            }
        } else {
            let i = invalid_indices@[0];
            assert(invalid_indices@.contains(i));
            assert(conflicts(board@, i as int));
        }
    }
    ValidationResult { invalid_indices, is_complete: is_complete && none_invalid }
}

/// Whether the digit `num` at cell `index` is free of conflicts: the cell is
/// cleared on a copy of the board, and the placement is tested there.
pub fn is_placement_valid_at_index(board: &[Option<u8>], index: usize, num: u8) -> (ok: bool)
    requires
        board@.len() == 81,
        index < 81,
    ensures
        ok == peers_free(board@, index as int, num),
{
    let (row, col) = index_to_coords(index);
    let mut temp_board = slice_to_vec(board);
    temp_board[index] = None;
    let ok = is_valid_placement(temp_board.as_slice(), row, col, num);
    proof {
        let i = index as int;
        if ok {
            assert forall|j: int| in_grid(j) && #[trigger] peers(i, j) implies board@[j] != Some(
                num,
            ) by {
                assert(sees(i, j));
                assert(temp_board@[j] == board@[j]);
            }
        } else {
            let j = choose|j: int| in_grid(j) && #[trigger] sees(i, j) && temp_board@[j] == Some(num);
            assert(peers(i, j));
        }
    }
    ok
}

/// The first empty cell, if there is one.
pub fn find_next_empty_cell(board: &[Option<u8>]) -> (cell: Option<usize>)
    ensures
        match cell {
            Some(i) => i < board@.len() && board@[i as int] is None && forall|j: int|
                0 <= j < i ==> (#[trigger] board@[j]) is Some,
            None => complete(board@),
        },
{
    let mut i: usize = 0;
    while i < board.len()
        invariant
            i <= board@.len(),
            forall|j: int| 0 <= j < i ==> (#[trigger] board@[j]) is Some,
        decreases board@.len() - i,
    {
        if board[i].is_none() {
            return Some(i);
        }
        i += 1;
    }
    None
}

/// Number of empty cells.
pub fn count_empty_cells(board: &[Option<u8>]) -> (count: usize)
    ensures
        count == empty_count(board@),
{
    let mut count: usize = 0;
    let mut i: usize = 0;
    while i < board.len()
        invariant
            i <= board@.len(),
            count == empty_upto(board@, i as int),
            count <= i,
        decreases board@.len() - i,
    {
        if board[i].is_none() {
            count += 1;
        }
        i += 1;
    }
    count
}

/// Number of filled cells.
pub fn count_clues(board: &[Option<u8>]) -> (count: usize)
    ensures
        count == clue_count(board@),
{
    proof {
        lemma_empty_upto_bounds(board@, board@.len() as int);
    }
    board.len() - count_empty_cells(board)
}

/// Whether every cell is filled.
pub fn is_board_complete(board: &[Option<u8>]) -> (full: bool)
    ensures
        full == complete(board@),
{
    let cell = find_next_empty_cell(board);
    cell.is_none()
}

/// Whether no filled cell repeats the digit of a peer.
pub fn is_board_valid(board: &[Option<u8>]) -> (valid: bool)
    requires
        board@.len() == 81,
    ensures
        valid == conflict_free(board@),
{
    validate_board(board).invalid_indices.len() == 0
}

/// Whether every filled cell holds a digit 1 to 9.
pub fn all_digits_in_range(board: &[Option<u8>]) -> (ok: bool)
    ensures
        ok == digits_in_range(board@),
{
    let mut i: usize = 0;
    while i < board.len()
        invariant
            i <= board@.len(),
            forall|j: int| 0 <= j < i && (#[trigger] board@[j]) is Some ==> 1 <= board@[j]->0 <= 9,
        decreases board@.len() - i,
    {
        match board[i] {
            Some(d) => {
                if d < 1 || d > 9 {
                    return false;
                }
            },
            None => {},
        }
        i += 1;
    }
    true
}

/// A board that can be completed holds digits 1 to 9 only and has no conflicts.
pub proof fn lemma_solvable_is_sound(board: Seq<Option<u8>>)
    requires
        board.len() == 81,
        solvable(board),
    ensures
        digits_in_range(board),
        conflict_free(board),
{
    let s = choose|s: Seq<Option<u8>>| solves(s, board);
    assert forall|i: int| in_grid(i) implies !#[trigger] conflicts(board, i) by {
        if conflicts(board, i) {
            let j = choose|j: int|
                in_grid(j) && #[trigger] peers(i, j) && board[j] == Some(board[i]->0);
            assert(s[i] == board[i]);
            assert(s[j] == board[j]);
            assert(!peers_free(s, i, s[i]->0));
            assert(conflicts(s, i));
        }
    }
    assert forall|i: int| 0 <= i < board.len() && (#[trigger] board[i]) is Some implies 1
        <= board[i]->0 <= 9 by {
        assert(s[i] == board[i]);
    }
}

/// Placing a digit that no cell in sight holds keeps a board free of conflicts.
pub proof fn lemma_placement_keeps_conflict_free(board: Seq<Option<u8>>, i: int, num: u8)
    requires
        board.len() == 81,
        in_grid(i),
        conflict_free(board),
        placement_free(board, i, num),
    ensures
        conflict_free(board.update(i, Some(num))),
{
    let next = board.update(i, Some(num));
    assert forall|c: int| in_grid(c) implies !#[trigger] conflicts(next, c) by {
        if next[c] is Some {
            let d = next[c]->0;
            assert forall|j: int| in_grid(j) && #[trigger] peers(c, j) implies next[j] != Some(
                d,
            ) by {
                if c == i {
                    assert(sees(i, j));
                } else if j == i {
                    assert(sees(i, c));
                } else {
                    assert(!conflicts(board, c));
                }
            }
        }
    }
}

/// Completes the board by backtracking, in place.
///
/// Returns `true` exactly when the board has a completion; the board then
/// holds its least completion in lexicographic order. Otherwise the board is
/// left as it was. A board with conflicting clues, or with a clue outside 1
/// to 9, has no completion.
pub fn solve_board(board: &mut [Option<u8>]) -> (solved: bool)
    requires
        old(board)@.len() == 81,
    ensures
        final(board)@.len() == 81,
        solved == solvable(old(board)@),
        solved ==> is_first_solution(final(board)@, old(board)@),
        !solved ==> final(board)@ == old(board)@,
        is_solution(old(board)@) ==> solved && final(board)@ == old(board)@,
{
    proof {
        if is_solution(board@) {
            assert(solves(board@, board@));
        }
    }
    if !all_digits_in_range(board) || !is_board_valid(board) {
        proof {
            if solvable(board@) {
                lemma_solvable_is_sound(board@);
            }
        }
        return false;
    }
    let found = search(board);
    proof {
        if found {
            assert(solves(board@, old(board)@));
            if is_solution(old(board)@) {
                assert(board@ =~= old(board)@);
            }
        }
    }
    found
}

/// Depth-first search over the empty cells in index order, digits ascending.
fn search(board: &mut [Option<u8>]) -> (found: bool)
    requires
        old(board)@.len() == 81,
        digits_in_range(old(board)@),
        conflict_free(old(board)@),
    ensures
        final(board)@.len() == 81,
        found ==> is_first_solution(final(board)@, old(board)@),
        !found ==> final(board)@ == old(board)@ && !solvable(old(board)@),
    decreases empty_count(old(board)@),
{
    let ghost start = board@;
    match find_next_empty_cell(board) {
        None => {
            proof {
                assert(is_solution(start));
                assert forall|t: Seq<Option<u8>>| #[trigger] solves(t, start) implies lex_le(
                    start,
                    t,
                ) by {
                    assert(t =~= start);
                }
            }
            true
        },
        Some(index) => {
            let (row, col) = index_to_coords(index);
            let mut num: u8 = 1;
            while num <= 9
                invariant
                    board@ == start,
                    start == old(board)@,
                    start.len() == 81,
                    digits_in_range(start),
                    conflict_free(start),
                    index < 81,
                    row == index / 9,
                    col == index % 9,
                    start[index as int] is None,
                    forall|j: int| 0 <= j < index ==> (#[trigger] start[j]) is Some,
                    1 <= num <= 10,
                    forall|t: Seq<Option<u8>>| #[trigger]
                        solves(t, start) ==> t[index as int]->0 >= num,
                decreases 10 - num,
            {
                if is_valid_placement(board, row, col, num) {
                    board[index] = Some(num);
                    let ghost placed = board@;
                    proof {
                        assert(placed =~= start.update(index as int, Some(num)));
                        lemma_placement_keeps_conflict_free(start, index as int, num);
                        lemma_fill_lowers_empty_count(start, index as int, Some(num));
                        lemma_empty_upto_bounds(placed, 81);
                    }
                    if search(board) {
                        proof {
                            let done = board@;
                            assert forall|j: int|
                                0 <= j < start.len() && (#[trigger] start[j]) is Some implies done[j]
                                == start[j] by {
                                assert(placed[j] == start[j]);
                            }
                            assert(extends(done, start));
                            assert forall|t: Seq<Option<u8>>| #[trigger]
                                solves(t, start) implies lex_le(done, t) by {
                                if t[index as int] == Some(num) {
                                    assert(extends(t, placed));
                                    assert(solves(t, placed));
                                } else {
                                    assert(t[index as int] is Some);
                                    assert(done[index as int] == placed[index as int]);
                                    assert forall|j: int| 0 <= j < index implies done[j]
                                        == t[j] by {
                                        assert(start[j] is Some);
                                        assert(placed[j] == start[j]);
                                    }
                                    assert(lex_below_at(done, t, index as int));
                                }
                            }
                        }
                        return true;
                    }
                    board[index] = None;
                    proof {
                        assert(board@ =~= start);
                        assert forall|t: Seq<Option<u8>>| #[trigger]
                            solves(t, start) implies t[index as int]->0 >= num + 1 by {
                            if t[index as int] == Some(num) {
                                assert(extends(t, placed));
                                assert(solves(t, placed));
                            }
                        }
                    }
                } else {
                    proof {
                        assert forall|t: Seq<Option<u8>>| #[trigger]
                            solves(t, start) implies t[index as int]->0 >= num + 1 by {
                            if t[index as int] == Some(num) {
                                let i = index as int;
                                let j = choose|j: int|
                                    in_grid(j) && #[trigger] sees(i, j) && start[j] == Some(num);
                                assert(t[j] == start[j]);
                                assert(peers(i, j));
                                assert(!peers_free(t, i, num));
                                assert(conflicts(t, i));
                            }
                        }
                    }
                }
                num += 1;
            }
            proof {
                if solvable(start) {
                    let t = choose|t: Seq<Option<u8>>| solves(t, start);
                    assert(t[index as int] is Some);
                }
            }
            false
        },
    }
}

/// Whether the board has a completion, found by one backtracking run.
///
/// This is the engine's working notion of uniqueness: one run with the
/// canonical digit order finds a completion. Further completions are not
/// searched for.
pub fn has_unique_solution(board: &[Option<u8>]) -> (found: bool)
    requires
        board@.len() == 81,
    ensures
        found == solvable(board@),
{
    let mut test_board = slice_to_vec(board);
    solve_board(test_board.as_mut_slice())
}

/// The least completion of the board in lexicographic order, if there is one.
pub fn solve(board: &[Option<u8>]) -> (solution: Option<Vec<Option<u8>>>)
    requires
        board@.len() == 81,
    ensures
        solution is Some <==> solvable(board@),
        solution is Some ==> is_first_solution(solution->0@, board@),
        is_solution(board@) ==> solution is Some && solution->0@ == board@,
{
    let mut work = slice_to_vec(board);
    if solve_board(work.as_mut_slice()) {
        Some(work)
    } else {
        None
    }
}

} // verus!
