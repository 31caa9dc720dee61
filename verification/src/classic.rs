//! Puzzle creation by plain clue removal: a finished grid is filled by
//! randomised backtracking, and clues are removed in a shuffled order, one
//! by one or in batches, for as long as the puzzle keeps a completion.

use rand::rngs::SmallRng;
use vstd::prelude::*;
use vstd::slice::slice_to_vec;
use crate::generator::attempt::{all_cells, lemma_empty_board_solvable};
use crate::generator::fill::{digits_in_order, none_of_first};
use crate::generator::{accepted, GeneratorConfig, PuzzleGenerator};
use crate::levels::{get_difficulty_requirements, requirements_of};
use crate::random::{lemma_shuffled, seeded_rng, shuffle};
use crate::rules::{
    clue_count, complete, conflict_free, conflicts, digits_in_range, empty_count, extends,
    in_grid, is_solution, lemma_empty_upto_bounds, lemma_fill_lowers_empty_count, peers,
    peers_free, sees, solvable, solves,
};
use crate::solver::patterns::at_rest;
use crate::solver::{hardest_of, HumanStyleSolver, SolverState};
use crate::types::{DifficultyLevel, SolvingTechnique, BOARD_SIZE};
use crate::validator::{
    all_digits_in_range, count_clues, find_next_empty_cell, has_unique_solution,
    lemma_placement_keeps_conflict_free,
};
use crate::grid::{index_to_coords, is_valid_placement};

verus! {

/// The board in which every digit of `digits` is a clue.
pub open spec fn clues_of(digits: Seq<u8>) -> Seq<Option<u8>> {
    Seq::new(digits.len(), |i: int| Some(digits[i]))
}

/// Completes the board by backtracking over the empty cells in index
/// order, the digits of each cell tried in a shuffled order.
///
/// Returns `true` with a completion in place, or `false` with the board as
/// it was when there is no completion.
pub fn fill_board(board: &mut [Option<u8>], rng: &mut SmallRng) -> (filled: bool)
    requires
        old(board)@.len() == 81,
        digits_in_range(old(board)@),
        conflict_free(old(board)@),
    ensures
        final(board)@.len() == 81,
        filled == solvable(old(board)@),
        filled ==> solves(final(board)@, old(board)@),
        !filled ==> final(board)@ == old(board)@,
    decreases empty_count(old(board)@), 1int,
{
    let ghost start = board@;
    match find_next_empty_cell(board) {
        None => {
            proof {
                assert(is_solution(start));
                assert(solves(start, start));
            }
            true
        },
        Some(index) => {
            let mut numbers: Vec<u8> = Vec::new();
            let mut n: u8 = 1;
            while n <= 9
                invariant
                    1 <= n <= 10,
                    numbers@.len() == n - 1,
                    forall|i: int| 0 <= i < n - 1 ==> numbers@[i] == i + 1,
                decreases 10 - n,
            {
                numbers.push(n);
                n += 1;
            }
            proof {
                assert(numbers@ =~= digits_in_order());
            }
            shuffle(&mut numbers, rng);
            proof {
                lemma_shuffled(digits_in_order(), numbers@);
            }
            let filled = try_numbers(board, index, numbers.as_slice(), rng);
            proof {
                if !filled && solvable(start) {
                    let t = choose|t: Seq<Option<u8>>| solves(t, start);
                    assert(t[index as int] is Some);
                    let d = t[index as int]->0;
                    assert(1 <= d <= 9);
                    assert(digits_in_order()[d - 1] == d);
                    assert(digits_in_order().contains(d));
                    assert(numbers@.contains(d));
                    let i = choose|i: int| 0 <= i < numbers@.len() && numbers@[i] == d;
                    assert(t[index as int] != Some(numbers@[i]));
                }
            }
            filled
        },
    }
}

/// Tries the digits of `numbers`, in their order, in the empty cell
/// `index`, and completes the board behind the first that fits: a digit
/// fits if the board has a completion with it.
///
/// Returns `true` with a completion in place whose cell `index` holds the
/// first digit of the list that fits, or `false` with the board as it was
/// when no digit of the list fits.
pub fn try_numbers(board: &mut [Option<u8>], index: usize, numbers: &[u8], rng: &mut SmallRng) -> (filled:
    bool)
    requires
        old(board)@.len() == 81,
        digits_in_range(old(board)@),
        conflict_free(old(board)@),
        index < 81,
        old(board)@[index as int] is None,
    ensures
        final(board)@.len() == 81,
        filled ==> solves(final(board)@, old(board)@),
        filled ==> exists|k: int|
            0 <= k < numbers@.len() && final(board)@[index as int] == Some(#[trigger] numbers@[k])
                && none_of_first(old(board)@, index as int, numbers@, k),
        !filled ==> final(board)@ == old(board)@,
        !filled ==> none_of_first(old(board)@, index as int, numbers@, numbers@.len() as int),
    decreases empty_count(old(board)@), 0int,
{
    let ghost start = board@;
    let (row, col) = index_to_coords(index);
    let mut k: usize = 0;
    while k < numbers.len()
        invariant
            k <= numbers@.len(),
            board@ == start,
            start == old(board)@,
            start.len() == 81,
            digits_in_range(start),
            conflict_free(start),
            index < 81,
            row == index / 9,
            col == index % 9,
            start[index as int] is None,
            none_of_first(start, index as int, numbers@, k as int),
        decreases numbers@.len() - k,
    {
        let num: u8 = numbers[k];
        if num >= 1 && num <= 9 && is_valid_placement(board, row, col, num) {
            board[index] = Some(num);
            let ghost placed = board@;
            proof {
                assert(placed =~= start.update(index as int, Some(num)));
                lemma_placement_keeps_conflict_free(start, index as int, num);
                lemma_fill_lowers_empty_count(start, index as int, Some(num));
                lemma_empty_upto_bounds(placed, 81);
            }
            if fill_board(board, rng) {
                proof {
                    let done = board@;
                    assert forall|j: int|
                        0 <= j < start.len() && (#[trigger] start[j]) is Some implies done[j]
                        == start[j] by {
                        assert(placed[j] == start[j]);
                    }
                    assert(solves(done, start));
                    assert(done[index as int] == placed[index as int]);
                    assert(done[index as int] == Some(numbers@[k as int]));
                }
                return true;
            }
            board[index] = None;
            proof {
                assert(board@ =~= start);
                assert forall|t: Seq<Option<u8>>| #[trigger]
                    solves(t, start) implies t[index as int] != Some(num) by {
                    if t[index as int] == Some(num) {
                        assert(extends(t, placed));
                        assert(solves(t, placed));
                    }
                }
            }
        } else {
            proof {
                assert forall|t: Seq<Option<u8>>| #[trigger]
                    solves(t, start) implies t[index as int] != Some(num) by {
                    if t[index as int] == Some(num) {
                        let i = index as int;
                        assert(1 <= num <= 9);
                        let j = choose|j: int|
                            in_grid(j) && #[trigger] sees(i, j) && start[j] == Some(num);
                        assert(t[j] == start[j]);
                        assert(peers(i, j));
                        assert(!peers_free(t, i, num));
                        assert(conflicts(t, i));
                    }
                }
            }
        }
        k += 1;
    }
    false
}

/// A finished grid as 81 plain digits, filled by randomised backtracking
/// from the empty board.
pub fn generate_solved_board(rng: &mut SmallRng) -> (digits: Vec<u8>)
    ensures
        digits@.len() == 81,
        is_solution(clues_of(digits@)),
{
    let mut board: Vec<Option<u8>> = Vec::new();
    let mut k: usize = 0;
    while k < BOARD_SIZE
        invariant
            k <= 81,
            board@.len() == k,
            forall|i: int| 0 <= i < k ==> (#[trigger] board@[i]) is None,
        decreases 81 - k,
    {
        board.push(None);
        k += 1;
    }
    proof {
        lemma_empty_board_solvable(board@);
    }
    let filled = fill_board(board.as_mut_slice(), rng);
    let mut digits: Vec<u8> = Vec::new();
    let mut i: usize = 0;
    while i < BOARD_SIZE
        invariant
            i <= 81,
            filled,
            board@.len() == 81,
            is_solution(board@),
            digits@.len() == i,
            forall|j: int| 0 <= j < i ==> Some(digits@[j]) == board@[j],
        decreases 81 - i,
    {
        let digit: u8 = match board[i] {
            Some(d) => d,
            None => 1,
        };
        digits.push(digit);
        i += 1;
    }
    proof {
        assert(clues_of(digits@) =~= board@);
    }
    digits
}

/// A finished grid as 81 plain digits, from a generator seeded with `seed`.
pub fn generate_solved_board_with_seed(seed: u64) -> (digits: Vec<u8>)
    ensures
        digits@.len() == 81,
        is_solution(clues_of(digits@)),
{
    let mut rng = seeded_rng(seed);
    generate_solved_board(&mut rng)
}

/// Number of clues that plain removal takes away for a grade.
pub open spec fn removal_target(target_difficulty: u8) -> int {
    if target_difficulty == 1 {
        30
    } else if target_difficulty == 2 {
        35
    } else if target_difficulty == 3 {
        45
    } else if target_difficulty == 4 {
        50
    } else if target_difficulty == 5 {
        55
    } else {
        40
    }
}

/// Number of clues that plain removal takes away for a grade.
pub fn cells_to_remove(target_difficulty: u8) -> (count: usize)
    ensures
        count == removal_target(target_difficulty),
{
    match target_difficulty {
        1 => 30,
        2 => 35,
        3 => 45,
        4 => 50,
        5 => 55,
        _ => 40,
    }
}

/// Plain removal from position `k` of the order on: a cell is cleared if
/// the board keeps a completion without it, until `limit` cells are gone.
pub open spec fn removed_in_order(
    board: Seq<Option<u8>>,
    order: Seq<usize>,
    k: int,
    removed: int,
    limit: int,
) -> Seq<Option<u8>>
    decreases order.len() - k,
{
    if k < 0 || k >= order.len() || removed >= limit {
        board
    } else {
        let cleared = board.update(order[k] as int, None);
        if solvable(cleared) {
            removed_in_order(cleared, order, k + 1, removed + 1, limit)
        } else {
            removed_in_order(board, order, k + 1, removed, limit)
        }
    }
}

/// The puzzle is what plain removal over some order of the 81 cells makes
/// of the grid, with `limit` cells to remove.
pub open spec fn is_plain_puzzle(puzzle: Seq<Option<u8>>, digits: Seq<u8>, limit: int) -> bool {
    exists|order: Seq<usize>|
        order.to_multiset() == all_cells().to_multiset() && puzzle == #[trigger] removed_in_order(
            clues_of(digits),
            order,
            0,
            0,
            limit,
        )
}

/// The board with the first `n` cells of the order cleared.
pub open spec fn cleared_prefix(
    board: Seq<Option<u8>>,
    order: Seq<usize>,
    n: int,
) -> Seq<Option<u8>> {
    Seq::new(
        board.len(),
        |i: int|
            if exists|k: int| 0 <= k < n && k < order.len() && #[trigger] order[k] == i {
                None
            } else {
                board[i]
            },
    )
}

/// A shuffled order of the 81 cells holds every cell once.
pub proof fn lemma_cell_order(order: Seq<usize>)
    requires
        order.to_multiset() == all_cells().to_multiset(),
    ensures
        order.len() == 81,
        order.no_duplicates(),
        forall|k: int| 0 <= k < order.len() ==> (#[trigger] order[k]) < 81,
{
    lemma_shuffled(all_cells(), order);
    assert(all_cells().no_duplicates());
    all_cells().lemma_multiset_has_no_duplicates();
    order.lemma_multiset_has_no_duplicates_conv();
    assert forall|k: int| 0 <= k < order.len() implies (#[trigger] order[k]) < 81 by {
        assert(order.contains(order[k]));
        assert(all_cells().contains(order[k]));
        let n = choose|n: int| 0 <= n < 81 && all_cells()[n] == order[k];
    }
}

/// Clearing one more cell of an order without repetitions lowers the clue
/// count by one.
pub proof fn lemma_cleared_prefix_count(board: Seq<Option<u8>>, order: Seq<usize>, n: int)
    requires
        board.len() == 81,
        crate::rules::complete(board),
        order.no_duplicates(),
        forall|k: int| 0 <= k < order.len() ==> (#[trigger] order[k]) < 81,
        0 <= n <= order.len(),
    ensures
        clue_count(cleared_prefix(board, order, n)) == 81 - n,
    decreases n,
{
    if n == 0 {
        assert(cleared_prefix(board, order, 0) =~= board);
        crate::rules::lemma_empty_upto_zero(board, 81);
    } else {
        lemma_cleared_prefix_count(board, order, n - 1);
        let before = cleared_prefix(board, order, n - 1);
        let after = cleared_prefix(board, order, n);
        let idx = order[n - 1] as int;
        assert(after[idx] is None);
        assert(before[idx] == board[idx]) by {
            if exists|k: int| 0 <= k < n - 1 && k < order.len() && #[trigger] order[k] == idx {
                let k = choose|k: int|
                    0 <= k < n - 1 && k < order.len() && #[trigger] order[k] == idx;
                assert(order[k] == order[n - 1]);
            }
        }
        assert(after.update(idx, before[idx]) =~= before) by {
            assert forall|i: int| 0 <= i < 81 implies after.update(idx, before[idx])[i]
                == before[i] by {
                if i != idx {
                    if exists|k: int| 0 <= k < n && k < order.len() && #[trigger] order[k] == i {
                        let k = choose|k: int|
                            0 <= k < n && k < order.len() && #[trigger] order[k] == i;
                        assert(k < n - 1);
                    }
                }
            }
        }
        lemma_fill_lowers_empty_count(after, idx, before[idx]);
    }
}

/// Plain removal from a finished grid takes away exactly the first
/// `limit` cells of the order: every one of those removals leaves a board
/// with a completion.
pub proof fn lemma_plain_removal_clears_prefix(
    solution: Seq<Option<u8>>,
    order: Seq<usize>,
    k: int,
    limit: int,
)
    requires
        is_solution(solution),
        order.no_duplicates(),
        forall|i: int| 0 <= i < order.len() ==> (#[trigger] order[i]) < 81,
        0 <= k <= limit <= order.len(),
    ensures
        removed_in_order(cleared_prefix(solution, order, k), order, k, k, limit) == cleared_prefix(
            solution,
            order,
            limit,
        ),
    decreases order.len() - k,
{
    let board = cleared_prefix(solution, order, k);
    if k < limit {
        let cleared = board.update(order[k] as int, None);
        assert(cleared =~= cleared_prefix(solution, order, k + 1)) by {
            assert forall|i: int| 0 <= i < 81 implies cleared[i] == cleared_prefix(
                solution,
                order,
                k + 1,
            )[i] by {
                if i == order[k] as int {
                } else if exists|m: int|
                    0 <= m < k + 1 && m < order.len() && #[trigger] order[m] == i {
                    let m = choose|m: int|
                        0 <= m < k + 1 && m < order.len() && #[trigger] order[m] == i;
                    assert(m < k);
                }
            }
        }
        assert(solves(solution, cleared));
        lemma_plain_removal_clears_prefix(solution, order, k + 1, limit);
    }
}

/// A puzzle by plain removal from a finished grid has `81 - limit` clues,
/// all of them clues of the grid.
pub proof fn lemma_plain_puzzle_of_a_solution(puzzle: Seq<Option<u8>>, digits: Seq<u8>, limit: int)
    requires
        digits.len() == 81,
        is_solution(clues_of(digits)),
        0 <= limit <= 81,
        is_plain_puzzle(puzzle, digits, limit),
    ensures
        clue_count(puzzle) == 81 - limit,
        solves(clues_of(digits), puzzle),
{
    let solution = clues_of(digits);
    let order = choose|order: Seq<usize>|
        order.to_multiset() == all_cells().to_multiset() && puzzle == #[trigger] removed_in_order(
            solution,
            order,
            0,
            0,
            limit,
        );
    lemma_cell_order(order);
    assert(cleared_prefix(solution, order, 0) =~= solution);
    lemma_plain_removal_clears_prefix(solution, order, 0, limit);
    lemma_cleared_prefix_count(solution, order, limit);
    assert(puzzle == cleared_prefix(solution, order, limit));
}

/// Plain removal: the cells of `order` are cleared one by one where the
/// board keeps a completion, until `limit` cells are gone.
pub fn remove_in_order(solved_board: &[u8], order: &[usize], limit: usize) -> (puzzle: Vec<
    Option<u8>,
>)
    requires
        solved_board@.len() == 81,
        forall|k: int| 0 <= k < order@.len() ==> (#[trigger] order@[k]) < 81,
    ensures
        puzzle@ == removed_in_order(clues_of(solved_board@), order@, 0, 0, limit as int),
        puzzle@.len() == 81,
{
    let mut board = clue_board(solved_board);
    let mut removed: usize = 0;
    let mut k: usize = 0;
    while k < order.len() && removed < limit
        invariant
            k <= order@.len(),
            removed <= k,
            board@.len() == 81,
            forall|i: int| 0 <= i < order@.len() ==> (#[trigger] order@[i]) < 81,
            removed_in_order(board@, order@, k as int, removed as int, limit as int)
                == removed_in_order(clues_of(solved_board@), order@, 0, 0, limit as int),
        decreases order@.len() - k,
    {
        let index: usize = order[k];
        let original = board[index];
        let ghost kept = board@;
        board[index] = None;
        proof {
            assert(board@ =~= kept.update(index as int, None));
        }
        if has_unique_solution(board.as_slice()) {
            removed += 1;
        } else {
            board[index] = original;
            proof {
                assert(board@ =~= kept);
            }
        }
        k += 1;
    }
    board
}

/// The board in which every digit of `digits` is a clue.
pub fn clue_board(digits: &[u8]) -> (board: Vec<Option<u8>>)
    ensures
        board@ == clues_of(digits@),
{
    let mut board: Vec<Option<u8>> = Vec::new();
    let mut i: usize = 0;
    while i < digits.len()
        invariant
            i <= digits@.len(),
            board@.len() == i,
            forall|j: int| 0 <= j < i ==> board@[j] == Some(digits@[j]),
        decreases digits@.len() - i,
    {
        board.push(Some(digits[i]));
        i += 1;
    }
    proof {
        assert(board@ =~= clues_of(digits@));
    }
    board
}

/// The 81 cells in a shuffled order.
pub fn shuffled_cells(rng: &mut SmallRng) -> (order: Vec<usize>)
    ensures
        order@.to_multiset() == all_cells().to_multiset(),
        order@.len() == 81,
        forall|k: int| 0 <= k < order@.len() ==> (#[trigger] order@[k]) < 81,
{
    let mut order: Vec<usize> = Vec::new();
    let mut i: usize = 0;
    while i < BOARD_SIZE
        invariant
            i <= 81,
            order@.len() == i,
            forall|k: int| 0 <= k < i ==> order@[k] == k as usize,
        decreases 81 - i,
    {
        order.push(i);
        i += 1;
    }
    proof {
        assert(order@ =~= all_cells());
    }
    shuffle(&mut order, rng);
    proof {
        lemma_shuffled(all_cells(), order@);
        assert forall|k: int| 0 <= k < order@.len() implies (#[trigger] order@[k]) < 81 by {
            assert(order@.contains(order@[k]));
            assert(all_cells().contains(order@[k]));
            let n = choose|n: int| 0 <= n < 81 && all_cells()[n] == order@[k];
        }
    }
    order
}

/// A puzzle by plain removal over a shuffled order of the cells.
pub fn create_simple_puzzle(
    solved_board: &[u8],
    target_difficulty: u8,
    rng: &mut SmallRng,
) -> (puzzle: Vec<Option<u8>>)
    requires
        solved_board@.len() == 81,
    ensures
        puzzle@.len() == 81,
        is_plain_puzzle(puzzle@, solved_board@, removal_target(target_difficulty)),
{
    let order = shuffled_cells(rng);
    let puzzle = remove_in_order(solved_board, order.as_slice(), cells_to_remove(target_difficulty));
    proof {
        assert(puzzle@ == removed_in_order(
            clues_of(solved_board@),
            order@,
            0,
            0,
            removal_target(target_difficulty),
        ));
    }
    puzzle
}

/// The seed of the removal order: the seed of the grid, moved on by the grade.
pub fn removal_seed(seed: u64, target_difficulty: u8) -> (moved: u64)
    ensures
        moved == (seed + target_difficulty) % 0x1_0000_0000_0000_0000,
{
    let step: u64 = target_difficulty as u64;
    if seed <= u64::MAX - step {
        seed + step
    } else {
        step - (u64::MAX - seed) - 1
    }
}

/// A puzzle by plain removal, from a generator seeded with the seed moved
/// on by the grade.
pub fn create_simple_puzzle_with_seed(
    solved_board: &[u8],
    target_difficulty: u8,
    seed: u64,
) -> (puzzle: Vec<Option<u8>>)
    requires
        solved_board@.len() == 81,
    ensures
        puzzle@.len() == 81,
        is_plain_puzzle(puzzle@, solved_board@, removal_target(target_difficulty)),
{
    let mut rng = seeded_rng(removal_seed(seed, target_difficulty));
    create_simple_puzzle(solved_board, target_difficulty, &mut rng)
}

/// The board with the first `j` cells of the batch cleared.
pub open spec fn batch_cleared(board: Seq<Option<u8>>, batch: Seq<usize>, j: int) -> Seq<Option<u8>>
    decreases j,
{
    if j <= 0 {
        board
    } else {
        batch_cleared(board, batch, j - 1).update(batch[j - 1] as int, None)
    }
}

/// A state of batch removal: the board and the number of cells removed.
pub struct Removal {
    pub board: Seq<Option<u8>>,
    pub removed: int,
}

/// The cells of the batch from position `j` on, tried one by one.
pub open spec fn retried(
    board: Seq<Option<u8>>,
    batch: Seq<usize>,
    j: int,
    removed: int,
    limit: int,
) -> Removal
    decreases batch.len() - j,
{
    if j < 0 || j >= batch.len() || removed >= limit {
        Removal { board, removed }
    } else {
        let cleared = board.update(batch[j] as int, None);
        if solvable(cleared) {
            retried(cleared, batch, j + 1, removed + 1, limit)
        } else {
            retried(board, batch, j + 1, removed, limit)
        }
    }
}

/// One batch: its cells are cleared together if the board keeps a
/// completion, and tried one by one if not.
pub open spec fn batch_removed(
    board: Seq<Option<u8>>,
    batch: Seq<usize>,
    removed: int,
    limit: int,
) -> Removal {
    let all = batch_cleared(board, batch, batch.len() as int);
    if solvable(all) {
        Removal { board: all, removed: removed + batch.len() }
    } else {
        retried(board, batch, 0, removed, limit)
    }
}

/// Batch removal from position `k` of the order on: cells are gathered in
/// batches of five (or fewer, if that reaches the limit), and each full
/// batch is removed.
pub open spec fn removed_in_batches(
    board: Seq<Option<u8>>,
    order: Seq<usize>,
    k: int,
    removed: int,
    limit: int,
    batch: Seq<usize>,
) -> Seq<Option<u8>>
    decreases order.len() - k,
{
    if k < 0 || k >= order.len() || removed >= limit {
        board
    } else {
        let gathered = batch.push(order[k]);
        if gathered.len() >= 5 || removed + gathered.len() >= limit {
            let next = batch_removed(board, gathered, removed, limit);
            removed_in_batches(next.board, order, k + 1, next.removed, limit, Seq::empty())
        } else {
            removed_in_batches(board, order, k + 1, removed, limit, gathered)
        }
    }
}

/// Clearing a batch that continues the order clears a longer prefix.
pub proof fn lemma_batch_clears_prefix(
    solution: Seq<Option<u8>>,
    order: Seq<usize>,
    r: int,
    batch: Seq<usize>,
    j: int,
)
    requires
        solution.len() == 81,
        forall|i: int| 0 <= i < order.len() ==> (#[trigger] order[i]) < 81,
        0 <= r,
        0 <= j <= batch.len(),
        r + batch.len() <= order.len(),
        forall|i: int| 0 <= i < batch.len() ==> batch[i] == order[r + i],
    ensures
        batch_cleared(cleared_prefix(solution, order, r), batch, j) == cleared_prefix(
            solution,
            order,
            r + j,
        ),
    decreases j,
{
    if j == 0 {
    } else {
        lemma_batch_clears_prefix(solution, order, r, batch, j - 1);
        let before = cleared_prefix(solution, order, r + j - 1);
        let after = cleared_prefix(solution, order, r + j);
        let idx = batch[j - 1] as int;
        assert(idx == order[r + j - 1]);
        assert forall|i: int| 0 <= i < 81 implies before.update(idx, None)[i] == after[i] by {
            if i == idx {
            } else if exists|m: int|
                0 <= m < r + j && m < order.len() && #[trigger] order[m] == i {
                let m = choose|m: int|
                    0 <= m < r + j && m < order.len() && #[trigger] order[m] == i;
                assert(m < r + j - 1);
            }
        }
        assert(before.update(idx, None) =~= after);
    }
}

/// Batch removal from a finished grid takes away exactly the first
/// `limit` cells of the order, as plain removal does.
pub proof fn lemma_batch_removal_clears_prefix(
    solution: Seq<Option<u8>>,
    order: Seq<usize>,
    k: int,
    r: int,
    limit: int,
    batch: Seq<usize>,
)
    requires
        is_solution(solution),
        forall|i: int| 0 <= i < order.len() ==> (#[trigger] order[i]) < 81,
        0 <= r,
        r + batch.len() == k,
        k <= order.len(),
        limit <= order.len(),
        forall|i: int| 0 <= i < batch.len() ==> batch[i] == order[r + i],
        (batch.len() == 0 && r <= limit) || (0 < batch.len() < 5 && r + batch.len() < limit),
    ensures
        removed_in_batches(cleared_prefix(solution, order, r), order, k, r, limit, batch)
            == cleared_prefix(solution, order, limit),
    decreases order.len() - k,
{
    let board = cleared_prefix(solution, order, r);
    if k < order.len() && r < limit {
        let gathered = batch.push(order[k]);
        if gathered.len() >= 5 || r + gathered.len() >= limit {
            lemma_batch_clears_prefix(solution, order, r, gathered, gathered.len() as int);
            let all = batch_cleared(board, gathered, gathered.len() as int);
            assert(all == cleared_prefix(solution, order, k + 1));
            assert(solves(solution, all));
            lemma_batch_removal_clears_prefix(solution, order, k + 1, k + 1, limit, Seq::empty());
        } else {
            lemma_batch_removal_clears_prefix(solution, order, k + 1, r, limit, gathered);
        }
    }
}

/// A puzzle by the advanced creation from a finished grid has either the
/// clue count that batch removal aims for or the clue count of plain
/// removal, and all its clues are clues of the grid.
pub proof fn lemma_advanced_puzzle_of_a_solution(
    puzzle: Seq<Option<u8>>,
    digits: Seq<u8>,
    target_difficulty: u8,
)
    requires
        digits.len() == 81,
        is_solution(clues_of(digits)),
        is_advanced_puzzle(puzzle, digits, target_difficulty),
    ensures
        clue_count(puzzle) == clue_target(target_difficulty) || clue_count(puzzle) == 81
            - removal_target(target_difficulty),
        solves(clues_of(digits), puzzle),
{
    let solution = clues_of(digits);
    let (order, fallback) = choose|order: Seq<usize>, fallback: Seq<usize>|
        order.to_multiset() == all_cells().to_multiset() && fallback.to_multiset()
            == all_cells().to_multiset() && puzzle == #[trigger] advanced_result(
            digits,
            target_difficulty,
            order,
            fallback,
        );
    lemma_cell_order(order);
    lemma_cell_order(fallback);
    let limit = 81 - clue_target(target_difficulty);
    assert(cleared_prefix(solution, order, 0) =~= solution);
    lemma_batch_removal_clears_prefix(solution, order, 0, 0, limit, Seq::empty());
    lemma_cleared_prefix_count(solution, order, limit);
    assert(cleared_prefix(solution, fallback, 0) =~= solution);
    lemma_plain_removal_clears_prefix(solution, fallback, 0, removal_target(target_difficulty));
    lemma_cleared_prefix_count(solution, fallback, removal_target(target_difficulty));
    assert(solves(solution, cleared_prefix(solution, order, limit)));
    assert(solves(solution, cleared_prefix(solution, fallback, removal_target(target_difficulty))));
}

/// Removes one batch of cells: all together if the board keeps a
/// completion, one by one if not. Returns the new number of cells removed.
pub fn remove_batch(
    board: &mut Vec<Option<u8>>,
    batch: &Vec<usize>,
    removed: usize,
    limit: usize,
) -> (count: usize)
    requires
        old(board)@.len() == 81,
        batch@.len() <= 81,
        removed <= 81,
        forall|k: int| 0 <= k < batch@.len() ==> (#[trigger] batch@[k]) < 81,
    ensures
        final(board)@.len() == 81,
        final(board)@ == batch_removed(old(board)@, batch@, removed as int, limit as int).board,
        count == batch_removed(old(board)@, batch@, removed as int, limit as int).removed,
        count <= removed + batch@.len(),
{
    let saved = slice_to_vec(board.as_slice());
    let mut j: usize = 0;
    while j < batch.len()
        invariant
            j <= batch@.len(),
            board@.len() == 81,
            saved@ == old(board)@,
            forall|k: int| 0 <= k < batch@.len() ==> (#[trigger] batch@[k]) < 81,
            board@ == batch_cleared(saved@, batch@, j as int),
        decreases batch@.len() - j,
    {
        let idx: usize = batch[j];
        board[idx] = None;
        j += 1;
    }
    if has_unique_solution(board.as_slice()) {
        return removed + batch.len();
    }
    let mut k: usize = 0;
    while k < saved.len()
        invariant
            k <= 81,
            saved@.len() == 81,
            board@.len() == 81,
            forall|i: int| 0 <= i < k ==> board@[i] == saved@[i],
        decreases 81 - k,
    {
        board[k] = saved[k];
        k += 1;
    }
    proof {
        assert(board@ =~= saved@);
    }
    let mut count: usize = removed;
    let mut j: usize = 0;
    while j < batch.len() && count < limit
        invariant
            j <= batch@.len(),
            batch@.len() <= 81,
            removed <= 81,
            count <= removed + j,
            board@.len() == 81,
            saved@ == old(board)@,
            forall|k: int| 0 <= k < batch@.len() ==> (#[trigger] batch@[k]) < 81,
            retried(board@, batch@, j as int, count as int, limit as int) == retried(
                saved@,
                batch@,
                0,
                removed as int,
                limit as int,
            ),
        decreases batch@.len() - j,
    {
        let idx: usize = batch[j];
        let original = board[idx];
        let ghost kept = board@;
        board[idx] = None;
        proof {
            assert(board@ =~= kept.update(idx as int, None));
        }
        if has_unique_solution(board.as_slice()) {
            count += 1;
        } else {
            board[idx] = original;
            proof {
                assert(board@ =~= kept);
            }
        }
        j += 1;
    }
    count
}

/// Batch removal: the cells of `order` are removed in batches of five
/// until `limit` cells are gone.
pub fn remove_in_batches(solved_board: &[u8], order: &[usize], limit: usize) -> (puzzle: Vec<
    Option<u8>,
>)
    requires
        solved_board@.len() == 81,
        order@.len() <= 81,
        forall|k: int| 0 <= k < order@.len() ==> (#[trigger] order@[k]) < 81,
    ensures
        puzzle@.len() == 81,
        puzzle@ == removed_in_batches(
            clues_of(solved_board@),
            order@,
            0,
            0,
            limit as int,
            Seq::empty(),
        ),
{
    let mut board = clue_board(solved_board);
    let mut removed: usize = 0;
    let mut batch: Vec<usize> = Vec::new();
    let mut k: usize = 0;
    while k < order.len() && removed < limit
        invariant
            k <= order@.len(),
            order@.len() <= 81,
            removed + batch@.len() <= k,
            board@.len() == 81,
            forall|i: int| 0 <= i < order@.len() ==> (#[trigger] order@[i]) < 81,
            forall|i: int| 0 <= i < batch@.len() ==> (#[trigger] batch@[i]) < 81,
            removed_in_batches(board@, order@, k as int, removed as int, limit as int, batch@)
                == removed_in_batches(
                clues_of(solved_board@),
                order@,
                0,
                0,
                limit as int,
                Seq::empty(),
            ),
        decreases order@.len() - k,
    {
        batch.push(order[k]);
        if batch.len() >= 5 || removed + batch.len() >= limit {
            removed = remove_batch(&mut board, &batch, removed, limit);
            batch.clear();
        }
        k += 1;
    }
    board
}

/// Number of clues that batch removal aims for in a grade.
pub open spec fn clue_target(target_difficulty: u8) -> int {
    if target_difficulty == 3 {
        30
    } else if target_difficulty == 4 {
        26
    } else if target_difficulty == 5 {
        23
    } else {
        requirements_of(target_difficulty).max_clues
    }
}

/// The grade's demand on the strongest technique of a puzzle from batch
/// removal: a naked pair at least for grade 3, an X-Wing at least for grade
/// 4, the Swordfish at least for grade 5.
pub open spec fn technique_reaches(target_difficulty: u8, hardest: SolvingTechnique) -> bool {
    if target_difficulty == 3 {
        hardest.ordinal() >= 2
    } else if target_difficulty == 4 {
        hardest.ordinal() >= 6
    } else if target_difficulty == 5 {
        hardest.ordinal() >= 8
    } else {
        true
    }
}

/// The puzzle from batch removal is kept: the ladder finishes it, its clue
/// count lies in the range of the grade, and its strongest technique
/// reaches the grade's demand.
pub open spec fn batch_puzzle_kept(board: Seq<Option<u8>>, target_difficulty: u8) -> bool {
    let rest = at_rest(SolverState::initial(board));
    &&& complete(rest.board)
    &&& requirements_of(target_difficulty).min_clues <= clue_count(board) <= requirements_of(
        target_difficulty,
    ).max_clues
    &&& technique_reaches(target_difficulty, hardest_of(rest.used))
}

/// The puzzle is what the advanced creation over some two orders of the
/// 81 cells makes of the grid.
pub open spec fn is_advanced_puzzle(
    puzzle: Seq<Option<u8>>,
    digits: Seq<u8>,
    target_difficulty: u8,
) -> bool {
    exists|order: Seq<usize>, fallback: Seq<usize>|
        order.to_multiset() == all_cells().to_multiset() && fallback.to_multiset()
            == all_cells().to_multiset() && puzzle == #[trigger] advanced_result(
            digits,
            target_difficulty,
            order,
            fallback,
        )
}

/// The advanced creation over two given orders: the puzzle from batch
/// removal over `order` if it is kept, the puzzle from plain removal over
/// `fallback` if not.
pub open spec fn advanced_result(
    digits: Seq<u8>,
    target_difficulty: u8,
    order: Seq<usize>,
    fallback: Seq<usize>,
) -> Seq<Option<u8>> {
    let batched = removed_in_batches(
        clues_of(digits),
        order,
        0,
        0,
        81 - clue_target(target_difficulty),
        Seq::empty(),
    );
    if digits_in_range(batched) && batch_puzzle_kept(batched, target_difficulty) {
        batched
    } else {
        removed_in_order(clues_of(digits), fallback, 0, 0, removal_target(target_difficulty))
    }
}

/// The advanced creation over two given orders of the cells: batch removal
/// over `order` down to the clue count of the grade; the result is kept if
/// the ladder finishes it with a technique that reaches the grade, and
/// replaced by plain removal over `fallback` if not.
pub fn create_advanced_puzzle_from(
    solved_board: &[u8],
    target_difficulty: u8,
    order: &[usize],
    fallback: &[usize],
) -> (puzzle: Vec<Option<u8>>)
    requires
        solved_board@.len() == 81,
        order@.len() <= 81,
        forall|k: int| 0 <= k < order@.len() ==> (#[trigger] order@[k]) < 81,
        forall|k: int| 0 <= k < fallback@.len() ==> (#[trigger] fallback@[k]) < 81,
    ensures
        puzzle@.len() == 81,
        puzzle@ == advanced_result(solved_board@, target_difficulty, order@, fallback@),
{
    let (min_clues, max_clues, _techniques, _bound) = get_difficulty_requirements(
        target_difficulty,
    );
    let target_clues: usize = match target_difficulty {
        3 => 30,
        4 => 26,
        5 => 23,
        _ => max_clues,
    };
    let limit: usize = BOARD_SIZE - target_clues;
    let board = remove_in_batches(solved_board, order, limit);
    if all_digits_in_range(board.as_slice()) {
        let mut solver = HumanStyleSolver::new(board.as_slice());
        let can_solve = solver.solve_with_techniques();
        let current_clues = count_clues(board.as_slice());
        if can_solve && current_clues >= min_clues && current_clues <= max_clues {
            let rank = solver.get_hardest_technique_used().rank();
            let appropriate = match target_difficulty {
                3 => rank >= 2,
                4 => rank >= 6,
                5 => rank >= 8,
                _ => true,
            };
            if appropriate {
                return board;
            }
        }
    }
    remove_in_order(solved_board, fallback, cells_to_remove(target_difficulty))
}

/// A puzzle by the advanced creation, the batch order and the fallback
/// order both drawn from `rng`.
pub fn create_advanced_puzzle(
    solved_board: &[u8],
    target_difficulty: u8,
    rng: &mut SmallRng,
) -> (puzzle: Vec<Option<u8>>)
    requires
        solved_board@.len() == 81,
    ensures
        puzzle@.len() == 81,
        is_advanced_puzzle(puzzle@, solved_board@, target_difficulty),
{
    let order = shuffled_cells(rng);
    let fallback = shuffled_cells(rng);
    let puzzle = create_advanced_puzzle_from(
        solved_board,
        target_difficulty,
        order.as_slice(),
        fallback.as_slice(),
    );
    proof {
        assert(puzzle@ == advanced_result(solved_board@, target_difficulty, order@, fallback@));
    }
    puzzle
}

/// A puzzle by the advanced creation; the batch order and the fallback
/// order each come from a generator seeded with the seed moved on by the
/// grade.
pub fn create_advanced_puzzle_with_seed(
    solved_board: &[u8],
    target_difficulty: u8,
    seed: u64,
) -> (puzzle: Vec<Option<u8>>)
    requires
        solved_board@.len() == 81,
    ensures
        puzzle@.len() == 81,
        is_advanced_puzzle(puzzle@, solved_board@, target_difficulty),
{
    let mut rng = seeded_rng(removal_seed(seed, target_difficulty));
    let order = shuffled_cells(&mut rng);
    let mut again = seeded_rng(removal_seed(seed, target_difficulty));
    let fallback = shuffled_cells(&mut again);
    let puzzle = create_advanced_puzzle_from(
        solved_board,
        target_difficulty,
        order.as_slice(),
        fallback.as_slice(),
    );
    proof {
        assert(puzzle@ == advanced_result(solved_board@, target_difficulty, order@, fallback@));
    }
    puzzle
}

/// The level that a grade on the scale 1 to 5 stands for; Medium for any
/// other number.
pub open spec fn level_of_grade(difficulty: u8) -> DifficultyLevel {
    if difficulty == 1 {
        DifficultyLevel::VeryEasy
    } else if difficulty == 2 {
        DifficultyLevel::Easy
    } else if difficulty == 4 {
        DifficultyLevel::Hard
    } else if difficulty == 5 {
        DifficultyLevel::Expert
    } else {
        DifficultyLevel::Medium
    }
}

/// The level that a grade on the scale 1 to 5 stands for.
pub fn grade_level(difficulty: u8) -> (level: DifficultyLevel)
    ensures
        level == level_of_grade(difficulty),
{
    match difficulty {
        1 => DifficultyLevel::VeryEasy,
        2 => DifficultyLevel::Easy,
        3 => DifficultyLevel::Medium,
        4 => DifficultyLevel::Hard,
        5 => DifficultyLevel::Expert,
        _ => DifficultyLevel::Medium,
    }
}

/// Number of clues that the fallback of the seeded creation takes away.
pub open spec fn fallback_target(difficulty: u8) -> int {
    if difficulty == 1 {
        36
    } else if difficulty == 2 {
        40
    } else if difficulty == 4 {
        56
    } else if difficulty == 5 {
        64
    } else {
        48
    }
}

/// A puzzle for a grade and a seed: the generator of the grade's level is
/// run up to ten times, each time from the seed moved on by the number of
/// the run; if no run gives a puzzle, plain removal from the given grid
/// takes its place.
pub fn create_puzzle_with_seed(solved_board: &[u8], difficulty: u8, seed: u64) -> (puzzle: Vec<
    Option<u8>,
>)
    requires
        solved_board@.len() == 81,
    ensures
        puzzle@.len() == 81,
        accepted(GeneratorConfig::preset(level_of_grade(difficulty)), puzzle@) || is_plain_puzzle(
            puzzle@,
            solved_board@,
            fallback_target(difficulty),
        ),
{
    let generator = PuzzleGenerator::with_difficulty(grade_level(difficulty));
    let mut attempt: u8 = 0;
    while attempt < 10
        invariant
            attempt <= 10,
            generator.config() == GeneratorConfig::preset(level_of_grade(difficulty)),
        decreases 10 - attempt,
    {
        match generator.generate_with_seed(removal_seed(seed, attempt)) {
            Some(puzzle) => {
                return puzzle;
            },
            None => {},
        }
        attempt += 1;
    }
    let limit: usize = match difficulty {
        1 => 36,
        2 => 40,
        3 => 48,
        4 => 56,
        5 => 64,
        _ => 48,
    };
    let mut rng = seeded_rng(removal_seed(seed, difficulty));
    let order = shuffled_cells(&mut rng);
    let puzzle = remove_in_order(solved_board, order.as_slice(), limit);
    proof {
        assert(puzzle@ == removed_in_order(
            clues_of(solved_board@),
            order@,
            0,
            0,
            fallback_target(difficulty),
        ));
    }
    puzzle
}

} // verus!
