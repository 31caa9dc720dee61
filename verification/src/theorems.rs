//! Laws that hold across the components of the engine.

use vstd::prelude::*;
use crate::difficulty::{analysis_of, factor_band, level_of, technique_tier};
use crate::generator::{accepted, initial_factor, minimum_technique, technique_in_band, GeneratorConfig};
use crate::rules::{
    complete, conflict_free, empty_upto, in_grid, is_digit, is_first_solution, is_solution,
    lex_below_at, lex_le, placement_free, solvable, solves,
};
use crate::rules::sees;
use crate::solver::patterns::{
    at_rest, first_rung, in_unit, is_placing, ladder, makes_progress, naked_single, placed_upto,
    placement, round, run,
};
use crate::solver::singles::lemma_placement_places;
use crate::solver::soundness::{lemma_initial_sound, lemma_single_candidate, lemma_unit_has_digit};
use crate::solver::{hardest_of, SolverState};
use crate::types::{BranchingFactor, SolvingTechnique};
use crate::validator::{lemma_solvable_is_sound, lists_conflicts};

verus! {

/// A puzzle that passed the final validation of the generator has no
/// conflicts, so validation lists no cell of it, and it has a completion.
pub proof fn lemma_generated_puzzle_validates(
    cfg: GeneratorConfig,
    puzzle: Seq<Option<u8>>,
    invalid: Seq<usize>,
)
    requires
        accepted(cfg, puzzle),
        lists_conflicts(invalid, puzzle),
    ensures
        invalid.len() == 0,
        conflict_free(puzzle),
        solvable(puzzle),
{
    lemma_solvable_is_sound(puzzle);
    if invalid.len() > 0 {
        let i = invalid[0];
        assert(invalid.contains(i));
        assert(in_grid(i as int));
        assert(invalid.contains((i as int) as usize));
        assert(crate::rules::conflicts(puzzle, i as int));
    }
}

/// The level that the analysis gives a generated puzzle is at least the
/// level that the weakest technique of the target's band stands for.
pub proof fn lemma_generated_level_reaches_band(cfg: GeneratorConfig, puzzle: Seq<Option<u8>>)
    requires
        accepted(cfg, puzzle),
    ensures
        analysis_of(puzzle).level.ordinal() >= technique_tier(
            minimum_technique(cfg.target_difficulty),
            analysis_of(puzzle).branching_factor,
        ).ordinal(),
{
    let analysis = analysis_of(puzzle);
    assert(analysis.level == level_of(analysis.hardest_technique, analysis.branching_factor));
    assert(technique_in_band(cfg.target_difficulty, analysis.hardest_technique));
}

/// The level of a puzzle is at least what its technique stands for and at
/// least what its branching factor stands for, and it is one of the two.
pub proof fn lemma_level_is_the_stricter_signal(
    hardest: SolvingTechnique,
    factor: BranchingFactor,
)
    ensures
        level_of(hardest, factor).ordinal() >= technique_tier(hardest, factor).ordinal(),
        level_of(hardest, factor).ordinal() >= factor_band(factor).ordinal(),
        level_of(hardest, factor) == technique_tier(hardest, factor) || level_of(hardest, factor)
            == factor_band(factor),
{
}

/// A finished Sudoku is its own and only completion: solving it gives it back.
pub proof fn lemma_solution_solves_itself(board: Seq<Option<u8>>, solution: Seq<Option<u8>>)
    requires
        is_solution(board),
    ensures
        solvable(board),
        solves(solution, board) ==> solution == board,
        is_first_solution(board, board),
{
    assert(solves(board, board));
    if solves(solution, board) {
        assert(solution =~= board);
    }
    assert forall|t: Seq<Option<u8>>| #[trigger] solves(t, board) implies lex_le(board, t) by {
        assert(t =~= board);
    }
}

/// What the backtracking solver returns is full and free of conflicts:
/// validation marks it complete and lists no cell.
pub proof fn lemma_solved_board_validates(
    board: Seq<Option<u8>>,
    solution: Seq<Option<u8>>,
    invalid: Seq<usize>,
)
    requires
        is_first_solution(solution, board),
        lists_conflicts(invalid, solution),
    ensures
        invalid.len() == 0,
        complete(solution) && conflict_free(solution),
{
    if invalid.len() > 0 {
        let i = invalid[0];
        assert(invalid.contains(i));
        assert(in_grid(i as int));
        assert(invalid.contains((i as int) as usize));
        assert(crate::rules::conflicts(solution, i as int));
    }
}

/// A board whose clues are in conflict has no completion: the check for a
/// completion answers no, whichever clue of a valid board was replaced or
/// exchanged to bring the conflict about.
pub proof fn lemma_conflicting_clues_have_no_completion(board: Seq<Option<u8>>)
    requires
        board.len() == 81,
        !conflict_free(board),
    ensures
        !solvable(board),
{
    if solvable(board) {
        lemma_solvable_is_sound(board);
    }
}

/// A board has at most one first completion.
pub proof fn lemma_first_solution_is_unique(
    board: Seq<Option<u8>>,
    a: Seq<Option<u8>>,
    b: Seq<Option<u8>>,
)
    requires
        is_first_solution(a, board),
        is_first_solution(b, board),
    ensures
        a == b,
{
    assert(lex_le(a, b));
    assert(lex_le(b, a));
    if a != b {
        let k = choose|k: int| 0 <= k < a.len() && k < b.len() && #[trigger] lex_below_at(a, b, k);
        let m = choose|m: int| 0 <= m < b.len() && m < a.len() && #[trigger] lex_below_at(b, a, m);
        if k < m {
            assert(b[k] == a[k]);
        } else if m < k {
            assert(a[m] == b[m]);
        }
    }
}

/// A finished grid with one cell emptied has 80 clues, one empty cell with
/// one candidate, and so the branching factor 1.
pub proof fn lemma_one_cell_emptied(solution: Seq<Option<u8>>, c: int)
    requires
        is_solution(solution),
        in_grid(c),
    ensures
        crate::rules::clue_count(solution.update(c, None)) == 80,
        crate::rules::solves(solution, solution.update(c, None)),
        initial_factor(solution.update(c, None)) == (BranchingFactor {
            numerator: 1,
            denominator: 1,
        }),
{
    let board = solution.update(c, None);
    lemma_last_cell_is_a_naked_single(solution, c);
    crate::rules::lemma_empty_upto_zero(solution, 81);
    crate::rules::lemma_fill_lowers_empty_count(board, c, solution[c]);
    assert(board.update(c, solution[c]) =~= solution);
}

/// Without live pairs no technique makes progress.
proof fn lemma_nothing_live_is_rest(st: SolverState, lo: int)
    requires
        forall|c: int, x: int| !#[trigger] st.live.contains((c, x)),
    ensures
        first_rung(st, lo, 10) is None,
    decreases 10 - lo,
{
    if 0 <= lo < 10 {
        let t = ladder()[lo];
        if is_placing(t) {
            assert forall|c: int| in_grid(c) implies (#[trigger] placement(t, st, c)) is None by {
                if placement(t, st, c) is Some {
                    lemma_placement_places(t, st, c, 1);
                    assert(st.live.contains((c, placement(t, st, c)->0 as int)));
                }
            }
        }
        lemma_nothing_live_is_rest(st, lo + 1);
    }
}

/// A finished grid with one cell emptied is solved by a naked single and
/// nothing else: the ladder fills the cell with the digit it held, records
/// the naked single alone, and the analysis names it as the strongest
/// technique.
pub proof fn lemma_last_cell_is_a_naked_single(solution: Seq<Option<u8>>, c: int)
    requires
        is_solution(solution),
        in_grid(c),
    ensures
        at_rest(SolverState::initial(solution.update(c, None))).board == solution,
        at_rest(SolverState::initial(solution.update(c, None))).used == seq![
            SolvingTechnique::NakedSingle,
        ],
        analysis_of(solution.update(c, None)).hardest_technique == SolvingTechnique::NakedSingle,
        analysis_of(solution.update(c, None)).technique_diversity == 1,
        SolverState::initial(solution.update(c, None)).total() == 1,
{
    let board = solution.update(c, None);
    let st = SolverState::initial(board);
    let d = solution[c]->0 as int;
    assert(solution[c] is Some && is_digit(d));
    assert(crate::rules::solves(solution, board));
    lemma_initial_sound(solution, board);
    assert forall|i: int, x: int| st.live.contains((i, x)) implies i == c && x == d by {
        if i == c && x != d {
            lemma_unit_has_digit(solution, 0, c, x);
            let j = choose|j: int|
                in_grid(j) && in_unit(0, c, j) && #[trigger] solution[j] == Some(x as u8);
            assert(j != c);
            assert(sees(c, j));
            assert(board[j] == Some(x as u8));
        }
    }
    assert(st.live.contains((c, d)));
    assert(st.count(c) == 1) by {
        reveal_with_fuel(SolverState::count_upto, 10);
    }
    assert(st.total() == 1) by {
        assert forall|i: int| in_grid(i) && i != c implies #[trigger] st.count(i) == 0 by {
            reveal_with_fuel(SolverState::count_upto, 10);
        }
        lemma_total_of_one_cell(st, c, 81);
    }
    let t = SolvingTechnique::NakedSingle;
    assert(naked_single(st, c, d));
    assert(placement(t, st, c) == Some(d as u8)) by {
        lemma_placement_places(t, st, c, 1);
        if placement(t, st, c) is Some {
            lemma_single_candidate(st, c, d, placement(t, st, c)->0 as int);
        }
    }
    assert(makes_progress(t, st));
    reveal_with_fuel(first_rung, 2);
    assert(first_rung(st, 0, 10) == Some(t));
    let next = round(st, 0, 10);
    assert(next == placed_upto(t, st, 81).with_used(t));
    assert forall|i: int| in_grid(i) && i != c implies (#[trigger] placement(t, st, i)) is None by {
        if placement(t, st, i) is Some {
            lemma_placement_places(t, st, i, 1);
            assert(st.live.contains((i, placement(t, st, i)->0 as int)));
        }
    }
    assert(next.board =~= solution);
    assert(next.used =~= seq![t]);
    assert forall|i: int, x: int| !#[trigger] next.live.contains((i, x)) by {
        if next.live.contains((i, x)) {
            assert(st.live.contains((i, x)));
        }
    }
    lemma_nothing_live_is_rest(next, 0);
    reveal_with_fuel(run, 3);
    assert(at_rest(st) == next);
    assert(hardest_of(next.used) == t) by {
        reveal_with_fuel(hardest_of, 3);
        assert(next.used.drop_last() =~= Seq::<SolvingTechnique>::empty());
    }
}

proof fn lemma_total_of_one_cell(st: SolverState, c: int, n: int)
    requires
        in_grid(c),
        0 <= n <= 81,
        forall|i: int| in_grid(i) && i != c ==> #[trigger] st.count(i) == 0,
    ensures
        st.total_upto(n) == if c < n {
            st.count(c)
        } else {
            0
        },
    decreases n,
{
    if n > 0 {
        lemma_total_of_one_cell(st, c, n - 1);
    }
}

/// On the empty board every digit is a candidate of every cell.
proof fn lemma_all_live_count(st: SolverState, c: int, upto: int)
    requires
        0 <= upto <= 9,
        forall|x: int| is_digit(x) ==> #[trigger] st.live.contains((c, x)),
    ensures
        st.count_upto(c, upto) == upto,
    decreases upto,
{
    if upto > 0 {
        lemma_all_live_count(st, c, upto - 1);
        assert(st.live.contains((c, upto)));
    }
}

proof fn lemma_all_live_total(st: SolverState, n: int)
    requires
        0 <= n <= 81,
        forall|c: int, x: int| in_grid(c) && is_digit(x) ==> #[trigger] st.live.contains((c, x)),
    ensures
        st.total_upto(n) == 9 * n,
    decreases n,
{
    if n > 0 {
        lemma_all_live_total(st, n - 1);
        lemma_all_live_count(st, n - 1, 9);
    }
}

proof fn lemma_all_empty(board: Seq<Option<u8>>, n: int)
    requires
        0 <= n <= board.len(),
        forall|i: int| 0 <= i < board.len() ==> (#[trigger] board[i]) is None,
    ensures
        empty_upto(board, n) == n,
    decreases n,
{
    if n > 0 {
        lemma_all_empty(board, n - 1);
    }
}

/// The branching factor of the empty board is 9, well above 5.
pub proof fn lemma_empty_board_factor(board: Seq<Option<u8>>)
    requires
        board.len() == 81,
        forall|i: int| 0 <= i < 81 ==> (#[trigger] board[i]) is None,
    ensures
        initial_factor(board) == (BranchingFactor { numerator: 729, denominator: 81 }),
        !initial_factor(board).within_milli(5000),
{
    let st = SolverState::initial(board);
    assert forall|c: int, x: int| in_grid(c) && is_digit(x) implies #[trigger] st.live.contains(
        (c, x),
    ) by {
        assert(placement_free(board, c, x as u8));
    }
    lemma_all_live_total(st, 81);
    lemma_all_empty(board, 81);
}

/// The branching factor of a full board is exactly 1.
pub proof fn lemma_full_board_factor(board: Seq<Option<u8>>)
    requires
        board.len() == 81,
        complete(board),
    ensures
        initial_factor(board) == (BranchingFactor { numerator: 1, denominator: 1 }),
{
    crate::rules::lemma_empty_upto_zero(board, 81);
}

} // verus!
