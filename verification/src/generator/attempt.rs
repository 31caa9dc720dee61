//! One generation attempt after the other: a full grid, a removal order, a
//! removal pass, and the final validation.

use rand::rngs::SmallRng;
use vstd::prelude::*;
use crate::generator::fill::{cells_of, lemma_empty_masks};
use crate::difficulty::analysis_of;
use crate::generator::{
    accepted, factor_fits, initial_factor, meets, removal_result, removal_run, removal_step,
    technique_in_band, GeneratorConfig, PuzzleGenerator, RemovalOutcome, RemovalView,
};
use crate::random::{lemma_shuffled, seeded_rng, shuffle};
use crate::rules::{
    conflict_free, conflicts, digits_in_range, extends, in_grid, is_solution, peers, sees,
    solvable, solves,
};
use crate::types::{BranchingFactor, DifficultyLevel, SolvingTechnique, BOARD_SIZE};

verus! {

/// The digit of cell `i` in the grid that shifts the first row by three
/// places from row to row and by one more from band to band.
pub open spec fn pattern_digit(i: int) -> int {
    (3 * ((i / 9) % 3) + (i / 9) / 3 + i % 9) % 9 + 1
}

/// A finished Sudoku, so that the empty board has a completion.
pub open spec fn pattern_grid() -> Seq<Option<u8>> {
    Seq::new(81, |i: int| Some(pattern_digit(i) as u8))
}

proof fn lemma_pattern_differs(i: int, j: int)
    requires
        in_grid(i),
        in_grid(j),
        i != j,
        sees(i, j),
    ensures
        pattern_digit(i) != pattern_digit(j),
{
    let ri = i / 9;
    let ci = i % 9;
    let rj = j / 9;
    let cj = j % 9;
    let fi = 3 * (ri % 3) + ri / 3;
    let fj = 3 * (rj % 3) + rj / 3;
    let vi = fi + ci;
    let vj = fj + cj;
    assert(0 <= fi < 9 && 0 <= fj < 9);
    if ri == rj {
        assert(ci != cj);
        assert(vi - vj == ci - cj);
    } else if ci == cj {
        assert(fi != fj);
        assert(vi - vj == fi - fj);
    } else {
        assert(i / 27 == ri / 3);
        assert(j / 27 == rj / 3);
        assert(ri / 3 == rj / 3 && ci / 3 == cj / 3);
        assert(vi - vj == 3 * (ri % 3 - rj % 3) + (ci - cj));
        assert(-2 <= ci - cj <= 2);
        assert(-2 <= ri % 3 - rj % 3 <= 2);
        assert(ri % 3 != rj % 3);
    }
    assert(-9 < vi - vj < 9 && vi != vj);
    assert(vi % 9 != vj % 9);
}

/// The pattern grid is a finished Sudoku.
pub proof fn lemma_pattern_is_solution()
    ensures
        is_solution(pattern_grid()),
{
    let s = pattern_grid();
    assert forall|i: int| in_grid(i) implies !#[trigger] conflicts(s, i) by {
        assert forall|j: int| in_grid(j) && #[trigger] peers(i, j) implies s[j] != Some(
            s[i]->0,
        ) by {
            lemma_pattern_differs(i, j);
        }
    }
}

/// The empty board has a completion.
pub proof fn lemma_empty_board_solvable(board: Seq<Option<u8>>)
    requires
        board.len() == 81,
        forall|i: int| 0 <= i < 81 ==> (#[trigger] board[i]) is None,
    ensures
        solvable(board),
{
    lemma_pattern_is_solution();
    assert(solves(pattern_grid(), board));
}

/// The pairs of cells that mirror each other through the centre, the
/// centre cell paired with itself.
pub open spec fn mirror_pairs() -> Seq<(usize, usize)> {
    Seq::new(41, |k: int| (k as usize, (80 - k) as usize))
}

/// The cells of the pairs, one after the other; a cell paired with itself
/// is listed once.
pub open spec fn flattened(pairs: Seq<(usize, usize)>) -> Seq<usize>
    decreases pairs.len(),
{
    if pairs.len() == 0 {
        Seq::empty()
    } else {
        let last = pairs.last();
        if last.0 == last.1 {
            flattened(pairs.drop_last()).push(last.0)
        } else {
            flattened(pairs.drop_last()).push(last.0).push(last.1)
        }
    }
}

/// The cells 0 to 80 in ascending order.
pub open spec fn all_cells() -> Seq<usize> {
    Seq::new(81, |k: int| k as usize)
}

/// Every element of a flattened list belongs to one of the pairs.
pub proof fn lemma_flattened_members(pairs: Seq<(usize, usize)>)
    ensures
        forall|k: int|
            0 <= k < flattened(pairs).len() ==> exists|m: int|
                0 <= m < pairs.len() && (pairs[m].0 == #[trigger] flattened(pairs)[k] || pairs[m].1
                    == flattened(pairs)[k]),
    decreases pairs.len(),
{
    if pairs.len() > 0 {
        let front = pairs.drop_last();
        lemma_flattened_members(front);
        let flat = flattened(pairs);
        let inner = flattened(front);
        assert forall|k: int| 0 <= k < flat.len() implies exists|m: int|
            0 <= m < pairs.len() && (pairs[m].0 == #[trigger] flat[k] || pairs[m].1
                == flat[k]) by {
            if k < inner.len() {
                assert(flat[k] == inner[k]);
                let m = choose|m: int|
                    0 <= m < front.len() && (front[m].0 == inner[k] || front[m].1 == inner[k]);
                assert(pairs[m] == front[m]);
            } else {
                let m = pairs.len() - 1;
                assert(pairs[m] == pairs.last());
            }
        }
    }
}

/// What a removal order is, whatever the shuffle did: with symmetry, the
/// flattening of the mirror pairs in some order; without, the 81 cells in
/// some order.
pub open spec fn is_removal_order(order: Seq<usize>, symmetric: bool) -> bool {
    if symmetric {
        exists|pairs: Seq<(usize, usize)>|
            pairs.to_multiset() == mirror_pairs().to_multiset() && order == #[trigger] flattened(
                pairs,
            )
    } else {
        order.to_multiset() == all_cells().to_multiset()
    }
}

/// Both cells of every pair are among the cells of the flattened list.
pub proof fn lemma_flattened_holds_pairs(pairs: Seq<(usize, usize)>)
    ensures
        forall|m: int|
            0 <= m < pairs.len() ==> flattened(pairs).contains((#[trigger] pairs[m]).0)
                && flattened(pairs).contains(pairs[m].1),
    decreases pairs.len(),
{
    if pairs.len() > 0 {
        let front = pairs.drop_last();
        let last = pairs.last();
        lemma_flattened_holds_pairs(front);
        let inner = flattened(front);
        let flat = flattened(pairs);
        assert forall|m: int| 0 <= m < pairs.len() implies flat.contains((#[trigger] pairs[m]).0)
            && flat.contains(pairs[m].1) by {
            if m < front.len() {
                assert(front[m] == pairs[m]);
                let i = choose|i: int| 0 <= i < inner.len() && inner[i] == pairs[m].0;
                let j = choose|j: int| 0 <= j < inner.len() && inner[j] == pairs[m].1;
                assert(flat[i] == inner[i]);
                assert(flat[j] == inner[j]);
            } else {
                assert(pairs[m] == last);
                if last.0 == last.1 {
                    assert(flat[inner.len() as int] == last.0);
                } else {
                    assert(flat[inner.len() as int] == last.0);
                    assert(flat[inner.len() as int + 1] == last.1);
                }
            }
        }
    }
}

/// The pair is one of the mirror pairs.
pub open spec fn is_mirror_pair(pair: (usize, usize)) -> bool {
    pair.0 <= 40 && pair.1 == 80 - pair.0
}

/// The flattening of different mirror pairs holds no cell twice.
pub proof fn lemma_flattened_is_distinct(pairs: Seq<(usize, usize)>)
    requires
        pairs.no_duplicates(),
        forall|m: int| 0 <= m < pairs.len() ==> is_mirror_pair(#[trigger] pairs[m]),
    ensures
        flattened(pairs).no_duplicates(),
    decreases pairs.len(),
{
    if pairs.len() > 0 {
        let front = pairs.drop_last();
        let last = pairs.last();
        assert forall|m: int| 0 <= m < front.len() implies is_mirror_pair(#[trigger] front[m]) by {
            assert(front[m] == pairs[m]);
        }
        lemma_flattened_is_distinct(front);
        lemma_flattened_members(front);
        let inner = flattened(front);
        let flat = flattened(pairs);
        assert(is_mirror_pair(pairs[pairs.len() - 1]));
        assert forall|k: int| 0 <= k < inner.len() implies inner[k] != last.0 && inner[k]
            != last.1 by {
            let m = choose|m: int|
                0 <= m < front.len() && (front[m].0 == inner[k] || front[m].1 == inner[k]);
            assert(front[m] == pairs[m]);
            assert(is_mirror_pair(pairs[m]));
            assert(pairs[m] != pairs[pairs.len() - 1]);
        }
        assert forall|i: int, j: int|
            0 <= i < flat.len() && 0 <= j < flat.len() && i != j implies flat[i] != flat[j] by {
            if i < inner.len() {
                assert(flat[i] == inner[i]);
            }
            if j < inner.len() {
                assert(flat[j] == inner[j]);
            }
        }
    }
}

/// The order holds each of the 81 cells exactly once.
pub open spec fn visits_every_cell_once(order: Seq<usize>) -> bool {
    &&& order.len() == 81
    &&& order.no_duplicates()
    &&& forall|k: int| 0 <= k < order.len() ==> (#[trigger] order[k]) < 81
}

/// A removal order visits every cell exactly once, with or without symmetry.
pub proof fn lemma_removal_order_visits_every_cell(order: Seq<usize>, symmetric: bool)
    requires
        is_removal_order(order, symmetric),
    ensures
        visits_every_cell_once(order),
{
    lemma_removal_order_in_range(order, symmetric);
    if symmetric {
        let pairs = choose|pairs: Seq<(usize, usize)>|
            pairs.to_multiset() == mirror_pairs().to_multiset() && order == #[trigger] flattened(
                pairs,
            );
        lemma_shuffled(mirror_pairs(), pairs);
        assert(mirror_pairs().no_duplicates());
        mirror_pairs().lemma_multiset_has_no_duplicates();
        pairs.lemma_multiset_has_no_duplicates_conv();
        assert forall|m: int| 0 <= m < pairs.len() implies is_mirror_pair(#[trigger] pairs[m]) by {
            assert(pairs.contains(pairs[m]));
            assert(mirror_pairs().contains(pairs[m]));
            let n = choose|n: int| 0 <= n < 41 && mirror_pairs()[n] == pairs[m];
        }
        lemma_flattened_is_distinct(pairs);
        lemma_flattened_holds_pairs(pairs);
        assert(all_cells().no_duplicates());
        order.unique_seq_to_set();
        all_cells().unique_seq_to_set();
        assert forall|c: usize| all_cells().to_set().contains(c) implies order.to_set().contains(
            c,
        ) by {
            let n = choose|n: int| 0 <= n < 81 && all_cells()[n] == c;
            let low: int = if n <= 40 {
                n
            } else {
                80 - n
            };
            let pair = (low as usize, (80 - low) as usize);
            assert(mirror_pairs()[low] == pair);
            assert(mirror_pairs().contains(pair));
            assert(pairs.contains(pair));
            let m = choose|m: int| 0 <= m < pairs.len() && pairs[m] == pair;
            assert(order.contains(pairs[m].0) && order.contains(pairs[m].1));
        }
        assert forall|c: usize| order.to_set().contains(c) implies all_cells().to_set().contains(
            c,
        ) by {
            let k = choose|k: int| 0 <= k < order.len() && order[k] == c;
            assert(all_cells()[c as int] == c);
        }
        assert(order.to_set() =~= all_cells().to_set());
    } else {
        crate::classic::lemma_cell_order(order);
    }
}

/// Every cell of a removal order is a cell of the grid.
pub proof fn lemma_removal_order_in_range(order: Seq<usize>, symmetric: bool)
    requires
        is_removal_order(order, symmetric),
    ensures
        forall|k: int| 0 <= k < order.len() ==> (#[trigger] order[k]) < 81,
{
    if symmetric {
        let pairs = choose|pairs: Seq<(usize, usize)>|
            pairs.to_multiset() == mirror_pairs().to_multiset() && order == #[trigger] flattened(
                pairs,
            );
        lemma_shuffled(mirror_pairs(), pairs);
        lemma_flattened_members(pairs);
        assert forall|k: int| 0 <= k < order.len() implies (#[trigger] order[k]) < 81 by {
            let m = choose|m: int|
                0 <= m < pairs.len() && (pairs[m].0 == order[k] || pairs[m].1 == order[k]);
            assert(pairs.contains(pairs[m]));
            assert(mirror_pairs().contains(pairs[m]));
            let n = choose|n: int| 0 <= n < 41 && mirror_pairs()[n] == pairs[m];
            assert(mirror_pairs()[n] == (n as usize, (80 - n) as usize));
        }
    } else {
        lemma_shuffled(all_cells(), order);
        assert forall|k: int| 0 <= k < order.len() implies (#[trigger] order[k]) < 81 by {
            assert(order.contains(order[k]));
            assert(all_cells().contains(order[k]));
            let n = choose|n: int| 0 <= n < 81 && all_cells()[n] == order[k];
        }
    }
}

/// The puzzle is what a removal pass over some removal order makes of
/// some finished grid.
pub open spec fn produced(cfg: GeneratorConfig, puzzle: Seq<Option<u8>>) -> bool {
    exists|solution: Seq<Option<u8>>, order: Seq<usize>|
        is_solution(solution) && is_removal_order(order, cfg.prefer_symmetry)
            && #[trigger] removal_result(cfg, solution, order) == Some(puzzle)
}

/// What a function that may return a puzzle returned, as a board.
pub open spec fn outcome_of(puzzle: Option<Vec<Option<u8>>>) -> Option<Seq<Option<u8>>> {
    match puzzle {
        Some(p) => Some(p@),
        None => None,
    }
}

/// What one attempt draws: a finished grid and a removal order.
pub struct Draw {
    pub solution: Seq<Option<u8>>,
    pub order: Seq<usize>,
}

/// The draw is one that an attempt can make under the configuration.
pub open spec fn is_draw(cfg: GeneratorConfig, draw: Draw) -> bool {
    is_solution(draw.solution) && is_removal_order(draw.order, cfg.prefer_symmetry)
}

/// What the attempt with the given draw comes to: the outcome of the
/// removal pass over the drawn order from the drawn grid.
pub open spec fn attempt_result(cfg: GeneratorConfig, draw: Draw) -> Option<Seq<Option<u8>>> {
    removal_result(cfg, draw.solution, draw.order)
}

/// The outcome is that of one attempt, whatever it drew.
pub open spec fn attempted(cfg: GeneratorConfig, outcome: Option<Seq<Option<u8>>>) -> bool {
    exists|draw: Draw| is_draw(cfg, draw) && #[trigger] attempt_result(cfg, draw) == outcome
}

/// The outcome is that of a generation run with the given draws, one for
/// each attempt made: every attempt but the last comes to nothing; a puzzle
/// is the result of the last attempt; and no puzzle means that the whole
/// budget of attempts was spent on attempts that came to nothing.
pub open spec fn is_generation(
    cfg: GeneratorConfig,
    draws: Seq<Draw>,
    outcome: Option<Seq<Option<u8>>>,
) -> bool {
    &&& draws.len() <= cfg.max_attempts
    &&& forall|i: int| 0 <= i < draws.len() ==> is_draw(cfg, #[trigger] draws[i])
    &&& forall|i: int|
        0 <= i < draws.len() - 1 ==> attempt_result(cfg, #[trigger] draws[i]) is None
    &&& match outcome {
        Some(puzzle) => draws.len() > 0 && attempt_result(cfg, draws.last()) == Some(puzzle),
        None => draws.len() == cfg.max_attempts && (draws.len() > 0 ==> attempt_result(
            cfg,
            draws.last(),
        ) is None),
    }
}

/// The outcome is that of a generation run, whatever its attempts drew.
pub open spec fn generated(cfg: GeneratorConfig, outcome: Option<Seq<Option<u8>>>) -> bool {
    exists|draws: Seq<Draw>| #[trigger] is_generation(cfg, draws, outcome)
}

/// The puzzles among the outcomes, in their order.
pub open spec fn successes(outcomes: Seq<Option<Seq<Option<u8>>>>) -> Seq<Seq<Option<u8>>>
    decreases outcomes.len(),
{
    if outcomes.len() == 0 {
        Seq::empty()
    } else {
        match outcomes.last() {
            Some(puzzle) => successes(outcomes.drop_last()).push(puzzle),
            None => successes(outcomes.drop_last()),
        }
    }
}

/// The boards of a list of puzzles.
pub open spec fn boards_of(puzzles: Seq<Vec<Option<u8>>>) -> Seq<Seq<Option<u8>>> {
    Seq::new(puzzles.len(), |k: int| puzzles[k]@)
}

/// The outcomes are those of as many generation runs, one after the other.
pub open spec fn are_generations(
    cfg: GeneratorConfig,
    outcomes: Seq<Option<Seq<Option<u8>>>>,
) -> bool {
    forall|i: int| 0 <= i < outcomes.len() ==> generated(cfg, #[trigger] outcomes[i])
}

/// The boards are the puzzles of `count` generation runs, in the order of
/// the runs; a run that found nothing leaves no trace.
pub open spec fn collected(cfg: GeneratorConfig, count: int, boards: Seq<Seq<Option<u8>>>) -> bool {
    exists|outcomes: Seq<Option<Seq<Option<u8>>>>|
        outcomes.len() == count && are_generations(cfg, outcomes) && boards
            == #[trigger] successes(outcomes)
}

/// The configuration is met by a finished grid with one cell emptied: 80
/// clues are within its bounds, a naked single is within the band of its
/// level, and the branching factor 1 fits and lies within half the
/// tolerance of the target.
pub open spec fn accepts_single_removal(cfg: GeneratorConfig) -> bool {
    let one = BranchingFactor { numerator: 1, denominator: 1 };
    &&& cfg.min_clues <= 80 <= cfg.max_clues
    &&& technique_in_band(cfg.target_difficulty, SolvingTechnique::NakedSingle)
    &&& factor_fits(cfg, one)
    &&& one.is_very_near(
        cfg.target_branching_factor as int,
        cfg.branching_factor_tolerance as int,
    )
}

/// Under a configuration that a single removal meets, every removal pass
/// from a finished grid ends at its first step, with the grid less the
/// first cell of the order: no draw decides whether there is a puzzle.
pub proof fn lemma_single_removal_suffices(
    cfg: GeneratorConfig,
    solution: Seq<Option<u8>>,
    order: Seq<usize>,
)
    requires
        accepts_single_removal(cfg),
        is_solution(solution),
        order.len() > 0,
        order[0] < 81,
    ensures
        removal_result(cfg, solution, order) == Some(solution.update(order[0] as int, None)),
{
    let idx = order[0] as int;
    crate::theorems::lemma_one_cell_emptied(solution, idx);
    crate::theorems::lemma_last_cell_is_a_naked_single(solution, idx);
    let start = RemovalView { puzzle: solution, best: None, best_score: None, since: 0 };
    let cleared = solution.update(idx, None);
    assert(solvable(cleared));
    assert(removal_step(cfg, start, idx) == RemovalOutcome::Done(cleared));
}

/// Under a configuration that a single removal meets, every attempt gives
/// a puzzle.
pub proof fn lemma_attempt_succeeds(cfg: GeneratorConfig, draw: Draw)
    requires
        accepts_single_removal(cfg),
        is_draw(cfg, draw),
    ensures
        attempt_result(cfg, draw) is Some,
{
    lemma_removal_order_visits_every_cell(draw.order, cfg.prefer_symmetry);
    lemma_single_removal_suffices(cfg, draw.solution, draw.order);
}

/// The puzzle of a generation run was produced by one of its attempts.
pub proof fn lemma_generated_is_produced(cfg: GeneratorConfig, puzzle: Seq<Option<u8>>)
    requires
        generated(cfg, Some(puzzle)),
    ensures
        produced(cfg, puzzle),
        accepted(cfg, puzzle),
{
    let draws = choose|draws: Seq<Draw>| #[trigger] is_generation(cfg, draws, Some(puzzle));
    let last = draws.last();
    assert(is_draw(cfg, draws[draws.len() - 1]));
    assert(removal_result(cfg, last.solution, last.order) == Some(puzzle));
    lemma_produced_is_accepted(cfg, puzzle);
}

/// Among `n` outcomes there are at most `n` puzzles.
pub proof fn lemma_successes_bound(outcomes: Seq<Option<Seq<Option<u8>>>>)
    ensures
        successes(outcomes).len() <= outcomes.len(),
    decreases outcomes.len(),
{
    if outcomes.len() > 0 {
        lemma_successes_bound(outcomes.drop_last());
    }
}

/// Every board of a removal pass, the puzzle at hand and the best
/// candidate alike, keeps only clues of the grid that the pass started from.
pub proof fn lemma_removal_run_keeps_clues(
    cfg: GeneratorConfig,
    v: RemovalView,
    order: Seq<usize>,
    k: int,
    solution: Seq<Option<u8>>,
)
    requires
        solution.len() == 81,
        forall|i: int| 0 <= i < order.len() ==> (#[trigger] order[i]) < 81,
        extends(solution, v.puzzle),
        v.best is Some ==> extends(solution, v.best->0),
        0 <= k,
    ensures
        removal_run(cfg, v, order, k) is Some ==> extends(
            solution,
            removal_run(cfg, v, order, k)->0,
        ),
    decreases order.len() - k,
{
    if k < order.len() {
        let idx = order[k] as int;
        let cleared = v.puzzle.update(idx, None);
        assert(extends(solution, cleared));
        match removal_step(cfg, v, idx) {
            RemovalOutcome::Continue(next) => {
                lemma_removal_run_keeps_clues(cfg, next, order, k + 1, solution);
            },
            RemovalOutcome::Stop => {},
            RemovalOutcome::Done(puzzle) => {},
        }
    }
}

/// What a removal pass returns meets the constraints of the configuration.
pub proof fn lemma_removal_run_meets(
    cfg: GeneratorConfig,
    v: RemovalView,
    order: Seq<usize>,
    k: int,
)
    requires
        v.best is Some ==> meets(
            cfg,
            v.best->0,
            analysis_of(v.best->0).hardest_technique,
            initial_factor(v.best->0),
        ),
        0 <= k,
    ensures
        removal_run(cfg, v, order, k) is Some ==> meets(
            cfg,
            removal_run(cfg, v, order, k)->0,
            analysis_of(removal_run(cfg, v, order, k)->0).hardest_technique,
            initial_factor(removal_run(cfg, v, order, k)->0),
        ),
    decreases order.len() - k,
{
    if k < order.len() {
        match removal_step(cfg, v, order[k] as int) {
            RemovalOutcome::Continue(next) => {
                lemma_removal_run_meets(cfg, next, order, k + 1);
            },
            RemovalOutcome::Stop => {},
            RemovalOutcome::Done(puzzle) => {},
        }
    }
}

/// A puzzle that a generation attempt produces passes the final
/// validation: the validation guards the result, it never turns one down.
pub proof fn lemma_produced_is_accepted(cfg: GeneratorConfig, puzzle: Seq<Option<u8>>)
    requires
        produced(cfg, puzzle),
    ensures
        accepted(cfg, puzzle),
{
    lemma_produced_is_sound(cfg, puzzle);
    let (solution, order) = choose|solution: Seq<Option<u8>>, order: Seq<usize>|
        is_solution(solution) && is_removal_order(order, cfg.prefer_symmetry)
            && #[trigger] removal_result(cfg, solution, order) == Some(puzzle);
    let start = RemovalView { puzzle: solution, best: None, best_score: None, since: 0 };
    lemma_removal_run_meets(cfg, start, order, 0);
}

/// A puzzle that a generation attempt produces keeps only clues of a
/// finished grid: it has a completion, its digits are 1 to 9, and it has no
/// conflicts.
pub proof fn lemma_produced_is_sound(cfg: GeneratorConfig, puzzle: Seq<Option<u8>>)
    requires
        produced(cfg, puzzle),
    ensures
        puzzle.len() == 81,
        solvable(puzzle),
        digits_in_range(puzzle),
        conflict_free(puzzle),
{
    let (solution, order) = choose|solution: Seq<Option<u8>>, order: Seq<usize>|
        is_solution(solution) && is_removal_order(order, cfg.prefer_symmetry)
            && #[trigger] removal_result(cfg, solution, order) == Some(puzzle);
    lemma_removal_order_in_range(order, cfg.prefer_symmetry);
    let start = RemovalView { puzzle: solution, best: None, best_score: None, since: 0 };
    lemma_removal_run_keeps_clues(cfg, start, order, 0, solution);
    assert(solves(solution, puzzle));
    crate::validator::lemma_solvable_is_sound(puzzle);
}

impl PuzzleGenerator {
    /// The cell that mirrors `index` through the centre of the board.
    pub fn get_symmetric_index(&self, index: usize) -> (mirror: usize)
        requires
            index < 81,
        ensures
            mirror == 80 - index,
    {
        let row: usize = index / 9;
        let col: usize = index % 9;
        (8 - row) * 9 + (8 - col)
    }

    /// The pairs of cells that mirror each other, in ascending order of
    /// their first cell.
    pub fn symmetric_pairs(&self) -> (pairs: Vec<(usize, usize)>)
        ensures
            pairs@ == mirror_pairs(),
    {
        let mut pairs: Vec<(usize, usize)> = Vec::new();
        let mut i: usize = 0;
        while i <= 40
            invariant
                i <= 41,
                pairs@.len() == i,
                forall|k: int| 0 <= k < i ==> pairs@[k] == (k as usize, (80 - k) as usize),
            decreases 41 - i,
        {
            let s: usize = self.get_symmetric_index(i);
            pairs.push((i, s));
            i += 1;
        }
        proof {
            assert(pairs@ =~= mirror_pairs());
        }
        pairs
    }

    /// The cells of the pairs, one after the other; a cell paired with
    /// itself is listed once.
    pub fn flatten_pairs(&self, pairs: &Vec<(usize, usize)>) -> (cells: Vec<usize>)
        ensures
            cells@ == flattened(pairs@),
    {
        let mut cells: Vec<usize> = Vec::new();
        let mut k: usize = 0;
        while k < pairs.len()
            invariant
                k <= pairs@.len(),
                cells@ == flattened(pairs@.subrange(0, k as int)),
            decreases pairs@.len() - k,
        {
            let pair = pairs[k];
            proof {
                let upto = pairs@.subrange(0, k + 1);
                assert(upto.drop_last() =~= pairs@.subrange(0, k as int));
                assert(upto.last() == pair);
            }
            if pair.0 == pair.1 {
                cells.push(pair.0);
            } else {
                cells.push(pair.0);
                cells.push(pair.1);
            }
            k += 1;
        }
        proof {
            assert(pairs@.subrange(0, k as int) =~= pairs@);
        }
        cells
    }

    /// The order in which a removal pass visits the cells: a random order
    /// of the cells, or, with symmetry, a random order of the mirror pairs,
    /// the two cells of a pair next to each other.
    pub fn get_removal_order(&self, rng: &mut SmallRng) -> (order: Vec<usize>)
        ensures
            is_removal_order(order@, self.config().prefer_symmetry),
            visits_every_cell_once(order@),
    {
        let order = self.shuffled_order(rng);
        proof {
            lemma_removal_order_visits_every_cell(order@, self.config().prefer_symmetry);
        }
        order
    }

    /// The removal order, drawn from `rng`.
    fn shuffled_order(&self, rng: &mut SmallRng) -> (order: Vec<usize>)
        ensures
            is_removal_order(order@, self.config().prefer_symmetry),
            forall|k: int| 0 <= k < order@.len() ==> (#[trigger] order@[k]) < 81,
    {
        if self.symmetric_removal() {
            let mut pairs = self.symmetric_pairs();
            shuffle(&mut pairs, rng);
            let order = self.flatten_pairs(&pairs);
            proof {
                lemma_shuffled(mirror_pairs(), pairs@);
                lemma_flattened_members(pairs@);
                assert forall|k: int| 0 <= k < order@.len() implies (#[trigger] order@[k]) < 81 by {
                    let m = choose|m: int|
                        0 <= m < pairs@.len() && (pairs@[m].0 == order@[k] || pairs@[m].1
                            == order@[k]);
                    assert(pairs@.contains(pairs@[m]));
                    assert(mirror_pairs().contains(pairs@[m]));
                    let n = choose|n: int| 0 <= n < 41 && mirror_pairs()[n] == pairs@[m];
                    assert(mirror_pairs()[n] == (n as usize, (80 - n) as usize));
                }
            }
            order
        } else {
            let mut order: Vec<usize> = Vec::new();
            let mut i: usize = 0;
            while i < BOARD_SIZE
                invariant
                    i <= 81,
                    order@.len() == i,
                    forall|k: int| 0 <= k < i ==> order@[k] == k as usize,
                decreases 81 - i,
            {
                order.push(i);
                i += 1;
            }
            proof {
                assert(order@ =~= all_cells());
            }
            shuffle(&mut order, rng);
            proof {
                lemma_shuffled(all_cells(), order@);
                assert forall|k: int| 0 <= k < order@.len() implies (#[trigger] order@[k]) < 81 by {
                    assert(order@.contains(order@[k]));
                    assert(all_cells().contains(order@[k]));
                    let n = choose|n: int| 0 <= n < 81 && all_cells()[n] == order@[k];
                }
            }
            order
        }
    }

    /// A finished grid, synthesised by randomised backtracking from the
    /// empty board. The search cannot fail: the empty board has completions.
    pub fn generate_complete_solution(&self, rng: &mut SmallRng) -> (solution: Option<
        Vec<Option<u8>>,
    >)
        ensures
            solution is Some,
            is_solution(solution->0@),
    {
        let mut board = [0u8;81];
        let mut row_m = [0u16;9];
        let mut col_m = [0u16;9];
        let mut box_m = [0u16;9];
        proof {
            assert(col_m@ =~= row_m@);
            assert(box_m@ =~= row_m@);
            lemma_empty_masks(board@, row_m@);
            lemma_empty_board_solvable(cells_of(board@));
        }
        if self.fill_board_fast(&mut board, &mut row_m, &mut col_m, &mut box_m, 0, rng) {
            let mut cells: Vec<Option<u8>> = Vec::new();
            let mut i: usize = 0;
            while i < BOARD_SIZE
                invariant
                    i <= 81,
                    cells@.len() == i,
                    forall|k: int| 0 <= k < i ==> cells@[k] == cells_of(board@)[k],
                decreases 81 - i,
            {
                let n: u8 = board[i];
                cells.push(
                    if n == 0 {
                        None
                    } else {
                        Some(n)
                    },
                );
                i += 1;
            }
            proof {
                assert(cells@ =~= cells_of(board@));
            }
            Some(cells)
        } else {
            None
        }
    }

    /// A removal pass over a fresh random order: what comes back is the
    /// outcome of the pass over the order that was drawn, a puzzle or
    /// nothing.
    pub fn create_puzzle_with_branching_factor_control(
        &self,
        solution: &[Option<u8>],
        rng: &mut SmallRng,
    ) -> (puzzle: Option<Vec<Option<u8>>>)
        requires
            solution@.len() == 81,
            digits_in_range(solution@),
        ensures
            puzzle is Some ==> puzzle->0@.len() == 81 && digits_in_range(puzzle->0@),
            exists|order: Seq<usize>|
                is_removal_order(order, self.config().prefer_symmetry) && #[trigger] removal_result(
                    self.config(),
                    solution@,
                    order,
                ) == outcome_of(puzzle),
            accepts_single_removal(self.config()) && is_solution(solution@) ==> puzzle is Some,
    {
        let order = self.get_removal_order(rng);
        let puzzle = self.remove_clues(solution, order.as_slice());
        proof {
            assert(removal_result(self.config(), solution@, order@) == outcome_of(puzzle));
            if accepts_single_removal(self.config()) && is_solution(solution@) {
                lemma_single_removal_suffices(self.config(), solution@, order@);
            }
        }
        puzzle
    }

    /// One attempt: a fresh full grid and one removal pass over it. What
    /// comes back is the outcome of the pass for the grid and the order that
    /// were drawn, a puzzle or nothing.
    pub fn generate_attempt(&self, rng: &mut SmallRng) -> (puzzle: Option<Vec<Option<u8>>>)
        ensures
            puzzle is Some ==> puzzle->0@.len() == 81 && digits_in_range(puzzle->0@),
            puzzle is Some ==> produced(self.config(), puzzle->0@),
            attempted(self.config(), outcome_of(puzzle)),
            accepts_single_removal(self.config()) ==> puzzle is Some,
    {
        match self.generate_complete_solution(rng) {
            Some(solution) => {
                let puzzle = self.create_puzzle_with_branching_factor_control(
                    solution.as_slice(),
                    rng,
                );
                proof {
                    let order = choose|order: Seq<usize>|
                        is_removal_order(order, self.config().prefer_symmetry)
                            && #[trigger] removal_result(self.config(), solution@, order)
                            == outcome_of(puzzle);
                    let draw = Draw { solution: solution@, order };
                    assert(is_draw(self.config(), draw));
                    assert(attempt_result(self.config(), draw) == outcome_of(puzzle));
                    if puzzle is Some {
                        assert(removal_result(self.config(), solution@, order) == Some(
                            puzzle->0@,
                        ));
                    }
                }
                puzzle
            },
            None => None,
        }
    }

    /// Generates a puzzle: attempts are made until one passes the final
    /// validation or the budget of attempts is spent.
    ///
    /// What comes back is the puzzle of the first attempt that gives one.
    /// `None` means that every attempt of the budget came to nothing; it is
    /// a normal outcome for tight targets, and with a budget of 0 it is the
    /// only one.
    pub fn generate(&self, rng: &mut SmallRng) -> (puzzle: Option<Vec<Option<u8>>>)
        ensures
            generated(self.config(), outcome_of(puzzle)),
            puzzle is Some ==> accepted(self.config(), puzzle->0@),
            puzzle is Some ==> produced(self.config(), puzzle->0@),
            self.config().max_attempts == 0 ==> puzzle is None,
            self.config().max_attempts > 0 && accepts_single_removal(self.config())
                ==> puzzle is Some,
    {
        let budget: u32 = self.attempt_budget();
        let ghost cfg = self.config();
        let ghost mut draws: Seq<Draw> = Seq::empty();
        let mut attempt: u32 = 0;
        while attempt < budget
            invariant
                attempt <= budget,
                budget == self.config().max_attempts,
                cfg == self.config(),
                draws.len() == attempt,
                forall|i: int| 0 <= i < draws.len() ==> is_draw(cfg, #[trigger] draws[i]),
                forall|i: int|
                    0 <= i < draws.len() ==> attempt_result(cfg, #[trigger] draws[i]) is None,
            decreases budget - attempt,
        {
            let candidate = self.generate_attempt(rng);
            let ghost draw = choose|draw: Draw|
                is_draw(cfg, draw) && #[trigger] attempt_result(cfg, draw) == outcome_of(
                    candidate,
                );
            let ghost tried = draws.push(draw);
            match candidate {
                Some(puzzle) => {
                    proof {
                        lemma_produced_is_accepted(cfg, puzzle@);
                    }
                    if self.validate_puzzle_enhanced(puzzle.as_slice()) {
                        proof {
                            assert(tried.last() == draw);
                            assert forall|i: int| 0 <= i < tried.len() implies is_draw(
                                cfg,
                                #[trigger] tried[i],
                            ) by {
                                if i < draws.len() {
                                    assert(tried[i] == draws[i]);
                                }
                            }
                            assert forall|i: int| 0 <= i < tried.len() - 1 implies attempt_result(
                                cfg,
                                #[trigger] tried[i],
                            ) is None by {
                                assert(tried[i] == draws[i]);
                            }
                            assert(is_generation(cfg, tried, Some(puzzle@)));
                        }
                        return Some(puzzle);
                    }
                },
                None => {},
            }
            proof {
                assert forall|i: int| 0 <= i < tried.len() implies is_draw(cfg, #[trigger] tried[i])
                    && attempt_result(cfg, tried[i]) is None by {
                    if i < draws.len() {
                        assert(tried[i] == draws[i]);
                    }
                }
                draws = tried;
            }
            attempt += 1;
        }
        proof {
            assert(is_generation(cfg, draws, None));
            if draws.len() > 0 && accepts_single_removal(cfg) {
                lemma_attempt_succeeds(cfg, draws[draws.len() - 1]);
            }
        }
        None
    }

    /// Generates a puzzle from a generator seeded with `seed`: the outcome
    /// of a generation run whose draws come from that generator. Equal seeds
    /// give equal puzzles.
    pub fn generate_with_seed(&self, seed: u64) -> (puzzle: Option<Vec<Option<u8>>>)
        ensures
            generated(self.config(), outcome_of(puzzle)),
            puzzle is Some ==> accepted(self.config(), puzzle->0@),
            puzzle is Some ==> produced(self.config(), puzzle->0@),
            self.config().max_attempts == 0 ==> puzzle is None,
            self.config().max_attempts > 0 && accepts_single_removal(self.config())
                ==> puzzle is Some,
    {
        let mut rng = seeded_rng(seed);
        self.generate(&mut rng)
    }
}

/// Generates a puzzle of the given level with the configuration tuned for
/// it: the outcome of a generation run under that configuration.
pub fn generate_puzzle_enhanced(difficulty: DifficultyLevel, rng: &mut SmallRng) -> (puzzle: Option<
    Vec<Option<u8>>,
>)
    ensures
        generated(GeneratorConfig::preset(difficulty), outcome_of(puzzle)),
        puzzle is Some ==> accepted(GeneratorConfig::preset(difficulty), puzzle->0@),
        puzzle is Some ==> produced(GeneratorConfig::preset(difficulty), puzzle->0@),
{
    PuzzleGenerator::with_difficulty(difficulty).generate(rng)
}

/// The configuration of a level with a branching-factor target of its
/// own: the bounds are opened to two tolerances on either side of the
/// target, but not below 1.
pub open spec fn retargeted(
    difficulty: DifficultyLevel,
    target: u32,
    tolerance: u32,
) -> GeneratorConfig {
    let base = GeneratorConfig::preset(difficulty);
    GeneratorConfig {
        target_difficulty: base.target_difficulty,
        max_attempts: base.max_attempts,
        min_clues: base.min_clues,
        max_clues: base.max_clues,
        prefer_symmetry: base.prefer_symmetry,
        min_branching_factor: if target - 2 * tolerance >= 1000 {
            (target - 2 * tolerance) as u32
        } else {
            1000
        },
        max_branching_factor: if target + 2 * tolerance <= u32::MAX {
            (target + 2 * tolerance) as u32
        } else {
            u32::MAX
        },
        target_branching_factor: target,
        branching_factor_tolerance: tolerance,
    }
}

/// Generates a puzzle of the given level whose branching factor lies
/// within `tolerance` of `target_branching_factor`, both in thousandths:
/// the outcome of a generation run under the level's configuration with
/// that target.
pub fn generate_puzzle_with_branching_factor(
    difficulty: DifficultyLevel,
    target_branching_factor: u32,
    tolerance: u32,
    rng: &mut SmallRng,
) -> (puzzle: Option<Vec<Option<u8>>>)
    ensures
        generated(
            retargeted(difficulty, target_branching_factor, tolerance),
            outcome_of(puzzle),
        ),
        puzzle is Some ==> accepted(
            retargeted(difficulty, target_branching_factor, tolerance),
            puzzle->0@,
        ),
        puzzle is Some ==> produced(
            retargeted(difficulty, target_branching_factor, tolerance),
            puzzle->0@,
        ),
{
    let mut config = GeneratorConfig::for_difficulty(difficulty);
    config.target_branching_factor = target_branching_factor;
    config.branching_factor_tolerance = tolerance;
    let spread: u64 = 2 * (tolerance as u64);
    let target: u64 = target_branching_factor as u64;
    config.min_branching_factor = if target >= spread + 1000 {
        (target - spread) as u32
    } else {
        1000
    };
    config.max_branching_factor = if target + spread <= 0xffff_ffff {
        (target + spread) as u32
    } else {
        0xffff_ffff
    };
    PuzzleGenerator::new(config).generate(rng)
}

/// Generates a puzzle of the given level: the outcome of a generation run
/// under the configuration tuned for the level.
pub fn generate_puzzle(difficulty: DifficultyLevel, rng: &mut SmallRng) -> (puzzle: Option<
    Vec<Option<u8>>,
>)
    ensures
        generated(GeneratorConfig::preset(difficulty), outcome_of(puzzle)),
        puzzle is Some ==> accepted(GeneratorConfig::preset(difficulty), puzzle->0@),
        puzzle is Some ==> produced(GeneratorConfig::preset(difficulty), puzzle->0@),
{
    PuzzleGenerator::with_difficulty(difficulty).generate(rng)
}

/// Makes `count` generation runs for the given level and collects the
/// puzzles of the runs that succeed, in the order of the runs.
pub fn generate_multiple_puzzles(
    difficulty: DifficultyLevel,
    count: usize,
    rng: &mut SmallRng,
) -> (puzzles: Vec<Vec<Option<u8>>>)
    ensures
        collected(GeneratorConfig::preset(difficulty), count as int, boards_of(puzzles@)),
        puzzles@.len() <= count,
        forall|k: int|
            0 <= k < puzzles@.len() ==> accepted(
                GeneratorConfig::preset(difficulty),
                (#[trigger] puzzles@[k])@,
            ) && produced(GeneratorConfig::preset(difficulty), puzzles@[k]@),
{
    let generator = PuzzleGenerator::with_difficulty(difficulty);
    let ghost cfg = GeneratorConfig::preset(difficulty);
    let ghost mut outcomes: Seq<Option<Seq<Option<u8>>>> = Seq::empty();
    let mut puzzles: Vec<Vec<Option<u8>>> = Vec::new();
    let mut made: usize = 0;
    while made < count
        invariant
            made <= count,
            puzzles@.len() <= made,
            generator.config() == cfg,
            cfg == GeneratorConfig::preset(difficulty),
            outcomes.len() == made,
            are_generations(cfg, outcomes),
            boards_of(puzzles@) == successes(outcomes),
            forall|k: int|
                0 <= k < puzzles@.len() ==> accepted(cfg, (#[trigger] puzzles@[k])@) && produced(
                    cfg,
                    puzzles@[k]@,
                ),
        decreases count - made,
    {
        let ghost before = puzzles@;
        let found = generator.generate(rng);
        let ghost next = outcomes.push(outcome_of(found));
        proof {
            assert(next.drop_last() =~= outcomes);
            assert(next.last() == outcome_of(found));
            assert forall|i: int| 0 <= i < next.len() implies generated(cfg, #[trigger] next[i]) by {
                if i < outcomes.len() {
                    assert(next[i] == outcomes[i]);
                }
            }
        }
        match found {
            Some(puzzle) => {
                let ghost board = puzzle@;
                puzzles.push(puzzle);
                proof {
                    assert(boards_of(puzzles@) =~= boards_of(before).push(board));
                }
            },
            None => {},
        }
        proof {
            outcomes = next;
        }
        made += 1;
    }
    proof {
        assert(successes(outcomes) == boards_of(puzzles@));
    }
    puzzles
}

} // verus!
