//! The puzzle generator: a full grid is synthesised, clues are removed in a
//! random order while the puzzle keeps a completion, and each candidate is
//! scored against the targets of the configuration.

pub mod fill;
pub mod attempt;

pub use crate::generator::attempt::{
    generate_multiple_puzzles, generate_puzzle, generate_puzzle_enhanced,
    generate_puzzle_with_branching_factor,
};

use vstd::prelude::*;
use vstd::slice::slice_to_vec;
use crate::difficulty::{analysis_of, analyze_difficulty};
use crate::rules::{clue_count, digits_in_range, empty_count, lemma_empty_upto_bounds, solvable};
use crate::solver::{HumanStyleSolver, SolverState};
use crate::types::{BranchingFactor, DifficultyAnalysis, DifficultyLevel, SolvingTechnique};
use crate::validator::{count_clues, has_unique_solution};

verus! {

/// What a generation run aims for. Branching factors are given in
/// thousandths: 2500 stands for 2.5.
#[derive(Debug, Clone, Copy, PartialEq, Eq, Structural)]
pub struct GeneratorConfig {
    pub target_difficulty: DifficultyLevel,
    /// Number of full grids that are tried before generation gives up.
    pub max_attempts: u32,
    pub min_clues: usize,
    pub max_clues: usize,
    /// Whether clues are removed in pairs that mirror each other through the centre.
    pub prefer_symmetry: bool,
    pub min_branching_factor: u32,
    pub max_branching_factor: u32,
    pub target_branching_factor: u32,
    pub branching_factor_tolerance: u32,
}

impl GeneratorConfig {
    /// The configuration for medium puzzles that `default` returns.
    pub open spec fn standard() -> GeneratorConfig {
        GeneratorConfig {
            target_difficulty: DifficultyLevel::Medium,
            max_attempts: 3000,
            min_clues: 17,
            max_clues: 35,
            prefer_symmetry: true,
            min_branching_factor: 2000,
            max_branching_factor: 4000,
            target_branching_factor: 3000,
            branching_factor_tolerance: 500,
        }
    }

    /// The configuration tuned for each level.
    pub open spec fn preset(difficulty: DifficultyLevel) -> GeneratorConfig {
        match difficulty {
            DifficultyLevel::VeryEasy => GeneratorConfig {
                target_difficulty: difficulty,
                max_attempts: 3000,
                min_clues: 40,
                max_clues: 45,
                prefer_symmetry: true,
                min_branching_factor: 1000,
                max_branching_factor: 1700,
                target_branching_factor: 1400,
                branching_factor_tolerance: 200,
            },
            DifficultyLevel::Easy => GeneratorConfig {
                target_difficulty: difficulty,
                max_attempts: 3000,
                min_clues: 35,
                max_clues: 45,
                prefer_symmetry: true,
                min_branching_factor: 1600,
                max_branching_factor: 2200,
                target_branching_factor: 1900,
                branching_factor_tolerance: 300,
            },
            DifficultyLevel::Medium => GeneratorConfig {
                target_difficulty: difficulty,
                max_attempts: 3000,
                min_clues: 32,
                max_clues: 37,
                prefer_symmetry: true,
                min_branching_factor: 2200,
                max_branching_factor: 2800,
                target_branching_factor: 2500,
                branching_factor_tolerance: 400,
            },
            DifficultyLevel::Hard => GeneratorConfig {
                target_difficulty: difficulty,
                max_attempts: 5000,
                min_clues: 25,
                max_clues: 30,
                prefer_symmetry: true,
                min_branching_factor: 3500,
                max_branching_factor: 4500,
                target_branching_factor: 3800,
                branching_factor_tolerance: 500,
            },
            DifficultyLevel::Expert => GeneratorConfig {
                target_difficulty: difficulty,
                max_attempts: 8000,
                min_clues: 17,
                max_clues: 24,
                prefer_symmetry: true,
                min_branching_factor: 4500,
                max_branching_factor: 6000,
                target_branching_factor: 5000,
                branching_factor_tolerance: 800,
            },
        }
    }

    /// The configuration tuned for the given level.
    pub fn for_difficulty(difficulty: DifficultyLevel) -> (cfg: GeneratorConfig)
        ensures
            cfg == Self::preset(difficulty),
    {
        let mut cfg = GeneratorConfig::default();
        cfg.target_difficulty = difficulty;
        match difficulty {
            DifficultyLevel::VeryEasy => {
                cfg.min_clues = 40;
                cfg.max_clues = 45;
                cfg.min_branching_factor = 1000;
                cfg.max_branching_factor = 1700;
                cfg.target_branching_factor = 1400;
                cfg.branching_factor_tolerance = 200;
            },
            DifficultyLevel::Easy => {
                cfg.min_clues = 35;
                cfg.max_clues = 45;
                cfg.min_branching_factor = 1600;
                cfg.max_branching_factor = 2200;
                cfg.target_branching_factor = 1900;
                cfg.branching_factor_tolerance = 300;
            },
            DifficultyLevel::Medium => {
                cfg.min_clues = 32;
                cfg.max_clues = 37;
                cfg.min_branching_factor = 2200;
                cfg.max_branching_factor = 2800;
                cfg.target_branching_factor = 2500;
                cfg.branching_factor_tolerance = 400;
            },
            DifficultyLevel::Hard => {
                cfg.min_clues = 25;
                cfg.max_clues = 30;
                cfg.min_branching_factor = 3500;
                cfg.max_branching_factor = 4500;
                cfg.target_branching_factor = 3800;
                cfg.branching_factor_tolerance = 500;
                cfg.max_attempts = 5000;
            },
            DifficultyLevel::Expert => {
                cfg.min_clues = 17;
                cfg.max_clues = 24;
                cfg.min_branching_factor = 4500;
                cfg.max_branching_factor = 6000;
                cfg.target_branching_factor = 5000;
                cfg.branching_factor_tolerance = 800;
                cfg.max_attempts = 8000;
            },
        }
        cfg
    }
}

impl Default for GeneratorConfig {
    fn default() -> (cfg: GeneratorConfig)
        ensures
            cfg == GeneratorConfig::standard(),
    {
        GeneratorConfig {
            target_difficulty: DifficultyLevel::Medium,
            max_attempts: 3000,
            min_clues: 17,
            max_clues: 35,
            prefer_symmetry: true,
            min_branching_factor: 2000,
            max_branching_factor: 4000,
            target_branching_factor: 3000,
            branching_factor_tolerance: 500,
        }
    }
}

/// The strongest technique of a puzzle lies in the band of the target
/// level: naked singles only for VeryEasy, singles for Easy, up to box-line
/// reduction for Medium, X-Wing to Swordfish for Hard, XY-Wing and beyond
/// for Expert.
pub open spec fn technique_in_band(target: DifficultyLevel, hardest: SolvingTechnique) -> bool {
    match target {
        DifficultyLevel::VeryEasy => hardest.ordinal() <= 0,
        DifficultyLevel::Easy => hardest.ordinal() <= 1,
        DifficultyLevel::Medium => hardest.ordinal() <= 4,
        DifficultyLevel::Hard => 6 <= hardest.ordinal() <= 8,
        DifficultyLevel::Expert => hardest.ordinal() >= 10,
    }
}

/// The strongest technique of a puzzle lies above the band of the target level.
pub open spec fn overshoots(target: DifficultyLevel, hardest: SolvingTechnique) -> bool {
    match target {
        DifficultyLevel::VeryEasy => hardest.ordinal() > 0,
        DifficultyLevel::Easy => hardest.ordinal() > 1,
        DifficultyLevel::Medium => hardest.ordinal() > 4,
        DifficultyLevel::Hard => hardest.ordinal() > 8,
        DifficultyLevel::Expert => false,
    }
}

/// The weakest technique in the band of a level.
pub open spec fn minimum_technique(target: DifficultyLevel) -> SolvingTechnique {
    match target {
        DifficultyLevel::Hard => SolvingTechnique::XWing,
        DifficultyLevel::Expert => SolvingTechnique::XYWing,
        _ => SolvingTechnique::NakedSingle,
    }
}

/// The branching factor lies between the bounds of the configuration and
/// within its tolerance of the target.
pub open spec fn factor_fits(cfg: GeneratorConfig, factor: BranchingFactor) -> bool {
    &&& factor.reaches_milli(cfg.min_branching_factor as int)
    &&& factor.within_milli(cfg.max_branching_factor as int)
    &&& factor.is_near(cfg.target_branching_factor as int, cfg.branching_factor_tolerance as int)
}

/// A puzzle with the given strongest technique and branching factor meets
/// every constraint of the configuration.
pub open spec fn meets(
    cfg: GeneratorConfig,
    board: Seq<Option<u8>>,
    hardest: SolvingTechnique,
    factor: BranchingFactor,
) -> bool {
    &&& cfg.min_clues <= clue_count(board) <= cfg.max_clues
    &&& technique_in_band(cfg.target_difficulty, hardest)
    &&& factor_fits(cfg, factor)
}

/// The branching factor of a puzzle before any technique is applied.
pub open spec fn initial_factor(board: Seq<Option<u8>>) -> BranchingFactor {
    BranchingFactor::ratio(SolverState::initial(board).total(), empty_count(board))
}

/// The puzzle passes the final validation of a generation run: it has a
/// completion, and its analysis and its branching factor meet the
/// configuration.
pub open spec fn accepted(cfg: GeneratorConfig, board: Seq<Option<u8>>) -> bool {
    &&& board.len() == 81
    &&& digits_in_range(board)
    &&& solvable(board)
    &&& meets(cfg, board, analysis_of(board).hardest_technique, initial_factor(board))
}

/// A score as an exact fraction; lower is better.
pub struct Fraction {
    pub num: int,
    pub den: int,
}

/// A score as it is stored during a removal pass.
#[derive(Debug, Clone, Copy, PartialEq, Eq, Structural)]
pub struct Score {
    pub num: u64,
    pub den: u64,
}

impl View for Score {
    type V = Fraction;

    open spec fn view(&self) -> Fraction {
        Fraction { num: self.num as int, den: self.den as int }
    }
}

/// The score of a candidate: the distance of the branching factor from the
/// target, plus a tenth for every clue above the minimum. Numerator and
/// denominator are both scaled by 1000.
pub open spec fn score_of(
    cfg: GeneratorConfig,
    board: Seq<Option<u8>>,
    factor: BranchingFactor,
) -> Fraction {
    Fraction {
        num: factor.scaled_distance(cfg.target_branching_factor as int) + 100 * (clue_count(board)
            - cfg.min_clues) * factor.denominator,
        den: factor.denominator as int,
    }
}

/// The score is strictly better than the best so far.
pub open spec fn beats(score: Fraction, best: Option<Fraction>) -> bool {
    match best {
        None => true,
        Some(b) => score.num * b.den < b.num * score.den,
    }
}

/// Where a removal pass stands: the puzzle, the best candidate so far
/// with its score, and the number of removals since the last check for a
/// completion.
pub struct RemovalView {
    pub puzzle: Seq<Option<u8>>,
    pub best: Option<Seq<Option<u8>>>,
    pub best_score: Option<Fraction>,
    pub since: int,
}

/// What one step of a removal pass leads to.
pub enum RemovalOutcome {
    /// The pass goes on from the given state.
    Continue(RemovalView),
    /// The clue count would fall below the minimum: the pass ends with the
    /// best candidate so far.
    Stop,
    /// The candidate is close enough to the target: the pass ends with it.
    Done(Seq<Option<u8>>),
}

/// One step of a removal pass: cell `idx` is cleared tentatively and the
/// result is judged.
pub open spec fn removal_step(cfg: GeneratorConfig, v: RemovalView, idx: int) -> RemovalOutcome {
    let cleared = v.puzzle.update(idx, None);
    let clues = clue_count(cleared);
    if clues < cfg.min_clues {
        RemovalOutcome::Stop
    } else {
        let check = v.since >= 3 || clues <= cfg.min_clues + 2;
        if check && !solvable(cleared) {
            RemovalOutcome::Continue(
                RemovalView { puzzle: v.puzzle, best: v.best, best_score: v.best_score, since: 0 },
            )
        } else {
            let since = if check {
                0
            } else {
                v.since + 1
            };
            let factor = initial_factor(cleared);
            let hardest = analysis_of(cleared).hardest_technique;
            let fits = meets(cfg, cleared, hardest, factor);
            let score = score_of(cfg, cleared, factor);
            let improved = fits && beats(score, v.best_score);
            let best = if improved {
                Some(cleared)
            } else {
                v.best
            };
            let best_score = if improved {
                Some(score)
            } else {
                v.best_score
            };
            if fits && factor.is_very_near(
                cfg.target_branching_factor as int,
                cfg.branching_factor_tolerance as int,
            ) {
                RemovalOutcome::Done(cleared)
            } else if overshoots(cfg.target_difficulty, hardest) {
                RemovalOutcome::Continue(
                    RemovalView { puzzle: v.puzzle, best, best_score, since },
                )
            } else {
                RemovalOutcome::Continue(RemovalView { puzzle: cleared, best, best_score, since })
            }
        }
    }
}

/// The outcome of a removal pass that stands at `v` and has the cells of
/// `order` from position `k` on still to visit.
pub open spec fn removal_run(
    cfg: GeneratorConfig,
    v: RemovalView,
    order: Seq<usize>,
    k: int,
) -> Option<Seq<Option<u8>>>
    decreases order.len() - k,
{
    if k < 0 || k >= order.len() {
        v.best
    } else {
        match removal_step(cfg, v, order[k] as int) {
            RemovalOutcome::Continue(next) => removal_run(cfg, next, order, k + 1),
            RemovalOutcome::Stop => v.best,
            RemovalOutcome::Done(puzzle) => Some(puzzle),
        }
    }
}

/// The outcome of a removal pass over `order`, starting from a full grid.
pub open spec fn removal_result(
    cfg: GeneratorConfig,
    solution: Seq<Option<u8>>,
    order: Seq<usize>,
) -> Option<Seq<Option<u8>>> {
    removal_run(
        cfg,
        RemovalView { puzzle: solution, best: None, best_score: None, since: 0 },
        order,
        0,
    )
}

/// Generates puzzles for one configuration.
pub struct PuzzleGenerator {
    config: GeneratorConfig,
}

impl PuzzleGenerator {
    /// The configuration of the generator.
    pub closed spec fn config(&self) -> GeneratorConfig {
        self.config
    }

    /// A generator for the given configuration.
    pub fn new(config: GeneratorConfig) -> (generator: PuzzleGenerator)
        ensures
            generator.config() == config,
    {
        PuzzleGenerator { config }
    }

    /// The budget of attempts of the configuration.
    pub fn attempt_budget(&self) -> (budget: u32)
        ensures
            budget == self.config().max_attempts,
    {
        self.config.max_attempts
    }

    /// Whether clues are removed in mirror pairs.
    pub fn symmetric_removal(&self) -> (symmetric: bool)
        ensures
            symmetric == self.config().prefer_symmetry,
    {
        self.config.prefer_symmetry
    }

    /// A generator with the configuration tuned for the given level.
    pub fn with_difficulty(difficulty: DifficultyLevel) -> (generator: PuzzleGenerator)
        ensures
            generator.config() == GeneratorConfig::preset(difficulty),
    {
        PuzzleGenerator::new(GeneratorConfig::for_difficulty(difficulty))
    }

    /// The branching factor of a puzzle before any technique is applied.
    pub fn calculate_branching_factor(&self, puzzle: &[Option<u8>]) -> (factor: BranchingFactor)
        requires
            puzzle@.len() == 81,
            digits_in_range(puzzle@),
        ensures
            factor == initial_factor(puzzle@),
            0 < factor.denominator <= 81,
            factor.numerator <= 729,
    {
        let solver = HumanStyleSolver::new(puzzle);
        solver.calculate_branching_factor()
    }

    /// Whether the strongest technique of the analysis lies in the band of
    /// the target level.
    pub fn difficulty_matches_target(&self, analysis: &DifficultyAnalysis) -> (matches: bool)
        ensures
            matches == technique_in_band(
                self.config().target_difficulty,
                analysis.hardest_technique,
            ),
    {
        let rank = analysis.hardest_technique.rank();
        match self.config.target_difficulty {
            DifficultyLevel::VeryEasy => rank <= 0,
            DifficultyLevel::Easy => rank <= 1,
            DifficultyLevel::Medium => rank <= 4,
            DifficultyLevel::Hard => rank >= 6 && rank <= 8,
            DifficultyLevel::Expert => rank >= 10,
        }
    }

    /// Whether the strongest technique of the analysis lies above the band
    /// of the target level.
    pub fn difficulty_overshoot(&self, analysis: &DifficultyAnalysis) -> (over: bool)
        ensures
            over == overshoots(self.config().target_difficulty, analysis.hardest_technique),
    {
        let rank = analysis.hardest_technique.rank();
        match self.config.target_difficulty {
            DifficultyLevel::VeryEasy => rank > 0,
            DifficultyLevel::Easy => rank > 1,
            DifficultyLevel::Medium => rank > 4,
            DifficultyLevel::Hard => rank > 8,
            DifficultyLevel::Expert => false,
        }
    }

    /// Whether a puzzle with the given analysis and branching factor meets
    /// every constraint of the configuration.
    pub fn meets_all_constraints(
        &self,
        puzzle: &[Option<u8>],
        analysis: &DifficultyAnalysis,
        branching_factor: BranchingFactor,
    ) -> (ok: bool)
        ensures
            ok == meets(self.config(), puzzle@, analysis.hardest_technique, branching_factor),
    {
        let clues = count_clues(puzzle);
        if clues < self.config.min_clues || clues > self.config.max_clues {
            return false;
        }
        if !self.difficulty_matches_target(analysis) {
            return false;
        }
        if !branching_factor.at_least(self.config.min_branching_factor)
            || !branching_factor.at_most(self.config.max_branching_factor) {
            return false;
        }
        branching_factor.near(
            self.config.target_branching_factor,
            self.config.branching_factor_tolerance,
        )
    }

    /// The final validation of a generation run.
    pub fn validate_puzzle_enhanced(&self, puzzle: &[Option<u8>]) -> (ok: bool)
        requires
            puzzle@.len() == 81,
            digits_in_range(puzzle@),
        ensures
            ok == accepted(self.config(), puzzle@),
    {
        if !has_unique_solution(puzzle) {
            return false;
        }
        let analysis = analyze_difficulty(puzzle);
        let branching_factor = self.calculate_branching_factor(puzzle);
        self.meets_all_constraints(puzzle, &analysis, branching_factor)
    }

    /// A removal pass: the cells of `order` are cleared one after the other
    /// from the full grid `solution`, each removal is judged, and the pass
    /// ends with the candidate that comes close enough to the target
    /// branching factor, or else with the best candidate met.
    pub fn remove_clues(&self, solution: &[Option<u8>], order: &[usize]) -> (puzzle: Option<
        Vec<Option<u8>>,
    >)
        requires
            solution@.len() == 81,
            digits_in_range(solution@),
            forall|k: int| 0 <= k < order@.len() ==> (#[trigger] order@[k]) < 81,
        ensures
            puzzle is Some <==> removal_result(self.config(), solution@, order@) is Some,
            puzzle is Some ==> removal_result(self.config(), solution@, order@) == Some(
                puzzle->0@,
            ),
            puzzle is Some ==> puzzle->0@.len() == 81 && digits_in_range(puzzle->0@),
    {
        let cfg = self.config;
        let mut puzzle = slice_to_vec(solution);
        let mut best: Option<Vec<Option<u8>>> = None;
        let mut best_score: Option<Score> = None;
        let mut since: usize = 0;
        let ghost start = RemovalView {
            puzzle: solution@,
            best: None,
            best_score: None,
            since: 0,
        };
        let ghost mut view = start;
        let mut k: usize = 0;
        while k < order.len()
            invariant
                cfg == self.config(),
                k <= order@.len(),
                forall|i: int| 0 <= i < order@.len() ==> (#[trigger] order@[i]) < 81,
                puzzle@.len() == 81,
                digits_in_range(puzzle@),
                view.puzzle == puzzle@,
                view.since == since,
                since <= k,
                best is Some <==> view.best is Some,
                best is Some ==> view.best == Some(best->0@) && best->0@.len() == 81
                    && digits_in_range(best->0@),
                best_score is Some <==> view.best_score is Some,
                best_score is Some ==> view.best_score == Some(best_score->0@) && best_score->0.num
                    < 0x100_0000_0000 && 0 < best_score->0.den <= 81,
                removal_run(cfg, view, order@, k as int) == removal_result(
                    cfg,
                    solution@,
                    order@,
                ),
            decreases order@.len() - k,
        {
            let idx: usize = order[k];
            let saved = puzzle[idx];
            let ghost kept = puzzle@;
            puzzle[idx] = None;
            let ghost cleared = puzzle@;
            assert(cleared =~= kept.update(idx as int, None));
            let clues = count_clues(puzzle.as_slice());
            proof {
                lemma_empty_upto_bounds(cleared, 81);
            }
            if clues < cfg.min_clues {
                return best;
            }
            let check = since >= 3 || clues - cfg.min_clues <= 2;
            let ghost outcome = removal_step(cfg, view, idx as int);
            if check && !has_unique_solution(puzzle.as_slice()) {
                puzzle[idx] = saved;
                since = 0;
                proof {
                    assert(puzzle@ =~= kept);
                    view = RemovalView {
                        puzzle: kept,
                        best: view.best,
                        best_score: view.best_score,
                        since: 0,
                    };
                    assert(outcome == RemovalOutcome::Continue(view));
                }
            } else {
                since = if check {
                    0
                } else {
                    since + 1
                };
                let factor = self.calculate_branching_factor(puzzle.as_slice());
                let analysis = analyze_difficulty(puzzle.as_slice());
                let ghost mut next_best = view.best;
                let ghost mut next_score = view.best_score;
                if self.meets_all_constraints(puzzle.as_slice(), &analysis, factor) {
                    let distance: u128 = factor.distance_to(cfg.target_branching_factor);
                    assert(100 * (clues - cfg.min_clues) * factor.denominator <= 100 * 81 * 81)
                        by (nonlinear_arith)
                        requires
                            0 <= clues - cfg.min_clues <= 81,
                            0 < factor.denominator <= 81,
                    ;
                    assert(cfg.target_branching_factor * factor.denominator <= 0xffff_ffff * 81)
                        by (nonlinear_arith)
                        requires
                            0 <= cfg.target_branching_factor <= 0xffff_ffff,
                            0 < factor.denominator <= 81,
                    ;
                    let extra: u64 = 100 * ((clues - cfg.min_clues) as u64) * (
                    factor.denominator as u64);
                    let score = Score {
                        num: distance as u64 + extra,
                        den: factor.denominator as u64,
                    };
                    let improved = match best_score {
                        None => true,
                        Some(b) => {
                            assert(score.num * b.den <= 0x100_0000_0000 * 81 && b.num * score.den
                                <= 0x100_0000_0000 * 81) by (nonlinear_arith)
                                requires
                                    score.num < 0x100_0000_0000,
                                    b.num < 0x100_0000_0000,
                                    0 < b.den <= 81,
                                    0 < score.den <= 81,
                            ;
                            score.num * b.den < b.num * score.den
                        },
                    };
                    if improved {
                        best_score = Some(score);
                        best = Some(slice_to_vec(puzzle.as_slice()));
                        proof {
                            next_best = Some(cleared);
                            next_score = Some(score@);
                        }
                    }
                    if factor.very_near(
                        cfg.target_branching_factor,
                        cfg.branching_factor_tolerance,
                    ) {
                        assert(outcome == RemovalOutcome::Done(cleared));
                        return Some(puzzle);
                    }
                }
                if self.difficulty_overshoot(&analysis) {
                    puzzle[idx] = saved;
                    proof {
                        assert(puzzle@ =~= kept);
                    }
                }
                proof {
                    view = RemovalView {
                        puzzle: puzzle@,
                        best: next_best,
                        best_score: next_score,
                        since: since as int,
                    };
                    assert(outcome == RemovalOutcome::Continue(view));
                }
            }
            k += 1;
        }
        best
    }
}

} // verus!
