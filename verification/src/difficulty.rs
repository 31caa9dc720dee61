//! Difficulty analysis: the technique ladder is run to rest on the puzzle,
//! and the level follows from the strongest technique and the branching
//! factor, whichever asks for more.

use vstd::prelude::*;
use crate::grid::same_unit;
use crate::rules::{clue_count, complete, digits_in_range, empty_count, lemma_empty_upto_bounds};
use crate::solver::patterns::{at_rest, in_unit};
use crate::solver::{hardest_of, HumanStyleSolver, SolverState};
use crate::types::{BranchingFactor, DifficultyAnalysis, DifficultyLevel, SolvingTechnique, BOARD_SIZE};
use crate::validator::count_clues;

verus! {

/// Number of filled cells among the first `n` that lie in the unit of the
/// given kind (0 row, 1 column, 2 box) of cell `i`.
pub open spec fn filled_in_unit(board: Seq<Option<u8>>, kind: int, i: int, n: int) -> int
    decreases n,
{
    if n <= 0 {
        0
    } else {
        filled_in_unit(board, kind, i, n - 1) + if board[n - 1] is Some && in_unit(kind, i, n - 1) {
            1int
        } else {
            0int
        }
    }
}

/// Number of clues in the row, the column and the box of cell `i`, added
/// up (cell `i` itself counts in each).
pub open spec fn crowding(board: Seq<Option<u8>>, i: int) -> int {
    filled_in_unit(board, 0, i, 81) + filled_in_unit(board, 1, i, 81) + filled_in_unit(
        board,
        2,
        i,
        81,
    )
}

/// The crowding of the filled cells among the first `n`, added up.
pub open spec fn density_upto(board: Seq<Option<u8>>, n: int) -> int
    decreases n,
{
    if n <= 0 {
        0
    } else {
        density_upto(board, n - 1) + if board[n - 1] is Some {
            crowding(board, n - 1)
        } else {
            0int
        }
    }
}

/// How clustered the clues are: the crowding of every clue, added up.
pub open spec fn constraint_density(board: Seq<Option<u8>>) -> int {
    density_upto(board, 81)
}

/// The complexity of a puzzle, kept exact by its two ingredients.
///
/// The score is `3 - density / (3 * clues) + (35 - clues) / 10`, confined
/// to the range 1 to 5; a board without clues scores 1.
#[derive(Debug, Clone, Copy, PartialEq, Eq, Structural)]
pub struct PuzzleComplexity {
    /// Number of clues.
    pub clues: u8,
    /// The crowding of every clue, added up.
    pub density: u16,
}

/// The score exceeds `tenths / 10`, for a threshold between 1 and 5.
pub open spec fn score_exceeds(clues: int, density: int, tenths: int) -> bool {
    195 * clues > 3 * tenths * clues + 10 * density + 3 * clues * clues
}

impl PuzzleComplexity {
    /// Whether the score exceeds `tenths / 10`. The threshold must lie
    /// between 1 and 5, where the confinement of the score does not matter.
    pub fn exceeds(&self, tenths: u8) -> (over: bool)
        requires
            10 <= tenths <= 50,
        ensures
            over == score_exceeds(self.clues as int, self.density as int, tenths as int),
    {
        let n: u64 = self.clues as u64;
        let d: u64 = self.density as u64;
        let t: u64 = tenths as u64;
        assert(3 * t * n <= 3 * 50 * 255 && 3 * n * n <= 3 * 255 * 255) by (nonlinear_arith)
            requires
                n <= 255,
                t <= 50,
        ;
        195 * n > 3 * t * n + 10 * d + 3 * n * n
    }
}

/// The technique that clue count and clustering suggest for a puzzle
/// that the ladder leaves unfinished.
pub open spec fn heuristic_of(clues: int, density: int) -> SolvingTechnique {
    if 45 <= clues <= 81 {
        SolvingTechnique::NakedSingle
    } else if 36 <= clues <= 44 {
        SolvingTechnique::HiddenSingle
    } else if 34 <= clues <= 35 {
        SolvingTechnique::HiddenPair
    } else if 32 <= clues <= 33 {
        if score_exceeds(clues, density, 28) {
            SolvingTechnique::NakedPair
        } else {
            SolvingTechnique::HiddenPair
        }
    } else if 30 <= clues <= 31 {
        SolvingTechnique::NakedPair
    } else if 28 <= clues <= 29 {
        SolvingTechnique::BoxLineReduction
    } else if clues == 27 {
        if score_exceeds(clues, density, 28) {
            SolvingTechnique::PointingPairs
        } else {
            SolvingTechnique::BoxLineReduction
        }
    } else if clues == 26 {
        SolvingTechnique::PointingPairs
    } else if clues == 25 {
        if score_exceeds(clues, density, 32) {
            SolvingTechnique::XWing
        } else {
            SolvingTechnique::PointingPairs
        }
    } else if 22 <= clues <= 24 {
        if score_exceeds(clues, density, 38) {
            SolvingTechnique::Swordfish
        } else {
            SolvingTechnique::XWing
        }
    } else if 20 <= clues <= 21 {
        SolvingTechnique::Swordfish
    } else if 18 <= clues <= 19 {
        if score_exceeds(clues, density, 42) {
            SolvingTechnique::XYWing
        } else {
            SolvingTechnique::Swordfish
        }
    } else if clues == 17 {
        if score_exceeds(clues, density, 45) {
            SolvingTechnique::XYChain
        } else {
            SolvingTechnique::XYWing
        }
    } else {
        SolvingTechnique::ForcingChain
    }
}

/// The level that a technique stands for by itself.
pub open spec fn technique_tier(
    hardest: SolvingTechnique,
    factor: BranchingFactor,
) -> DifficultyLevel {
    match hardest {
        SolvingTechnique::NakedSingle => if factor.within_milli(1700) {
            DifficultyLevel::VeryEasy
        } else {
            DifficultyLevel::Easy
        },
        SolvingTechnique::HiddenSingle => DifficultyLevel::Easy,
        SolvingTechnique::NakedPair
        | SolvingTechnique::HiddenPair
        | SolvingTechnique::BoxLineReduction
        | SolvingTechnique::PointingPairs => DifficultyLevel::Medium,
        SolvingTechnique::XWing | SolvingTechnique::PointingTriples => DifficultyLevel::Hard,
        _ => DifficultyLevel::Expert,
    }
}

/// The level that a branching factor stands for by itself: up to 1.7
/// very easy, up to 2.2 easy, up to 3.8 medium, up to 6.0 hard, expert
/// beyond.
pub open spec fn factor_band(factor: BranchingFactor) -> DifficultyLevel {
    if factor.within_milli(1700) {
        DifficultyLevel::VeryEasy
    } else if factor.within_milli(2200) {
        DifficultyLevel::Easy
    } else if factor.within_milli(3800) {
        DifficultyLevel::Medium
    } else if factor.within_milli(6000) {
        DifficultyLevel::Hard
    } else {
        DifficultyLevel::Expert
    }
}

/// The level of a puzzle: the harder of what the technique and what the
/// branching factor stand for.
pub open spec fn level_of(hardest: SolvingTechnique, factor: BranchingFactor) -> DifficultyLevel {
    technique_tier(hardest, factor).harder(factor_band(factor))
}

/// The analysis of a board: the ladder is run to rest from the board's
/// initial state; the strongest technique used counts, unless only singles
/// were used and the board stayed unfinished, where the heuristic decides.
pub open spec fn analysis_of(board: Seq<Option<u8>>) -> DifficultyAnalysis {
    let rest = at_rest(SolverState::initial(board));
    let basic = hardest_of(rest.used);
    let factor = BranchingFactor::ratio(rest.total(), empty_count(rest.board));
    let hardest = if basic.ordinal() <= 1 && !complete(rest.board) {
        heuristic_of(clue_count(board), constraint_density(board))
    } else {
        basic
    };
    DifficultyAnalysis {
        level: level_of(hardest, factor),
        hardest_technique: hardest,
        technique_diversity: rest.used.len() as usize,
        branching_factor: factor,
    }
}

/// Analyses the difficulty of a puzzle.
pub fn analyze_difficulty(board: &[Option<u8>]) -> (analysis: DifficultyAnalysis)
    requires
        board@.len() == 81,
        digits_in_range(board@),
    ensures
        analysis == analysis_of(board@),
{
    let mut solver = HumanStyleSolver::new(board);
    let solved = solver.solve_with_techniques();
    let basic = solver.get_hardest_technique_used();
    let diversity = solver.get_techniques_used().len();
    let factor = solver.calculate_branching_factor();
    let hardest = if basic.rank() <= 1 && !solved {
        analyze_difficulty_heuristic(board)
    } else {
        basic
    };
    let level = classify_difficulty_level(hardest, diversity, factor);
    DifficultyAnalysis {
        level,
        hardest_technique: hardest,
        technique_diversity: diversity,
        branching_factor: factor,
    }
}

/// The technique that clue count and clustering suggest.
pub fn analyze_difficulty_heuristic(board: &[Option<u8>]) -> (technique: SolvingTechnique)
    requires
        board@.len() == 81,
    ensures
        technique == heuristic_of(clue_count(board@), constraint_density(board@)),
{
    let complexity = calculate_puzzle_complexity(board);
    let clues = complexity.clues;
    proof {
        lemma_empty_upto_bounds(board@, 81);
    }
    if clues >= 45 {
        SolvingTechnique::NakedSingle
    } else if clues >= 36 {
        SolvingTechnique::HiddenSingle
    } else if clues >= 34 {
        SolvingTechnique::HiddenPair
    } else if clues >= 32 {
        if complexity.exceeds(28) {
            SolvingTechnique::NakedPair
        } else {
            SolvingTechnique::HiddenPair
        }
    } else if clues >= 30 {
        SolvingTechnique::NakedPair
    } else if clues >= 28 {
        SolvingTechnique::BoxLineReduction
    } else if clues == 27 {
        if complexity.exceeds(28) {
            SolvingTechnique::PointingPairs
        } else {
            SolvingTechnique::BoxLineReduction
        }
    } else if clues == 26 {
        SolvingTechnique::PointingPairs
    } else if clues == 25 {
        if complexity.exceeds(32) {
            SolvingTechnique::XWing
        } else {
            SolvingTechnique::PointingPairs
        }
    } else if clues >= 22 {
        if complexity.exceeds(38) {
            SolvingTechnique::Swordfish
        } else {
            SolvingTechnique::XWing
        }
    } else if clues >= 20 {
        SolvingTechnique::Swordfish
    } else if clues >= 18 {
        if complexity.exceeds(42) {
            SolvingTechnique::XYWing
        } else {
            SolvingTechnique::Swordfish
        }
    } else if clues == 17 {
        if complexity.exceeds(45) {
            SolvingTechnique::XYChain
        } else {
            SolvingTechnique::XYWing
        }
    } else {
        SolvingTechnique::ForcingChain
    }
}

/// Number of clues in the unit of the given kind of cell `i`.
fn count_in_unit(board: &[Option<u8>], kind: u8, i: usize) -> (count: usize)
    requires
        board@.len() == 81,
        i < 81,
    ensures
        count == filled_in_unit(board@, kind as int, i as int, 81),
        count <= 81,
{
    let mut count: usize = 0;
    let mut j: usize = 0;
    while j < BOARD_SIZE
        invariant
            board@.len() == 81,
            i < 81,
            j <= 81,
            count == filled_in_unit(board@, kind as int, i as int, j as int),
            count <= j,
        decreases 81 - j,
    {
        if board[j].is_some() && same_unit(kind, i, j) {
            count += 1;
        }
        j += 1;
    }
    count
}

/// The clue count and the clustering of the clues, from which the
/// complexity score derives.
pub fn calculate_puzzle_complexity(board: &[Option<u8>]) -> (complexity: PuzzleComplexity)
    requires
        board@.len() == 81,
    ensures
        complexity.clues == clue_count(board@),
        complexity.density == constraint_density(board@),
{
    let mut density: usize = 0;
    let mut i: usize = 0;
    while i < BOARD_SIZE
        invariant
            board@.len() == 81,
            i <= 81,
            density == density_upto(board@, i as int),
            density <= 243 * i,
        decreases 81 - i,
    {
        if board[i].is_some() {
            let crowd: usize = count_in_unit(board, 0, i) + count_in_unit(board, 1, i)
                + count_in_unit(board, 2, i);
            density += crowd;
        }
        i += 1;
    }
    let clues = count_clues(board);
    proof {
        lemma_empty_upto_bounds(board@, 81);
    }
    PuzzleComplexity { clues: clues as u8, density: density as u16 }
}

/// The level of a puzzle from its strongest technique and its branching
/// factor: the harder of the technique's tier and the factor's band.
///
/// Singles stand for Easy (a lone naked single for VeryEasy where the
/// factor is at most 1.7), pairs, box-line reduction and pointing pairs for
/// Medium, X-Wing and pointing triples for Hard, everything beyond for
/// Expert. The number of techniques used does not enter.
pub fn classify_difficulty_level(
    hardest_technique: SolvingTechnique,
    technique_count: usize,
    branching_factor: BranchingFactor,
) -> (level: DifficultyLevel)
    ensures
        level == level_of(hardest_technique, branching_factor),
{
    let band = if branching_factor.at_most(1700) {
        DifficultyLevel::VeryEasy
    } else if branching_factor.at_most(2200) {
        DifficultyLevel::Easy
    } else if branching_factor.at_most(3800) {
        DifficultyLevel::Medium
    } else if branching_factor.at_most(6000) {
        DifficultyLevel::Hard
    } else {
        DifficultyLevel::Expert
    };
    let tier = match hardest_technique {
        SolvingTechnique::NakedSingle => {
            if branching_factor.at_most(1700) {
                DifficultyLevel::VeryEasy
            } else {
                DifficultyLevel::Easy
            }
        },
        SolvingTechnique::HiddenSingle => DifficultyLevel::Easy,
        SolvingTechnique::NakedPair
        | SolvingTechnique::HiddenPair
        | SolvingTechnique::BoxLineReduction
        | SolvingTechnique::PointingPairs => DifficultyLevel::Medium,
        SolvingTechnique::XWing | SolvingTechnique::PointingTriples => DifficultyLevel::Hard,
        _ => DifficultyLevel::Expert,
    };
    tier.stricter(band)
}

} // verus!
