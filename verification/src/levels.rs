//! Grading on the numeric scale 1 (very easy) to 5 (very hard): the
//! requirements of each grade, and the report that a puzzle is graded by.

use vstd::prelude::*;
use crate::rules::{clue_count, complete, digits_in_range, empty_count, solvable};
use crate::solver::patterns::at_rest;
use crate::solver::{hardest_of, HumanStyleSolver, SolverState};
use crate::types::{BranchingFactor, SolvingTechnique};
use crate::validator::{count_clues, has_unique_solution};

verus! {

/// What a grade asks of a puzzle.
pub struct GradeRequirements {
    pub min_clues: int,
    pub max_clues: int,
    /// The techniques that should suffice.
    pub techniques: Seq<SolvingTechnique>,
    /// The bound on the branching factor, in thousandths: an upper bound
    /// for the grades 1 to 4, a lower bound for grade 5.
    pub branching: int,
}

/// The requirements of each grade; any other number gets a fallback.
pub open spec fn requirements_of(level: u8) -> GradeRequirements {
    if level == 1 {
        GradeRequirements {
            min_clues: 38,
            max_clues: 45,
            techniques: seq![SolvingTechnique::NakedSingle, SolvingTechnique::HiddenSingle],
            branching: 1200,
        }
    } else if level == 2 {
        GradeRequirements {
            min_clues: 32,
            max_clues: 37,
            techniques: seq![
                SolvingTechnique::NakedSingle,
                SolvingTechnique::HiddenSingle,
                SolvingTechnique::NakedPair,
                SolvingTechnique::BoxLineReduction,
            ],
            branching: 1800,
        }
    } else if level == 3 {
        GradeRequirements {
            min_clues: 28,
            max_clues: 31,
            techniques: seq![
                SolvingTechnique::NakedSingle,
                SolvingTechnique::HiddenSingle,
                SolvingTechnique::NakedPair,
                SolvingTechnique::BoxLineReduction,
                SolvingTechnique::XWing,
                SolvingTechnique::PointingPairs,
            ],
            branching: 2000,
        }
    } else if level == 4 {
        GradeRequirements {
            min_clues: 24,
            max_clues: 27,
            techniques: seq![
                SolvingTechnique::NakedSingle,
                SolvingTechnique::HiddenSingle,
                SolvingTechnique::NakedPair,
                SolvingTechnique::BoxLineReduction,
                SolvingTechnique::XWing,
                SolvingTechnique::PointingPairs,
                SolvingTechnique::Swordfish,
                SolvingTechnique::XYWing,
            ],
            branching: 2500,
        }
    } else if level == 5 {
        GradeRequirements {
            min_clues: 22,
            max_clues: 24,
            techniques: seq![
                SolvingTechnique::NakedSingle,
                SolvingTechnique::HiddenSingle,
                SolvingTechnique::NakedPair,
                SolvingTechnique::BoxLineReduction,
                SolvingTechnique::XWing,
                SolvingTechnique::PointingPairs,
                SolvingTechnique::Swordfish,
                SolvingTechnique::XYWing,
                SolvingTechnique::XYChain,
                SolvingTechnique::ForcingChain,
            ],
            branching: 2000,
        }
    } else {
        GradeRequirements {
            min_clues: 30,
            max_clues: 40,
            techniques: seq![SolvingTechnique::NakedSingle],
            branching: 1500,
        }
    }
}

/// The requirements of a grade: least and greatest clue count, the
/// techniques that should suffice, and the bound on the branching factor in
/// thousandths.
pub fn get_difficulty_requirements(level: u8) -> (requirements: (
    usize,
    usize,
    Vec<SolvingTechnique>,
    u32,
))
    ensures
        requirements.0 == requirements_of(level).min_clues,
        requirements.1 == requirements_of(level).max_clues,
        requirements.2@ == requirements_of(level).techniques,
        requirements.3 == requirements_of(level).branching,
{
    let mut techniques: Vec<SolvingTechnique> = Vec::new();
    techniques.push(SolvingTechnique::NakedSingle);
    if level >= 1 && level <= 5 {
        techniques.push(SolvingTechnique::HiddenSingle);
    }
    if level >= 2 && level <= 5 {
        techniques.push(SolvingTechnique::NakedPair);
        techniques.push(SolvingTechnique::BoxLineReduction);
    }
    if level >= 3 && level <= 5 {
        techniques.push(SolvingTechnique::XWing);
        techniques.push(SolvingTechnique::PointingPairs);
    }
    if level >= 4 && level <= 5 {
        techniques.push(SolvingTechnique::Swordfish);
        techniques.push(SolvingTechnique::XYWing);
    }
    if level == 5 {
        techniques.push(SolvingTechnique::XYChain);
        techniques.push(SolvingTechnique::ForcingChain);
    }
    proof {
        assert(techniques@ =~= requirements_of(level).techniques);
    }
    if level == 1 {
        (38, 45, techniques, 1200)
    } else if level == 2 {
        (32, 37, techniques, 1800)
    } else if level == 3 {
        (28, 31, techniques, 2000)
    } else if level == 4 {
        (24, 27, techniques, 2500)
    } else if level == 5 {
        (22, 24, techniques, 2000)
    } else {
        (30, 40, techniques, 1500)
    }
}

/// The grade that a strongest technique stands for. Singles make grade 1
/// only with 38 clues or more and a branching factor of at most 1.2.
pub open spec fn grade_of(hardest: SolvingTechnique, clues: int, factor: BranchingFactor) -> u8 {
    match hardest {
        SolvingTechnique::NakedSingle | SolvingTechnique::HiddenSingle => if clues >= 38
            && factor.within_milli(1200) {
            1
        } else {
            2
        },
        SolvingTechnique::NakedPair
        | SolvingTechnique::HiddenPair
        | SolvingTechnique::BoxLineReduction
        | SolvingTechnique::PointingPairs => 2,
        SolvingTechnique::XWing | SolvingTechnique::PointingTriples => 3,
        SolvingTechnique::Swordfish | SolvingTechnique::Coloring | SolvingTechnique::XYWing => 4,
        _ => 5,
    }
}

/// The grade, 1 to 5, that a strongest technique stands for.
pub fn classify_difficulty_by_technique(
    hardest_technique: SolvingTechnique,
    clue_count: usize,
    branching_factor: BranchingFactor,
) -> (grade: u8)
    ensures
        grade == grade_of(hardest_technique, clue_count as int, branching_factor),
        1 <= grade <= 5,
{
    match hardest_technique {
        SolvingTechnique::NakedSingle | SolvingTechnique::HiddenSingle => {
            if clue_count >= 38 && branching_factor.at_most(1200) {
                1
            } else {
                2
            }
        },
        SolvingTechnique::NakedPair
        | SolvingTechnique::HiddenPair
        | SolvingTechnique::BoxLineReduction
        | SolvingTechnique::PointingPairs => 2,
        SolvingTechnique::XWing | SolvingTechnique::PointingTriples => 3,
        SolvingTechnique::Swordfish | SolvingTechnique::Coloring | SolvingTechnique::XYWing => 4,
        _ => 5,
    }
}

/// The report that a puzzle is graded by.
#[derive(Debug)]
pub struct PuzzleReport {
    /// The grade, 1 to 5.
    pub difficulty_level: u8,
    pub clue_count: usize,
    /// The techniques that made progress, in the order of their first use.
    pub techniques_required: Vec<SolvingTechnique>,
    /// The strongest technique used, or trial and error where the ladder
    /// leaves the puzzle unfinished.
    pub hardest_technique: SolvingTechnique,
    /// The branching factor of the state in which the ladder came to rest.
    pub branching_factor: BranchingFactor,
    /// Whether a backtracking run finds a completion.
    pub uniqueness_verified: bool,
}

/// The strongest technique of the report of a board.
pub open spec fn reported_technique(board: Seq<Option<u8>>) -> SolvingTechnique {
    let rest = at_rest(SolverState::initial(board));
    if complete(rest.board) {
        hardest_of(rest.used)
    } else {
        SolvingTechnique::TrialAndError
    }
}

/// The branching factor of the report of a board.
pub open spec fn reported_factor(board: Seq<Option<u8>>) -> BranchingFactor {
    let rest = at_rest(SolverState::initial(board));
    BranchingFactor::ratio(rest.total(), empty_count(rest.board))
}

/// The report is the report of the board.
pub open spec fn reports(report: PuzzleReport, board: Seq<Option<u8>>) -> bool {
    &&& report.clue_count == clue_count(board)
    &&& report.techniques_required@ == at_rest(SolverState::initial(board)).used
    &&& report.hardest_technique == reported_technique(board)
    &&& report.branching_factor == reported_factor(board)
    &&& report.difficulty_level == grade_of(
        reported_technique(board),
        clue_count(board),
        reported_factor(board),
    )
    &&& report.uniqueness_verified == solvable(board)
}

/// Grades a puzzle: the ladder is run to rest; where it finishes the
/// puzzle the strongest technique used decides, where it does not, the
/// puzzle counts as trial and error.
pub fn analyze_difficulty(board: &[Option<u8>]) -> (report: PuzzleReport)
    requires
        board@.len() == 81,
        digits_in_range(board@),
    ensures
        reports(report, board@),
{
    let clues = count_clues(board);
    let mut solver = HumanStyleSolver::new(board);
    let solved = solver.solve_with_techniques();
    let hardest = if solved {
        solver.get_hardest_technique_used()
    } else {
        SolvingTechnique::TrialAndError
    };
    let factor = solver.calculate_branching_factor();
    let grade = classify_difficulty_by_technique(hardest, clues, factor);
    let used = solver.get_techniques_used();
    let mut techniques: Vec<SolvingTechnique> = Vec::new();
    let mut k: usize = 0;
    while k < used.len()
        invariant
            k <= used@.len(),
            techniques@ == used@.subrange(0, k as int),
        decreases used@.len() - k,
    {
        techniques.push(used[k]);
        proof {
            assert(techniques@ =~= used@.subrange(0, k + 1));
        }
        k += 1;
    }
    proof {
        assert(used@.subrange(0, k as int) =~= used@);
    }
    PuzzleReport {
        difficulty_level: grade,
        clue_count: clues,
        techniques_required: techniques,
        hardest_technique: hardest,
        branching_factor: factor,
        uniqueness_verified: has_unique_solution(board),
    }
}

/// The technique is one of the kind that the grade calls for: a pair or a
/// wing for grade 3, a wing or the Swordfish for grade 4, the Swordfish, a
/// chain or an XY technique for grade 5. The other grades call for nothing.
pub open spec fn technique_suits(target: u8, hardest: SolvingTechnique) -> bool {
    let pair = hardest == SolvingTechnique::NakedPair || hardest == SolvingTechnique::HiddenPair
        || hardest == SolvingTechnique::PointingPairs;
    let wing = hardest == SolvingTechnique::XWing || hardest == SolvingTechnique::XYWing;
    let chain = hardest == SolvingTechnique::XYChain || hardest == SolvingTechnique::ForcingChain;
    if target == 3 {
        pair || wing
    } else if target == 4 {
        wing || hardest == SolvingTechnique::Swordfish
    } else if target == 5 {
        hardest == SolvingTechnique::Swordfish || chain || hardest == SolvingTechnique::XYWing
    } else {
        true
    }
}

/// A puzzle with the given report meets the requirements of the grade.
pub open spec fn suits_grade(
    target: u8,
    clues: int,
    hardest: SolvingTechnique,
    factor: BranchingFactor,
    verified: bool,
) -> bool {
    let requirements = requirements_of(target);
    &&& requirements.min_clues <= clues <= requirements.max_clues
    &&& (target <= 4 ==> factor.within_milli(requirements.branching))
    &&& (target == 5 ==> factor.reaches_milli(requirements.branching))
    &&& technique_suits(target, hardest)
    &&& verified
}

/// Whether the technique is one of the kind that the grade calls for.
pub fn technique_is_suitable(target_difficulty: u8, hardest: SolvingTechnique) -> (suits: bool)
    ensures
        suits == technique_suits(target_difficulty, hardest),
{
    let pair = hardest == SolvingTechnique::NakedPair || hardest == SolvingTechnique::HiddenPair
        || hardest == SolvingTechnique::PointingPairs;
    let wing = hardest == SolvingTechnique::XWing || hardest == SolvingTechnique::XYWing;
    let chain = hardest == SolvingTechnique::XYChain || hardest == SolvingTechnique::ForcingChain;
    if target_difficulty == 3 {
        pair || wing
    } else if target_difficulty == 4 {
        wing || hardest == SolvingTechnique::Swordfish
    } else if target_difficulty == 5 {
        hardest == SolvingTechnique::Swordfish || chain || hardest == SolvingTechnique::XYWing
    } else {
        true
    }
}

/// Whether a puzzle meets the requirements of a grade: the clue count lies
/// in the range of the grade, the branching factor on the right side of the
/// grade's bound, the strongest technique is of the kind that the grade
/// calls for, and the puzzle has a completion.
pub fn validates_difficulty_requirements(board: &[Option<u8>], target_difficulty: u8) -> (ok: bool)
    requires
        board@.len() == 81,
        digits_in_range(board@),
    ensures
        ok == suits_grade(
            target_difficulty,
            clue_count(board@),
            reported_technique(board@),
            reported_factor(board@),
            solvable(board@),
        ),
{
    let analysis = analyze_difficulty(board);
    let (min_clues, max_clues, _techniques, bound) = get_difficulty_requirements(target_difficulty);
    if analysis.clue_count < min_clues || analysis.clue_count > max_clues {
        return false;
    }
    if target_difficulty <= 4 && !analysis.branching_factor.at_most(bound) {
        return false;
    }
    if target_difficulty == 5 && !analysis.branching_factor.at_least(bound) {
        return false;
    }
    technique_is_suitable(target_difficulty, analysis.hardest_technique)
        && analysis.uniqueness_verified
}

} // verus!
