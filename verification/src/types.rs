//! Constants and the plain data types shared by every component.

use vstd::prelude::*;

verus! {

/// Number of cells on the board.
pub const BOARD_SIZE: usize = 81;

/// Number of rows, of columns, and of boxes.
pub const GRID_SIZE: usize = 9;

/// Side length of a box.
pub const BOX_SIZE: usize = 3;

/// What validation found: the cells in conflict, in ascending order, and
/// whether the board is both full and free of conflicts.
#[derive(Debug, Clone)]
pub struct ValidationResult {
    pub invalid_indices: Vec<usize>,
    pub is_complete: bool,
}

/// Difficulty of a puzzle, from easiest to hardest.
#[derive(Debug, Clone, Copy, PartialEq, Eq, PartialOrd, Ord, Structural)]
pub enum DifficultyLevel {
    VeryEasy,
    Easy,
    Medium,
    Hard,
    Expert,
}

impl DifficultyLevel {
    /// Position in the order VeryEasy < Easy < Medium < Hard < Expert.
    pub open spec fn ordinal(self) -> int {
        match self {
            DifficultyLevel::VeryEasy => 0,
            DifficultyLevel::Easy => 1,
            DifficultyLevel::Medium => 2,
            DifficultyLevel::Hard => 3,
            DifficultyLevel::Expert => 4,
        }
    }

    /// Position in the order VeryEasy < Easy < Medium < Hard < Expert.
    pub fn rank(&self) -> (r: u8)
        ensures
            r == self.ordinal(),
    {
        match self {
            DifficultyLevel::VeryEasy => 0,
            DifficultyLevel::Easy => 1,
            DifficultyLevel::Medium => 2,
            DifficultyLevel::Hard => 3,
            DifficultyLevel::Expert => 4,
        }
    }

    /// The harder of two levels.
    pub open spec fn harder(self, other: DifficultyLevel) -> DifficultyLevel {
        if self.ordinal() >= other.ordinal() {
            self
        } else {
            other
        }
    }

    /// The harder of two levels.
    pub fn stricter(self, other: DifficultyLevel) -> (r: DifficultyLevel)
        ensures
            r == self.harder(other),
    {
        if self.rank() >= other.rank() {
            self
        } else {
            other
        }
    }
}

/// A logical solving method. The order of the variants is the order of
/// difficulty, weakest first.
#[derive(Debug, Clone, Copy, PartialEq, Eq, PartialOrd, Ord, Structural)]
pub enum SolvingTechnique {
    /// A cell with a single candidate left.
    NakedSingle,
    /// A digit with a single place left in a unit.
    HiddenSingle,
    /// Two cells of a unit with the same two candidates.
    NakedPair,
    /// Two digits confined to the same two cells of a unit.
    HiddenPair,
    /// A digit confined, within a box, to one row or column.
    BoxLineReduction,
    /// A digit confined, within a row or column, to one box.
    PointingPairs,
    /// A digit confined to the same two columns in two rows (or the transpose).
    XWing,
    /// Three candidate places of a row or column inside one box.
    PointingTriples,
    /// The three-line generalisation of the X-Wing.
    Swordfish,
    /// Colour-based elimination.
    Coloring,
    /// A pivot and two wings, each with two candidates.
    XYWing,
    /// A chain of cells with two candidates each.
    XYChain,
    /// A chain of strong and weak links.
    ForcingChain,
    /// Guessing and backtracking.
    TrialAndError,
}

impl SolvingTechnique {
    /// Position in the order of difficulty, 0 for `NakedSingle` to 13 for `TrialAndError`.
    pub open spec fn ordinal(self) -> int {
        match self {
            SolvingTechnique::NakedSingle => 0,
            SolvingTechnique::HiddenSingle => 1,
            SolvingTechnique::NakedPair => 2,
            SolvingTechnique::HiddenPair => 3,
            SolvingTechnique::BoxLineReduction => 4,
            SolvingTechnique::PointingPairs => 5,
            SolvingTechnique::XWing => 6,
            SolvingTechnique::PointingTriples => 7,
            SolvingTechnique::Swordfish => 8,
            SolvingTechnique::Coloring => 9,
            SolvingTechnique::XYWing => 10,
            SolvingTechnique::XYChain => 11,
            SolvingTechnique::ForcingChain => 12,
            SolvingTechnique::TrialAndError => 13,
        }
    }

    /// Position in the order of difficulty, 0 for `NakedSingle` to 13 for `TrialAndError`.
    pub fn rank(&self) -> (r: u8)
        ensures
            r == self.ordinal(),
    {
        match self {
            SolvingTechnique::NakedSingle => 0,
            SolvingTechnique::HiddenSingle => 1,
            SolvingTechnique::NakedPair => 2,
            SolvingTechnique::HiddenPair => 3,
            SolvingTechnique::BoxLineReduction => 4,
            SolvingTechnique::PointingPairs => 5,
            SolvingTechnique::XWing => 6,
            SolvingTechnique::PointingTriples => 7,
            SolvingTechnique::Swordfish => 8,
            SolvingTechnique::Coloring => 9,
            SolvingTechnique::XYWing => 10,
            SolvingTechnique::XYChain => 11,
            SolvingTechnique::ForcingChain => 12,
            SolvingTechnique::TrialAndError => 13,
        }
    }
}

/// The mean number of candidates per empty cell, kept as an exact fraction.
///
/// A full board has the branching factor 1/1.
#[derive(Debug, Clone, Copy, PartialEq, Eq, Structural)]
pub struct BranchingFactor {
    /// Sum of the candidate counts of the empty cells (1 for a full board).
    pub numerator: usize,
    /// Number of empty cells (1 for a full board).
    pub denominator: usize,
}

impl BranchingFactor {
    /// The fraction for `candidate_total` candidates spread over `empty_cells` cells.
    pub open spec fn ratio(candidate_total: int, empty_cells: int) -> BranchingFactor {
        if empty_cells <= 0 {
            BranchingFactor { numerator: 1, denominator: 1 }
        } else {
            BranchingFactor {
                numerator: candidate_total as usize,
                denominator: empty_cells as usize,
            }
        }
    }

    /// The fraction is at most `limit` thousandths.
    pub open spec fn within_milli(self, limit: int) -> bool {
        self.numerator * 1000 <= limit * self.denominator
    }

    /// The fraction is at least `limit` thousandths.
    pub open spec fn reaches_milli(self, limit: int) -> bool {
        self.numerator * 1000 >= limit * self.denominator
    }

    /// `1000 * |fraction - target / 1000| * denominator`: the distance to a
    /// target given in thousandths, scaled by the denominator.
    pub open spec fn scaled_distance(self, target: int) -> int {
        if self.numerator * 1000 >= target * self.denominator {
            self.numerator * 1000 - target * self.denominator
        } else {
            target * self.denominator - self.numerator * 1000
        }
    }

    /// The fraction for `candidate_total` candidates spread over `empty_cells` cells.
    pub fn new(candidate_total: usize, empty_cells: usize) -> (r: BranchingFactor)
        ensures
            r == Self::ratio(candidate_total as int, empty_cells as int),
            r.denominator > 0,
    {
        if empty_cells == 0 {
            BranchingFactor { numerator: 1, denominator: 1 }
        } else {
            BranchingFactor { numerator: candidate_total, denominator: empty_cells }
        }
    }

    /// Whether the fraction is at most `limit` thousandths.
    pub fn at_most(&self, limit: u32) -> (r: bool)
        ensures
            r == self.within_milli(limit as int),
    {
        let lhs: u128 = (self.numerator as u128) * 1000u128;
        assert(limit * self.denominator <= 0x1_0000_0000 * 0x1_0000_0000_0000_0000)
            by (nonlinear_arith)
            requires
                0 <= limit <= 0xffff_ffff,
                0 <= self.denominator <= 0xffff_ffff_ffff_ffff,
        ;
        let rhs: u128 = (limit as u128) * (self.denominator as u128);
        lhs <= rhs
    }

    /// Whether the fraction is at least `limit` thousandths.
    pub fn at_least(&self, limit: u32) -> (r: bool)
        ensures
            r == self.reaches_milli(limit as int),
    {
        let lhs: u128 = (self.numerator as u128) * 1000u128;
        assert(limit * self.denominator <= 0x1_0000_0000 * 0x1_0000_0000_0000_0000)
            by (nonlinear_arith)
            requires
                0 <= limit <= 0xffff_ffff,
                0 <= self.denominator <= 0xffff_ffff_ffff_ffff,
        ;
        let rhs: u128 = (limit as u128) * (self.denominator as u128);
        lhs >= rhs
    }

    /// The fraction lies within `tolerance` thousandths of `target` thousandths.
    pub open spec fn is_near(self, target: int, tolerance: int) -> bool {
        self.scaled_distance(target) <= tolerance * self.denominator
    }

    /// The fraction lies within half of `tolerance` thousandths of `target` thousandths.
    pub open spec fn is_very_near(self, target: int, tolerance: int) -> bool {
        2 * self.scaled_distance(target) <= tolerance * self.denominator
    }

    /// Whether the fraction lies within `tolerance` thousandths of `target` thousandths.
    pub fn near(&self, target: u32, tolerance: u32) -> (r: bool)
        ensures
            r == self.is_near(target as int, tolerance as int),
    {
        let distance: u128 = self.distance_to(target);
        assert(tolerance * self.denominator <= 0x1_0000_0000 * 0x1_0000_0000_0000_0000)
            by (nonlinear_arith)
            requires
                0 <= tolerance <= 0xffff_ffff,
                0 <= self.denominator <= 0xffff_ffff_ffff_ffff,
        ;
        let bound: u128 = (tolerance as u128) * (self.denominator as u128);
        distance <= bound
    }

    /// Whether the fraction lies within half of `tolerance` thousandths of
    /// `target` thousandths.
    pub fn very_near(&self, target: u32, tolerance: u32) -> (r: bool)
        ensures
            r == self.is_very_near(target as int, tolerance as int),
    {
        let distance: u128 = self.distance_to(target);
        assert(tolerance * self.denominator <= 0x1_0000_0000 * 0x1_0000_0000_0000_0000)
            by (nonlinear_arith)
            requires
                0 <= tolerance <= 0xffff_ffff,
                0 <= self.denominator <= 0xffff_ffff_ffff_ffff,
        ;
        let bound: u128 = (tolerance as u128) * (self.denominator as u128);
        distance <= bound / 2 && 2 * distance <= bound
    }

    /// The distance to a target in thousandths, scaled by the denominator.
    pub fn distance_to(&self, target: u32) -> (r: u128)
        ensures
            r == self.scaled_distance(target as int),
            r <= 0x1_0000_0000 * 0x1_0000_0000_0000_0000,
            r <= 1000 * self.numerator + target * self.denominator,
    {
        let lhs: u128 = (self.numerator as u128) * 1000u128;
        assert(target * self.denominator <= 0x1_0000_0000 * 0x1_0000_0000_0000_0000)
            by (nonlinear_arith)
            requires
                0 <= target <= 0xffff_ffff,
                0 <= self.denominator <= 0xffff_ffff_ffff_ffff,
        ;
        let rhs: u128 = (target as u128) * (self.denominator as u128);
        if lhs >= rhs {
            lhs - rhs
        } else {
            rhs - lhs
        }
    }
}

/// The outcome of a difficulty analysis.
#[derive(Debug, Clone, Copy, PartialEq, Eq, Structural)]
pub struct DifficultyAnalysis {
    /// Overall difficulty.
    pub level: DifficultyLevel,
    /// The strongest technique the puzzle calls for.
    pub hardest_technique: SolvingTechnique,
    /// Number of different techniques that made progress.
    pub technique_diversity: usize,
    /// Mean number of candidates per empty cell.
    pub branching_factor: BranchingFactor,
}

} // verus!

pub use crate::candidates::CandidateGrid;
