//! A 9x9 Sudoku engine: board rules, a backtracking solver, a solver that
//! works through human deduction techniques, difficulty analysis, and a
//! puzzle generator. Every function carries a machine-checked contract.
//!
//! - [`rules`]: the mathematics of the game that every contract speaks of.
//! - [`grid`], [`candidates`], [`types`]: coordinates, candidate sets, and
//!   the plain data types.
//! - [`validator`]: validation and the backtracking solver.
//! - [`solver`]: the technique ladder, with the proof that it is sound.
//! - [`difficulty`], [`levels`]: analysis by level, and grading on the
//!   scale 1 to 5.
//! - [`generator`], [`classic`]: the generator with branching-factor
//!   control, and puzzle creation by plain removal.
//! - [`random`]: the one place where the random source is touched.
//! - [`host`]: the engine on boards of plain digits, for a host to call.
//! - [`theorems`]: laws that hold across the components.
//!
//! Two conventions run through the crate. Branching factors and other
//! ratios are exact fractions or thousandths, never floating-point
//! numbers. And "unique solution" is the engine's working notion: one
//! backtracking run finds a completion.

pub mod rules;
pub mod types;
pub mod grid;
pub mod candidates;
pub mod validator;
pub mod solver;
pub mod difficulty;
pub mod random;
pub mod generator;
pub mod levels;
pub mod classic;
pub mod host;
pub mod theorems;

pub use crate::types::{
    BranchingFactor, DifficultyAnalysis, DifficultyLevel, SolvingTechnique, ValidationResult,
    BOARD_SIZE, BOX_SIZE, GRID_SIZE,
};
pub use crate::validator::{
    count_clues, count_empty_cells, has_unique_solution, is_board_complete, is_board_valid, solve,
    solve_board, validate_board,
};
