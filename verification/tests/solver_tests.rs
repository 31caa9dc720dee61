use sudoku_wasm::solver::HumanStyleSolver;
use sudoku_wasm::types::{BranchingFactor, CandidateGrid, SolvingTechnique, BOARD_SIZE};

fn parse(text: &str) -> Vec<Option<u8>> {
    text.bytes().map(|b| if b == b'.' { None } else { Some(b - b'0') }).collect()
}

fn value(factor: BranchingFactor) -> f64 {
    factor.numerator as f64 / factor.denominator as f64
}

/// Leaves, in cell `cell` of the solver, only the digits of `keep`.
fn keep_only(solver: &mut HumanStyleSolver, cell: usize, keep: &[u8]) {
    for digit in 1..=9u8 {
        if !keep.contains(&digit) {
            solver.eliminate(cell, digit);
        }
    }
}

fn empty_solver() -> HumanStyleSolver {
    HumanStyleSolver::new(&vec![None; BOARD_SIZE])
}

const SOLVED: &str =
    "534678912672195348198342567859761423426853791713924856961537284287419635345286179";
const PUZZLE: &str =
    "53..7....6..195....98....6.8...6...34..8.3..17...2...6.6....28....419..5....8..79";

#[test]
fn solver_test_solver_creation() {
    let board = vec![None; BOARD_SIZE];
    let solver = HumanStyleSolver::new(&board);
    assert_eq!(solver.get_board().len(), BOARD_SIZE);
    assert!(!solver.is_solved());
}

#[test]
fn test_branching_factor_empty_board() {
    let board = vec![None; BOARD_SIZE];
    let solver = HumanStyleSolver::new(&board);
    assert!(value(solver.calculate_branching_factor()) > 5.0);
    assert_eq!(
        solver.calculate_branching_factor(),
        BranchingFactor { numerator: 729, denominator: 81 }
    );
}

#[test]
fn test_branching_factor_full_board() {
    let board = vec![Some(1); BOARD_SIZE];
    let solver = HumanStyleSolver::new(&board);
    assert_eq!(value(solver.calculate_branching_factor()), 1.0);
    assert_eq!(
        solver.calculate_branching_factor(),
        BranchingFactor { numerator: 1, denominator: 1 }
    );
}

#[test]
fn candidate_grid_operations() {
    let mut grid = CandidateGrid::new();
    assert_eq!(grid.candidate_count(0), 9);
    assert_eq!(grid.get_candidates(80), vec![1, 2, 3, 4, 5, 6, 7, 8, 9]);
    grid.remove_candidate(0, 5);
    assert!(!grid.has_candidate(0, 5));
    assert!(grid.has_candidate(0, 4));
    assert!(grid.has_candidate(1, 5));
    assert_eq!(grid.candidate_count(0), 8);
    assert_eq!(grid.get_candidates(0), vec![1, 2, 3, 4, 6, 7, 8, 9]);
    grid.remove_candidate(0, 5);
    assert_eq!(grid.candidate_count(0), 8);
    grid.set_only_candidate(7, 9);
    assert_eq!(grid.get_candidates(7), vec![9]);
    assert_eq!(grid.candidate_count(7), 1);
    assert_eq!(grid.candidate_count(8), 9);
    let fresh = CandidateGrid::default();
    assert_eq!(fresh.candidate_count(7), 9);
}

#[test]
fn clues_are_propagated_at_construction() {
    let mut board = vec![None; BOARD_SIZE];
    board[0] = Some(5);
    let solver = HumanStyleSolver::new(&board);
    assert_eq!(solver.cell(0), Some(5));
    assert_eq!(solver.live_count(0), 0);
    for cell in [1usize, 8, 9, 72, 10, 20] {
        assert!(!solver.is_live(cell, 5), "cell {} sees the clue", cell);
        assert_eq!(solver.live_count(cell), 8);
    }
    for cell in [30usize, 40, 80] {
        assert!(solver.is_live(cell, 5));
        assert_eq!(solver.live_count(cell), 9);
    }
    assert_eq!(
        solver.calculate_branching_factor(),
        BranchingFactor { numerator: 80 * 9 - 20, denominator: 80 }
    );
}

#[test]
fn one_empty_cell_is_solved_by_a_naked_single() {
    let mut board = parse(SOLVED);
    board[40] = None;
    let mut solver = HumanStyleSolver::new(&board);
    assert_eq!(solver.live_count(40), 1);
    assert!(solver.is_live(40, 5));
    assert!(solver.solve_with_techniques());
    assert_eq!(solver.get_board(), &parse(SOLVED)[..]);
    assert_eq!(solver.get_techniques_used(), &[SolvingTechnique::NakedSingle][..]);
    assert_eq!(solver.get_hardest_technique_used(), SolvingTechnique::NakedSingle);
}

#[test]
fn the_ladder_solves_a_classic_puzzle() {
    let mut solver = HumanStyleSolver::new(&parse(PUZZLE));
    assert!(!solver.is_solved());
    assert!(solver.solve_with_techniques());
    assert!(solver.is_solved());
    assert_eq!(solver.get_board(), &parse(SOLVED)[..]);
    let used = solver.get_techniques_used();
    assert!(!used.is_empty());
    let mut sorted = used.to_vec();
    sorted.sort();
    sorted.dedup();
    assert_eq!(sorted.len(), used.len());
    assert_eq!(solver.get_hardest_technique_used(), *sorted.last().unwrap());
    assert_eq!(
        solver.calculate_branching_factor(),
        BranchingFactor { numerator: 1, denominator: 1 }
    );
}

#[test]
fn the_ladder_rests_on_the_empty_board() {
    let mut solver = empty_solver();
    assert!(!solver.solve_with_techniques());
    assert!(solver.get_techniques_used().is_empty());
    assert_eq!(solver.get_hardest_technique_used(), SolvingTechnique::NakedSingle);
    assert_eq!(
        solver.calculate_branching_factor(),
        BranchingFactor { numerator: 729, denominator: 81 }
    );
    assert!(!solver.apply_basic_techniques());
    assert!(!solver.apply_intermediate_techniques());
    assert!(!solver.apply_advanced_techniques());
}

#[test]
fn naked_singles_fill_every_decided_cell_at_once() {
    let mut solver = empty_solver();
    keep_only(&mut solver, 0, &[4]);
    keep_only(&mut solver, 80, &[7]);
    assert!(solver.find_naked_singles());
    assert_eq!(solver.cell(0), Some(4));
    assert_eq!(solver.cell(80), Some(7));
    assert_eq!(solver.cell(40), None);
    assert!(!solver.is_live(1, 4));
    assert!(!solver.is_live(9, 4));
    assert!(!solver.is_live(10, 4));
    assert!(solver.is_live(40, 4));
    assert!(!solver.is_live(72, 7));
    assert!(solver.is_live(1, 7));
    assert_eq!(solver.get_techniques_used(), &[SolvingTechnique::NakedSingle][..]);
    assert!(!solver.find_naked_singles());
    assert_eq!(solver.get_techniques_used(), &[SolvingTechnique::NakedSingle][..]);
}

#[test]
fn a_hidden_single_is_placed() {
    let mut solver = empty_solver();
    for col in 0..9usize {
        if col != 3 {
            solver.eliminate(col, 5);
        }
    }
    assert!(!solver.find_naked_singles());
    assert!(solver.find_hidden_singles());
    assert_eq!(solver.cell(3), Some(5));
    assert!(!solver.is_live(12, 5));
    assert!(!solver.is_live(75, 5));
    assert!(solver.is_live(40, 5));
    assert_eq!(solver.get_techniques_used(), &[SolvingTechnique::HiddenSingle][..]);
}

#[test]
fn a_naked_pair_strikes_its_digits_from_the_unit() {
    let mut solver = empty_solver();
    keep_only(&mut solver, 0, &[1, 2]);
    keep_only(&mut solver, 1, &[1, 2]);
    assert!(solver.naked_pair_strikes(5, 1));
    assert!(solver.naked_pair_strikes(10, 2));
    assert!(!solver.naked_pair_strikes(5, 3));
    assert!(!solver.naked_pair_strikes(40, 1));
    assert!(solver.find_naked_pairs());
    for cell in [2usize, 5, 8, 9, 10, 20] {
        assert!(!solver.is_live(cell, 1));
        assert!(!solver.is_live(cell, 2));
        assert_eq!(solver.live_count(cell), 7);
    }
    assert_eq!(solver.live_count(0), 2);
    assert_eq!(solver.live_count(1), 2);
    assert_eq!(solver.live_count(27), 9);
    assert_eq!(solver.get_techniques_used(), &[SolvingTechnique::NakedPair][..]);
    assert!(!solver.find_naked_pairs());
}

#[test]
fn a_hidden_pair_strikes_the_other_digits_from_its_cells() {
    let mut solver = empty_solver();
    for col in 2..9usize {
        solver.eliminate(col, 1);
        solver.eliminate(col, 2);
    }
    assert!(solver.hidden_pair_strikes(0, 3));
    assert!(!solver.hidden_pair_strikes(0, 1));
    assert!(!solver.hidden_pair_strikes(2, 3));
    assert!(solver.find_hidden_pairs());
    assert_eq!(solver.live_count(0), 2);
    assert_eq!(solver.live_count(1), 2);
    assert!(solver.is_live(0, 1) && solver.is_live(0, 2));
    assert!(solver.is_live(1, 1) && solver.is_live(1, 2));
    assert_eq!(solver.live_count(2), 7);
    assert_eq!(solver.get_techniques_used(), &[SolvingTechnique::HiddenPair][..]);
}

#[test]
fn a_box_line_reduction_strikes_along_the_line() {
    let mut solver = empty_solver();
    for cell in [9usize, 10, 11, 18, 19, 20] {
        solver.eliminate(cell, 1);
    }
    assert!(solver.box_line_strikes(3, 1));
    assert!(!solver.box_line_strikes(0, 1));
    assert!(!solver.box_line_strikes(12, 1));
    assert!(solver.find_box_line_reduction());
    for col in 3..9usize {
        assert!(!solver.is_live(col, 1));
    }
    for col in 0..3usize {
        assert!(solver.is_live(col, 1));
    }
    assert!(solver.is_live(12, 1));
    assert_eq!(solver.get_techniques_used(), &[SolvingTechnique::BoxLineReduction][..]);
}

#[test]
fn a_pointing_pair_strikes_within_the_box() {
    let mut solver = empty_solver();
    for col in 2..9usize {
        solver.eliminate(col, 1);
    }
    assert!(solver.pointing_pair_strikes(9, 1));
    assert!(solver.pointing_pair_strikes(20, 1));
    assert!(!solver.pointing_pair_strikes(12, 1));
    assert!(!solver.pointing_triple_strikes(9, 1));
    assert!(solver.find_pointing_pairs());
    for cell in [9usize, 10, 11, 18, 19, 20] {
        assert!(!solver.is_live(cell, 1));
    }
    assert!(solver.is_live(0, 1) && solver.is_live(1, 1));
    assert!(solver.is_live(12, 1));
    assert_eq!(solver.get_techniques_used(), &[SolvingTechnique::PointingPairs][..]);
}

#[test]
fn a_pointing_triple_strikes_within_the_box() {
    let mut solver = empty_solver();
    for col in 3..9usize {
        solver.eliminate(col, 1);
    }
    assert!(solver.pointing_triple_strikes(9, 1));
    assert!(!solver.pointing_triple_strikes(12, 1));
    assert!(solver.find_pointing_triples());
    for cell in [9usize, 10, 11, 18, 19, 20] {
        assert!(!solver.is_live(cell, 1));
    }
    assert!(solver.is_live(0, 1) && solver.is_live(1, 1) && solver.is_live(2, 1));
    assert_eq!(solver.get_techniques_used(), &[SolvingTechnique::PointingTriples][..]);
}

#[test]
fn an_x_wing_strikes_along_the_crossing_lines() {
    let mut solver = empty_solver();
    for col in 0..9usize {
        if col != 2 && col != 6 {
            solver.eliminate(col, 1);
            solver.eliminate(36 + col, 1);
        }
    }
    assert!(solver.x_wing_strikes(9 + 2, 1));
    assert!(solver.x_wing_strikes(72 + 6, 1));
    assert!(!solver.x_wing_strikes(9 + 3, 1));
    assert!(!solver.x_wing_strikes(2, 1));
    assert!(solver.find_x_wing());
    for row in 0..9usize {
        let expected = row == 0 || row == 4;
        assert_eq!(solver.is_live(row * 9 + 2, 1), expected);
        assert_eq!(solver.is_live(row * 9 + 6, 1), expected);
    }
    assert!(solver.is_live(9 + 3, 1));
    assert_eq!(solver.get_techniques_used(), &[SolvingTechnique::XWing][..]);
}

#[test]
fn an_xy_wing_strikes_where_both_wings_are_seen() {
    let mut solver = empty_solver();
    keep_only(&mut solver, 0, &[1, 2]);
    keep_only(&mut solver, 4, &[1, 3]);
    keep_only(&mut solver, 36, &[2, 3]);
    assert!(solver.xy_wing_strikes(40, 3));
    assert!(!solver.xy_wing_strikes(40, 1));
    assert!(!solver.xy_wing_strikes(41, 3));
    assert!(solver.find_xy_wing());
    assert!(!solver.is_live(40, 3));
    assert_eq!(solver.live_count(40), 8);
    assert!(solver.is_live(4, 3) && solver.is_live(36, 3));
    assert!(solver.is_live(41, 3));
    assert_eq!(solver.get_techniques_used(), &[SolvingTechnique::XYWing][..]);
    assert!(!solver.find_xy_wing());
}

#[test]
fn a_swordfish_strikes_along_the_crossing_lines() {
    let mut solver = empty_solver();
    for row in [0usize, 3, 6] {
        for col in 0..9usize {
            if col != 0 && col != 4 && col != 8 {
                solver.eliminate(row * 9 + col, 1);
            }
        }
    }
    solver.eliminate(3 * 9 + 8, 1);
    assert!(solver.swordfish_strikes(9, 1));
    assert!(solver.swordfish_strikes(9 * 8 + 4, 1));
    assert!(!solver.swordfish_strikes(0, 1));
    assert!(!solver.swordfish_strikes(10, 1));
    assert!(!solver.swordfish_strikes(9, 2));
    assert!(!solver.x_wing_strikes(9, 1));
    assert!(solver.find_swordfish());
    for row in 0..9usize {
        let on_a_line = row == 0 || row == 3 || row == 6;
        assert_eq!(solver.is_live(row * 9, 1), on_a_line);
        assert_eq!(solver.is_live(row * 9 + 4, 1), on_a_line);
        assert_eq!(solver.is_live(row * 9 + 8, 1), row == 0 || row == 6);
    }
    assert!(solver.is_live(10, 1));
    assert_eq!(solver.get_techniques_used(), &[SolvingTechnique::Swordfish][..]);
    assert!(!solver.find_swordfish());
}

#[test]
fn a_filled_cell_keeps_its_digit_as_only_candidate() {
    let mut solver = empty_solver();
    solver.place_number(40, 6);
    assert_eq!(solver.cell(40), Some(6));
    assert_eq!(solver.live_count(40), 0);
    assert!(!solver.is_live(40, 6));
    assert!(!solver.is_live(41, 6));
    assert!(!solver.is_live(4, 6));
    assert!(!solver.is_live(30, 6));
    assert!(solver.is_live(0, 6));
    assert!(solver.is_live(41, 5));
}

#[test]
fn the_weakest_technique_that_makes_progress_is_applied() {
    let mut solver = empty_solver();
    keep_only(&mut solver, 0, &[1, 2]);
    keep_only(&mut solver, 1, &[1, 2]);
    keep_only(&mut solver, 40, &[9]);
    assert!(solver.apply_basic_techniques());
    assert_eq!(solver.cell(40), Some(9));
    assert!(solver.is_live(2, 1));
    assert!(!solver.apply_basic_techniques());
    assert!(solver.apply_intermediate_techniques());
    assert!(!solver.is_live(2, 1));
    assert_eq!(
        solver.get_techniques_used(),
        &[SolvingTechnique::NakedSingle, SolvingTechnique::NakedPair][..]
    );
    assert_eq!(solver.get_hardest_technique_used(), SolvingTechnique::NakedPair);
}

#[test]
fn techniques_are_ordered_by_strength() {
    assert!(SolvingTechnique::NakedSingle < SolvingTechnique::HiddenSingle);
    assert!(SolvingTechnique::PointingPairs < SolvingTechnique::XWing);
    assert!(SolvingTechnique::ForcingChain < SolvingTechnique::TrialAndError);
    assert_eq!(SolvingTechnique::NakedSingle.rank(), 0);
    assert_eq!(SolvingTechnique::XYWing.rank(), 10);
    assert_eq!(SolvingTechnique::TrialAndError.rank(), 13);
}
