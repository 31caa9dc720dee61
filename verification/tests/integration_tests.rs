use rand::rngs::SmallRng;
use rand::SeedableRng;
use sudoku_wasm::difficulty::analyze_difficulty;
use sudoku_wasm::generator::{GeneratorConfig, PuzzleGenerator};
use sudoku_wasm::solver::HumanStyleSolver;
use sudoku_wasm::types::{BranchingFactor, DifficultyLevel};
use sudoku_wasm::{has_unique_solution, solve_board, validate_board};

fn value(factor: BranchingFactor) -> f64 {
    factor.numerator as f64 / factor.denominator as f64
}

/// A finished, valid grid.
const VALID_COMPLETE_BOARD: [Option<u8>; 81] = [
    Some(5), Some(3), Some(4), Some(6), Some(7), Some(8), Some(9), Some(1), Some(2),
    Some(6), Some(7), Some(2), Some(1), Some(9), Some(5), Some(3), Some(4), Some(8),
    Some(1), Some(9), Some(8), Some(3), Some(4), Some(2), Some(5), Some(6), Some(7),
    Some(8), Some(5), Some(9), Some(7), Some(6), Some(1), Some(4), Some(2), Some(3),
    Some(4), Some(2), Some(6), Some(8), Some(5), Some(3), Some(7), Some(9), Some(1),
    Some(7), Some(1), Some(3), Some(9), Some(2), Some(4), Some(8), Some(5), Some(6),
    Some(9), Some(6), Some(1), Some(5), Some(3), Some(7), Some(2), Some(8), Some(4),
    Some(2), Some(8), Some(7), Some(4), Some(1), Some(9), Some(6), Some(3), Some(5),
    Some(3), Some(4), Some(5), Some(2), Some(8), Some(6), Some(1), Some(7), Some(9),
];

/// A valid puzzle with some cells empty.
const VALID_PUZZLE: [Option<u8>; 81] = [
    Some(5), Some(3), None, Some(6), None, Some(8), None, Some(1), Some(2),
    Some(6), None, Some(2), Some(1), Some(9), Some(5), None, Some(4), None,
    Some(1), Some(9), Some(8), None, Some(4), Some(2), Some(5), None, Some(7),
    Some(8), Some(5), Some(9), Some(7), Some(6), None, Some(4), Some(2), Some(3),
    Some(4), None, Some(6), Some(8), Some(5), Some(3), Some(7), None, Some(1),
    Some(7), Some(1), Some(3), Some(9), None, Some(4), Some(8), Some(5), Some(6),
    Some(9), Some(6), Some(1), Some(5), Some(3), Some(7), None, Some(8), Some(4),
    Some(2), Some(8), None, Some(4), Some(1), Some(9), Some(6), Some(3), Some(5),
    Some(3), Some(4), Some(5), None, Some(8), Some(6), Some(1), Some(7), None,
];

/// A board with the digit 5 twice in the first row.
const INVALID_BOARD: [Option<u8>; 81] = [
    Some(5), Some(5), None, Some(6), None, Some(8), None, Some(1), Some(2),
    Some(6), None, Some(2), Some(1), Some(9), Some(5), None, Some(4), None,
    Some(1), Some(9), Some(8), None, Some(4), Some(2), Some(5), None, Some(7),
    Some(8), Some(5), Some(9), Some(7), Some(6), None, Some(4), Some(2), Some(3),
    Some(4), None, Some(6), Some(8), Some(5), Some(3), Some(7), None, Some(1),
    Some(7), Some(1), Some(3), Some(9), None, Some(4), Some(8), Some(5), Some(6),
    Some(9), Some(6), Some(1), Some(5), Some(3), Some(7), None, Some(8), Some(4),
    Some(2), Some(8), None, Some(4), Some(1), Some(9), Some(6), Some(3), Some(5),
    Some(3), Some(4), Some(5), None, Some(8), Some(6), Some(1), Some(7), None,
];

#[test]
fn test_valid_complete_board() {
    let result = validate_board(&VALID_COMPLETE_BOARD);
    assert!(
        result.invalid_indices.is_empty(),
        "Valid complete board should have no invalid indices"
    );
    assert!(result.is_complete, "Complete valid board should be marked as complete");
}

#[test]
fn test_valid_incomplete_board() {
    let result = validate_board(&VALID_PUZZLE);
    assert!(result.invalid_indices.is_empty(), "Valid puzzle should have no invalid indices");
    assert!(!result.is_complete, "Incomplete board should not be marked as complete");
}

#[test]
fn test_invalid_board_detected() {
    let result = validate_board(&INVALID_BOARD);
    assert!(
        !result.invalid_indices.is_empty(),
        "Invalid board should have invalid indices detected"
    );
    assert!(!result.is_complete, "Invalid board should not be complete");
    assert!(result.invalid_indices.contains(&1), "Should detect the duplicate 5 in first row");
}

#[test]
fn test_empty_board() {
    let empty_board = vec![None; 81];
    let result = validate_board(&empty_board);
    assert!(result.invalid_indices.is_empty(), "Empty board should be valid");
    assert!(!result.is_complete, "Empty board should not be complete");
}

#[test]
fn test_board_with_invalid_numbers() {
    let mut bad_board = VALID_PUZZLE.clone();
    bad_board[0] = Some(10);
    assert_eq!(bad_board[0], Some(10));
}

#[test]
fn integration_tests_test_solver_creation() {
    let solver = HumanStyleSolver::new(&VALID_PUZZLE);
    assert!(!solver.is_solved(), "Incomplete puzzle should not be marked as solved");
}

#[test]
fn test_solver_with_complete_board() {
    let solver = HumanStyleSolver::new(&VALID_COMPLETE_BOARD);
    assert!(solver.is_solved(), "Complete valid board should be marked as solved");
}

#[test]
fn test_solver_techniques() {
    let mut solver = HumanStyleSolver::new(&VALID_PUZZLE);
    let initial_solved = solver.is_solved();

    let solved = solver.solve_with_techniques();

    assert!(solved || !initial_solved, "Solver should either solve or make progress");

    let techniques = solver.get_techniques_used();
    assert!(!techniques.is_empty(), "Some solving techniques should have been used");
}

#[test]
fn test_branching_factor() {
    let solver = HumanStyleSolver::new(&VALID_PUZZLE);
    let factor = value(solver.calculate_branching_factor());

    assert!(factor >= 1.0 && factor <= 9.0, "Branching factor should be between 1 and 9");
}

#[test]
fn test_generate_easy_puzzle() {
    let generator = PuzzleGenerator::with_difficulty(DifficultyLevel::Easy);
    let mut rng = SmallRng::seed_from_u64(2);

    if let Some(puzzle) = generator.generate(&mut rng) {
        let result = validate_board(&puzzle);
        assert!(result.invalid_indices.is_empty(), "Generated puzzle should be valid");

        let clue_count = puzzle.iter().filter(|&&cell| cell.is_some()).count();
        assert!(
            clue_count >= 17 && clue_count <= 50,
            "Puzzle should have reasonable number of clues"
        );

        assert!(has_unique_solution(&puzzle), "Generated puzzle should have unique solution");
    }
}

#[test]
fn test_generate_medium_puzzle() {
    let generator = PuzzleGenerator::with_difficulty(DifficultyLevel::Medium);
    let mut rng = SmallRng::seed_from_u64(8);

    if let Some(puzzle) = generator.generate(&mut rng) {
        let result = validate_board(&puzzle);
        assert!(result.invalid_indices.is_empty(), "Generated medium puzzle should be valid");
        assert!(has_unique_solution(&puzzle), "Generated puzzle should have unique solution");
    }
}

#[test]
fn test_generator_configuration() {
    let generator = PuzzleGenerator::with_difficulty(DifficultyLevel::Easy);
    assert_eq!(std::mem::size_of_val(&generator), std::mem::size_of::<PuzzleGenerator>());
    assert_eq!(std::mem::size_of::<PuzzleGenerator>(), std::mem::size_of::<GeneratorConfig>());
}

#[test]
fn test_difficulty_analysis() {
    let analysis = analyze_difficulty(&VALID_PUZZLE);

    assert!(matches!(
        analysis.level,
        DifficultyLevel::VeryEasy
            | DifficultyLevel::Easy
            | DifficultyLevel::Medium
            | DifficultyLevel::Hard
            | DifficultyLevel::Expert
    ));
    assert!(analysis.technique_diversity <= 10, "Technique diversity should be reasonable");
    let factor = value(analysis.branching_factor);
    assert!(factor >= 1.0 && factor <= 9.0, "Branching factor should be reasonable");
}

#[test]
fn test_empty_board_difficulty() {
    let empty_board = vec![None; 81];
    let analysis = analyze_difficulty(&empty_board);

    assert!(
        value(analysis.branching_factor) > 5.0,
        "Empty board should have high branching factor"
    );
}

#[test]
fn test_full_workflow() {
    let generator = PuzzleGenerator::with_difficulty(DifficultyLevel::Easy);
    let mut rng = SmallRng::seed_from_u64(2);

    if let Some(puzzle) = generator.generate(&mut rng) {
        println!(
            "Generated puzzle with {} clues",
            puzzle.iter().filter(|&&cell| cell.is_some()).count()
        );

        let validation = validate_board(&puzzle);
        assert!(validation.invalid_indices.is_empty(), "Generated puzzle should be valid");

        let mut solver = HumanStyleSolver::new(&puzzle);
        let solved = solver.solve_with_techniques();

        let analysis = analyze_difficulty(&puzzle);
        assert_eq!(analysis.level, DifficultyLevel::Easy, "Should match target difficulty");

        println!("Workflow test successful: solved={}, difficulty={:?}", solved, analysis.level);
    } else {
        println!("Could not generate puzzle for workflow test - this is acceptable");
    }
}

#[test]
fn test_workflow_with_known_puzzle() {
    let puzzle = VALID_PUZZLE.clone();

    let validation = validate_board(&puzzle);
    assert!(validation.invalid_indices.is_empty(), "Predefined puzzle should be valid");

    let mut solver = HumanStyleSolver::new(&puzzle);
    let _solved = solver.solve_with_techniques();

    let analysis = analyze_difficulty(&puzzle);
    assert!(matches!(
        analysis.level,
        DifficultyLevel::VeryEasy
            | DifficultyLevel::Easy
            | DifficultyLevel::Medium
            | DifficultyLevel::Hard
            | DifficultyLevel::Expert
    ));

    println!("Workflow test with known puzzle successful: difficulty={:?}", analysis.level);
}

#[test]
fn test_backtracking_solver() {
    let mut puzzle = VALID_PUZZLE.clone();
    let original_clues = puzzle.iter().filter(|&&cell| cell.is_some()).count();

    let solved = solve_board(&mut puzzle);
    assert!(solved, "Backtracking solver should solve valid puzzle");

    let final_clues = puzzle.iter().filter(|&&cell| cell.is_some()).count();
    assert_eq!(final_clues, 81, "Solved puzzle should be complete");

    let validation = validate_board(&puzzle);
    assert!(
        validation.is_complete && validation.invalid_indices.is_empty(),
        "Solved puzzle should be complete and valid"
    );
    assert_eq!(puzzle, VALID_COMPLETE_BOARD);

    println!("Backtracking solver filled {} cells", 81 - original_clues);
}

#[test]
fn test_multiple_generations() {
    let generator = PuzzleGenerator::with_difficulty(DifficultyLevel::Easy);
    let mut rng = SmallRng::seed_from_u64(0);
    let mut success_count = 0;
    let attempts = 5;

    for i in 0..attempts {
        if let Some(puzzle) = generator.generate(&mut rng) {
            let validation = validate_board(&puzzle);
            assert!(
                validation.invalid_indices.is_empty(),
                "Generated puzzle {} should be valid",
                i
            );
            success_count += 1;
        }
    }

    println!("Successfully generated {}/{} puzzles", success_count, attempts);
    assert!(success_count > 0, "Should generate at least one puzzle");
}

#[test]
fn test_solver_performance() {
    let test_puzzles = [VALID_PUZZLE, VALID_COMPLETE_BOARD];

    for (i, puzzle) in test_puzzles.iter().enumerate() {
        let mut solver = HumanStyleSolver::new(puzzle);
        let start_time = std::time::Instant::now();

        let _solved = solver.solve_with_techniques();
        let duration = start_time.elapsed();

        println!("Puzzle {} solved in {:?}", i, duration);
        assert!(duration.as_secs() < 1, "Solver should be reasonably fast");
    }
}
