use rand::rngs::SmallRng;
use rand::SeedableRng;
use sudoku_wasm::classic::{
    cells_to_remove, clue_board, create_advanced_puzzle, create_advanced_puzzle_from,
    create_advanced_puzzle_with_seed, create_puzzle_with_seed, create_simple_puzzle,
    create_simple_puzzle_with_seed, fill_board, generate_solved_board,
    generate_solved_board_with_seed, grade_level, remove_batch, remove_in_batches,
    remove_in_order, removal_seed, shuffled_cells, try_numbers,
};
use sudoku_wasm::host::{
    analyze_puzzle_difficulty, blank_board, cell_from_number, check_unique_solution, create_game,
    create_game_with_seed, create_seeded_game, from_js_board, generate_custom_puzzle,
    generate_puzzle, get_hint, level_from_code, level_label, solve_puzzle, solve_to_digits,
    solve_with_techniques, technique_label, to_js_board, validate_board, Hint,
};
use sudoku_wasm::levels::{
    analyze_difficulty, classify_difficulty_by_technique, get_difficulty_requirements,
    technique_is_suitable, validates_difficulty_requirements,
};
use sudoku_wasm::types::{BranchingFactor, DifficultyLevel, SolvingTechnique, BOARD_SIZE};
use sudoku_wasm::validator::{count_clues, has_unique_solution};

fn parse(text: &str) -> Vec<Option<u8>> {
    text.bytes().map(|b| if b == b'.' { None } else { Some(b - b'0') }).collect()
}

fn digits(text: &str) -> Vec<u8> {
    text.bytes().map(|b| if b == b'.' { 0 } else { b - b'0' }).collect()
}

fn factor(tenths: usize) -> BranchingFactor {
    BranchingFactor { numerator: tenths, denominator: 10 }
}

const SOLVED: &str =
    "534678912672195348198342567859761423426853791713924856961537284287419635345286179";
const PUZZLE: &str =
    "53..7....6..195....98....6.8...6...34..8.3..17...2...6.6....28....419..5....8..79";

#[test]
fn test_board_conversion() {
    let internal = vec![Some(1), None, Some(3), None];
    let js_board = to_js_board(&internal);
    assert_eq!(js_board, vec![1, 0, 3, 0]);

    let back_to_internal = from_js_board(&js_board);
    assert_eq!(back_to_internal, internal);
}

#[test]
fn wasm_exports_test_validate_empty_board() {
    let empty_board = vec![0; BOARD_SIZE];
    assert!(validate_board(empty_board));
}

#[test]
fn test_difficulty_requirements() {
    let (min_clues, max_clues, techniques, branching) = get_difficulty_requirements(1);
    assert_eq!(min_clues, 38);
    assert_eq!(max_clues, 45);
    assert_eq!(branching as f64 / 1000.0, 1.2);
    assert!(techniques.contains(&SolvingTechnique::NakedSingle));
}

#[test]
fn test_classify_difficulty_by_technique() {
    assert_eq!(classify_difficulty_by_technique(SolvingTechnique::NakedSingle, 40, factor(11)), 1);
    assert_eq!(classify_difficulty_by_technique(SolvingTechnique::XWing, 30, factor(20)), 3);
    assert_eq!(classify_difficulty_by_technique(SolvingTechnique::XYWing, 25, factor(25)), 4);
}

#[test]
fn requirements_of_every_grade() {
    let expected = [
        (0u8, 30usize, 40usize, 1usize, 1500u32),
        (1, 38, 45, 2, 1200),
        (2, 32, 37, 4, 1800),
        (3, 28, 31, 6, 2000),
        (4, 24, 27, 8, 2500),
        (5, 22, 24, 10, 2000),
        (6, 30, 40, 1, 1500),
    ];
    for (grade, min, max, count, bound) in expected {
        let (min_clues, max_clues, techniques, branching) = get_difficulty_requirements(grade);
        assert_eq!((min_clues, max_clues, techniques.len(), branching), (min, max, count, bound));
        assert_eq!(techniques[0], SolvingTechnique::NakedSingle);
    }
    let (_, _, techniques, _) = get_difficulty_requirements(5);
    assert_eq!(techniques[8], SolvingTechnique::XYChain);
    assert_eq!(techniques[9], SolvingTechnique::ForcingChain);
    let (_, _, techniques, _) = get_difficulty_requirements(3);
    assert_eq!(techniques[4], SolvingTechnique::XWing);
    assert_eq!(techniques[5], SolvingTechnique::PointingPairs);
}

#[test]
fn grades_of_the_techniques() {
    assert_eq!(classify_difficulty_by_technique(SolvingTechnique::HiddenSingle, 38, factor(12)), 1);
    assert_eq!(classify_difficulty_by_technique(SolvingTechnique::HiddenSingle, 37, factor(12)), 2);
    assert_eq!(classify_difficulty_by_technique(SolvingTechnique::NakedSingle, 38, factor(13)), 2);
    assert_eq!(classify_difficulty_by_technique(SolvingTechnique::PointingPairs, 50, factor(10)), 2);
    assert_eq!(classify_difficulty_by_technique(SolvingTechnique::PointingTriples, 50, factor(10)), 3);
    assert_eq!(classify_difficulty_by_technique(SolvingTechnique::Swordfish, 50, factor(10)), 4);
    assert_eq!(classify_difficulty_by_technique(SolvingTechnique::Coloring, 50, factor(10)), 4);
    assert_eq!(classify_difficulty_by_technique(SolvingTechnique::XYChain, 50, factor(10)), 5);
    assert_eq!(classify_difficulty_by_technique(SolvingTechnique::TrialAndError, 50, factor(10)), 5);
}

#[test]
fn the_report_of_a_classic_puzzle() {
    let report = analyze_difficulty(&parse(PUZZLE));
    assert_eq!(report.clue_count, 30);
    assert!(report.uniqueness_verified);
    assert!(!report.techniques_required.is_empty());
    assert!(report.techniques_required.contains(&report.hardest_technique));
    assert_eq!(report.branching_factor, BranchingFactor { numerator: 1, denominator: 1 });
    assert_eq!(
        report.difficulty_level,
        classify_difficulty_by_technique(report.hardest_technique, 30, report.branching_factor)
    );
    let stalled = analyze_difficulty(&vec![None; 81]);
    assert_eq!(stalled.hardest_technique, SolvingTechnique::TrialAndError);
    assert_eq!(stalled.difficulty_level, 5);
    assert_eq!(stalled.clue_count, 0);
    assert!(stalled.techniques_required.is_empty());
}

#[test]
fn requirements_are_checked_against_the_report() {
    let mut board = parse(SOLVED);
    for cell in 0..40 {
        board[cell * 2] = None;
    }
    assert_eq!(count_clues(&board), 41);
    let report = analyze_difficulty(&board);
    let expected = report.branching_factor.at_most(1200) && report.uniqueness_verified;
    assert_eq!(validates_difficulty_requirements(&board, 1), expected);
    assert!(!validates_difficulty_requirements(&board, 2));
    assert!(!validates_difficulty_requirements(&board, 5));
    assert!(!validates_difficulty_requirements(&parse(SOLVED), 1));
    assert!(technique_is_suitable(1, SolvingTechnique::NakedSingle));
    assert!(technique_is_suitable(3, SolvingTechnique::HiddenPair));
    assert!(technique_is_suitable(3, SolvingTechnique::XYWing));
    assert!(!technique_is_suitable(3, SolvingTechnique::Swordfish));
    assert!(technique_is_suitable(4, SolvingTechnique::Swordfish));
    assert!(!technique_is_suitable(4, SolvingTechnique::NakedPair));
    assert!(technique_is_suitable(5, SolvingTechnique::ForcingChain));
    assert!(technique_is_suitable(5, SolvingTechnique::XYWing));
    assert!(!technique_is_suitable(5, SolvingTechnique::XWing));
}

#[test]
fn cells_and_codes_from_the_host() {
    assert_eq!(cell_from_number(0), None);
    assert_eq!(cell_from_number(1), Some(1));
    assert_eq!(cell_from_number(9), Some(9));
    assert_eq!(cell_from_number(10), None);
    assert_eq!(level_from_code(0), DifficultyLevel::Easy);
    assert_eq!(level_from_code(1), DifficultyLevel::Medium);
    assert_eq!(level_from_code(2), DifficultyLevel::Hard);
    assert_eq!(level_from_code(3), DifficultyLevel::Expert);
    assert_eq!(level_from_code(4), DifficultyLevel::Medium);
    assert_eq!(grade_level(1), DifficultyLevel::VeryEasy);
    assert_eq!(grade_level(5), DifficultyLevel::Expert);
    assert_eq!(grade_level(9), DifficultyLevel::Medium);
    assert_eq!(technique_label(SolvingTechnique::BoxLineReduction), "Box/Line Reduction");
    assert_eq!(technique_label(SolvingTechnique::XYWing), "XY-Wing");
    assert_eq!(level_label(DifficultyLevel::VeryEasy), "VeryEasy");
    assert_eq!(blank_board(), vec![0u8; 81]);
}

#[test]
fn boards_of_digits_are_checked_and_solved() {
    assert!(validate_board(digits(PUZZLE)));
    assert!(!validate_board(vec![0; 80]));
    let mut clash = digits(PUZZLE);
    clash[2] = 5;
    assert!(!validate_board(clash.clone()));
    assert!(check_unique_solution(digits(PUZZLE)));
    assert!(!check_unique_solution(clash.clone()));
    assert!(!check_unique_solution(vec![0; 4]));
    assert_eq!(solve_puzzle(digits(PUZZLE)), digits(SOLVED));
    assert_eq!(solve_puzzle(clash.clone()), clash);
    assert_eq!(solve_puzzle(vec![1, 2, 3]), vec![1, 2, 3]);
    assert_eq!(solve_to_digits(&parse(PUZZLE)), digits(SOLVED));
    let mut unsolvable = parse(PUZZLE);
    unsolvable[2] = Some(5);
    let ones = solve_to_digits(&unsolvable);
    assert_eq!(ones[0], 5);
    assert_eq!(ones[3], 1);
}

#[test]
fn analysis_and_ladder_on_digits() {
    assert_eq!(analyze_puzzle_difficulty(vec![0; 3]), None);
    let mut wrong = digits(PUZZLE);
    wrong[0] = 12;
    assert_eq!(analyze_puzzle_difficulty(wrong.clone()), None);
    assert!(solve_with_techniques(wrong).is_none());
    let analysis = analyze_puzzle_difficulty(digits(PUZZLE)).expect("a board");
    assert_eq!(analysis, sudoku_wasm::difficulty::analyze_difficulty(&parse(PUZZLE)));
    let run = solve_with_techniques(digits(PUZZLE)).expect("a board");
    assert!(run.solved);
    assert_eq!(run.board, digits(SOLVED));
    assert_eq!(run.techniques.len(), analysis.technique_diversity);
    assert_eq!(run.branching_factor, BranchingFactor { numerator: 1, denominator: 1 });
}

#[test]
fn the_hint_is_the_first_cell_that_a_basic_round_fills() {
    let mut board = digits(SOLVED);
    board[7] = 0;
    board[60] = 0;
    assert_eq!(get_hint(board), Some(Hint { cell: 7, number: 1 }));
    assert_eq!(get_hint(digits(SOLVED)), None);
    assert_eq!(get_hint(vec![0; 81]), None);
    assert_eq!(get_hint(vec![0; 5]), None);
}

#[test]
fn finished_grids_from_seeds() {
    let first = generate_solved_board_with_seed(7);
    let second = generate_solved_board_with_seed(7);
    let other = generate_solved_board_with_seed(8);
    assert_eq!(first, second);
    assert_ne!(first, other);
    assert_eq!(first.len(), 81);
    let cells = clue_board(&first);
    let result = sudoku_wasm::validate_board(&cells);
    assert!(result.is_complete && result.invalid_indices.is_empty());
    let mut rng = SmallRng::seed_from_u64(7);
    assert_eq!(generate_solved_board(&mut rng), first);
}

#[test]
fn randomised_filling_keeps_the_clues() {
    let mut board = parse(PUZZLE);
    let mut rng = SmallRng::seed_from_u64(3);
    assert!(fill_board(&mut board, &mut rng));
    assert_eq!(board, parse(SOLVED));
    let mut stuck = vec![None; 81];
    for col in 0..8 {
        stuck[col] = Some(col as u8 + 1);
    }
    stuck[17] = Some(9);
    let before = stuck.clone();
    assert!(!fill_board(&mut stuck, &mut rng));
    assert_eq!(stuck, before);
}

#[test]
fn the_first_digit_that_fits_is_placed() {
    let mut rng = SmallRng::seed_from_u64(3);
    let mut board = parse(PUZZLE);
    assert!(try_numbers(&mut board, 2, &[9, 1, 4, 2], &mut rng));
    assert_eq!(board, parse(SOLVED));
    let mut board = parse(PUZZLE);
    assert!(!try_numbers(&mut board, 2, &[1, 2, 9, 0, 12], &mut rng));
    assert_eq!(board, parse(PUZZLE));
    let mut open = vec![None; 81];
    assert!(try_numbers(&mut open, 0, &[7, 3], &mut rng));
    assert_eq!(open[0], Some(7));
    assert!(sudoku_wasm::validate_board(&open).is_complete);
    let mut open = vec![None; 81];
    assert!(!try_numbers(&mut open, 0, &[], &mut rng));
}

#[test]
fn plain_removal_takes_the_first_cells_of_the_order() {
    let solved = digits(SOLVED);
    let order: Vec<usize> = vec![80, 3, 41, 7, 0];
    let puzzle = remove_in_order(&solved, &order, 3);
    let mut expected = parse(SOLVED);
    expected[80] = None;
    expected[3] = None;
    expected[41] = None;
    assert_eq!(puzzle, expected);
    assert_eq!(remove_in_order(&solved, &order, 0), parse(SOLVED));
    assert_eq!(count_clues(&remove_in_order(&solved, &order, 9)), 76);
    assert_eq!(
        [0u8, 1, 2, 3, 4, 5, 6].map(cells_to_remove),
        [40, 30, 35, 45, 50, 55, 40]
    );
}

#[test]
fn plain_removal_keeps_a_clue_whose_removal_leaves_no_completion() {
    let mut broken = digits(SOLVED);
    broken[0] = 3;
    let order: Vec<usize> = vec![40, 1, 0, 50];
    let puzzle = remove_in_order(&broken, &order, 2);
    assert_eq!(puzzle[40], Some(5));
    assert_eq!(puzzle[1], Some(3));
    assert_eq!(puzzle[0], None);
    assert_eq!(puzzle[50], None);
    assert_eq!(count_clues(&puzzle), 79);
    let mut swapped = digits(SOLVED);
    swapped.swap(0, 1);
    let kept = remove_in_order(&swapped, &[40, 0, 1], 3);
    assert_eq!(count_clues(&kept), 81);
}

#[test]
fn batch_removal_takes_the_first_cells_of_the_order() {
    let solved = digits(SOLVED);
    let order: Vec<usize> = (0..81).rev().collect();
    let puzzle = remove_in_batches(&solved, &order, 12);
    let mut expected = parse(SOLVED);
    for cell in 69..81 {
        expected[cell] = None;
    }
    assert_eq!(puzzle, expected);
    let mut board = parse(SOLVED);
    assert_eq!(remove_batch(&mut board, &vec![1, 2, 3], 4, 20), 7);
    assert_eq!(count_clues(&board), 78);
    let mut broken = parse(SOLVED);
    broken.swap(0, 1);
    let before = broken.clone();
    assert_eq!(remove_batch(&mut broken, &vec![40, 1, 41], 6, 20), 6);
    assert_eq!(broken, before);
    assert_eq!(remove_batch(&mut broken, &vec![0, 1], 6, 20), 8);
    assert_eq!((broken[0], broken[1]), (None, None));
    assert_eq!(count_clues(&broken), 79);
}

#[test]
fn puzzles_by_removal_have_the_clue_count_of_the_grade() {
    let solved = generate_solved_board_with_seed(11);
    for (grade, clues) in [(1u8, 51usize), (2, 46), (3, 36), (0, 41)] {
        let puzzle = create_simple_puzzle_with_seed(&solved, grade, 11);
        assert_eq!(count_clues(&puzzle), clues);
        assert!(has_unique_solution(&puzzle));
        assert_eq!(puzzle, create_simple_puzzle_with_seed(&solved, grade, 11));
        for cell in 0..81 {
            assert!(puzzle[cell].is_none() || puzzle[cell] == Some(solved[cell]));
        }
        let mut rng = SmallRng::seed_from_u64(removal_seed(11, grade));
        assert_eq!(create_simple_puzzle(&solved, grade, &mut rng), puzzle);
    }
    assert_eq!(removal_seed(u64::MAX, 2), 1);
    assert_eq!(removal_seed(40, 2), 42);
}

#[test]
fn the_advanced_creation_falls_back_to_plain_removal() {
    let solved = generate_solved_board_with_seed(5);
    let puzzle = create_advanced_puzzle_with_seed(&solved, 1, 5);
    let clues = count_clues(&puzzle);
    assert!(clues == 45 || clues == 51, "{}", clues);
    assert_eq!(puzzle, create_advanced_puzzle_with_seed(&solved, 1, 5));
    let order: Vec<usize> = (0..81).collect();
    let fallback: Vec<usize> = (0..81).rev().collect();
    let direct = create_advanced_puzzle_from(&solved, 2, &order, &fallback);
    let clues = count_clues(&direct);
    assert!(clues == 37 || clues == 46, "{}", clues);
    let mut rng = SmallRng::seed_from_u64(5);
    let free = create_advanced_puzzle(&solved, 2, &mut rng);
    assert!(has_unique_solution(&free));
    let mut rng = SmallRng::seed_from_u64(5);
    let order = shuffled_cells(&mut rng);
    let mut sorted = order.clone();
    sorted.sort();
    assert_eq!(sorted, (0..81).collect::<Vec<usize>>());
    assert_ne!(order, sorted);
}

#[test]
fn games_are_created_for_seeds() {
    let game = create_game_with_seed(2, 21);
    assert_eq!(game, create_game_with_seed(2, 21));
    assert_eq!(count_clues(&game), 46);
    let seeded = create_seeded_game(2, 21);
    assert_eq!(seeded, create_seeded_game(2, 21));
    assert!(has_unique_solution(&seeded));
    let solved = generate_solved_board_with_seed(21);
    assert_eq!(create_puzzle_with_seed(&solved, 2, 21), seeded);
    let mut rng = SmallRng::seed_from_u64(4);
    let game = create_game(1, &mut rng);
    assert_eq!(count_clues(&game), 51);
}

#[test]
fn puzzles_for_the_host_are_digits() {
    let mut rng = SmallRng::seed_from_u64(8);
    let puzzle = generate_puzzle(1, &mut rng);
    assert_eq!(puzzle.len(), 81);
    assert!(puzzle.iter().all(|&d| d <= 9));
    assert!(puzzle.iter().any(|&d| d != 0));
    assert!(validate_board(puzzle.clone()));
    let mut rng = SmallRng::seed_from_u64(8);
    let custom = generate_custom_puzzle(1, 0, 200, true, &mut rng);
    assert_eq!(custom.len(), 81);
    let clues = custom.iter().filter(|&&d| d != 0).count();
    assert!(clues == 0 || (17..=50).contains(&clues));
}
