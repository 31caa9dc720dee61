use rand::rngs::SmallRng;
use rand::SeedableRng;
use sudoku_wasm::difficulty::analyze_difficulty;
use sudoku_wasm::generator::{
    generate_multiple_puzzles, generate_puzzle, generate_puzzle_enhanced,
    generate_puzzle_with_branching_factor, GeneratorConfig, PuzzleGenerator,
};
use sudoku_wasm::types::SolvingTechnique::{
    BoxLineReduction, Coloring, HiddenSingle, NakedPair, NakedSingle, PointingPairs, Swordfish,
    TrialAndError, XWing, XYWing,
};
use sudoku_wasm::types::{BranchingFactor, DifficultyAnalysis, DifficultyLevel};
use sudoku_wasm::validator::{count_clues, has_unique_solution, is_board_valid, validate_board};

fn value(factor: BranchingFactor) -> f64 {
    factor.numerator as f64 / factor.denominator as f64
}

fn milli(thousandths: u32) -> f64 {
    thousandths as f64 / 1000.0
}

fn parse(text: &str) -> Vec<Option<u8>> {
    text.bytes().map(|b| if b == b'.' { None } else { Some(b - b'0') }).collect()
}

const SOLVED: &str =
    "534678912672195348198342567859761423426853791713924856961537284287419635345286179";

#[test]
fn test_enhanced_config_creation() {
    let very_easy_config = GeneratorConfig::for_difficulty(DifficultyLevel::VeryEasy);
    assert!(milli(very_easy_config.target_branching_factor) < 1.5);
    assert!(very_easy_config.min_clues >= 40);

    let easy_config = GeneratorConfig::for_difficulty(DifficultyLevel::Easy);
    assert!(milli(easy_config.target_branching_factor) < 2.0);
    assert!(easy_config.min_clues >= 35);

    let hard_config = GeneratorConfig::for_difficulty(DifficultyLevel::Hard);
    assert!(milli(hard_config.target_branching_factor) >= 3.5);
    assert!(hard_config.max_clues <= 30);
}

#[test]
fn test_enhanced_medium_generation() {
    println!("Testing Enhanced Medium generation with branching factor control...");
    let generator = PuzzleGenerator::with_difficulty(DifficultyLevel::Medium);
    let mut rng = SmallRng::seed_from_u64(8);

    if let Some(puzzle) = generator.generate(&mut rng) {
        let clue_count = puzzle.iter().filter(|c| c.is_some()).count();
        let analysis = analyze_difficulty(&puzzle);
        let branching_factor = value(generator.calculate_branching_factor(&puzzle));

        println!(
            "Enhanced Medium: {} clues, BF: {:.2}, Technique: {:?}",
            clue_count, branching_factor, analysis.hardest_technique
        );

        assert!(
            branching_factor >= 2.0 && branching_factor <= 3.5,
            "Medium BF should be 2.0-3.5, got {:.2}",
            branching_factor
        );

        let target_diff = (branching_factor - 2.5).abs();
        assert!(
            target_diff <= 0.4,
            "Should be close to target 2.5, got {:.2} (diff: {:.2})",
            branching_factor,
            target_diff
        );
    } else {
        panic!("Failed to generate enhanced medium puzzle");
    }
}

#[test]
fn test_custom_branching_factor() {
    println!("Testing custom branching factor generation...");

    let target_bf = 2.2;
    let tolerance = 0.3;
    let mut rng = SmallRng::seed_from_u64(3);

    if let Some(puzzle) =
        generate_puzzle_with_branching_factor(DifficultyLevel::Medium, 2200, 300, &mut rng)
    {
        let actual_bf = value(
            PuzzleGenerator::with_difficulty(DifficultyLevel::Medium)
                .calculate_branching_factor(&puzzle),
        );
        let diff = (actual_bf - target_bf).abs();

        println!("Custom BF: target {:.1}, actual {:.2}, diff {:.2}", target_bf, actual_bf, diff);

        assert!(
            diff <= tolerance,
            "BF {:.2} should be within {:.1} of target {:.1}",
            actual_bf,
            tolerance,
            target_bf
        );
    } else {
        println!("Custom BF generation may fail for very specific targets - this is expected");
    }
}

#[test]
fn test_very_easy_generation() {
    println!("Testing VeryEasy generation with branching factor control...");
    let generator = PuzzleGenerator::with_difficulty(DifficultyLevel::VeryEasy);
    let mut rng = SmallRng::seed_from_u64(9);

    if let Some(puzzle) = generator.generate(&mut rng) {
        let clue_count = puzzle.iter().filter(|c| c.is_some()).count();
        let analysis = analyze_difficulty(&puzzle);
        let branching_factor = value(generator.calculate_branching_factor(&puzzle));

        println!(
            "VeryEasy: {} clues, BF: {:.2}, Technique: {:?}",
            clue_count, branching_factor, analysis.hardest_technique
        );

        assert!(
            branching_factor >= 1.0 && branching_factor <= 1.7,
            "VeryEasy BF should be 1.0-1.7, got {:.2}",
            branching_factor
        );

        let target_diff = (branching_factor - 1.4).abs();
        assert!(
            target_diff <= 0.2,
            "Should be close to target 1.4, got {:.2} (diff: {:.2})",
            branching_factor,
            target_diff
        );

        assert!(clue_count >= 40, "VeryEasy should have >= 40 clues, got {}", clue_count);
    } else {
        panic!("Failed to generate VeryEasy puzzle");
    }
}

#[test]
fn presets_and_default() {
    let default = GeneratorConfig::default();
    assert_eq!(default.target_difficulty, DifficultyLevel::Medium);
    assert_eq!(default.max_attempts, 3000);
    assert_eq!((default.min_clues, default.max_clues), (17, 35));
    assert!(default.prefer_symmetry);
    assert_eq!(default.min_branching_factor, 2000);
    assert_eq!(default.max_branching_factor, 4000);
    assert_eq!(default.target_branching_factor, 3000);
    assert_eq!(default.branching_factor_tolerance, 500);

    let medium = GeneratorConfig::for_difficulty(DifficultyLevel::Medium);
    assert_eq!((medium.min_clues, medium.max_clues), (32, 37));
    assert_eq!(
        (medium.min_branching_factor, medium.max_branching_factor, medium.target_branching_factor),
        (2200, 2800, 2500)
    );
    assert_eq!(medium.branching_factor_tolerance, 400);
    assert_eq!(medium.max_attempts, 3000);

    let hard = GeneratorConfig::for_difficulty(DifficultyLevel::Hard);
    assert_eq!((hard.min_clues, hard.max_clues, hard.max_attempts), (25, 30, 5000));
    let expert = GeneratorConfig::for_difficulty(DifficultyLevel::Expert);
    assert_eq!((expert.min_clues, expert.max_clues, expert.max_attempts), (17, 24, 8000));
    assert_eq!(expert.target_branching_factor, 5000);
    assert_eq!(expert.branching_factor_tolerance, 800);
}

#[test]
fn equal_seeds_give_equal_puzzles() {
    let mut config = GeneratorConfig::for_difficulty(DifficultyLevel::Medium);
    config.min_clues = 28;
    config.max_clues = 37;
    let generator = PuzzleGenerator::new(config);
    let first = generator.generate_with_seed(8);
    let second = generator.generate_with_seed(8);
    assert!(first.is_some());
    assert_eq!(first, second);
    let mut rng = SmallRng::seed_from_u64(8);
    assert_eq!(generator.generate(&mut rng), first);
}

#[test]
fn generated_puzzles_pass_validation_and_meet_the_configuration() {
    for (level, seed) in [(DifficultyLevel::Easy, 1u64), (DifficultyLevel::Medium, 8), (DifficultyLevel::Hard, 2)] {
        let generator = PuzzleGenerator::with_difficulty(level);
        let config = GeneratorConfig::for_difficulty(level);
        let puzzle = generator.generate_with_seed(seed).expect("the seed gives a puzzle");
        let result = validate_board(&puzzle);
        assert!(result.invalid_indices.is_empty());
        assert!(is_board_valid(&puzzle));
        assert!(has_unique_solution(&puzzle));
        assert!(generator.validate_puzzle_enhanced(&puzzle));
        let clues = count_clues(&puzzle);
        assert!(config.min_clues <= clues && clues <= config.max_clues);
        let factor = generator.calculate_branching_factor(&puzzle);
        assert!(factor.at_least(config.min_branching_factor));
        assert!(factor.at_most(config.max_branching_factor));
        assert!(factor.near(config.target_branching_factor, config.branching_factor_tolerance));
        let analysis = analyze_difficulty(&puzzle);
        assert!(generator.difficulty_matches_target(&analysis));
        assert!(!generator.difficulty_overshoot(&analysis));
        assert!(generator.meets_all_constraints(&puzzle, &analysis, factor));
        let floor = match level {
            DifficultyLevel::Hard => DifficultyLevel::Hard,
            DifficultyLevel::Expert => DifficultyLevel::Expert,
            _ => DifficultyLevel::VeryEasy,
        };
        assert!(analysis.level >= floor);
    }
}

#[test]
fn a_single_removal_that_meets_the_configuration_always_gives_a_puzzle() {
    let mut config = GeneratorConfig::for_difficulty(DifficultyLevel::VeryEasy);
    config.max_attempts = 1;
    config.min_clues = 79;
    config.max_clues = 81;
    config.min_branching_factor = 1000;
    config.max_branching_factor = 1000;
    config.target_branching_factor = 1000;
    config.branching_factor_tolerance = 0;
    for symmetric in [true, false] {
        config.prefer_symmetry = symmetric;
        let generator = PuzzleGenerator::new(config);
        for seed in 0..6u64 {
            let puzzle = generator.generate_with_seed(seed).expect("one attempt suffices");
            assert_eq!(count_clues(&puzzle), 80);
            assert!(validate_board(&puzzle).invalid_indices.is_empty());
            assert!(generator.validate_puzzle_enhanced(&puzzle));
            let mut rng = SmallRng::seed_from_u64(seed);
            assert_eq!(generator.generate_attempt(&mut rng), Some(puzzle));
        }
    }
}

#[test]
fn a_pass_over_a_drawn_order_is_the_pass_over_that_order() {
    let config = GeneratorConfig::for_difficulty(DifficultyLevel::Medium);
    let generator = PuzzleGenerator::new(config);
    let solution = parse(SOLVED);
    for seed in 0..4u64 {
        let mut rng = SmallRng::seed_from_u64(seed);
        let drawn = generator.create_puzzle_with_branching_factor_control(&solution, &mut rng);
        let mut again = SmallRng::seed_from_u64(seed);
        let order = generator.get_removal_order(&mut again);
        assert_eq!(drawn, generator.remove_clues(&solution, &order));
    }
}

#[test]
fn no_attempts_give_no_puzzle() {
    let mut config = GeneratorConfig::for_difficulty(DifficultyLevel::Easy);
    config.max_attempts = 0;
    assert_eq!(PuzzleGenerator::new(config).generate_with_seed(1), None);
}

#[test]
fn an_impossible_target_gives_no_puzzle() {
    let mut config = GeneratorConfig::for_difficulty(DifficultyLevel::Easy);
    config.max_attempts = 20;
    config.min_clues = 80;
    config.max_clues = 81;
    config.min_branching_factor = 8000;
    config.max_branching_factor = 9000;
    config.target_branching_factor = 8500;
    assert_eq!(PuzzleGenerator::new(config).generate_with_seed(1), None);
}

#[test]
fn the_standard_interfaces_agree_on_a_seed() {
    let mut a = SmallRng::seed_from_u64(8);
    let mut b = SmallRng::seed_from_u64(8);
    let first = generate_puzzle(DifficultyLevel::Medium, &mut a);
    let second = generate_puzzle_enhanced(DifficultyLevel::Medium, &mut b);
    assert!(first.is_some());
    assert_eq!(first, second);
    assert_eq!(
        PuzzleGenerator::with_difficulty(DifficultyLevel::Medium).generate_with_seed(8),
        first
    );
}

#[test]
fn several_puzzles_are_collected() {
    let mut rng = SmallRng::seed_from_u64(0);
    let puzzles = generate_multiple_puzzles(DifficultyLevel::Easy, 3, &mut rng);
    assert!(!puzzles.is_empty() && puzzles.len() <= 3);
    let generator = PuzzleGenerator::with_difficulty(DifficultyLevel::Easy);
    for puzzle in &puzzles {
        assert!(generator.validate_puzzle_enhanced(puzzle));
    }
    let mut rng = SmallRng::seed_from_u64(0);
    assert!(generate_multiple_puzzles(DifficultyLevel::Easy, 0, &mut rng).is_empty());
}

#[test]
fn a_full_grid_is_always_synthesised() {
    let generator = PuzzleGenerator::with_difficulty(DifficultyLevel::Easy);
    let mut grids = Vec::new();
    for seed in 0..5u64 {
        let mut rng = SmallRng::seed_from_u64(seed);
        let grid = generator.generate_complete_solution(&mut rng).expect("a grid");
        let result = validate_board(&grid);
        assert!(result.is_complete);
        assert!(result.invalid_indices.is_empty());
        grids.push(grid);
    }
    assert!(grids.iter().any(|g| g != &grids[0]));
}

#[test]
fn a_partly_filled_grid_is_completed_in_place() {
    let generator = PuzzleGenerator::with_difficulty(DifficultyLevel::Easy);
    let solved = parse(SOLVED);
    let mut grid = [0u8; 81];
    let (mut rows, mut cols, mut boxes) = ([0u16; 9], [0u16; 9], [0u16; 9]);
    for i in 0..9 {
        let d = solved[i].unwrap();
        grid[i] = d;
        rows[0] |= 1 << (d - 1);
        cols[i] |= 1 << (d - 1);
        boxes[i / 3] |= 1 << (d - 1);
    }
    let mut rng = SmallRng::seed_from_u64(5);
    assert!(generator.fill_board_fast(&mut grid, &mut rows, &mut cols, &mut boxes, 0, &mut rng));
    let cells: Vec<Option<u8>> = grid.iter().map(|&d| Some(d)).collect();
    let result = validate_board(&cells);
    assert!(result.is_complete);
    assert_eq!(&cells[..9], &solved[..9]);
    assert!(rows.iter().chain(cols.iter()).chain(boxes.iter()).all(|&m| m == 0x1ff));
}

#[test]
fn a_grid_without_completion_is_left_as_it_was() {
    let generator = PuzzleGenerator::with_difficulty(DifficultyLevel::Easy);
    let mut grid = [0u8; 81];
    let (mut rows, mut cols, mut boxes) = ([0u16; 9], [0u16; 9], [0u16; 9]);
    for i in 0..8usize {
        let d = i as u8 + 1;
        grid[i] = d;
        rows[0] |= 1 << (d - 1);
        cols[i] |= 1 << (d - 1);
        boxes[i / 3] |= 1 << (d - 1);
    }
    grid[17] = 9;
    rows[1] |= 1 << 8;
    cols[8] |= 1 << 8;
    boxes[2] |= 1 << 8;
    let before = (grid, rows, cols, boxes);
    let mut rng = SmallRng::seed_from_u64(5);
    assert!(!generator.fill_board_fast(&mut grid, &mut rows, &mut cols, &mut boxes, 0, &mut rng));
    assert_eq!((grid, rows, cols, boxes), before);
}

#[test]
fn the_first_fitting_digit_of_a_list_is_placed() {
    let generator = PuzzleGenerator::with_difficulty(DifficultyLevel::Easy);
    let mut grid = [0u8; 81];
    let (mut rows, mut cols, mut boxes) = ([0u16; 9], [0u16; 9], [0u16; 9]);
    let mut rng = SmallRng::seed_from_u64(1);
    let digits: Vec<u8> = vec![6, 2];
    assert!(generator.place_first_fitting(
        &mut grid, &mut rows, &mut cols, &mut boxes, 0, &digits, &mut rng
    ));
    assert_eq!(grid[0], 6);
    let cells: Vec<Option<u8>> = grid.iter().map(|&d| Some(d)).collect();
    assert!(validate_board(&cells).is_complete);

    let mut grid = [0u8; 81];
    let (mut rows, mut cols, mut boxes) = ([0u16; 9], [0u16; 9], [0u16; 9]);
    grid[0] = 6;
    rows[0] = 1 << 5;
    cols[0] = 1 << 5;
    boxes[0] = 1 << 5;
    let before = (grid, rows, cols, boxes);
    assert!(!generator.place_first_fitting(
        &mut grid, &mut rows, &mut cols, &mut boxes, 1, &vec![6], &mut rng
    ));
    assert_eq!((grid, rows, cols, boxes), before);
    assert!(generator.place_first_fitting(
        &mut grid, &mut rows, &mut cols, &mut boxes, 1, &vec![6, 9, 1], &mut rng
    ));
    assert_eq!((grid[0], grid[1]), (6, 9));
}

#[test]
fn removal_orders_are_shuffled_permutations() {
    let identity: Vec<usize> = (0..81).collect();
    for symmetric in [true, false] {
        let mut config = GeneratorConfig::default();
        config.prefer_symmetry = symmetric;
        let generator = PuzzleGenerator::new(config);
        let mut rng = SmallRng::seed_from_u64(11);
        let order = generator.get_removal_order(&mut rng);
        let mut sorted = order.clone();
        sorted.sort();
        assert_eq!(sorted, identity);
        assert_ne!(order, identity);
        let mut other = SmallRng::seed_from_u64(12);
        assert_ne!(generator.get_removal_order(&mut other), order);
        if symmetric {
            let mut k = 0;
            while k < order.len() {
                if order[k] == 40 {
                    k += 1;
                } else {
                    assert_eq!(order[k] + order[k + 1], 80);
                    k += 2;
                }
            }
        }
    }
}

#[test]
fn mirror_pairs_and_their_flattening() {
    let generator = PuzzleGenerator::with_difficulty(DifficultyLevel::Easy);
    assert_eq!(generator.get_symmetric_index(0), 80);
    assert_eq!(generator.get_symmetric_index(40), 40);
    assert_eq!(generator.get_symmetric_index(12), 68);
    let pairs = generator.symmetric_pairs();
    assert_eq!(pairs.len(), 41);
    assert_eq!(pairs[0], (0, 80));
    assert_eq!(pairs[39], (39, 41));
    assert_eq!(pairs[40], (40, 40));
    assert_eq!(generator.flatten_pairs(&vec![(3, 77), (40, 40), (1, 79)]), vec![3, 77, 40, 1, 79]);
    assert_eq!(generator.flatten_pairs(&Vec::new()), Vec::<usize>::new());
}

#[test]
fn a_removal_pass_stops_at_the_minimum_clue_count() {
    let mut config = GeneratorConfig::for_difficulty(DifficultyLevel::Easy);
    config.min_clues = 81;
    config.max_clues = 81;
    let generator = PuzzleGenerator::new(config);
    let order: Vec<usize> = (0..81).collect();
    assert_eq!(generator.remove_clues(&parse(SOLVED), &order), None);
    assert_eq!(generator.remove_clues(&parse(SOLVED), &[]), None);
}

#[test]
fn a_removal_pass_returns_the_first_close_candidate() {
    let mut config = GeneratorConfig::for_difficulty(DifficultyLevel::VeryEasy);
    config.min_clues = 79;
    config.max_clues = 81;
    config.min_branching_factor = 1000;
    config.max_branching_factor = 1000;
    config.target_branching_factor = 1000;
    config.branching_factor_tolerance = 0;
    let generator = PuzzleGenerator::new(config);
    let order: Vec<usize> = vec![5, 70, 33];
    let puzzle = generator.remove_clues(&parse(SOLVED), &order).expect("a candidate");
    let mut expected = parse(SOLVED);
    expected[5] = None;
    assert_eq!(puzzle, expected);
}

#[test]
fn a_removal_pass_keeps_the_candidate_with_the_best_score() {
    let mut config = GeneratorConfig::for_difficulty(DifficultyLevel::VeryEasy);
    config.min_clues = 78;
    config.max_clues = 81;
    config.min_branching_factor = 1000;
    config.max_branching_factor = 1500;
    config.target_branching_factor = 1200;
    config.branching_factor_tolerance = 300;
    let generator = PuzzleGenerator::new(config);
    let order: Vec<usize> = vec![5, 70, 33, 12];
    let puzzle = generator.remove_clues(&parse(SOLVED), &order).expect("a candidate");
    let mut expected = parse(SOLVED);
    expected[5] = None;
    expected[70] = None;
    expected[33] = None;
    assert_eq!(puzzle, expected);
    assert!(generator.validate_puzzle_enhanced(&puzzle));

    config.max_clues = 79;
    let narrow = PuzzleGenerator::new(config);
    let short: Vec<usize> = vec![5];
    assert_eq!(narrow.remove_clues(&parse(SOLVED), &short), None);
    let longer: Vec<usize> = vec![5, 70];
    let mut two = parse(SOLVED);
    two[5] = None;
    two[70] = None;
    assert_eq!(narrow.remove_clues(&parse(SOLVED), &longer), Some(two));
}

#[test]
fn generation_without_symmetry() {
    let mut config = GeneratorConfig::for_difficulty(DifficultyLevel::Easy);
    config.prefer_symmetry = false;
    let generator = PuzzleGenerator::new(config);
    let puzzle = generator.generate_with_seed(4);
    assert_eq!(puzzle, generator.generate_with_seed(4));
    if let Some(puzzle) = puzzle {
        assert!(generator.validate_puzzle_enhanced(&puzzle));
        assert!(has_unique_solution(&puzzle));
    }
}

#[test]
fn bands_of_the_target_levels() {
    let analysis = |technique| DifficultyAnalysis {
        level: DifficultyLevel::Medium,
        hardest_technique: technique,
        technique_diversity: 1,
        branching_factor: BranchingFactor { numerator: 5, denominator: 2 },
    };
    let very_easy = PuzzleGenerator::with_difficulty(DifficultyLevel::VeryEasy);
    assert!(very_easy.difficulty_matches_target(&analysis(NakedSingle)));
    assert!(!very_easy.difficulty_matches_target(&analysis(HiddenSingle)));
    assert!(very_easy.difficulty_overshoot(&analysis(HiddenSingle)));
    let easy = PuzzleGenerator::with_difficulty(DifficultyLevel::Easy);
    assert!(easy.difficulty_matches_target(&analysis(HiddenSingle)));
    assert!(!easy.difficulty_matches_target(&analysis(NakedPair)));
    let medium = PuzzleGenerator::with_difficulty(DifficultyLevel::Medium);
    assert!(medium.difficulty_matches_target(&analysis(BoxLineReduction)));
    assert!(!medium.difficulty_matches_target(&analysis(PointingPairs)));
    assert!(medium.difficulty_overshoot(&analysis(PointingPairs)));
    assert!(!medium.difficulty_overshoot(&analysis(BoxLineReduction)));
    let hard = PuzzleGenerator::with_difficulty(DifficultyLevel::Hard);
    assert!(!hard.difficulty_matches_target(&analysis(PointingPairs)));
    assert!(hard.difficulty_matches_target(&analysis(XWing)));
    assert!(hard.difficulty_matches_target(&analysis(Swordfish)));
    assert!(!hard.difficulty_matches_target(&analysis(Coloring)));
    assert!(hard.difficulty_overshoot(&analysis(Coloring)));
    assert!(!hard.difficulty_overshoot(&analysis(NakedSingle)));
    let expert = PuzzleGenerator::with_difficulty(DifficultyLevel::Expert);
    assert!(!expert.difficulty_matches_target(&analysis(Coloring)));
    assert!(expert.difficulty_matches_target(&analysis(XYWing)));
    assert!(expert.difficulty_matches_target(&analysis(TrialAndError)));
    assert!(!expert.difficulty_overshoot(&analysis(TrialAndError)));
}
