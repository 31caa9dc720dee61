use sudoku_wasm::difficulty::{
    analyze_difficulty, analyze_difficulty_heuristic, calculate_puzzle_complexity,
    classify_difficulty_level, PuzzleComplexity,
};
use sudoku_wasm::types::DifficultyLevel::{Easy, Expert, Hard, Medium, VeryEasy};
use sudoku_wasm::types::SolvingTechnique::{
    BoxLineReduction, ForcingChain, HiddenPair, HiddenSingle, NakedPair, NakedSingle,
    PointingPairs, PointingTriples, Swordfish, TrialAndError, XWing, XYWing,
};
use sudoku_wasm::types::{BranchingFactor, DifficultyLevel, SolvingTechnique};

fn parse(text: &str) -> Vec<Option<u8>> {
    text.bytes().map(|b| if b == b'.' { None } else { Some(b - b'0') }).collect()
}

fn factor(tenths: usize) -> BranchingFactor {
    BranchingFactor { numerator: tenths, denominator: 10 }
}

fn first_cells_filled(count: usize) -> Vec<Option<u8>> {
    let mut board = vec![None; 81];
    for cell in board.iter_mut().take(count) {
        *cell = Some(1);
    }
    board
}

const SOLVED: &str =
    "534678912672195348198342567859761423426853791713924856961537284287419635345286179";

#[test]
fn test_difficulty_classification() {
    let very_easy_level = classify_difficulty_level(SolvingTechnique::NakedSingle, 1, factor(15));
    assert_eq!(very_easy_level, DifficultyLevel::VeryEasy);

    let easy_level = classify_difficulty_level(SolvingTechnique::NakedSingle, 1, factor(21));
    assert_eq!(easy_level, DifficultyLevel::Easy);

    let hard_level = classify_difficulty_level(SolvingTechnique::XWing, 4, factor(30));
    assert_eq!(hard_level, DifficultyLevel::Hard);

    let expert_level = classify_difficulty_level(SolvingTechnique::Swordfish, 6, factor(75));
    assert_eq!(expert_level, DifficultyLevel::Expert);
}

#[test]
fn test_heuristic_analysis() {
    let board = first_cells_filled(26);
    let technique = analyze_difficulty_heuristic(&board);
    println!("26 clues -> {:?}", technique);
    assert!(technique >= SolvingTechnique::PointingPairs && technique <= SolvingTechnique::XWing);

    let hard_board = first_cells_filled(23);
    let hard_technique = analyze_difficulty_heuristic(&hard_board);
    println!("23 clues -> {:?}", hard_technique);
    assert!(
        hard_technique >= SolvingTechnique::XWing && hard_technique <= SolvingTechnique::Swordfish
    );
}

#[test]
fn the_stricter_signal_decides_the_level() {
    assert_eq!(classify_difficulty_level(HiddenSingle, 2, factor(10)), Easy);
    assert_eq!(classify_difficulty_level(NakedSingle, 1, factor(17)), VeryEasy);
    assert_eq!(classify_difficulty_level(NakedSingle, 1, factor(22)), Easy);
    assert_eq!(classify_difficulty_level(NakedSingle, 1, factor(23)), Medium);
    assert_eq!(classify_difficulty_level(HiddenSingle, 2, factor(38)), Medium);
    assert_eq!(classify_difficulty_level(HiddenSingle, 2, factor(39)), Hard);
    assert_eq!(classify_difficulty_level(HiddenSingle, 2, factor(60)), Hard);
    assert_eq!(classify_difficulty_level(HiddenSingle, 2, factor(61)), Expert);
    assert_eq!(classify_difficulty_level(NakedPair, 3, factor(10)), Medium);
    assert_eq!(classify_difficulty_level(HiddenPair, 9, factor(36)), Medium);
    assert_eq!(classify_difficulty_level(BoxLineReduction, 3, factor(45)), Hard);
    assert_eq!(classify_difficulty_level(PointingPairs, 3, factor(10)), Medium);
    assert_eq!(classify_difficulty_level(XWing, 9, factor(10)), Hard);
    assert_eq!(classify_difficulty_level(PointingTriples, 1, factor(61)), Expert);
    assert_eq!(classify_difficulty_level(Swordfish, 1, factor(10)), Expert);
    assert_eq!(classify_difficulty_level(XYWing, 1, factor(10)), Expert);
    assert_eq!(classify_difficulty_level(TrialAndError, 1, factor(10)), Expert);
    assert_eq!(
        classify_difficulty_level(NakedSingle, 1, BranchingFactor { numerator: 1701, denominator: 1000 }),
        Easy
    );
}

#[test]
fn the_heuristic_follows_the_clue_count() {
    let expected = [
        (81, NakedSingle),
        (45, NakedSingle),
        (44, HiddenSingle),
        (36, HiddenSingle),
        (35, HiddenPair),
        (34, HiddenPair),
        (33, HiddenPair),
        (32, HiddenPair),
        (31, NakedPair),
        (30, NakedPair),
        (29, BoxLineReduction),
        (28, BoxLineReduction),
        (27, BoxLineReduction),
        (26, PointingPairs),
        (25, PointingPairs),
        (24, XWing),
        (22, XWing),
        (21, Swordfish),
        (20, Swordfish),
        (19, Swordfish),
        (18, Swordfish),
        (17, XYWing),
        (16, ForcingChain),
        (0, ForcingChain),
    ];
    for (clues, technique) in expected {
        assert_eq!(analyze_difficulty_heuristic(&first_cells_filled(clues)), technique, "{}", clues);
    }
}

#[test]
fn complexity_counts_clues_and_crowding() {
    assert_eq!(
        calculate_puzzle_complexity(&first_cells_filled(26)),
        PuzzleComplexity { clues: 26, density: 528 }
    );
    assert_eq!(
        calculate_puzzle_complexity(&first_cells_filled(0)),
        PuzzleComplexity { clues: 0, density: 0 }
    );
    assert_eq!(
        calculate_puzzle_complexity(&first_cells_filled(81)),
        PuzzleComplexity { clues: 81, density: 2187 }
    );
    let mut lone = vec![None; 81];
    lone[40] = Some(3);
    assert_eq!(calculate_puzzle_complexity(&lone), PuzzleComplexity { clues: 1, density: 3 });
}

#[test]
fn complexity_thresholds_are_exact() {
    let spread = PuzzleComplexity { clues: 17, density: 51 };
    assert!(spread.exceeds(28));
    assert!(spread.exceeds(37));
    assert!(!spread.exceeds(38));
    assert!(!spread.exceeds(45));
    let crowded = PuzzleComplexity { clues: 26, density: 528 };
    assert!(!crowded.exceeds(10));
    let none = PuzzleComplexity { clues: 0, density: 0 };
    assert!(!none.exceeds(10));
}

#[test]
fn a_single_empty_cell_needs_a_naked_single_only() {
    let mut board = parse(SOLVED);
    board[0] = None;
    let analysis = analyze_difficulty(&board);
    assert_eq!(analysis.hardest_technique, SolvingTechnique::NakedSingle);
    assert_eq!(analysis.technique_diversity, 1);
    assert_eq!(analysis.branching_factor, BranchingFactor { numerator: 1, denominator: 1 });
    assert_eq!(analysis.level, DifficultyLevel::VeryEasy);
}

#[test]
fn a_finished_board_is_very_easy() {
    let analysis = analyze_difficulty(&parse(SOLVED));
    assert_eq!(analysis.hardest_technique, SolvingTechnique::NakedSingle);
    assert_eq!(analysis.technique_diversity, 0);
    assert_eq!(analysis.level, DifficultyLevel::VeryEasy);
}

#[test]
fn the_empty_board_falls_to_the_heuristic() {
    let analysis = analyze_difficulty(&vec![None; 81]);
    assert_eq!(analysis.hardest_technique, SolvingTechnique::ForcingChain);
    assert_eq!(analysis.technique_diversity, 0);
    assert_eq!(analysis.branching_factor, BranchingFactor { numerator: 729, denominator: 81 });
    assert_eq!(analysis.level, DifficultyLevel::Expert);
}

#[test]
fn levels_are_ordered() {
    assert!(DifficultyLevel::VeryEasy < DifficultyLevel::Easy);
    assert!(DifficultyLevel::Easy < DifficultyLevel::Medium);
    assert!(DifficultyLevel::Medium < DifficultyLevel::Hard);
    assert!(DifficultyLevel::Hard < DifficultyLevel::Expert);
    assert_eq!(DifficultyLevel::Medium.stricter(DifficultyLevel::Easy), DifficultyLevel::Medium);
    assert_eq!(DifficultyLevel::Easy.stricter(DifficultyLevel::Hard), DifficultyLevel::Hard);
    assert_eq!(DifficultyLevel::Expert.rank(), 4);
}

#[test]
fn branching_factor_comparisons_are_exact() {
    let f = BranchingFactor { numerator: 17, denominator: 10 };
    assert!(f.at_most(1700));
    assert!(f.at_least(1700));
    assert!(!f.at_most(1699));
    assert!(!f.at_least(1701));
    assert_eq!(f.distance_to(1400), 3000);
    assert_eq!(f.distance_to(2500), 8000);
    assert!(f.near(1400, 300));
    assert!(!f.near(1400, 299));
    assert!(f.very_near(1400, 600));
    assert!(!f.very_near(1400, 599));
    assert_eq!(BranchingFactor::new(10, 0), BranchingFactor { numerator: 1, denominator: 1 });
    assert_eq!(BranchingFactor::new(10, 4), BranchingFactor { numerator: 10, denominator: 4 });
}
