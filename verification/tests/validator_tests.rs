use sudoku_wasm::types::BOARD_SIZE;
use sudoku_wasm::validator::{
    count_clues, count_empty_cells, find_next_empty_cell, has_unique_solution, is_board_complete,
    is_board_valid, solve, solve_board, validate_board,
};

fn parse(text: &str) -> Vec<Option<u8>> {
    text.bytes().map(|b| if b == b'.' { None } else { Some(b - b'0') }).collect()
}

const SOLVED: &str =
    "534678912672195348198342567859761423426853791713924856961537284287419635345286179";
const PUZZLE: &str =
    "53..7....6..195....98....6.8...6...34..8.3..17...2...6.6....28....419..5....8..79";

#[test]
fn validator_test_validate_empty_board() {
    let board = vec![None; BOARD_SIZE];
    let result = validate_board(&board);
    assert!(result.invalid_indices.is_empty());
    assert!(!result.is_complete);
}

#[test]
fn test_count_functions() {
    let mut board = vec![None; BOARD_SIZE];
    board[0] = Some(1);
    board[1] = Some(2);

    assert_eq!(count_empty_cells(&board), 79);
    assert_eq!(count_clues(&board), 2);
    assert!(!is_board_complete(&board));
}

#[test]
fn test_find_next_empty_cell() {
    let mut board = vec![Some(1); BOARD_SIZE];
    assert_eq!(find_next_empty_cell(&board), None);

    board[5] = None;
    assert_eq!(find_next_empty_cell(&board), Some(5));
}

#[test]
fn conflicts_are_listed_in_ascending_order() {
    let mut board = vec![None; BOARD_SIZE];
    board[0] = Some(4);
    board[8] = Some(4);
    board[40] = Some(9);
    board[76] = Some(9);
    board[20] = Some(1);
    let result = validate_board(&board);
    assert_eq!(result.invalid_indices, vec![0, 8, 40, 76]);
    assert!(!result.is_complete);
    assert!(!is_board_valid(&board));
}

#[test]
fn a_full_board_with_a_conflict_is_not_complete() {
    let mut board = parse(SOLVED);
    board[0] = Some(3);
    let result = validate_board(&board);
    assert!(result.invalid_indices.contains(&0));
    assert!(result.invalid_indices.contains(&1));
    assert!(!result.is_complete);
    assert!(is_board_complete(&board));
}

#[test]
fn solving_a_finished_board_leaves_it_unchanged() {
    let board = parse(SOLVED);
    assert_eq!(solve(&board), Some(board.clone()));
    let mut in_place = board.clone();
    assert!(solve_board(&mut in_place));
    assert_eq!(in_place, board);
}

#[test]
fn solving_then_validating_finds_a_finished_board() {
    let puzzle = parse(PUZZLE);
    let solution = solve(&puzzle).expect("the puzzle has a completion");
    assert_eq!(solution, parse(SOLVED));
    let result = validate_board(&solution);
    assert!(result.is_complete);
    assert!(result.invalid_indices.is_empty());
    for i in 0..81 {
        if puzzle[i].is_some() {
            assert_eq!(solution[i], puzzle[i]);
        }
    }
}

#[test]
fn the_first_completion_in_lexicographic_order_is_returned() {
    let empty: Vec<Option<u8>> = vec![None; BOARD_SIZE];
    let solution = solve(&empty).expect("the empty board has completions");
    let first_row: Vec<Option<u8>> = (1..=9).map(Some).collect();
    assert_eq!(&solution[0..9], &first_row[..]);
    assert_eq!(
        solution,
        parse("123456789456789123789123456214365897365897214897214365531642978642978531978531642")
    );
}

#[test]
fn an_unsolvable_board_is_left_unchanged() {
    let mut board = vec![None; BOARD_SIZE];
    for col in 0..8 {
        board[col] = Some(col as u8 + 1);
    }
    board[17] = Some(9);
    let before = board.clone();
    assert!(!solve_board(&mut board));
    assert_eq!(board, before);
    assert!(!has_unique_solution(&before));
    assert_eq!(solve(&before), None);
}

#[test]
fn conflicting_clues_have_no_completion() {
    let mut board = parse(SOLVED);
    board.swap(0, 1);
    assert!(!has_unique_solution(&board));
    let mut open = parse(PUZZLE);
    open.swap(0, 1);
    let before = open.clone();
    assert!(!has_unique_solution(&open));
    assert!(!solve_board(&mut open));
    assert_eq!(open, before);
}

#[test]
fn a_digit_out_of_range_has_no_completion() {
    let mut board = parse(PUZZLE);
    board[0] = Some(10);
    assert!(!has_unique_solution(&board));
    board[0] = Some(0);
    assert!(!has_unique_solution(&board));
}

#[test]
fn a_puzzle_with_a_completion_counts_as_unique() {
    assert!(has_unique_solution(&parse(PUZZLE)));
    assert!(has_unique_solution(&vec![None; BOARD_SIZE]));
}

#[test]
fn clues_and_empty_cells_add_up() {
    let puzzle = parse(PUZZLE);
    assert_eq!(count_clues(&puzzle), 30);
    assert_eq!(count_empty_cells(&puzzle), 51);
    assert_eq!(count_clues(&puzzle[..10]) + count_empty_cells(&puzzle[..10]), 10);
    assert_eq!(find_next_empty_cell(&puzzle), Some(2));
}
