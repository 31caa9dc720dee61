use sudoku_wasm::grid::{
    cells_see, coords_to_index, get_box_index, get_box_indices, get_box_start_coords,
    get_column_indices, get_row_indices, index_to_coords, is_valid_placement,
};

#[test]
fn test_coords_to_index() {
    assert_eq!(coords_to_index(0, 0), 0);
    assert_eq!(coords_to_index(0, 8), 8);
    assert_eq!(coords_to_index(8, 0), 72);
    assert_eq!(coords_to_index(8, 8), 80);
    assert_eq!(coords_to_index(4, 4), 40);
}

#[test]
fn test_index_to_coords() {
    assert_eq!(index_to_coords(0), (0, 0));
    assert_eq!(index_to_coords(8), (0, 8));
    assert_eq!(index_to_coords(72), (8, 0));
    assert_eq!(index_to_coords(80), (8, 8));
    assert_eq!(index_to_coords(40), (4, 4));
}

#[test]
fn test_get_box_index() {
    assert_eq!(get_box_index(0, 0), 0);
    assert_eq!(get_box_index(0, 4), 1);
    assert_eq!(get_box_index(0, 8), 2);
    assert_eq!(get_box_index(4, 0), 3);
    assert_eq!(get_box_index(4, 4), 4);
    assert_eq!(get_box_index(8, 8), 8);
}

#[test]
fn index_and_coordinates_round_trip() {
    for index in 0..81usize {
        let (row, col) = index_to_coords(index);
        assert!(row < 9 && col < 9);
        assert_eq!(coords_to_index(row, col), index);
    }
}

#[test]
fn box_start_coordinates() {
    assert_eq!(get_box_start_coords(0), (0, 0));
    assert_eq!(get_box_start_coords(4), (3, 3));
    assert_eq!(get_box_start_coords(5), (3, 6));
    assert_eq!(get_box_start_coords(8), (6, 6));
}

#[test]
fn units_of_the_centre_cell() {
    assert_eq!(get_row_indices(40), vec![36, 37, 38, 39, 40, 41, 42, 43, 44]);
    assert_eq!(get_column_indices(40), vec![4, 13, 22, 31, 40, 49, 58, 67, 76]);
    assert_eq!(get_box_indices(40), vec![30, 31, 32, 39, 40, 41, 48, 49, 50]);
}

#[test]
fn units_of_a_corner_cell() {
    assert_eq!(get_row_indices(80), vec![72, 73, 74, 75, 76, 77, 78, 79, 80]);
    assert_eq!(get_column_indices(80), vec![8, 17, 26, 35, 44, 53, 62, 71, 80]);
    assert_eq!(get_box_indices(80), vec![60, 61, 62, 69, 70, 71, 78, 79, 80]);
}

#[test]
fn cells_that_see_each_other() {
    assert!(cells_see(0, 8));
    assert!(cells_see(0, 72));
    assert!(cells_see(0, 20));
    assert!(cells_see(40, 40));
    assert!(!cells_see(0, 40));
    assert!(!cells_see(10, 80));
}

#[test]
fn placement_is_refused_by_row_column_and_box() {
    let mut board: Vec<Option<u8>> = vec![None; 81];
    board[3] = Some(5);
    board[36] = Some(6);
    board[10] = Some(7);
    assert!(!is_valid_placement(&board, 0, 0, 5));
    assert!(!is_valid_placement(&board, 0, 0, 6));
    assert!(!is_valid_placement(&board, 0, 0, 7));
    assert!(is_valid_placement(&board, 0, 0, 8));
    assert!(is_valid_placement(&board, 8, 8, 5));
    assert!(!is_valid_placement(&board, 0, 3, 5));
}
