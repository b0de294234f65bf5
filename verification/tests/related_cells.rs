use sudoku_engine::grid::{are_related, box_index, col, row};
use sudoku_engine::relation::get_related_cells;

#[test]
fn test_related_cells_middle() {
    let index = 40; // Center cell of the board
    let related = get_related_cells(index);
    assert_eq!(related.len(), 20); // 8 in row, 8 in column, 4 in sub-grid, excluding duplicates and the cell itself
    assert!(related.contains(&32)); // Another cell in the same sub-grid
    assert!(related.contains(&39)); // Another cell in the same row
    assert!(related.contains(&49)); // Another cell in the same column
}

#[test]
fn test_related_cells_corner() {
    let index = 0; // Top-left corner cell of the board
    let related = get_related_cells(index);
    assert_eq!(related.len(), 20); // 8 in row, 8 in column, 4 in sub-grid, excluding duplicates and the cell itself
    assert!(related.contains(&1)); // Another cell in the same row
    assert!(related.contains(&9)); // Another cell in the same column
    assert!(related.contains(&10)); // Another cell in the same sub-grid
}

#[test]
fn test_related_cells_edge() {
    let index = 9; // An edge cell (but not corner)
    let related = get_related_cells(index);
    assert_eq!(related.len(), 20); // 8 in row, 8 in column, 4 in sub-grid, excluding duplicates and the cell itself
    assert!(related.contains(&0)); // Another cell in the same column
    assert!(related.contains(&11)); // Another cell in the same row
    assert!(related.contains(&20)); // Another cell in the same sub-grid
}

#[test]
fn related_cells_of_the_first_cell_are_exact() {
    assert_eq!(
        get_related_cells(0),
        vec![1, 2, 3, 4, 5, 6, 7, 8, 9, 10, 11, 18, 19, 20, 27, 36, 45, 54, 63, 72]
    );
}

#[test]
fn related_cells_of_the_last_cell_are_exact() {
    assert_eq!(
        get_related_cells(80),
        vec![8, 17, 26, 35, 44, 53, 60, 61, 62, 69, 70, 71, 72, 73, 74, 75, 76, 77, 78, 79]
    );
}

#[test]
fn every_cell_has_twenty_related_cells_and_is_none_of_them() {
    for index in 0..81u8 {
        let related = get_related_cells(index);
        assert_eq!(related.len(), 20);
        assert!(!related.contains(&index));
    }
}

#[test]
fn related_cells_rise_and_share_a_row_a_column_or_a_box() {
    for index in 0..81u8 {
        let related = get_related_cells(index);
        for pair in related.windows(2) {
            assert!(pair[0] < pair[1]);
        }
        for other in 0..81u8 {
            let shares = other != index
                && (other / 9 == index / 9
                    || other % 9 == index % 9
                    || (other / 27 == index / 27 && (other % 9) / 3 == (index % 9) / 3));
            assert_eq!(related.contains(&other), shares);
            assert_eq!(are_related(index, other), shares);
        }
    }
}

#[test]
fn coordinates_of_cells() {
    assert_eq!((row(0), col(0), box_index(0)), (0, 0, 0));
    assert_eq!((row(40), col(40), box_index(40)), (4, 4, 4));
    assert_eq!((row(80), col(80), box_index(80)), (8, 8, 8));
    assert_eq!((row(17), col(17), box_index(17)), (1, 8, 2));
    assert_eq!((row(57), col(57), box_index(57)), (6, 3, 7));
}

#[test]
fn an_index_beyond_the_board_is_related_to_nothing() {
    assert!(!are_related(81, 0));
    assert!(!are_related(0, 90));
    assert!(!are_related(7, 7));
    assert!(are_related(7, 8));
}
