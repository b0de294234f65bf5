use sudoku_engine::board::{contains_cell, display_value, CellProps, Highlight};
use sudoku_engine::style::{get_class, number_button_class};

#[test]
fn classes_of_the_cells_of_the_first_band() {
    assert_eq!(get_class(0, false), "tsb lsb rdb bdb");
    assert_eq!(get_class(1, false), "tsb  bdb");
    assert_eq!(get_class(2, false), "tsb bdb ldb");
    assert_eq!(get_class(8, false), "tsb rsb bdb ldb");
    assert_eq!(get_class(9, false), "lsb rdb bdb");
    assert_eq!(get_class(10, false), "bdb");
    assert_eq!(get_class(11, false), "bdb ldb");
    assert_eq!(get_class(17, false), "rsb ldb bdb");
    assert_eq!(get_class(18, false), "lsb rdb");
    assert_eq!(get_class(19, false), "");
    assert_eq!(get_class(20, false), "ldb");
    assert_eq!(get_class(26, false), "rsb ldb");
}

#[test]
fn classes_of_the_cells_of_the_last_row() {
    assert_eq!(get_class(72, false), "bsb lsb rdb");
    assert_eq!(get_class(73, false), "bsb");
    assert_eq!(get_class(74, false), "bsb ldb");
    assert_eq!(get_class(75, false), "bsb lsb rdb");
    assert_eq!(get_class(79, false), "bsb");
    assert_eq!(get_class(80, false), "bsb rsb ldb");
}

#[test]
fn classes_repeat_from_band_to_band_and_stack_to_stack() {
    for id in 0..54u8 {
        assert_eq!(get_class(id, false), get_class(id % 27, false));
    }
    for id in 54..72u8 {
        assert_eq!(get_class(id, false), get_class(id - 54, false));
    }
    for id in 0..81u8 {
        if id % 9 < 6 {
            assert_eq!(get_class(id, false), get_class(id - id % 9 + id % 3, false));
        }
    }
}

#[test]
fn a_mutable_cell_is_an_input() {
    assert_eq!(get_class(0, true), "tsb lsb rdb bdb input");
    assert_eq!(get_class(40, true), "bdb input");
    assert_eq!(get_class(19, true), " input");
    assert_eq!(get_class(80, true), "bsb rsb ldb input");
}

#[test]
fn an_id_beyond_the_board_has_no_lines() {
    assert_eq!(get_class(81, false), "");
    assert_eq!(get_class(90, false), "");
    assert_eq!(get_class(255, false), "");
    assert_eq!(get_class(81, true), " input");
}

#[test]
fn classes_of_the_buttons() {
    assert_eq!(number_button_class(0), "input icon delete");
    for number in 1..=9u8 {
        assert_eq!(number_button_class(number), "input number");
    }
}

fn props(selected: bool, conflicting: bool, highlighted: bool) -> CellProps {
    CellProps {
        index: 4,
        value: 7,
        selected,
        highlighted,
        conflicting,
        class: get_class(4, true),
        mutable: true,
    }
}

#[test]
fn selection_goes_before_conflict_and_conflict_before_relation() {
    assert_eq!(props(true, true, true).highlight(), Highlight::Selected);
    assert_eq!(props(true, false, false).highlight(), Highlight::Selected);
    assert_eq!(props(false, true, true).highlight(), Highlight::Conflicting);
    assert_eq!(props(false, true, false).highlight(), Highlight::Conflicting);
    assert_eq!(props(false, false, true).highlight(), Highlight::Related);
    assert_eq!(props(false, false, false).highlight(), Highlight::Plain);
}

#[test]
fn styles_of_the_highlights() {
    assert_eq!(Highlight::Selected.style(), "background-color: #e4ebf2;");
    assert_eq!(Highlight::Conflicting.style(), "background-color: #d5656f;");
    assert_eq!(Highlight::Related.style(), "background-color: #c2ddf8;");
    assert_eq!(Highlight::Plain.style(), "");
}

#[test]
fn an_empty_cell_shows_nothing_and_a_filled_one_its_digit() {
    assert_eq!(display_value(0), "");
    assert_eq!(display_value(1), "1");
    assert_eq!(display_value(9), "9");
    assert_eq!(display_value(10), "10");
    assert_eq!(display_value(90), "90");
    assert_eq!(display_value(107), "107");
    assert_eq!(display_value(255), "255");
    for value in 1..=255u8 {
        assert_eq!(display_value(value), value.to_string());
    }
    assert_eq!(props(false, false, false).text(), "7");
}

#[test]
fn a_list_holds_a_cell_or_not() {
    assert!(contains_cell(&vec![3, 9, 27], 9));
    assert!(contains_cell(&vec![3, 9, 27], 27));
    assert!(!contains_cell(&vec![3, 9, 27], 4));
    assert!(!contains_cell(&vec![], 0));
}
