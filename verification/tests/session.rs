use sudoku_engine::board::UNSELECTED;
use sudoku_engine::grid::SudokuState;
use sudoku_engine::hint::HintError;
use sudoku_engine::model::GameStatus;
use sudoku_engine::relation::get_related_cells;
use sudoku_engine::session::PuzzleSession;

fn grid_from(digits: &str) -> SudokuState {
    let mut grid = [0u8; 81];
    for (cell, digit) in grid.iter_mut().zip(digits.bytes()) {
        *cell = digit - b'0';
    }
    grid
}

fn given() -> SudokuState {
    grid_from("530070000600195000098000060800060003400803001700020006060000280000419005000080079")
}

fn solved() -> SudokuState {
    grid_from("534678912672195348198342567859761423426853791713924856961537284287419635345286179")
}

#[test]
fn a_session_starts_fresh() {
    let session = PuzzleSession::start(given());
    assert_eq!(session.initial().0, given());
    assert_eq!(session.sudoku().0, given());
    assert_eq!(session.moves().0, vec![given()]);
    assert_eq!(session.clicked().0, UNSELECTED);
    assert_eq!(session.clicked().selected(), None);
    assert!(!session.mutable().0);
    assert!(session.related().0.is_empty());
    assert!(session.conflicting().0.is_empty());
    assert_eq!(session.status(), GameStatus::Fresh);
}

#[test]
fn selecting_a_cell_records_it_and_its_related_cells() {
    let mut session = PuzzleSession::start(given());
    session.select_cell(40);
    assert_eq!(session.clicked().0, 40);
    assert_eq!(session.clicked().selected(), Some(40));
    assert!(session.mutable().0);
    assert_eq!(session.related().0, get_related_cells(40));
    assert_eq!(session.sudoku().0, given());
    assert_eq!(session.moves().len(), 1);
    session.select_cell(0);
    assert!(!session.mutable().0);
    assert_eq!(session.related().0, get_related_cells(0));
}

#[test]
fn a_given_cell_cannot_be_written() {
    let mut puzzle = [0u8; 81];
    puzzle[0] = 5;
    let mut session = PuzzleSession::start(puzzle);
    session.select_cell(0);
    assert!(!session.enter_digit(3));
    assert!(!session.enter_digit(0));
    assert_eq!(session.sudoku().0, puzzle);
    assert_eq!(session.moves().len(), 1);
}

#[test]
fn nothing_is_written_without_a_selection() {
    let mut session = PuzzleSession::start([0u8; 81]);
    assert!(!session.enter_digit(3));
    assert_eq!(session.sudoku().0, [0u8; 81]);
    assert_eq!(session.moves().len(), 1);
}

#[test]
fn writing_the_same_digit_again_is_no_move() {
    let mut session = PuzzleSession::start([0u8; 81]);
    session.select_cell(42);
    assert!(session.enter_digit(1));
    assert_eq!(session.moves().len(), 2);
    assert!(!session.enter_digit(1));
    assert_eq!(session.moves().len(), 2);
    let mut expected = [0u8; 81];
    expected[42] = 1;
    assert_eq!(session.sudoku().0, expected);
}

#[test]
fn a_written_digit_is_committed_and_conflicts_are_found() {
    let mut session = PuzzleSession::start(given());
    session.select_cell(2);
    assert!(session.enter_digit(5));
    let mut expected = given();
    expected[2] = 5;
    assert_eq!(session.sudoku().0, expected);
    assert_eq!(session.moves().0, vec![given(), expected]);
    assert_eq!(session.conflicting().0, vec![0, 2]);
    assert_eq!(session.status(), GameStatus::InProgress);
    assert!(session.enter_digit(0));
    assert_eq!(session.sudoku().0, given());
    assert_eq!(session.moves().len(), 3);
    assert!(session.conflicting().0.is_empty());
}

#[test]
fn undo_reveals_the_grid_before_and_selects_the_changed_cell() {
    let first = [0u8; 81];
    let mut session = PuzzleSession::start(first);
    session.select_cell(5);
    assert!(session.enter_digit(3));
    session.select_cell(70);
    assert_eq!(session.undo(), Some(5));
    assert_eq!(session.sudoku().0, first);
    assert_eq!(session.moves().0, vec![first]);
    assert_eq!(session.clicked().0, 5);
    assert!(session.mutable().0);
    assert_eq!(session.related().0, get_related_cells(5));
    assert!(session.conflicting().0.is_empty());
    assert_eq!(session.status(), GameStatus::Fresh);
}

#[test]
fn undo_on_a_fresh_session_does_nothing() {
    let mut session = PuzzleSession::start(given());
    session.select_cell(7);
    assert_eq!(session.undo(), None);
    assert_eq!(session.moves().0, vec![given()]);
    assert_eq!(session.sudoku().0, given());
    assert_eq!(session.clicked().0, 7);
}

#[test]
fn undo_brings_a_conflict_back() {
    let mut session = PuzzleSession::start(given());
    session.select_cell(2);
    session.enter_digit(5);
    session.enter_digit(4);
    assert!(session.conflicting().0.is_empty());
    assert_eq!(session.undo(), Some(2));
    assert_eq!(session.conflicting().0, vec![0, 2]);
    assert_eq!(session.sudoku().0[2], 5);
}

#[test]
fn the_solver_fills_the_first_empty_cell() {
    let mut session = PuzzleSession::start(given());
    assert_eq!(session.hint(), Ok(Some(2)));
    let mut expected = given();
    expected[2] = 4;
    assert_eq!(session.sudoku().0, expected);
    assert_eq!(session.moves().0, vec![given(), expected]);
    assert_eq!(session.clicked().0, 2);
    assert!(session.mutable().0);
    assert_eq!(session.related().0, get_related_cells(2));
    assert!(session.conflicting().0.is_empty());
}

#[test]
fn hints_complete_the_puzzle() {
    let mut session = PuzzleSession::start(given());
    let empty = given().iter().filter(|&&value| value == 0).count();
    for _ in 0..empty {
        assert!(matches!(session.hint(), Ok(Some(_))));
        assert!(session.conflicting().0.is_empty());
    }
    assert_eq!(session.sudoku().0, solved());
    assert_eq!(session.status(), GameStatus::Complete);
    assert_eq!(session.moves().len(), empty + 1);
    assert_eq!(session.hint(), Ok(None));
    assert_eq!(session.moves().len(), empty + 1);
    assert_eq!(session.sudoku().0, solved());
}

#[test]
fn a_hint_on_a_solved_grid_changes_nothing() {
    let mut session = PuzzleSession::start(solved());
    session.select_cell(3);
    assert_eq!(session.status(), GameStatus::Complete);
    assert_eq!(session.hint(), Ok(None));
    assert_eq!(session.sudoku().0, solved());
    assert_eq!(session.moves().0, vec![solved()]);
    assert_eq!(session.clicked().0, 3);
    assert_eq!(session.hint_with(None), Ok(None));
    assert_eq!(session.hint_with(Some(given())), Ok(None));
    assert_eq!(session.moves().0, vec![solved()]);
}

#[test]
fn a_hint_empties_the_conflicting_cells_one_by_one() {
    let mut session = PuzzleSession::start(given());
    session.select_cell(2);
    session.enter_digit(4);
    session.select_cell(5);
    session.enter_digit(4);
    assert_eq!(session.conflicting().0, vec![2, 5]);
    assert_eq!(session.hint(), Ok(Some(2)));
    let mut one = given();
    one[2] = 4;
    let mut two = one;
    two[5] = 4;
    let mut three = two;
    three[2] = 0;
    assert_eq!(session.moves().0, vec![given(), one, two, three, given(), one]);
    assert_eq!(session.sudoku().0, one);
    assert!(session.conflicting().0.is_empty());
    assert_eq!(session.undo(), Some(2));
    assert_eq!(session.undo(), Some(5));
    assert_eq!(session.undo(), Some(2));
    assert_eq!(session.sudoku().0, two);
    assert_eq!(session.conflicting().0, vec![2, 5]);
}

#[test]
fn a_given_digit_emptied_by_a_hint_comes_back() {
    let mut session = PuzzleSession::start(given());
    session.select_cell(2);
    session.enter_digit(5);
    assert_eq!(session.hint_with(Some(solved())), Ok(Some(0)));
    assert_eq!(session.sudoku().0, given());
    assert_eq!(session.moves().len(), 5);
    assert_eq!(session.clicked().0, 0);
    assert!(!session.mutable().0);
    assert!(session.conflicting().0.is_empty());
}

#[test]
fn a_wrong_entry_makes_the_hint_unavailable() {
    let mut session = PuzzleSession::start(given());
    session.select_cell(2);
    session.enter_digit(1); // no clash, but no solution holds 1 here
    let before = session.moves().0.clone();
    assert_eq!(session.hint(), Err(HintError::Unsolvable));
    assert_eq!(session.moves().0, before);
    assert_eq!(session.sudoku().0[2], 1);
    assert_eq!(session.clicked().0, 2);
}

#[test]
fn a_solution_of_another_puzzle_is_refused() {
    let mut session = PuzzleSession::start(given());
    let mut other = solved();
    other.swap(0, 1);
    assert_eq!(session.hint_with(Some(other)), Err(HintError::Inconsistent));
    assert_eq!(session.hint_with(None), Err(HintError::Unsolvable));
    assert_eq!(session.moves().0, vec![given()]);
    assert_eq!(session.clicked().0, UNSELECTED);
}

#[test]
fn a_reset_starts_over() {
    let mut session = PuzzleSession::start(given());
    session.select_cell(2);
    session.enter_digit(5);
    session.reset(solved());
    assert_eq!(session.initial().0, solved());
    assert_eq!(session.sudoku().0, solved());
    assert_eq!(session.moves().0, vec![solved()]);
    assert_eq!(session.clicked().0, UNSELECTED);
    assert!(!session.mutable().0);
    assert!(session.related().0.is_empty());
    assert!(session.conflicting().0.is_empty());
}

#[test]
fn a_new_game_starts_from_a_new_puzzle() {
    let mut session = PuzzleSession::new();
    assert_eq!(session.status(), GameStatus::Fresh);
    assert_eq!(session.hint().map(|filled| filled.is_some()), Ok(true));
    assert_eq!(session.moves().len(), 2);
    session.new_game();
    assert_eq!(session.moves().len(), 1);
    assert_eq!(session.moves().0[0], session.initial().0);
    assert_eq!(session.sudoku().0, session.initial().0);
    assert_eq!(session.clicked().0, UNSELECTED);
    assert!(session.related().0.is_empty());
    assert!(session.conflicting().0.is_empty());
    assert_eq!(session.status(), GameStatus::Fresh);
}

#[test]
fn the_puzzle_stays_first_in_the_history() {
    let mut session = PuzzleSession::start(given());
    for step in 0..30u8 {
        match step % 4 {
            0 => {
                session.select_cell((step * 7) % 81);
                session.enter_digit(step % 9 + 1);
            }
            1 => {
                let _ = session.hint_with(Some(solved()));
            }
            2 => {
                session.undo();
            }
            _ => {
                session.select_cell(step);
                session.enter_digit(0);
            }
        }
        assert!(session.moves().len() >= 1);
        assert_eq!(session.moves().0[0], given());
        assert_eq!(session.initial().0, given());
        assert_eq!(*session.moves().0.last().unwrap(), session.sudoku().0);
        for pair in session.moves().0.windows(2) {
            let changed = (0..81).filter(|&i| pair[0][i] != pair[1][i]).count();
            assert_eq!(changed, 1);
        }
        for (cell, &digit) in given().iter().enumerate() {
            let now = session.sudoku().0[cell];
            assert!(digit == 0 || now == 0 || now == digit);
        }
    }
}

#[test]
fn what_the_board_shows_of_a_cell() {
    let mut session = PuzzleSession::start(given());
    session.select_cell(2);
    session.enter_digit(5);
    let selected = session.cell_props(2);
    assert_eq!(selected.index, 2);
    assert_eq!(selected.value, 5);
    assert!(selected.selected);
    assert!(!selected.highlighted);
    assert!(selected.conflicting);
    assert!(selected.mutable);
    assert_eq!(selected.class, "tsb bdb ldb input");
    let fixed = session.cell_props(0);
    assert_eq!(fixed.value, 5);
    assert!(!fixed.selected);
    assert!(fixed.highlighted);
    assert!(fixed.conflicting);
    assert!(!fixed.mutable);
    assert_eq!(fixed.class, "tsb lsb rdb bdb");
    let far = session.cell_props(80);
    assert_eq!(far.value, 9);
    assert!(!far.selected && !far.highlighted && !far.conflicting && !far.mutable);
    assert_eq!(far.class, "bsb rsb ldb");
    let cells = session.cells();
    assert_eq!(cells.len(), 81);
    for (i, cell) in cells.iter().enumerate() {
        assert_eq!(cell.index as usize, i);
        assert_eq!(cell.value, session.sudoku().0[i]);
        assert_eq!(cell.mutable, given()[i] == 0);
        assert_eq!(cell.selected, i == 2);
        assert_eq!(cell.highlighted, session.related().0.contains(&cell.index));
        assert_eq!(cell.conflicting, i == 0 || i == 2);
    }
}
