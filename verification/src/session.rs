//! One game of Sudoku: the puzzle, the board, the history of the player's
//! moves and the selection, kept together and changed only together.

use vstd::prelude::*;
use crate::board::{
    contains_cell, CellProps, Clicked, Conflicting, InitialSudokuPuzzle, Mutable, Related,
    SudokuPuzzle,
};
use crate::conflict::{
    all_conflict_list, conflict_free, get_all_conflicting_cells, in_conflict,
    lemma_all_conflict_list,
};
use crate::grid::{
    find_first_empty, grid_valid, is_full, lemma_first_empty, lemma_solvable_is_consistent,
    solves, SudokuState,
};
use crate::hint::{cleared, cleared_below, get_hint, lemma_cleared, remove_conflicting_cells, HintError};
use crate::history::{find_changed_cell, SudokuPuzzleMoves};
use crate::model::{
    cleanup_trail, lemma_cleanup_trail, lemma_enter_wf, lemma_fresh_wf, lemma_hint_leaves_no_conflict,
    lemma_hint_wf, lemma_undo_wf, GameStatus, SessionView,
};
use crate::relation::get_related_cells;
use crate::solver::{create_sudoku, option_grid, solve, solver_result};
use crate::style::{class_of, get_class};

verus! {

/// A game of Sudoku.
#[derive(Debug, Clone)]
pub struct PuzzleSession {
    initial: InitialSudokuPuzzle,
    sudoku: SudokuPuzzle,
    moves: SudokuPuzzleMoves,
    clicked: Clicked,
    mutable: Mutable,
    related: Related,
    conflicting: Conflicting,
}

impl View for PuzzleSession {
    type V = SessionView;

    closed spec fn view(&self) -> SessionView {
        SessionView {
            initial: self.initial.0@,
            history: self.moves@,
            selected: self.clicked.cell(),
        }
    }
}

impl PuzzleSession {
    /// The game is well formed, and what the session keeps beside it (the
    /// board, whether the selected cell can be edited, the related cells,
    /// the conflicts) is what the game determines.
    pub closed spec fn wf(&self) -> bool {
        &&& self@.wf()
        &&& self.sudoku.0@ == self@.current()
        &&& (self.clicked.0 < 81 || self.clicked.0 == crate::board::UNSELECTED)
        &&& self.mutable.0 == self@.editable()
        &&& self.related.0@ == self@.related()
        &&& self.conflicting.0@ == self@.conflicts()
    }

    /// A well-formed session holds a well-formed game.
    pub proof fn lemma_wf(&self)
        requires
            self.wf(),
        ensures
            self@.wf(),
    {
    }

    /// A game that starts from the given puzzle.
    pub fn start(puzzle: SudokuState) -> (session: Self)
        requires
            grid_valid(puzzle@),
        ensures
            session.wf(),
            session@ == SessionView::fresh(puzzle@),
    {
        let conflicting = get_all_conflicting_cells(&puzzle);
        let session = PuzzleSession {
            initial: InitialSudokuPuzzle(puzzle),
            sudoku: SudokuPuzzle(puzzle),
            moves: SudokuPuzzleMoves::new(puzzle),
            clicked: Clicked::none(),
            mutable: Mutable(false),
            related: Related(Vec::new()),
            conflicting: Conflicting(conflicting),
        };
        proof {
            lemma_fresh_wf(puzzle@);
            assert(session@ == SessionView::fresh(puzzle@));
            assert(session.related.0@ =~= session@.related());
        }
        session
    }

    /// A game that starts from a new random puzzle, one that has a solution.
    /// Nothing is selected, and the board shows no conflict.
    pub fn new() -> (session: Self)
        ensures
            session.wf(),
            session@ == SessionView::fresh(session@.initial),
            exists|s: Seq<u8>| solves(s, session@.initial),
            session@.conflicts().len() == 0,
    {
        let puzzle = create_sudoku();
        proof {
            let s = choose|s: Seq<u8>| solves(s, puzzle@);
            lemma_no_conflict_in_solvable(s, puzzle@);
        }
        Self::start(puzzle)
    }

    /// Starts over from the given puzzle: the history holds the puzzle
    /// alone and nothing is selected.
    pub fn reset(&mut self, puzzle: SudokuState)
        requires
            grid_valid(puzzle@),
        ensures
            final(self).wf(),
            final(self)@ == SessionView::fresh(puzzle@),
    {
        *self = Self::start(puzzle);
    }

    /// Starts over from a new random puzzle, one that has a solution.
    /// Nothing is selected, and the board shows no conflict.
    pub fn new_game(&mut self)
        ensures
            final(self).wf(),
            final(self)@ == SessionView::fresh(final(self)@.initial),
            exists|s: Seq<u8>| solves(s, final(self)@.initial),
            final(self)@.conflicts().len() == 0,
    {
        *self = Self::new();
    }

    /// The puzzle as it was given.
    pub fn initial(&self) -> (puzzle: &InitialSudokuPuzzle)
        ensures
            puzzle.0@ == self@.initial,
    {
        &self.initial
    }

    /// The grid on the board.
    pub fn sudoku(&self) -> (board: &SudokuPuzzle)
        ensures
            self.wf() ==> board.0@ == self@.current(),
    {
        &self.sudoku
    }

    /// Every grid of the game, oldest first.
    pub fn moves(&self) -> (moves: &SudokuPuzzleMoves)
        ensures
            moves@ == self@.history,
    {
        &self.moves
    }

    /// The selected cell.
    pub fn clicked(&self) -> (clicked: &Clicked)
        ensures
            clicked.cell() == self@.selected,
            self.wf() ==> clicked.0 < 81 || clicked.0 == crate::board::UNSELECTED,
    {
        &self.clicked
    }

    /// Whether the selected cell may be edited.
    pub fn mutable(&self) -> (mutable: &Mutable)
        ensures
            self.wf() ==> mutable.0 == self@.editable(),
    {
        &self.mutable
    }

    /// The cells related to the selected cell.
    pub fn related(&self) -> (related: &Related)
        ensures
            self.wf() ==> related.0@ == self@.related(),
    {
        &self.related
    }

    /// The cells that violate a rule.
    pub fn conflicting(&self) -> (conflicting: &Conflicting)
        ensures
            self.wf() ==> conflicting.0@ == self@.conflicts(),
    {
        &self.conflicting
    }

    /// How far the game has come.
    pub fn status(&self) -> (status: GameStatus)
        requires
            self.wf(),
        ensures
            status == self@.status(),
    {
        if find_first_empty(&self.sudoku.0).is_none() {
            GameStatus::Complete
        } else if self.moves.len() == 1 {
            GameStatus::Fresh
        } else {
            GameStatus::InProgress
        }
    }

    /// Selects a cell. The board is not touched.
    pub fn select_cell(&mut self, index: u8)
        requires
            old(self).wf(),
            index < 81,
        ensures
            final(self).wf(),
            final(self)@ == old(self)@.select(index),
    {
        self.clicked = Clicked(index);
        self.mutable = Mutable(self.initial.0[index as usize] == 0);
        self.related = Related(get_related_cells(index));
    }

    /// Enters a digit, or 0 to empty the cell, into the selected cell, and
    /// says whether the board has changed.
    ///
    /// Nothing happens when no cell is selected, when the puzzle gave the
    /// selected cell, or when the cell holds the value already. Else the
    /// value is written and the new grid committed.
    pub fn enter_digit(&mut self, value: u8) -> (written: bool)
        requires
            old(self).wf(),
            value <= 9,
        ensures
            final(self).wf(),
            final(self)@ == old(self)@.enter(value),
            written == old(self)@.accepts(value),
    {
        if self.clicked.0 >= 81 || !self.mutable.0 {
            return false;
        }
        let cell: usize = self.clicked.0 as usize;
        if self.sudoku.0[cell] == value {
            return false;
        }
        let mut grid: SudokuState = self.sudoku.0;
        grid[cell] = value;
        self.moves.commit(grid);
        self.sudoku = SudokuPuzzle(grid);
        self.conflicting = Conflicting(get_all_conflicting_cells(&grid));
        proof {
            lemma_enter_wf(old(self)@, value);
            assert(grid@[cell as int] != old(self).sudoku.0@[cell as int]);
            assert(self@.history == old(self)@.enter(value).history);
        }
        true
    }

    /// Takes back the newest grid of the history and selects the cell that
    /// it had changed; returns that cell. With nothing to take back, the
    /// session stays as it is and `None` is returned.
    pub fn undo(&mut self) -> (changed: Option<u8>)
        requires
            old(self).wf(),
        ensures
            final(self).wf(),
            final(self)@ == old(self)@.undo(),
            changed == if old(self)@.history.len() > 1 {
                final(self)@.selected
            } else {
                None
            },
            old(self)@.history.len() > 1 ==> changed is Some,
    {
        if self.moves.len() <= 1 {
            return None;
        }
        proof {
            lemma_undo_wf(old(self)@);
        }
        let popped = self.moves.last();
        let revealed = self.moves.undo();
        let changed = find_changed_cell(&popped, &revealed);
        if let Some(cell) = changed {
            self.sudoku = SudokuPuzzle(revealed);
            self.clicked = Clicked(cell);
            self.mutable = Mutable(self.initial.0[cell as usize] == 0);
            self.related = Related(get_related_cells(cell));
            self.conflicting = Conflicting(get_all_conflicting_cells(&revealed));
        }
        changed
    }

    /// Gives a hint from what the solver returned for the board with its
    /// conflicting cells emptied.
    ///
    /// On a board without an empty cell and without a conflict nothing
    /// happens. Else, with a solution that fits the puzzle, every
    /// conflicting cell is emptied, one grid committed for each, and the
    /// first empty cell then takes its digit from the solution; that cell is
    /// selected and returned. Without such a solution the hint fails and
    /// the session stays as it is.
    pub fn hint_with(&mut self, solved: Option<SudokuState>) -> (filled: Result<
        Option<u8>,
        HintError,
    >)
        requires
            old(self).wf(),
        ensures
            final(self).wf(),
            (final(self)@, filled) == old(self)@.hint(option_grid(solved)),
            !(filled matches Ok(Some(_))) ==> final(self)@ == old(self)@,
            is_full(old(self)@.current()) && conflict_free(old(self)@.current()) ==> filled
                matches Ok(None),
            (filled matches Ok(Some(_)) && solved matches Some(s) && solves(
                s@,
                cleared(old(self)@.current()),
            )) ==> final(self)@.conflicts().len() == 0,
    {
        let current: SudokuState = self.sudoku.0;
        proof {
            lemma_hint_wf(old(self)@, option_grid(solved));
        }
        let hint = match get_hint(&self.initial.0, &current, solved) {
            Ok(hint) => hint,
            Err(e) => {
                return Err(e);
            },
        };
        let cell: u8 = match hint.filled {
            Some(cell) => cell,
            None => {
                return Ok(None);
            },
        };
        let mut grid: SudokuState = current;
        let mut i: u8 = 0;
        proof {
            assert(grid@ =~= cleared_below(current@, 0));
            assert(self.moves@ =~= old(self).moves@ + cleanup_trail(current@, 0));
            lemma_all_conflict_list(current@);
        }
        while i < 81
            invariant
                i <= 81,
                old(self).wf(),
                current@ == old(self)@.current(),
                self.initial == old(self).initial,
                self.conflicting == old(self).conflicting,
                forall|k: u8| #[trigger]
                    self.conflicting.0@.contains(k) <==> in_conflict(current@, k as int),
                self.moves.wf(),
                grid@ == cleared_below(current@, i as int),
                self.moves@ == old(self).moves@ + cleanup_trail(current@, i as nat),
            decreases 81 - i,
        {
            proof {
                lemma_cleanup_trail(old(self).moves@, old(self).initial.0@, current@, i as nat);
            }
            if contains_cell(&self.conflicting.0, i) {
                grid[i as usize] = 0;
                assert(grid@ =~= cleared_below(current@, i + 1));
                self.moves.commit(grid);
                assert(self.moves@ =~= old(self).moves@ + cleanup_trail(current@, (i + 1) as nat));
            } else {
                assert(grid@ =~= cleared_below(current@, i + 1));
            }
            i += 1;
        }
        proof {
            lemma_cleanup_trail(old(self).moves@, old(self).initial.0@, current@, 81);
        }
        self.moves.commit(hint.grid);
        self.sudoku = SudokuPuzzle(hint.grid);
        self.clicked = Clicked(cell);
        self.mutable = Mutable(self.initial.0[cell as usize] == 0);
        self.related = Related(get_related_cells(cell));
        self.conflicting = Conflicting(hint.conflicting);
        proof {
            assert(self@.history == old(self)@.hint(option_grid(solved)).0.history);
            if let Some(s) = solved {
                if solves(s@, cleared(current@)) {
                    lemma_hint_leaves_no_conflict(old(self)@, s@);
                }
            }
        }
        Ok(Some(cell))
    }

    /// Gives a hint: asks the solver for a solution of the board with its
    /// conflicting cells emptied, and goes on as `hint_with` does. The
    /// solver is not asked when that board has no empty cell.
    ///
    /// After a hint that filled a cell the board shows no conflict.
    pub fn hint(&mut self) -> (filled: Result<Option<u8>, HintError>)
        requires
            old(self).wf(),
        ensures
            final(self).wf(),
            (final(self)@, filled) == old(self)@.hint(
                solver_result(cleared(old(self)@.current())),
            ),
            !(filled matches Ok(Some(_))) ==> final(self)@ == old(self)@,
            is_full(old(self)@.current()) && conflict_free(old(self)@.current()) ==> filled
                matches Ok(None),
            filled matches Ok(Some(_)) ==> final(self)@.conflicts().len() == 0,
    {
        let mut clean: SudokuState = self.sudoku.0;
        proof {
            lemma_all_conflict_list(clean@);
            lemma_cleared(clean@);
            assert forall|i: int| 0 <= i < self.conflicting.0@.len() implies self.conflicting.0@[i]
                < 81 by {
                assert(self.conflicting.0@.contains(self.conflicting.0@[i]));
            }
            assert(grid_valid(self@.history[self@.history.len() - 1]));
        }
        remove_conflicting_cells(&mut clean, &self.conflicting.0);
        let solved = match find_first_empty(&clean) {
            Some(_) => solve(&clean),
            None => None,
        };
        proof {
            lemma_first_empty(clean@);
        }
        self.hint_with(solved)
    }

    /// What the board shows of the cell `index`.
    pub fn cell_props(&self, index: u8) -> (props: CellProps)
        requires
            self.wf(),
            index < 81,
        ensures
            props.index == index,
            props.value == self@.current()[index as int],
            props.mutable == (self@.initial[index as int] == 0),
            props.selected == (self@.selected == Some(index)),
            props.highlighted == self@.related().contains(index),
            props.conflicting == in_conflict(self@.current(), index as int),
            props.class@ == class_of(index as int, props.mutable),
    {
        let mutable = self.initial.0[index as usize] == 0;
        proof {
            lemma_all_conflict_list(self@.current());
        }
        CellProps {
            index,
            value: self.sudoku.0[index as usize],
            selected: self.clicked.0 == index,
            highlighted: contains_cell(&self.related.0, index),
            conflicting: contains_cell(&self.conflicting.0, index),
            class: get_class(index, mutable),
            mutable,
        }
    }

    /// What the board shows of its 81 cells, in their order.
    pub fn cells(&self) -> (all: Vec<CellProps>)
        requires
            self.wf(),
        ensures
            all@.len() == 81,
            forall|i: int|
                0 <= i < 81 ==> {
                    &&& (#[trigger] all@[i]).index == i
                    &&& all@[i].value == self@.current()[i]
                    &&& all@[i].mutable == (self@.initial[i] == 0)
                    &&& all@[i].selected == (self@.selected == Some(i as u8))
                    &&& all@[i].highlighted == self@.related().contains(i as u8)
                    &&& all@[i].conflicting == in_conflict(self@.current(), i)
                    &&& all@[i].class@ == class_of(i, all@[i].mutable)
                },
    {
        let mut all: Vec<CellProps> = Vec::new();
        let mut index: u8 = 0;
        while index < 81
            invariant
                index <= 81,
                self.wf(),
                all@.len() == index,
                forall|i: int|
                    0 <= i < index ==> {
                        &&& (#[trigger] all@[i]).index == i
                        &&& all@[i].value == self@.current()[i]
                        &&& all@[i].mutable == (self@.initial[i] == 0)
                        &&& all@[i].selected == (self@.selected == Some(i as u8))
                        &&& all@[i].highlighted == self@.related().contains(i as u8)
                        &&& all@[i].conflicting == in_conflict(self@.current(), i)
                        &&& all@[i].class@ == class_of(i, all@[i].mutable)
                    },
            decreases 81 - index,
        {
            all.push(self.cell_props(index));
            index += 1;
        }
        all
    }
}

/// A puzzle that has a solution shows no conflict.
pub proof fn lemma_no_conflict_in_solvable(s: Seq<u8>, g: Seq<u8>)
    requires
        g.len() == 81,
        solves(s, g),
    ensures
        conflict_free(g),
        all_conflict_list(g).len() == 0,
{
    lemma_solvable_is_consistent(s, g);
    lemma_all_conflict_list(g);
    assert forall|i: int| !in_conflict(g, i) by {
        if in_conflict(g, i) {
            let j = choose|j: int| crate::conflict::conflicts_with(g, i, j);
            assert(crate::grid::related(i, j));
        }
    }
}

} // verus!
