//! The pieces of a board's state, and what the board shows of one cell.

use vstd::prelude::*;
use vstd::string::StringExecFns;
use std::borrow::Cow;
use crate::grid::{grid_valid, solves, SudokuState};
use crate::solver::create_sudoku;

verus! {

/// The value that stands for "no cell is selected".
pub const UNSELECTED: u8 = 90;

/// The selected cell, or `UNSELECTED`.
#[derive(Debug, Clone)]
pub struct Clicked(pub u8);

/// Whether the selected cell may be edited: the puzzle left it empty.
#[derive(Debug, Clone)]
pub struct Mutable(pub bool);

/// The cells related to the selected cell.
#[derive(Debug, Clone)]
pub struct Related(pub Vec<u8>);

/// The cells that violate a rule.
#[derive(Debug, Clone)]
pub struct Conflicting(pub Vec<u8>);

/// The puzzle as it was given.
#[derive(Debug, Clone)]
pub struct InitialSudokuPuzzle(pub SudokuState);

/// The grid on the board.
#[derive(Debug, Clone)]
pub struct SudokuPuzzle(pub SudokuState);

impl Clicked {
    /// The selected cell, if the value names one.
    pub open spec fn cell(self) -> Option<u8> {
        if self.0 < 81 {
            Some(self.0)
        } else {
            None
        }
    }

    /// No cell selected.
    pub fn none() -> (clicked: Clicked)
        ensures
            clicked.0 == UNSELECTED,
            clicked.cell() is None,
    {
        Clicked(UNSELECTED)
    }

    /// The selected cell, if there is one.
    pub fn selected(&self) -> (cell: Option<u8>)
        ensures
            cell == self.cell(),
    {
        if self.0 < 81 {
            Some(self.0)
        } else {
            None
        }
    }
}

impl InitialSudokuPuzzle {
    /// A new random puzzle: a valid grid with exactly one solution.
    pub fn new() -> (puzzle: Self)
        ensures
            grid_valid(puzzle.0@),
            exists|s: Seq<u8>| solves(s, puzzle.0@),
            forall|s: Seq<u8>, t: Seq<u8>| solves(s, puzzle.0@) && solves(t, puzzle.0@) ==> s == t,
    {
        Self(create_sudoku())
    }
}

impl Default for InitialSudokuPuzzle {
    fn default() -> (puzzle: Self)
        ensures
            grid_valid(puzzle.0@),
            exists|s: Seq<u8>| solves(s, puzzle.0@),
            forall|s: Seq<u8>, t: Seq<u8>| solves(s, puzzle.0@) && solves(t, puzzle.0@) ==> s == t,
    {
        Self::new()
    }
}

/// How a cell is set off from the others.
#[derive(Debug, Clone, Copy, PartialEq, Eq, Structural)]
pub enum Highlight {
    /// The cell is the selected one.
    Selected,
    /// The cell violates a rule.
    Conflicting,
    /// The cell is related to the selected one.
    Related,
    /// Nothing sets the cell off.
    Plain,
}

impl Highlight {
    /// The style text of the highlight.
    pub open spec fn style_text(self) -> Seq<char> {
        match self {
            Highlight::Selected => "background-color: #e4ebf2;"@,
            Highlight::Conflicting => "background-color: #d5656f;"@,
            Highlight::Related => "background-color: #c2ddf8;"@,
            Highlight::Plain => ""@,
        }
    }

    /// The style that paints the highlight.
    pub fn style(self) -> (text: &'static str)
        ensures
            text@ == self.style_text(),
    {
        match self {
            Highlight::Selected => "background-color: #e4ebf2;",
            Highlight::Conflicting => "background-color: #d5656f;",
            Highlight::Related => "background-color: #c2ddf8;",
            Highlight::Plain => "",
        }
    }
}

/// What the board shows of one cell.
#[derive(Debug)]
pub struct CellProps {
    /// The cell.
    pub index: u8,
    /// Its value; 0 is shown as a blank.
    pub value: u8,
    /// Whether it is the selected cell.
    pub selected: bool,
    /// Whether it is related to the selected cell.
    pub highlighted: bool,
    /// Whether it violates a rule.
    pub conflicting: bool,
    /// Its style class.
    pub class: Cow<'static, str>,
    /// Whether the player may edit it.
    pub mutable: bool,
}

/// Which highlight a cell gets: being selected goes before a conflict, a
/// conflict before being related.
pub open spec fn highlight_of(selected: bool, conflicting: bool, related: bool) -> Highlight {
    if selected {
        Highlight::Selected
    } else if conflicting {
        Highlight::Conflicting
    } else if related {
        Highlight::Related
    } else {
        Highlight::Plain
    }
}

impl CellProps {
    /// The highlight of the cell.
    pub fn highlight(&self) -> (h: Highlight)
        ensures
            h == highlight_of(self.selected, self.conflicting, self.highlighted),
    {
        if self.selected {
            Highlight::Selected
        } else if self.conflicting {
            Highlight::Conflicting
        } else if self.highlighted {
            Highlight::Related
        } else {
            Highlight::Plain
        }
    }

    /// The text of the cell: its digit, or nothing for an empty cell.
    pub fn text(&self) -> (text: String)
        ensures
            text@ == display_text(self.value),
    {
        display_value(self.value)
    }
}

/// The numeral of a digit.
pub open spec fn digit_text(d: int) -> Seq<char> {
    if d == 0 {
        "0"@
    } else if d == 1 {
        "1"@
    } else if d == 2 {
        "2"@
    } else if d == 3 {
        "3"@
    } else if d == 4 {
        "4"@
    } else if d == 5 {
        "5"@
    } else if d == 6 {
        "6"@
    } else if d == 7 {
        "7"@
    } else if d == 8 {
        "8"@
    } else {
        "9"@
    }
}

/// A number in decimal notation.
pub open spec fn decimal(n: nat) -> Seq<char>
    decreases n,
{
    if n < 10 {
        digit_text(n as int)
    } else {
        decimal(n / 10) + digit_text((n % 10) as int)
    }
}

/// What a cell of the given value shows: nothing for 0, else the value in
/// decimal notation.
pub open spec fn display_text(value: u8) -> Seq<char> {
    if value == 0 {
        Seq::empty()
    } else {
        decimal(value as nat)
    }
}

/// The numeral of a digit.
fn digit_str(d: u8) -> (text: &'static str)
    requires
        d < 10,
    ensures
        text@ == digit_text(d as int),
{
    match d {
        0 => "0",
        1 => "1",
        2 => "2",
        3 => "3",
        4 => "4",
        5 => "5",
        6 => "6",
        7 => "7",
        8 => "8",
        _ => "9",
    }
}

/// The text that a cell of the given value shows.
pub fn display_value(value: u8) -> (text: String)
    ensures
        text@ == display_text(value),
{
    let mut text = String::new();
    if value == 0 {
        return text;
    }
    if value >= 100 {
        text.append(digit_str(value / 100));
    }
    if value >= 10 {
        text.append(digit_str((value / 10) % 10));
    }
    text.append(digit_str(value % 10));
    proof {
        let n = value as nat;
        if n >= 100 {
            assert(decimal(n) == decimal(n / 10) + digit_text((n % 10) as int));
            assert(decimal(n / 10) == decimal(n / 100) + digit_text(((n / 10) % 10) as int));
            assert(decimal(n / 100) == digit_text((n / 100) as int));
        } else if n >= 10 {
            assert(decimal(n) == decimal(n / 10) + digit_text((n % 10) as int));
            assert(decimal(n / 10) == digit_text((n / 10) as int));
        }
        assert(text@ =~= display_text(value));
    }
    text
}

/// Whether the list holds the cell.
pub fn contains_cell(cells: &Vec<u8>, index: u8) -> (found: bool)
    ensures
        found == cells@.contains(index),
{
    let mut i: usize = 0;
    while i < cells.len()
        invariant
            i <= cells@.len(),
            forall|k: int| 0 <= k < i ==> cells@[k] != index,
        decreases cells@.len() - i,
    {
        if cells[i] == index {
            return true;
        }
        i += 1;
    }
    false
}

} // verus!
