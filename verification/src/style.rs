//! How a cell and a button look: the names of their style classes.
//!
//! A cell's class draws the lines of the board. Solid lines (`tsb`, `bsb`,
//! `lsb`, `rsb`) separate the boxes and frame the board, dashed ones (`bdb`,
//! `ldb`, `rdb`) separate the cells inside a box. Which of them a cell
//! carries depends on where its row stands in its band of three rows and
//! its column in its stack of three columns.

use vstd::prelude::*;
use vstd::string::StringExecFns;
use std::borrow::Cow;
use crate::grid::{col_of, row_of};

verus! {

/// The lines of the cell `id`: by the place of its row in its band (first,
/// middle, last of the board, last elsewhere), then by the place of its
/// column in its stack (last of the board, first, middle, last elsewhere).
pub open spec fn base_class(id: int) -> Seq<char> {
    let r = row_of(id);
    let c = col_of(id);
    if !(0 <= id < 81) {
        ""@
    } else if r % 3 == 0 {
        if c == 8 {
            "tsb rsb bdb ldb"@
        } else if c % 3 == 0 {
            "tsb lsb rdb bdb"@
        } else if c % 3 == 1 {
            "tsb  bdb"@
        } else {
            "tsb bdb ldb"@
        }
    } else if r % 3 == 1 {
        if c == 8 {
            "rsb ldb bdb"@
        } else if c % 3 == 0 {
            "lsb rdb bdb"@
        } else if c % 3 == 1 {
            "bdb"@
        } else {
            "bdb ldb"@
        }
    } else if r == 8 {
        if c == 8 {
            "bsb rsb ldb"@
        } else if c % 3 == 0 {
            "bsb lsb rdb"@
        } else if c % 3 == 1 {
            "bsb"@
        } else {
            "bsb ldb"@
        }
    } else {
        if c == 8 {
            "rsb ldb"@
        } else if c % 3 == 0 {
            "lsb rdb"@
        } else if c % 3 == 1 {
            ""@
        } else {
            "ldb"@
        }
    }
}

/// The class of a cell: its lines, and the word `input` where the player
/// may edit it.
pub open spec fn class_of(id: int, mutable: bool) -> Seq<char> {
    if mutable {
        base_class(id) + " input"@
    } else {
        base_class(id)
    }
}

/// The style class of the cell `id`. An `id` that names no cell has no
/// lines.
pub fn get_class(id: u8, mutable: bool) -> (class: Cow<'static, str>)
    ensures
        class@ == class_of(id as int, mutable),
{
    let lines: &'static str = match id {
        0 | 3 | 6 | 27 | 30 | 33 | 54 | 57 | 60 => "tsb lsb rdb bdb",
        1 | 4 | 7 | 28 | 31 | 34 | 55 | 58 | 61 => "tsb  bdb",
        2 | 5 | 29 | 32 | 56 | 59 => "tsb bdb ldb",
        8 | 35 | 62 => "tsb rsb bdb ldb",
        9 | 12 | 15 | 36 | 39 | 42 | 63 | 66 | 69 => "lsb rdb bdb",
        10 | 13 | 16 | 37 | 40 | 43 | 64 | 67 | 70 => "bdb",
        11 | 14 | 38 | 41 | 65 | 68 => "bdb ldb",
        18 | 21 | 24 | 45 | 48 | 51 => "lsb rdb",
        20 | 23 | 47 | 50 => "ldb",
        17 | 44 | 71 => "rsb ldb bdb",
        26 | 53 => "rsb ldb",
        72 | 75 | 78 => "bsb lsb rdb",
        73 | 76 | 79 => "bsb",
        74 | 77 => "bsb ldb",
        80 => "bsb rsb ldb",
        _ => "",
    };
    assert(lines@ == base_class(id as int));
    if mutable {
        Cow::Owned(String::from_str(lines).concat(" input"))
    } else {
        Cow::Borrowed(lines)
    }
}

/// The style class of the button that enters `number`; 0 is the button that
/// empties a cell.
pub fn number_button_class(number: u8) -> (class: &'static str)
    ensures
        class@ == if number == 0 {
            "input icon delete"@
        } else {
            "input number"@
        },
{
    match number {
        0 => "input icon delete",
        _ => "input number",
    }
}

} // verus!
