//! The rules behind a game of Sudoku on a 9x9 board.
//!
//! The library keeps the state of one game and answers what a board needs
//! to know: which cells are related to a cell, which cells violate a rule,
//! what an undo reveals and which cell a hint fills. Every function is
//! verified against its contract; the puzzles and their solutions come from
//! the `sudoku` crate, behind the contracts of the `solver` module.

pub mod board;
pub mod conflict;
pub mod grid;
pub mod hint;
pub mod history;
pub mod model;
pub mod relation;
pub mod session;
pub mod solver;
pub mod style;
