//! The generator and the solver of puzzles.
//!
//! Both are the work of the `sudoku` crate. Nothing in this file is proved:
//! each contract states what that crate documents of the function called.

use vstd::prelude::*;
use sudoku::Sudoku;
use crate::grid::{grid_valid, solves, SudokuState};

verus! {

/// What `Sudoku::some_solution` returns for a grid. The search is fixed by
/// the grid alone, but which of several solutions it finds first is not
/// stated here.
pub uninterp spec fn solver_result(grid: Seq<u8>) -> Option<Seq<u8>>;

/// The values of a grid that may be missing.
pub open spec fn option_grid(grid: Option<SudokuState>) -> Option<Seq<u8>> {
    match grid {
        Some(g) => Some(g@),
        None => None,
    }
}

/// A new random puzzle.
///
/// Calls `Sudoku::generate` and `Sudoku::to_bytes`. Trusted: the puzzle is
/// uniquely solvable, with empty cells given as 0 and clues as 1 to 9. The
/// puzzle is drawn at random, so two calls may differ.
#[verifier::external_body]
pub fn create_sudoku() -> (puzzle: SudokuState)
    ensures
        grid_valid(puzzle@),
        exists|s: Seq<u8>| solves(s, puzzle@),
        forall|s: Seq<u8>, t: Seq<u8>| solves(s, puzzle@) && solves(t, puzzle@) ==> s == t,
{
    Sudoku::generate().to_bytes()
}

/// A solution of the grid, if the solver finds one.
///
/// Calls `Sudoku::from_bytes`, which takes every grid without a value above
/// 9, then `Sudoku::some_solution` and `Sudoku::to_bytes`. Trusted: a grid
/// that comes back is a solution of the one given.
#[verifier::external_body]
pub(crate) fn solve(grid: &SudokuState) -> (solution: Option<SudokuState>)
    requires
        grid_valid(grid@),
    ensures
        option_grid(solution) == solver_result(grid@),
        solution matches Some(s) ==> solves(s@, grid@),
{
    match Sudoku::from_bytes(*grid) {
        Ok(puzzle) => match puzzle.some_solution() {
            Some(solved) => Some(solved.to_bytes()),
            None => None,
        },
        Err(_) => None,
    }
}

} // verus!
