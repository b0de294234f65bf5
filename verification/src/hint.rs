//! The next move: clear every rule violation, then fill the first empty
//! cell from a solution.

use vstd::prelude::*;
use crate::conflict::{
    all_conflict_list, conflict_free, conflicts_with, get_all_conflicting_cells, in_conflict,
    lemma_all_conflict_list,
};
use crate::grid::{
    extends, find_first_empty, first_empty, grid_valid, is_cell, is_full, lemma_first_empty,
    solves, SudokuState,
};
use crate::solver::option_grid;

verus! {

/// The grid with each of its conflicting cells below `n` emptied.
pub open spec fn cleared_below(g: Seq<u8>, n: int) -> Seq<u8> {
    Seq::new(81, |i: int| if i < n && in_conflict(g, i) { 0u8 } else { g[i] })
}

/// The grid with every conflicting cell emptied.
pub open spec fn cleared(g: Seq<u8>) -> Seq<u8> {
    cleared_below(g, 81)
}

/// The grid with the listed cells emptied.
pub open spec fn emptied(g: Seq<u8>, cells: Seq<u8>) -> Seq<u8> {
    Seq::new(81, |i: int| if cells.contains(i as u8) { 0u8 } else { g[i] })
}

/// A solution fits a puzzle when it is a full grid of digits that keeps
/// every digit the puzzle gives.
pub open spec fn fits(s: Seq<u8>, initial: Seq<u8>) -> bool {
    &&& grid_valid(s)
    &&& is_full(s)
    &&& extends(s, initial)
}

/// Why no hint could be given.
#[derive(Debug, Clone, Copy, PartialEq, Eq, Structural)]
pub enum HintError {
    /// The solver found no solution of the grid.
    Unsolvable,
    /// The solution is not a full grid, or contradicts a given digit of the
    /// puzzle.
    Inconsistent,
}

/// A hint: the grid after it, the cell it filled, and the conflicts that
/// the grid then shows.
#[derive(Debug, Clone)]
pub struct Hint {
    /// The grid after the hint.
    pub grid: SudokuState,
    /// The cell that was filled; `None` when the grid was complete.
    pub filled: Option<u8>,
    /// Every cell of `grid` that violates a rule.
    pub conflicting: Vec<u8>,
}

/// The hint for `current`: its conflicting cells are emptied; if no cell is
/// empty then, nothing more happens; else the first empty cell takes its
/// digit from the solution, which must fit the puzzle `initial`.
pub open spec fn hinted(initial: Seq<u8>, current: Seq<u8>, solved: Option<Seq<u8>>) -> Result<
    (Seq<u8>, Option<u8>),
    HintError,
> {
    let clean = cleared(current);
    match first_empty(clean) {
        None => Ok((clean, None)),
        Some(k) => match solved {
            None => Err(HintError::Unsolvable),
            Some(s) => if fits(s, initial) {
                Ok((clean.update(k as int, s[k as int]), Some(k)))
            } else {
                Err(HintError::Inconsistent)
            },
        },
    }
}

/// What a hint tells of the grid: the grid after it and the cell it filled.
pub open spec fn outcome(r: Result<Hint, HintError>) -> Result<(Seq<u8>, Option<u8>), HintError> {
    match r {
        Ok(hint) => Ok((hint.grid@, hint.filled)),
        Err(e) => Err(e),
    }
}

/// Emptying every conflicting cell leaves a grid without conflicts, and
/// keeps a valid grid valid.
pub proof fn lemma_cleared(g: Seq<u8>)
    requires
        g.len() == 81,
    ensures
        conflict_free(cleared(g)),
        grid_valid(g) ==> grid_valid(cleared(g)),
        conflict_free(g) <==> cleared(g) == g,
        is_full(cleared(g)) ==> conflict_free(g),
        cleared(g) == emptied(g, all_conflict_list(g)),
{
    let clean = cleared(g);
    assert forall|i: int| !in_conflict(clean, i) by {
        if in_conflict(clean, i) {
            let j = choose|j: int| conflicts_with(clean, i, j);
            assert(conflicts_with(g, i, j));
        }
    }
    if conflict_free(g) {
        assert(clean =~= g);
    }
    if !conflict_free(g) {
        let i = choose|i: int| in_conflict(g, i);
        let j = choose|j: int| conflicts_with(g, i, j);
        assert(clean[i] == 0);
        assert(!is_full(clean));
    }
    lemma_all_conflict_list(g);
    assert(clean =~= emptied(g, all_conflict_list(g)));
}

/// A grid whose digits all come from a solution shows no conflict; so
/// filling an empty cell from a solution of the grid creates none.
pub proof fn lemma_filled_from_solution(g: Seq<u8>, s: Seq<u8>, k: int)
    requires
        g.len() == 81,
        solves(s, g),
        is_cell(k),
        g[k] == 0,
    ensures
        conflict_free(g.update(k, s[k])),
        solves(s, g.update(k, s[k])),
{
    let next = g.update(k, s[k]);
    assert forall|i: int| 0 <= i < 81 && next[i] != 0 implies #[trigger] s[i] == next[i] by {
        if i != k {
            assert(s[i] == g[i]);
        }
    }
    assert forall|i: int| !in_conflict(next, i) by {
        if in_conflict(next, i) {
            let j = choose|j: int| conflicts_with(next, i, j);
            assert(s[i] == next[i]);
            assert(s[j] == next[j]);
        }
    }
}

/// Empties the listed cells of the grid.
pub fn remove_conflicting_cells(grid: &mut SudokuState, cells: &Vec<u8>)
    requires
        forall|i: int| 0 <= i < cells@.len() ==> cells@[i] < 81,
    ensures
        final(grid)@ == emptied(old(grid)@, cells@),
{
    let mut i: usize = 0;
    while i < cells.len()
        invariant
            i <= cells@.len(),
            forall|m: int| 0 <= m < cells@.len() ==> cells@[m] < 81,
            grid@ == emptied(old(grid)@, cells@.take(i as int)),
        decreases cells@.len() - i,
    {
        let cell: u8 = cells[i];
        grid[cell as usize] = 0;
        proof {
            let before = cells@.take(i as int);
            let now = cells@.take(i + 1);
            assert(now == before.push(cell));
            assert forall|m: int| 0 <= m < 81 implies grid@[m] == emptied(old(grid)@, now)[m] by {
                if now.contains(m as u8) {
                    if m != cell {
                        let p = choose|p: int| 0 <= p < now.len() && now[p] == m as u8;
                        assert(before[p] == m as u8);
                        assert(before.contains(m as u8));
                    }
                } else {
                    if before.contains(m as u8) {
                        let p = choose|p: int| 0 <= p < before.len() && before[p] == m as u8;
                        assert(now[p] == m as u8);
                    }
                    assert(now[i as int] == cell);
                }
            }
            assert(grid@ =~= emptied(old(grid)@, now));
        }
        i += 1;
    }
    assert(cells@.take(i as int) == cells@);
}

/// Whether the solution is a full grid of digits that keeps every digit of
/// the puzzle.
pub fn fits_puzzle(solution: &SudokuState, initial: &SudokuState) -> (r: bool)
    ensures
        r == fits(solution@, initial@),
{
    let mut i: usize = 0;
    while i < 81
        invariant
            i <= 81,
            forall|k: int| 0 <= k < i ==> 1 <= #[trigger] solution@[k] <= 9,
            forall|k: int| 0 <= k < i && initial@[k] != 0 ==> #[trigger] solution@[k] == initial@[k],
        decreases 81 - i,
    {
        let digit: u8 = solution[i];
        let given: u8 = initial[i];
        if digit == 0 || digit > 9 || (given != 0 && digit != given) {
            return false;
        }
        i += 1;
    }
    true
}

/// The hint for the grid `current` of the puzzle `initial`, from what the
/// solver returned.
///
/// Every conflicting cell is emptied first. If no cell is empty after that,
/// the grid is complete and stays as it is. Else the empty cell of lowest
/// index takes its digit from the solution. Without a solution the hint
/// fails as `Unsolvable`; with one that does not fit the puzzle it fails as
/// `Inconsistent`.
pub fn get_hint(initial: &SudokuState, current: &SudokuState, solved: Option<SudokuState>) -> (r:
    Result<Hint, HintError>)
    ensures
        outcome(r) == hinted(initial@, current@, option_grid(solved)),
        r matches Ok(hint) ==> hint.conflicting@ == all_conflict_list(hint.grid@),
        r matches Ok(hint) ==> (solved matches Some(s) && solves(s@, cleared(current@)))
            ==> hint.conflicting@.len() == 0,
        is_full(current@) && conflict_free(current@) ==> (r matches Ok(hint) && hint.grid@
            == current@ && hint.filled is None),
{
    let conflicts = get_all_conflicting_cells(current);
    let mut grid: SudokuState = *current;
    proof {
        lemma_all_conflict_list(current@);
        lemma_cleared(current@);
        assert forall|i: int| 0 <= i < conflicts@.len() implies conflicts@[i] < 81 by {
            assert(conflicts@.contains(conflicts@[i]));
        }
    }
    remove_conflicting_cells(&mut grid, &conflicts);
    proof {
        lemma_first_empty(grid@);
        lemma_all_conflict_list(grid@);
    }
    match find_first_empty(&grid) {
        None => {
            let conflicting: Vec<u8> = Vec::new();
            assert(conflicting@ =~= all_conflict_list(grid@));
            Ok(Hint { grid, filled: None, conflicting })
        },
        Some(k) => match solved {
            None => Err(HintError::Unsolvable),
            Some(s) => {
                if fits_puzzle(&s, initial) {
                    let ghost clean = grid@;
                    grid[k as usize] = s[k as usize];
                    let conflicting = get_all_conflicting_cells(&grid);
                    proof {
                        if solves(s@, clean) {
                            lemma_filled_from_solution(clean, s@, k as int);
                        }
                    }
                    Ok(Hint { grid, filled: Some(k), conflicting })
                } else {
                    Err(HintError::Inconsistent)
                }
            },
        },
    }
}

} // verus!
