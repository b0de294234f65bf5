//! The 81-cell grid and its coordinate arithmetic.
//!
//! A grid is a flat array read row by row; cell `i` lies in row `i / 9`,
//! column `i % 9` and in the 3x3 box numbered `(row / 3) * 3 + col / 3`.
//! The value `0` marks an empty cell, `1..=9` a digit.

use vstd::prelude::*;

verus! {

/// The values of the 81 cells, row by row.
pub type SudokuState = [u8; 81];

/// Whether `i` is the index of a cell.
pub open spec fn is_cell(i: int) -> bool {
    0 <= i < 81
}

/// Row of cell `i`.
pub open spec fn row_of(i: int) -> int {
    i / 9
}

/// Column of cell `i`.
pub open spec fn col_of(i: int) -> int {
    i % 9
}

/// Box of cell `i`, boxes being numbered row by row.
pub open spec fn box_of(i: int) -> int {
    (row_of(i) / 3) * 3 + col_of(i) / 3
}

/// Two distinct cells are related when they share a row, a column or a box.
pub open spec fn related(i: int, j: int) -> bool {
    &&& is_cell(i)
    &&& is_cell(j)
    &&& i != j
    &&& (row_of(i) == row_of(j) || col_of(i) == col_of(j) || box_of(i) == box_of(j))
}

/// A grid has 81 cells and no value above 9.
pub open spec fn grid_valid(g: Seq<u8>) -> bool {
    &&& g.len() == 81
    &&& forall|i: int| 0 <= i < 81 ==> #[trigger] g[i] <= 9
}

/// No cell of the grid is empty.
pub open spec fn is_full(g: Seq<u8>) -> bool {
    forall|i: int| 0 <= i < 81 ==> #[trigger] g[i] != 0
}

/// No two related cells hold the same digit.
pub open spec fn rule_consistent(g: Seq<u8>) -> bool {
    forall|i: int, j: int| #[trigger] related(i, j) && g[i] != 0 ==> g[i] != g[j]
}

/// `s` keeps every digit that `g` already holds.
pub open spec fn extends(s: Seq<u8>, g: Seq<u8>) -> bool {
    forall|i: int| 0 <= i < 81 && g[i] != 0 ==> #[trigger] s[i] == g[i]
}

/// `s` is a solution of the puzzle `g`: a full, rule-consistent grid that
/// keeps the digits of `g`.
pub open spec fn solves(s: Seq<u8>, g: Seq<u8>) -> bool {
    &&& grid_valid(s)
    &&& is_full(s)
    &&& rule_consistent(s)
    &&& extends(s, g)
}

/// The two grids hold the same values but in cell `k`.
pub open spec fn differ_only_at(a: Seq<u8>, b: Seq<u8>, k: int) -> bool {
    &&& is_cell(k)
    &&& a[k] != b[k]
    &&& forall|i: int| 0 <= i < 81 && i != k ==> #[trigger] a[i] == b[i]
}

/// The two grids differ in exactly one cell.
pub open spec fn one_cell_apart(a: Seq<u8>, b: Seq<u8>) -> bool {
    exists|k: int| differ_only_at(a, b, k)
}

/// A puzzle that has a solution is itself rule-consistent, and valid.
pub proof fn lemma_solvable_is_consistent(s: Seq<u8>, g: Seq<u8>)
    requires
        g.len() == 81,
        solves(s, g),
    ensures
        rule_consistent(g),
        grid_valid(g),
{
    assert forall|i: int, j: int| #[trigger] related(i, j) && g[i] != 0 implies g[i] != g[j] by {
        if g[j] != 0 {
            assert(s[i] == g[i]);
            assert(s[j] == g[j]);
        }
    }
    assert forall|i: int| 0 <= i < 81 implies #[trigger] g[i] <= 9 by {
        if g[i] != 0 {
            assert(s[i] == g[i]);
        }
    }
}

/// Row of the cell `index`.
pub fn row(index: u8) -> (r: u8)
    requires
        index < 81,
    ensures
        r == row_of(index as int),
        r < 9,
{
    index / 9
}

/// Column of the cell `index`.
pub fn col(index: u8) -> (c: u8)
    requires
        index < 81,
    ensures
        c == col_of(index as int),
        c < 9,
{
    index % 9
}

/// Box of the cell `index`.
pub fn box_index(index: u8) -> (b: u8)
    requires
        index < 81,
    ensures
        b == box_of(index as int),
        b < 9,
{
    let r: u8 = index / 9;
    let c: u8 = index % 9;
    (r / 3) * 3 + c / 3
}

/// Whether the two cells are distinct and share a row, a column or a box.
/// An index that names no cell is related to nothing.
pub fn are_related(a: u8, b: u8) -> (r: bool)
    ensures
        r == related(a as int, b as int),
{
    if a >= 81 || b >= 81 || a == b {
        return false;
    }
    row(a) == row(b) || col(a) == col(b) || box_index(a) == box_index(b)
}

/// Whether every value of the grid is at most 9.
pub fn is_valid_grid(grid: &SudokuState) -> (r: bool)
    ensures
        r == grid_valid(grid@),
{
    let mut i: usize = 0;
    while i < 81
        invariant
            i <= 81,
            forall|k: int| 0 <= k < i ==> #[trigger] grid@[k] <= 9,
        decreases 81 - i,
    {
        if grid[i] > 9 {
            return false;
        }
        i += 1;
    }
    true
}

/// `k` is the first empty cell of the grid.
pub open spec fn is_first_empty(g: Seq<u8>, k: int) -> bool {
    &&& is_cell(k)
    &&& g[k] == 0
    &&& forall|i: int| 0 <= i < k ==> #[trigger] g[i] != 0
}

/// The empty cell of lowest index; `None` for a full grid.
pub open spec fn first_empty(g: Seq<u8>) -> Option<u8> {
    if exists|k: int| is_first_empty(g, k) {
        Some((choose|k: int| is_first_empty(g, k)) as u8)
    } else {
        None
    }
}

/// `first_empty` in terms of the grid.
pub proof fn lemma_first_empty(g: Seq<u8>)
    ensures
        first_empty(g) is None <==> is_full(g),
        first_empty(g) matches Some(k) ==> is_first_empty(g, k as int),
        forall|k: int| is_first_empty(g, k) ==> first_empty(g) == Some(k as u8),
{
    if !is_full(g) {
        lemma_least_empty(g, 0);
    }
    if is_full(g) {
        assert forall|k: int| !is_first_empty(g, k) by {
            if is_cell(k) {
                assert(g[k] != 0);
            }
        }
    }
    assert forall|k: int| is_first_empty(g, k) implies first_empty(g) == Some(k as u8) by {
        let m = choose|m: int| is_first_empty(g, m);
        if k < m {
            assert(g[k] != 0);
        }
        if m < k {
            assert(g[m] != 0);
        }
    }
}

/// A grid that is full below cell `n` and not full has a first empty cell.
proof fn lemma_least_empty(g: Seq<u8>, n: int)
    requires
        0 <= n <= 81,
        !is_full(g),
        forall|i: int| 0 <= i < n ==> #[trigger] g[i] != 0,
    ensures
        exists|k: int| is_first_empty(g, k),
    decreases 81 - n,
{
    if n == 81 {
        assert(is_full(g));
    } else if g[n] == 0 {
        assert(is_first_empty(g, n));
    } else {
        lemma_least_empty(g, n + 1);
    }
}

/// The empty cell of lowest index, or `None` when the grid is full.
pub fn find_first_empty(grid: &SudokuState) -> (r: Option<u8>)
    ensures
        r == first_empty(grid@),
        r is None <==> is_full(grid@),
        r matches Some(k) ==> is_first_empty(grid@, k as int),
{
    let mut i: u8 = 0;
    proof {
        lemma_first_empty(grid@);
    }
    while i < 81
        invariant
            i <= 81,
            forall|k: int| 0 <= k < i ==> #[trigger] grid@[k] != 0,
        decreases 81 - i,
    {
        if grid[i as usize] == 0 {
            assert(is_first_empty(grid@, i as int));
            return Some(i);
        }
        i += 1;
    }
    None
}

} // verus!
