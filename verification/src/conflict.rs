//! Rule violations: cells that hold the digit of a related cell.

use vstd::prelude::*;
use crate::grid::{related, SudokuState};
use crate::relation::{ascending, get_related_cells, lemma_peer_list, peer_list};

verus! {

/// Cell `i` holds a digit, and the related cell `j` holds the same one.
pub open spec fn conflicts_with(g: Seq<u8>, i: int, j: int) -> bool {
    &&& related(i, j)
    &&& g[i] != 0
    &&& g[j] == g[i]
}

/// Cell `i` holds a digit that one of its related cells holds too.
pub open spec fn in_conflict(g: Seq<u8>, i: int) -> bool {
    exists|j: int| conflicts_with(g, i, j)
}

/// Cell `j` stands in the conflict list of some filled cell.
pub open spec fn listed(g: Seq<u8>, j: int) -> bool {
    exists|c: int| conflicts_with(g, c, j)
}

/// The grid shows no rule violation.
pub open spec fn conflict_free(g: Seq<u8>) -> bool {
    forall|i: int| !in_conflict(g, i)
}

/// Those of `cells`, in their order, whose value in `g` is `v`.
pub open spec fn holding(cells: Seq<u8>, g: Seq<u8>, v: u8) -> Seq<u8>
    decreases cells.len(),
{
    if cells.len() == 0 {
        Seq::empty()
    } else if g[cells.last() as int] == v {
        holding(cells.drop_last(), g, v).push(cells.last())
    } else {
        holding(cells.drop_last(), g, v)
    }
}

/// The cells related to `index` that hold its digit, in rising order; none
/// when `index` is empty.
pub open spec fn conflict_list(g: Seq<u8>, index: int) -> Seq<u8> {
    if g[index] == 0 {
        Seq::empty()
    } else {
        holding(peer_list(index), g, g[index])
    }
}

/// The cells below `n` that stand in the conflict list of some cell, in
/// rising order.
pub open spec fn all_conflicts_below(g: Seq<u8>, n: nat) -> Seq<u8>
    decreases n,
{
    if n == 0 {
        Seq::empty()
    } else if listed(g, n - 1) {
        all_conflicts_below(g, (n - 1) as nat).push((n - 1) as u8)
    } else {
        all_conflicts_below(g, (n - 1) as nat)
    }
}

/// Every cell that stands in the conflict list of some cell, in rising order.
pub open spec fn all_conflict_list(g: Seq<u8>) -> Seq<u8> {
    all_conflicts_below(g, 81)
}

/// What `holding` keeps: the members of `cells` with value `v`, order kept.
proof fn lemma_holding(cells: Seq<u8>, g: Seq<u8>, v: u8)
    requires
        ascending(cells),
    ensures
        ascending(holding(cells, g, v)),
        holding(cells, g, v).len() <= cells.len(),
        forall|k: u8| #[trigger]
            holding(cells, g, v).contains(k) <==> cells.contains(k) && g[k as int] == v,
    decreases cells.len(),
{
    if cells.len() > 0 {
        let front = cells.drop_last();
        let last = cells.last();
        lemma_holding(front, g, v);
        let kept = holding(front, g, v);
        let now = holding(cells, g, v);
        let keep_last = g[last as int] == v;
        assert(now == if keep_last { kept.push(last) } else { kept });
        assert forall|k: u8| #[trigger] now.contains(k) implies cells.contains(k) && g[k as int]
            == v by {
            let i = choose|i: int| 0 <= i < now.len() && now[i] == k;
            if i < kept.len() {
                assert(kept[i] == k);
                assert(kept.contains(k));
                let m = choose|m: int| 0 <= m < front.len() && front[m] == k;
                assert(cells[m] == k);
            } else {
                assert(cells[cells.len() - 1] == k);
            }
        }
        assert forall|k: u8| cells.contains(k) && g[k as int] == v implies #[trigger] now.contains(
            k,
        ) by {
            let m = choose|m: int| 0 <= m < cells.len() && cells[m] == k;
            if m < front.len() {
                assert(front[m] == k);
                assert(front.contains(k));
                assert(kept.contains(k));
                let i = choose|i: int| 0 <= i < kept.len() && kept[i] == k;
                assert(now[i] == k);
            } else {
                assert(now[now.len() - 1] == k);
            }
        }
        assert forall|i: int, j: int| 0 <= i < j < now.len() implies now[i] < now[j] by {
            if j == kept.len() {
                assert(kept.contains(kept[i]));
                let m = choose|m: int| 0 <= m < front.len() && front[m] == kept[i];
                assert(cells[m] < cells[cells.len() - 1]);
            }
        }
    }
}

/// A conflict is mutual: if `i` conflicts with `j`, then `j` conflicts with `i`.
pub proof fn lemma_conflict_mutual(g: Seq<u8>, i: int, j: int)
    ensures
        conflicts_with(g, i, j) == conflicts_with(g, j, i),
{
}

/// A cell stands in some cell's conflict list exactly when its own is not
/// empty.
pub proof fn lemma_listed_iff_in_conflict(g: Seq<u8>, i: int)
    ensures
        listed(g, i) <==> in_conflict(g, i),
{
    if listed(g, i) {
        let c = choose|c: int| conflicts_with(g, c, i);
        assert(conflicts_with(g, i, c));
    }
    if in_conflict(g, i) {
        let j = choose|j: int| conflicts_with(g, i, j);
        assert(conflicts_with(g, j, i));
    }
}

/// What the conflict list of a cell holds.
pub proof fn lemma_conflict_list(g: Seq<u8>, index: int)
    requires
        0 <= index < 81,
    ensures
        ascending(conflict_list(g, index)),
        conflict_list(g, index).len() <= 20,
        forall|k: u8| #[trigger]
            conflict_list(g, index).contains(k) <==> conflicts_with(g, index, k as int),
        conflict_list(g, index).len() > 0 <==> in_conflict(g, index),
{
    lemma_peer_list(index);
    let list = conflict_list(g, index);
    if g[index] != 0 {
        lemma_holding(peer_list(index), g, g[index]);
    }
    if list.len() > 0 {
        assert(list.contains(list[0]));
        assert(conflicts_with(g, index, list[0] as int));
    }
    if in_conflict(g, index) {
        let j = choose|j: int| conflicts_with(g, index, j);
        assert(list.contains(j as u8));
    }
}

/// What the list of all conflicts below `n` holds.
proof fn lemma_all_conflicts_below(g: Seq<u8>, n: nat)
    requires
        n <= 81,
    ensures
        ascending(all_conflicts_below(g, n)),
        all_conflicts_below(g, n).len() <= n,
        forall|k: u8| #[trigger]
            all_conflicts_below(g, n).contains(k) <==> k < n && in_conflict(g, k as int),
    decreases n,
{
    if n > 0 {
        let m = (n - 1) as nat;
        lemma_all_conflicts_below(g, m);
        lemma_listed_iff_in_conflict(g, m as int);
        let before = all_conflicts_below(g, m);
        let now = all_conflicts_below(g, n);
        assert forall|k: u8| #[trigger] now.contains(k) <==> k < n && in_conflict(g, k as int) by {
            if now.contains(k) {
                let i = choose|i: int| 0 <= i < now.len() && now[i] == k;
                if i < before.len() {
                    assert(before[i] == k);
                    assert(before.contains(k));
                }
            }
            if k < n && in_conflict(g, k as int) {
                if k == m {
                    assert(now[now.len() - 1] == k);
                } else {
                    assert(before.contains(k));
                    let i = choose|i: int| 0 <= i < before.len() && before[i] == k;
                    assert(now[i] == k);
                }
            }
        }
        assert forall|i: int, j: int| 0 <= i < j < now.len() implies now[i] < now[j] by {
            if j == before.len() {
                assert(before.contains(before[i]));
            }
        }
    }
}

/// What the list of all conflicts holds: the cells in conflict, each once,
/// in rising order.
pub proof fn lemma_all_conflict_list(g: Seq<u8>)
    ensures
        ascending(all_conflict_list(g)),
        all_conflict_list(g).len() <= 81,
        forall|k: u8| #[trigger] all_conflict_list(g).contains(k) <==> in_conflict(g, k as int),
        all_conflict_list(g).len() == 0 <==> conflict_free(g),
{
    lemma_all_conflicts_below(g, 81);
    let list = all_conflict_list(g);
    if list.len() > 0 {
        assert(list.contains(list[0]));
    }
    if !conflict_free(g) {
        let i = choose|i: int| in_conflict(g, i);
        let j = choose|j: int| conflicts_with(g, i, j);
        assert(list.contains(i as u8));
    }
}

/// The list of all conflicts is closed under conflict: with a cell it holds
/// every related cell of the same digit.
pub proof fn lemma_all_conflicts_symmetric(g: Seq<u8>, i: int, j: int)
    requires
        all_conflict_list(g).contains(i as u8),
        0 <= i < 81,
        related(i, j),
        g[i] != 0,
        g[j] == g[i],
    ensures
        all_conflict_list(g).contains(j as u8),
{
    lemma_all_conflict_list(g);
    assert(conflicts_with(g, j, i));
}

/// The cells related to `index` that hold the same digit, in rising order.
/// An empty cell conflicts with nothing.
pub fn get_conflicting_cells(board: &SudokuState, index: u8) -> (cells: Vec<u8>)
    requires
        index < 81,
    ensures
        cells@ == conflict_list(board@, index as int),
        ascending(cells@),
        board@[index as int] == 0 ==> cells@.len() == 0,
        forall|k: u8| #[trigger]
            cells@.contains(k) <==> conflicts_with(board@, index as int, k as int),
        forall|k: u8| #[trigger]
            cells@.contains(k) ==> peer_list(index as int).contains(k) && board@[k as int]
                == board@[index as int],
{
    let value: u8 = board[index as usize];
    let mut cells: Vec<u8> = Vec::new();
    proof {
        lemma_conflict_list(board@, index as int);
        lemma_peer_list(index as int);
    }
    if value == 0 {
        return cells;
    }
    let peers = get_related_cells(index);
    let mut i: usize = 0;
    while i < peers.len()
        invariant
            i <= peers@.len(),
            peers@ == peer_list(index as int),
            forall|k: u8| #[trigger] peers@.contains(k) <==> related(index as int, k as int),
            cells@ == holding(peers@.take(i as int), board@, value),
        decreases peers@.len() - i,
    {
        let cell: u8 = peers[i];
        assert(peers@.contains(cell));
        assert(peers@.take(i + 1).drop_last() == peers@.take(i as int));
        if board[cell as usize] == value {
            cells.push(cell);
        }
        i += 1;
    }
    assert(peers@.take(i as int) == peers@);
    cells
}

/// Whether the cell holds a digit that one of its related cells holds too.
pub fn is_conflicting(board: &SudokuState, index: u8) -> (r: bool)
    requires
        index < 81,
    ensures
        r == in_conflict(board@, index as int),
{
    let cells = get_conflicting_cells(board, index);
    proof {
        lemma_conflict_list(board@, index as int);
    }
    cells.len() > 0
}

/// Every cell that violates a rule: the union of the conflict lists of all
/// filled cells, each cell once, in rising order.
pub fn get_all_conflicting_cells(current_sudoku: &SudokuState) -> (cells: Vec<u8>)
    ensures
        cells@ == all_conflict_list(current_sudoku@),
        ascending(cells@),
        forall|k: u8| #[trigger]
            cells@.contains(k) <==> exists|c: int|
                0 <= c < 81 && current_sudoku@[c] != 0 && conflict_list(current_sudoku@, c).contains(k),
        forall|k: u8| #[trigger] cells@.contains(k) <==> in_conflict(current_sudoku@, k as int),
        cells@.len() == 0 <==> conflict_free(current_sudoku@),
{
    let mut cells: Vec<u8> = Vec::new();
    let mut k: u8 = 0;
    while k < 81
        invariant
            k <= 81,
            cells@ == all_conflicts_below(current_sudoku@, k as nat),
        decreases 81 - k,
    {
        proof {
            lemma_listed_iff_in_conflict(current_sudoku@, k as int);
        }
        if is_conflicting(current_sudoku, k) {
            cells.push(k);
        }
        k += 1;
    }
    proof {
        let g = current_sudoku@;
        lemma_all_conflict_list(g);
        assert forall|k: u8| #[trigger]
            cells@.contains(k) <==> exists|c: int|
                0 <= c < 81 && g[c] != 0 && conflict_list(g, c).contains(k) by {
            lemma_listed_iff_in_conflict(g, k as int);
            if cells@.contains(k) {
                let c = choose|c: int| conflicts_with(g, c, k as int);
                lemma_conflict_list(g, c);
                assert(0 <= c < 81 && g[c] != 0 && conflict_list(g, c).contains(k));
            }
            if exists|c: int| 0 <= c < 81 && g[c] != 0 && conflict_list(g, c).contains(k) {
                let c = choose|c: int| 0 <= c < 81 && g[c] != 0 && conflict_list(g, c).contains(k);
                lemma_conflict_list(g, c);
                assert(conflicts_with(g, c, k as int));
            }
        }
    }
    cells
}

} // verus!
