//! The cells related to a cell: those of its row, of its column and of its
//! box, the cell itself left out.

use vstd::prelude::*;
use crate::grid::{are_related, col_of, is_cell, related, row_of};

verus! {

/// The cells below `n` that are related to `index`, in rising order.
pub open spec fn peers_below(index: int, n: nat) -> Seq<u8>
    decreases n,
{
    if n == 0 {
        Seq::empty()
    } else if related(index, n - 1) {
        peers_below(index, (n - 1) as nat).push((n - 1) as u8)
    } else {
        peers_below(index, (n - 1) as nat)
    }
}

/// All cells related to `index`, in rising order.
pub open spec fn peer_list(index: int) -> Seq<u8> {
    peers_below(index, 81)
}

/// Each value of the sequence is smaller than the next.
pub open spec fn ascending(s: Seq<u8>) -> bool {
    forall|i: int, j: int| 0 <= i < j < s.len() ==> s[i] < s[j]
}

/// How many cells below `n` are related to `index`.
///
/// Every full row above holds the cell of the same column; the rows of the
/// box hold two more cells each; the cell's own row holds five more.
pub open spec fn peer_count_below(index: int, n: int) -> int {
    let r = row_of(index);
    let c = col_of(index);
    let top = (r / 3) * 3;
    let left = (c / 3) * 3;
    let rows = n / 9;
    let cols = n % 9;
    let in_box_rows = if rows <= top { 0 } else if rows >= top + 3 { 3 } else { rows - top };
    let in_box_cols = if cols <= left { 0 } else if cols >= left + 3 { 3 } else { cols - left };
    let above = rows + 2 * in_box_rows + if rows > r { 5int } else { 0int };
    let beside = if rows == r {
        if cols > c { cols - 1 } else { cols }
    } else if top <= rows < top + 3 {
        in_box_cols
    } else if cols > c {
        1
    } else {
        0
    };
    above + beside
}

/// The length of `peers_below` in closed form.
proof fn lemma_peers_below_len(index: int, n: nat)
    requires
        is_cell(index),
        n <= 81,
    ensures
        peers_below(index, n).len() == peer_count_below(index, n as int),
    decreases n,
{
    if n > 0 {
        lemma_peers_below_len(index, (n - 1) as nat);
    }
}

/// What `peers_below` holds: the related cells below `n`, each once, rising.
proof fn lemma_peers_below_members(index: int, n: nat)
    requires
        n <= 81,
    ensures
        ascending(peers_below(index, n)),
        forall|i: int| 0 <= i < peers_below(index, n).len() ==> (#[trigger] peers_below(index, n)[i]) < n,
        forall|k: u8| #[trigger] peers_below(index, n).contains(k) <==> k < n && related(index, k as int),
    decreases n,
{
    if n > 0 {
        let m = (n - 1) as nat;
        lemma_peers_below_members(index, m);
        let before = peers_below(index, m);
        let now = peers_below(index, n);
        if related(index, n - 1) {
            assert(now == before.push(m as u8));
            assert forall|k: u8| #[trigger] now.contains(k) <==> k < n && related(index, k as int) by {
                if now.contains(k) {
                    let i = choose|i: int| 0 <= i < now.len() && now[i] == k;
                    if i < before.len() {
                        assert(before[i] == k);
                        assert(before.contains(k));
                    }
                }
                if k < n && related(index, k as int) {
                    if k == m {
                        assert(now[now.len() - 1] == k);
                    } else {
                        assert(before.contains(k));
                        let i = choose|i: int| 0 <= i < before.len() && before[i] == k;
                        assert(now[i] == k);
                    }
                }
            }
        }
    }
}

/// Every cell has exactly 20 related cells, and is not one of them.
pub proof fn lemma_peer_list(index: int)
    requires
        is_cell(index),
    ensures
        peer_list(index).len() == 20,
        ascending(peer_list(index)),
        !peer_list(index).contains(index as u8),
        forall|k: u8| #[trigger] peer_list(index).contains(k) <==> related(index, k as int),
{
    lemma_peers_below_len(index, 81);
    lemma_peers_below_members(index, 81);
}

/// The cells that share the row, the column or the box of `index`, without
/// `index` itself, in rising order.
pub fn get_related_cells(index: u8) -> (cells: Vec<u8>)
    requires
        index < 81,
    ensures
        cells@ == peer_list(index as int),
        cells@.len() == 20,
        ascending(cells@),
        !cells@.contains(index),
        forall|k: u8| #[trigger] cells@.contains(k) <==> related(index as int, k as int),
{
    let mut cells: Vec<u8> = Vec::new();
    let mut k: u8 = 0;
    while k < 81
        invariant
            k <= 81,
            cells@ == peers_below(index as int, k as nat),
        decreases 81 - k,
    {
        if are_related(index, k) {
            cells.push(k);
        }
        k += 1;
    }
    proof {
        lemma_peer_list(index as int);
    }
    cells
}

} // verus!
