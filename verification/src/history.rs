//! The history of a game: every grid that was committed, oldest first.
//!
//! The first entry is the puzzle as it was given and never leaves. An edit
//! appends the grid it produced; undoing removes the newest entry again.

use vstd::prelude::*;
use crate::grid::{differ_only_at, is_cell, one_cell_apart, SudokuState};

verus! {

/// `k` is the first cell in which the two grids differ.
pub open spec fn differs_first_at(a: Seq<u8>, b: Seq<u8>, k: int) -> bool {
    &&& is_cell(k)
    &&& a[k] != b[k]
    &&& forall|i: int| 0 <= i < k ==> #[trigger] a[i] == b[i]
}

/// The first cell in which the two grids differ; `None` when they agree in
/// all 81 cells.
pub open spec fn changed_cell(a: Seq<u8>, b: Seq<u8>) -> Option<u8> {
    if exists|k: int| differs_first_at(a, b, k) {
        Some((choose|k: int| differs_first_at(a, b, k)) as u8)
    } else {
        None
    }
}

/// There is at most one first difference.
pub proof fn lemma_first_difference_unique(a: Seq<u8>, b: Seq<u8>, k: int, m: int)
    requires
        differs_first_at(a, b, k),
        differs_first_at(a, b, m),
    ensures
        k == m,
{
    if k < m {
        assert(a[k] == b[k]);
    }
    if m < k {
        assert(a[m] == b[m]);
    }
}

/// `changed_cell` in terms of the grids: it names the first difference, and
/// is `None` exactly for equal grids.
pub proof fn lemma_changed_cell(a: Seq<u8>, b: Seq<u8>)
    requires
        a.len() == 81,
        b.len() == 81,
    ensures
        changed_cell(a, b) is None <==> a == b,
        changed_cell(a, b) matches Some(k) ==> differs_first_at(a, b, k as int),
        forall|k: int| differ_only_at(a, b, k) ==> changed_cell(a, b) == Some(k as u8),
{
    if a == b {
        assert(forall|k: int| !differs_first_at(a, b, k));
    } else {
        lemma_least_difference(a, b, 0);
    }
    assert forall|k: int| differ_only_at(a, b, k) implies changed_cell(a, b) == Some(k as u8) by {
        assert(differs_first_at(a, b, k));
        let m = choose|m: int| differs_first_at(a, b, m);
        lemma_first_difference_unique(a, b, k, m);
    }
}

/// Grids that agree below cell `n` and are not equal have a first
/// difference.
proof fn lemma_least_difference(a: Seq<u8>, b: Seq<u8>, n: int)
    requires
        a.len() == 81,
        b.len() == 81,
        0 <= n <= 81,
        a != b,
        forall|i: int| 0 <= i < n ==> #[trigger] a[i] == b[i],
    ensures
        exists|k: int| differs_first_at(a, b, k),
    decreases 81 - n,
{
    if n == 81 {
        assert(a =~= b);
    } else if a[n] != b[n] {
        assert(differs_first_at(a, b, n));
    } else {
        lemma_least_difference(a, b, n + 1);
    }
}

/// The first cell in which the two grids differ, or `None` when they are
/// the same grid.
pub fn find_changed_cell(previous: &SudokuState, current: &SudokuState) -> (r: Option<u8>)
    ensures
        r == changed_cell(previous@, current@),
        r is None <==> previous@ == current@,
        r matches Some(k) ==> differs_first_at(previous@, current@, k as int),
{
    let mut i: u8 = 0;
    while i < 81
        invariant
            i <= 81,
            forall|k: int| 0 <= k < i ==> #[trigger] previous@[k] == current@[k],
        decreases 81 - i,
    {
        if previous[i as usize] != current[i as usize] {
            proof {
                assert(differs_first_at(previous@, current@, i as int));
                let m = choose|m: int| differs_first_at(previous@, current@, m);
                lemma_first_difference_unique(previous@, current@, i as int, m);
            }
            return Some(i);
        }
        i += 1;
    }
    proof {
        assert(previous@ =~= current@);
        lemma_changed_cell(previous@, current@);
    }
    None
}

/// History after committing `g`: the grid is appended unless it is the last
/// entry already.
pub open spec fn committed(h: Seq<Seq<u8>>, g: Seq<u8>) -> Seq<Seq<u8>> {
    if h.len() > 0 && h.last() == g {
        h
    } else {
        h.push(g)
    }
}

/// History after an undo: the last entry is dropped unless it is the only
/// one.
pub open spec fn undone(h: Seq<Seq<u8>>) -> Seq<Seq<u8>> {
    if h.len() > 1 {
        h.drop_last()
    } else {
        h
    }
}

/// Every entry but the first differs from the one before it in exactly one
/// cell.
pub open spec fn stepwise(h: Seq<Seq<u8>>) -> bool {
    forall|i: int| 0 <= i < h.len() - 1 ==> one_cell_apart(#[trigger] h[i], h[i + 1])
}

/// One operation on a history.
pub enum HistoryOp {
    /// Commit the grid.
    Commit(Seq<u8>),
    /// Undo the last commit.
    Undo,
}

/// The history after one operation.
pub open spec fn step(h: Seq<Seq<u8>>, op: HistoryOp) -> Seq<Seq<u8>> {
    match op {
        HistoryOp::Commit(g) => committed(h, g),
        HistoryOp::Undo => undone(h),
    }
}

/// The history after the operations `ops`, applied from first to last.
pub open spec fn replay(h: Seq<Seq<u8>>, ops: Seq<HistoryOp>) -> Seq<Seq<u8>>
    decreases ops.len(),
{
    if ops.len() == 0 {
        h
    } else {
        step(replay(h, ops.drop_last()), ops.last())
    }
}

/// Whatever is committed and undone, in whatever order, the history keeps
/// its first entry and never becomes empty.
pub proof fn lemma_first_entry_stays(h: Seq<Seq<u8>>, ops: Seq<HistoryOp>)
    requires
        h.len() >= 1,
    ensures
        replay(h, ops).len() >= 1,
        replay(h, ops)[0] == h[0],
    decreases ops.len(),
{
    if ops.len() > 0 {
        lemma_first_entry_stays(h, ops.drop_last());
    }
}

/// Undoing a commit gives the history back, and reveals its last entry,
/// whenever the committed grid differs from that entry.
pub proof fn lemma_undo_reverts_commit(h: Seq<Seq<u8>>, g: Seq<u8>)
    requires
        h.len() >= 1,
        g != h.last(),
    ensures
        undone(committed(h, g)) == h,
        undone(committed(h, g)).last() == h.last(),
{
    assert(h.push(g).drop_last() =~= h);
}

/// The same for a grid that differs from the last entry in one cell.
pub proof fn lemma_undo_reverts_single_step(h: Seq<Seq<u8>>, g: Seq<u8>)
    requires
        h.len() >= 1,
        one_cell_apart(h.last(), g),
    ensures
        undone(committed(h, g)) == h,
{
    let k = choose|k: int| differ_only_at(h.last(), g, k);
    assert(h.last()[k] != g[k]);
    lemma_undo_reverts_commit(h, g);
}

/// A history of single-cell steps stays one when a grid one cell apart from
/// its last entry is committed, and when a commit is undone.
pub proof fn lemma_stepwise_kept(h: Seq<Seq<u8>>, g: Seq<u8>)
    requires
        stepwise(h),
        h.len() >= 1,
    ensures
        one_cell_apart(h.last(), g) ==> stepwise(committed(h, g)),
        stepwise(undone(h)),
{
    if one_cell_apart(h.last(), g) {
        let after = committed(h, g);
        assert forall|i: int| 0 <= i < after.len() - 1 implies one_cell_apart(
            #[trigger] after[i],
            after[i + 1],
        ) by {
            if i < h.len() - 1 {
                assert(one_cell_apart(h[i], h[i + 1]));
            }
        }
    }
    let before = undone(h);
    assert forall|i: int| 0 <= i < before.len() - 1 implies one_cell_apart(
        #[trigger] before[i],
        before[i + 1],
    ) by {
        assert(one_cell_apart(h[i], h[i + 1]));
    }
}

/// The grids of a history as sequences of values.
pub open spec fn grids(entries: Seq<SudokuState>) -> Seq<Seq<u8>> {
    Seq::new(entries.len(), |i: int| entries[i]@)
}

/// Every grid of a game, oldest first.
#[derive(Debug, Clone)]
pub struct SudokuPuzzleMoves(pub Vec<SudokuState>);

impl View for SudokuPuzzleMoves {
    type V = Seq<Seq<u8>>;

    open spec fn view(&self) -> Seq<Seq<u8>> {
        grids(self.0@)
    }
}

impl SudokuPuzzleMoves {
    /// A history is never empty.
    pub open spec fn wf(&self) -> bool {
        self.0@.len() >= 1
    }

    /// The history of a game that starts from `initial`.
    pub fn new(initial: SudokuState) -> (moves: Self)
        ensures
            moves.wf(),
            moves@ == seq![initial@],
    {
        let mut entries: Vec<SudokuState> = Vec::new();
        entries.push(initial);
        let moves = SudokuPuzzleMoves(entries);
        assert(moves@ =~= seq![initial@]);
        moves
    }

    /// Number of entries.
    pub fn len(&self) -> (n: usize)
        ensures
            n == self@.len(),
    {
        self.0.len()
    }

    /// The newest entry.
    pub fn last(&self) -> (grid: SudokuState)
        requires
            self.wf(),
        ensures
            grid@ == self@.last(),
    {
        self.0[self.0.len() - 1]
    }

    /// The oldest entry: the puzzle as it was given.
    pub fn first(&self) -> (grid: SudokuState)
        requires
            self.wf(),
        ensures
            grid@ == self@[0],
    {
        self.0[0]
    }

    /// Appends `grid` unless it equals the newest entry. Says whether it was
    /// appended.
    pub fn commit(&mut self, grid: SudokuState) -> (appended: bool)
        requires
            old(self).wf(),
        ensures
            final(self).wf(),
            final(self)@ == committed(old(self)@, grid@),
            appended == (grid@ != old(self)@.last()),
            final(self)@[0] == old(self)@[0],
    {
        let newest = self.last();
        match find_changed_cell(&newest, &grid) {
            None => false,
            Some(_) => {
                self.0.push(grid);
                assert(self@ =~= old(self)@.push(grid@));
                true
            },
        }
    }

    /// Removes the newest entry unless it is the only one, and returns the
    /// entry that is the newest afterwards.
    pub fn undo(&mut self) -> (revealed: SudokuState)
        requires
            old(self).wf(),
        ensures
            final(self).wf(),
            final(self)@ == undone(old(self)@),
            revealed@ == final(self)@.last(),
            final(self)@[0] == old(self)@[0],
    {
        if self.0.len() > 1 {
            self.0.pop();
            assert(self@ =~= old(self)@.drop_last());
        }
        self.last()
    }
}

} // verus!
