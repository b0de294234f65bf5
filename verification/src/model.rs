//! A game as a mathematical value, and what each intent of the player
//! makes of it.
//!
//! A game is the puzzle as it was given, the history of its grids and the
//! selected cell. Everything else that a board shows (the current grid,
//! whether the selected cell can be edited, the related cells, the
//! conflicts) is a function of these three.

use vstd::prelude::*;
use crate::conflict::{all_conflict_list, conflict_free, in_conflict, lemma_all_conflict_list};
use crate::grid::{
    differ_only_at, first_empty, grid_valid, is_full, lemma_first_empty, one_cell_apart, solves,
};
use crate::hint::{
    cleared, cleared_below, hinted, lemma_cleared, lemma_filled_from_solution, HintError,
};
use crate::history::{changed_cell, lemma_changed_cell, lemma_stepwise_kept, stepwise};
use crate::relation::peer_list;

verus! {

/// Wherever the puzzle gives a digit, the grid holds that digit or nothing.
pub open spec fn keeps_givens(g: Seq<u8>, initial: Seq<u8>) -> bool {
    forall|i: int| 0 <= i < 81 && initial[i] != 0 ==> #[trigger] g[i] == 0 || g[i] == initial[i]
}

/// The grids that emptying the conflicting cells below `n` commits, one for
/// each such cell, in rising order of the cells.
pub open spec fn cleanup_trail(g: Seq<u8>, n: nat) -> Seq<Seq<u8>>
    decreases n,
{
    if n == 0 {
        Seq::empty()
    } else if in_conflict(g, n - 1) {
        cleanup_trail(g, (n - 1) as nat).push(cleared_below(g, n as int))
    } else {
        cleanup_trail(g, (n - 1) as nat)
    }
}

/// A game.
pub struct SessionView {
    /// The puzzle as it was given.
    pub initial: Seq<u8>,
    /// Every committed grid, oldest first.
    pub history: Seq<Seq<u8>>,
    /// The selected cell, if one is selected.
    pub selected: Option<u8>,
}

/// How far a game has come.
#[derive(Debug, Clone, Copy, PartialEq, Eq, Structural)]
pub enum GameStatus {
    /// Nothing was entered yet.
    Fresh,
    /// A move stands in the history, and a cell is still empty.
    InProgress,
    /// No cell is empty.
    Complete,
}

impl SessionView {
    /// The grid on the board: the newest entry of the history.
    pub open spec fn current(self) -> Seq<u8> {
        self.history.last()
    }

    /// What holds of every game: the history starts with the puzzle, each
    /// later entry differs from the one before it in exactly one cell, every
    /// grid is valid and keeps the given digits, and a selected cell is a
    /// cell.
    pub open spec fn wf(self) -> bool {
        &&& grid_valid(self.initial)
        &&& self.history.len() >= 1
        &&& self.history[0] == self.initial
        &&& forall|i: int|
            0 <= i < self.history.len() ==> grid_valid(#[trigger] self.history[i]) && keeps_givens(
                self.history[i],
                self.initial,
            )
        &&& stepwise(self.history)
        &&& (self.selected matches Some(k) ==> k < 81)
    }

    /// Whether the selected cell is one that the player may edit.
    pub open spec fn editable(self) -> bool {
        self.selected matches Some(k) && self.initial[k as int] == 0
    }

    /// The cells related to the selected cell, in rising order.
    pub open spec fn related(self) -> Seq<u8> {
        match self.selected {
            Some(k) => peer_list(k as int),
            None => Seq::empty(),
        }
    }

    /// The cells of the board that violate a rule, in rising order.
    pub open spec fn conflicts(self) -> Seq<u8> {
        all_conflict_list(self.current())
    }

    /// How far the game has come.
    pub open spec fn status(self) -> GameStatus {
        if is_full(self.current()) {
            GameStatus::Complete
        } else if self.history.len() == 1 {
            GameStatus::Fresh
        } else {
            GameStatus::InProgress
        }
    }

    /// A game that starts from `puzzle`.
    pub open spec fn fresh(puzzle: Seq<u8>) -> SessionView {
        SessionView { initial: puzzle, history: seq![puzzle], selected: None }
    }

    /// The game after the cell `k` was selected.
    pub open spec fn select(self, k: u8) -> SessionView {
        SessionView { selected: Some(k), ..self }
    }

    /// Whether the digit can be entered: a cell is selected, the puzzle
    /// left it empty, and it does not hold the digit already.
    pub open spec fn accepts(self, value: u8) -> bool {
        self.selected matches Some(k) && self.initial[k as int] == 0 && self.current()[k as int]
            != value
    }

    /// The game after the digit was entered into the selected cell.
    pub open spec fn enter(self, value: u8) -> SessionView {
        if self.accepts(value) {
            SessionView {
                history: self.history.push(
                    self.current().update(self.selected->Some_0 as int, value),
                ),
                ..self
            }
        } else {
            self
        }
    }

    /// The game after an undo: the newest grid leaves, and the cell in which
    /// it differed from the one before it is selected. With a single entry
    /// nothing changes.
    pub open spec fn undo(self) -> SessionView {
        if self.history.len() > 1 {
            SessionView {
                history: self.history.drop_last(),
                selected: changed_cell(self.history.last(), self.history[self.history.len() - 2]),
                ..self
            }
        } else {
            self
        }
    }

    /// The game after a hint, and what the hint reports.
    ///
    /// Where `hinted` fills a cell, the history takes one grid for each
    /// conflicting cell that was emptied, then the grid with the filled
    /// cell, and that cell is selected. Else the game stays as it is.
    pub open spec fn hint(self, solved: Option<Seq<u8>>) -> (SessionView, Result<
        Option<u8>,
        HintError,
    >) {
        match hinted(self.initial, self.current(), solved) {
            Err(e) => (self, Err(e)),
            Ok((grid, filled)) => match filled {
                None => (self, Ok(None)),
                Some(k) => (
                    SessionView {
                        history: (self.history + cleanup_trail(self.current(), 81)).push(grid),
                        selected: Some(k),
                        ..self
                    },
                    Ok(Some(k)),
                ),
            },
        }
    }
}

/// What a player can ask of a game.
pub enum Intent {
    /// Select the cell.
    Select(u8),
    /// Enter the digit, or 0, into the selected cell.
    Enter(u8),
    /// Take back the last move.
    Undo,
    /// Give a hint from what the solver returned.
    Hint(Option<Seq<u8>>),
    /// Start over from the puzzle.
    NewGame(Seq<u8>),
}

impl Intent {
    /// The intent names a cell, a value of a cell or a valid puzzle.
    pub open spec fn admissible(self) -> bool {
        match self {
            Intent::Select(k) => k < 81,
            Intent::Enter(value) => value <= 9,
            Intent::NewGame(puzzle) => grid_valid(puzzle),
            _ => true,
        }
    }
}

/// The game after one intent.
pub open spec fn apply(v: SessionView, intent: Intent) -> SessionView {
    match intent {
        Intent::Select(k) => v.select(k),
        Intent::Enter(value) => v.enter(value),
        Intent::Undo => v.undo(),
        Intent::Hint(solved) => v.hint(solved).0,
        Intent::NewGame(puzzle) => SessionView::fresh(puzzle),
    }
}

/// The game after the intents, taken from first to last.
pub open spec fn play(v: SessionView, intents: Seq<Intent>) -> SessionView
    decreases intents.len(),
{
    if intents.len() == 0 {
        v
    } else {
        apply(play(v, intents.drop_last()), intents.last())
    }
}

/// Whatever the player asks, in whatever order, the game stays well formed:
/// its history is never empty and starts with the puzzle of the game, and
/// each later grid differs from the one before it in exactly one cell.
pub proof fn lemma_play_wf(v: SessionView, intents: Seq<Intent>)
    requires
        v.wf(),
        forall|i: int| 0 <= i < intents.len() ==> (#[trigger] intents[i]).admissible(),
    ensures
        play(v, intents).wf(),
        play(v, intents).history.len() >= 1,
        play(v, intents).history[0] == play(v, intents).initial,
        stepwise(play(v, intents).history),
    decreases intents.len(),
{
    if intents.len() > 0 {
        let before = play(v, intents.drop_last());
        lemma_play_wf(v, intents.drop_last());
        assert(intents.last().admissible());
        match intents.last() {
            Intent::Select(k) => lemma_select_wf(before, k),
            Intent::Enter(value) => lemma_enter_wf(before, value),
            Intent::Undo => lemma_undo_wf(before),
            Intent::Hint(solved) => lemma_hint_wf(before, solved),
            Intent::NewGame(puzzle) => lemma_fresh_wf(puzzle),
        }
    }
}

/// A fresh game is well formed.
pub proof fn lemma_fresh_wf(puzzle: Seq<u8>)
    requires
        grid_valid(puzzle),
    ensures
        SessionView::fresh(puzzle).wf(),
{
}

/// Selecting a cell keeps a game well formed.
pub proof fn lemma_select_wf(v: SessionView, k: u8)
    requires
        v.wf(),
        k < 81,
    ensures
        v.select(k).wf(),
{
}

/// Entering a digit keeps a game well formed: the history grows by at most
/// one grid, which differs from the one before it in the selected cell.
pub proof fn lemma_enter_wf(v: SessionView, value: u8)
    requires
        v.wf(),
        value <= 9,
    ensures
        v.enter(value).wf(),
        v.enter(value).initial == v.initial,
        v.enter(value).history[0] == v.history[0],
{
    if v.accepts(value) {
        let k = v.selected->Some_0 as int;
        let next = v.current().update(k, value);
        let after = v.enter(value);
        assert(differ_only_at(v.current(), next, k));
        lemma_stepwise_kept(v.history, next);
        assert(grid_valid(v.history[v.history.len() - 1]));
        assert forall|i: int| 0 <= i < after.history.len() implies grid_valid(
            #[trigger] after.history[i],
        ) && keeps_givens(after.history[i], after.initial) by {
            if i < v.history.len() {
                assert(grid_valid(v.history[i]));
            }
        }
    }
}

/// Undoing keeps a game well formed, never removes the puzzle, and selects
/// a cell whenever a grid was removed.
pub proof fn lemma_undo_wf(v: SessionView)
    requires
        v.wf(),
    ensures
        v.undo().wf(),
        v.undo().history[0] == v.initial,
        v.history.len() > 1 ==> v.undo().selected is Some,
{
    if v.history.len() > 1 {
        let n = v.history.len();
        let after = v.undo();
        let popped = v.history[n - 1];
        let revealed = v.history[n - 2];
        assert(grid_valid(popped));
        assert(grid_valid(revealed));
        assert(one_cell_apart(v.history[n - 2], v.history[n - 2 + 1]));
        let k = choose|k: int| differ_only_at(revealed, popped, k);
        assert(differ_only_at(popped, revealed, k));
        lemma_changed_cell(popped, revealed);
        lemma_stepwise_kept(v.history, popped);
        assert forall|i: int| 0 <= i < after.history.len() implies grid_valid(
            #[trigger] after.history[i],
        ) && keeps_givens(after.history[i], after.initial) by {
            assert(grid_valid(v.history[i]));
        }
    }
}

/// What the grids of a cleanup are: appended to a history that ends in
/// `g`, they keep it a history of valid single-cell steps, and its last
/// grid is `g` with the conflicting cells below `n` emptied.
pub proof fn lemma_cleanup_trail(h: Seq<Seq<u8>>, initial: Seq<u8>, g: Seq<u8>, n: nat)
    requires
        n <= 81,
        h.len() >= 1,
        h.last() == g,
        stepwise(h),
        forall|i: int| 0 <= i < h.len() ==> grid_valid(#[trigger] h[i]) && keeps_givens(h[i], initial),
    ensures
        stepwise(h + cleanup_trail(g, n)),
        (h + cleanup_trail(g, n)).last() == cleared_below(g, n as int),
        forall|i: int|
            0 <= i < (h + cleanup_trail(g, n)).len() ==> grid_valid(
                #[trigger] (h + cleanup_trail(g, n))[i],
            ) && keeps_givens((h + cleanup_trail(g, n))[i], initial),
        cleanup_trail(g, n).len() <= n,
    decreases n,
{
    assert(grid_valid(h[h.len() - 1]));
    if n == 0 {
        assert(h + cleanup_trail(g, 0) =~= h);
        assert(cleared_below(g, 0) =~= g);
    } else {
        let m = (n - 1) as nat;
        lemma_cleanup_trail(h, initial, g, m);
        let before = h + cleanup_trail(g, m);
        let now = h + cleanup_trail(g, n);
        if in_conflict(g, m as int) {
            let next = cleared_below(g, n as int);
            assert(now =~= before.push(next));
            assert(differ_only_at(before.last(), next, m as int));
            lemma_stepwise_kept(before, next);
            assert(grid_valid(before[before.len() - 1]));
            assert forall|i: int| 0 <= i < now.len() implies grid_valid(#[trigger] now[i])
                && keeps_givens(now[i], initial) by {
                if i < before.len() {
                    assert(grid_valid(before[i]));
                }
            }
        } else {
            assert(now =~= before);
            assert(cleared_below(g, n as int) =~= cleared_below(g, m as int));
        }
    }
}

/// A hint keeps a game well formed and leaves the puzzle in its place.
/// Where it fails or finds the grid complete, the game is unchanged.
pub proof fn lemma_hint_wf(v: SessionView, solved: Option<Seq<u8>>)
    requires
        v.wf(),
    ensures
        v.hint(solved).0.wf(),
        v.hint(solved).0.initial == v.initial,
        v.hint(solved).0.history[0] == v.history[0],
        !(v.hint(solved).1 matches Ok(Some(_))) ==> v.hint(solved).0 == v,
{
    let cur = v.current();
    assert(grid_valid(v.history[v.history.len() - 1]));
    lemma_cleared(cur);
    lemma_first_empty(cleared(cur));
    if let Ok((grid, Some(k))) = hinted(v.initial, cur, solved) {
        let s = solved->Some_0;
        let clean = cleared(cur);
        lemma_cleanup_trail(v.history, v.initial, cur, 81);
        let before = v.history + cleanup_trail(cur, 81);
        let after = v.hint(solved).0;
        assert(after.history == before.push(grid));
        assert(differ_only_at(clean, grid, k as int));
        lemma_stepwise_kept(before, grid);
        assert(grid_valid(before[before.len() - 1]));
        assert forall|i: int| 0 <= i < after.history.len() implies grid_valid(
            #[trigger] after.history[i],
        ) && keeps_givens(after.history[i], after.initial) by {
            if i < before.len() {
                assert(grid_valid(before[i]));
            }
        }
        assert(after.history[0] == before[0]);
    }
}

/// A hint on a solved grid, one without an empty cell and without a
/// conflict, changes nothing.
pub proof fn lemma_hint_on_solved_grid(v: SessionView, solved: Option<Seq<u8>>)
    requires
        v.wf(),
        is_full(v.current()),
        conflict_free(v.current()),
    ensures
        v.hint(solved).0 == v,
        v.hint(solved).1 matches Ok(None),
{
    assert(grid_valid(v.history[v.history.len() - 1]));
    lemma_cleared(v.current());
    lemma_first_empty(v.current());
}

/// After a hint that filled a cell from a solution of the cleared grid, the
/// board shows no conflict.
pub proof fn lemma_hint_leaves_no_conflict(v: SessionView, s: Seq<u8>)
    requires
        v.wf(),
        solves(s, cleared(v.current())),
        v.hint(Some(s)).1 matches Ok(Some(_)),
    ensures
        conflict_free(v.hint(Some(s)).0.current()),
        v.hint(Some(s)).0.conflicts().len() == 0,
{
    let cur = v.current();
    assert(grid_valid(v.history[v.history.len() - 1]));
    lemma_cleared(cur);
    lemma_first_empty(cleared(cur));
    let k = first_empty(cleared(cur))->Some_0;
    lemma_filled_from_solution(cleared(cur), s, k as int);
    lemma_all_conflict_list(v.hint(Some(s)).0.current());
}

} // verus!
