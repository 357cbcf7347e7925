//! The backtracking search as a mathematical function of the grid.
//!
//! The search walks the cells in index order. A locked cell is passed over. A
//! free cell gets each of its candidate values in turn, smallest first, and
//! the search goes on behind it; when it fails there, the cell is blanked and
//! the next candidate is tried.

use crate::board::Board;
use vstd::prelude::*;

verus! {

/// How a search ended: whether it filled the grid, and the values it left in
/// the cells.
pub struct Outcome {
    pub found: bool,
    pub values: Seq<nat>,
}

impl Board {
    /// The outcome of the search that starts at cell `index`.
    pub open spec fn search(self, index: int) -> Outcome
        decreases self.cells() - index, 1int, 0int,
    {
        if index < 0 || index >= self.cells() {
            Outcome { found: true, values: self.values }
        } else if self.locked[index] {
            self.search(index + 1)
        } else {
            self.try_from(index, self.candidates(index), 1)
        }
    }

    /// The outcome of trying, in the free cell `index`, the values of
    /// `allowed` that are at least `v`, in ascending order. `allowed` holds
    /// the candidates that the cell had when its turn came.
    pub open spec fn try_from(self, index: int, allowed: Set<nat>, v: nat) -> Outcome
        decreases self.cells() - index, 0int, self.dim + 1 - v,
    {
        if index < 0 || index >= self.cells() || v > self.dim {
            Outcome { found: false, values: self.values }
        } else if !allowed.contains(v) {
            self.try_from(index, allowed, v + 1)
        } else {
            let deeper = self.put(index, v).search(index + 1);
            if deeper.found {
                deeper
            } else {
                self.with_values(deeper.values.update(index, 0)).try_from(index, allowed, v + 1)
            }
        }
    }
}

/// Values that are not allowed are passed over.
pub proof fn lemma_try_from_skips(board: Board, index: int, allowed: Set<nat>, lo: nat, hi: nat)
    requires
        lo <= hi <= board.dim + 1,
        forall|v: nat| lo <= v < hi ==> !allowed.contains(v),
    ensures
        board.try_from(index, allowed, lo) == board.try_from(index, allowed, hi),
    decreases hi - lo,
{
    if lo < hi {
        lemma_try_from_skips(board, index, allowed, lo + 1, hi);
    }
}

/// The search is deterministic: grids of one shape that hold the same
/// values and the same locks, cell for cell, come to the same outcome.
pub proof fn lemma_search_deterministic(a: Board, b: Board, index: int)
    requires
        a.dim == b.dim,
        a.side == b.side,
        a.values.len() == b.values.len(),
        a.locked.len() == b.locked.len(),
        forall|i: int| 0 <= i < a.values.len() ==> a.values[i] == b.values[i],
        forall|i: int| 0 <= i < a.locked.len() ==> a.locked[i] == b.locked[i],
    ensures
        a.search(index) == b.search(index),
{
    assert(a.values =~= b.values);
    assert(a.locked =~= b.locked);
}

/// Where every cell from `index` on is locked, the search succeeds and
/// changes nothing. A grid that is all clues is such a grid from its first
/// cell on.
pub proof fn lemma_search_all_locked(board: Board, index: int)
    requires
        0 <= index,
        forall|j: int| index <= j < board.cells() ==> board.locked[j],
    ensures
        board.search(index) == (Outcome { found: true, values: board.values }),
    decreases board.cells() - index,
{
    if index < board.cells() {
        lemma_search_all_locked(board, index + 1);
    }
}

/// The search from the last cell. A locked cell is left as it is, and the
/// search succeeds without a look at its candidates. A free cell gets its
/// smallest candidate, which is its one candidate where it has exactly one.
/// A free cell without a candidate makes the search fail and stays as it
/// was.
pub proof fn lemma_search_last_cell(board: Board, v: nat)
    requires
        board.wf(),
        board.cells() > 0,
    ensures
        ({
            let last = board.cells() - 1;
            let outcome = board.search(last);
            &&& board.locked[last] ==> outcome.found && outcome.values == board.values
            &&& !board.locked[last] && board.fits(last, v) && (forall|w: nat|
                w < v ==> !board.fits(last, w)) ==> outcome.found && outcome.values
                == board.values.update(last, v)
            &&& !board.locked[last] && (forall|w: nat| !board.fits(last, w)) ==> !outcome.found
                && outcome.values == board.values
        }),
{
    let last = board.cells() - 1;
    let allowed = board.candidates(last);
    if board.locked[last] {
        lemma_search_all_locked(board, last);
    } else {
        if board.fits(last, v) && (forall|w: nat| w < v ==> !board.fits(last, w)) {
            lemma_try_from_skips(board, last, allowed, 1, v);
            let placed = board.put(last, v);
            assert(placed.search(last + 1) == (Outcome { found: true, values: placed.values }));
        }
        if forall|w: nat| !board.fits(last, w) {
            lemma_try_from_skips(board, last, allowed, 1, board.dim + 1);
            assert(board.try_from(last, allowed, board.dim + 1) == (Outcome {
                found: false,
                values: board.values,
            }));
        }
    }
}

} // verus!
