//! What the search achieves: the ways to fill a grid, and which of them the
//! search finds.

use crate::board::Board;
use crate::layout::peers;
use crate::search::Outcome;
use vstd::prelude::*;

verus! {

/// Wherever `s` and `t` agree on all earlier cells, `s` holds the smaller
/// value or the same: `s` comes first when the two are read cell by cell.
pub open spec fn precedes(s: Seq<nat>, t: Seq<nat>) -> bool {
    forall|k: int|
        0 <= k < s.len() && (forall|j: int| 0 <= j < k ==> s[j] == t[j]) ==> #[trigger] s[k] <= t[k]
}

impl Board {
    /// The value `v` lies in `1..=dim`, and no peer of cell `i` among the
    /// cells that the search from `i` leaves alone holds it.
    pub open spec fn fits_fixed(self, i: int, v: nat) -> bool {
        &&& 1 <= v <= self.dim
        &&& forall|j: int|
            0 <= j < self.cells() && #[trigger] peers(self.dim, self.side, i, j) && self.fixed(i, j)
                ==> self.values[j] != v
    }

    /// The values `s` fill the grid from `index` on: they keep every cell
    /// that the search from `index` leaves alone, and give every other cell a
    /// value that fits it.
    pub open spec fn completes(self, index: int, s: Seq<nat>) -> bool {
        &&& s.len() == self.cells()
        &&& forall|j: int|
            0 <= j < self.cells() && #[trigger] self.fixed(index, j) ==> s[j] == self.values[j]
        &&& forall|j: int|
            0 <= j < self.cells() && !#[trigger] self.fixed(index, j)
                ==> self.with_values(s).fits(j, s[j])
    }

    /// What holds of the outcome `r` of a search from `index`, whatever the
    /// free cells held before: the cells that the search leaves alone keep
    /// their values; on success the grid is filled from `index` on; on
    /// failure every other cell keeps its value or is blank.
    pub open spec fn kept_by(self, index: int, r: Outcome) -> bool {
        &&& r.values.len() == self.cells()
        &&& forall|j: int|
            0 <= j < self.cells() && #[trigger] self.fixed(index, j)
                ==> r.values[j] == self.values[j]
        &&& r.found ==> self.completes(index, r.values)
        &&& !r.found ==> forall|j: int|
            0 <= j < self.cells() ==> #[trigger] r.values[j] == self.values[j] || r.values[j] == 0
    }

    /// What holds of the outcome `r` of a search from `index` when every free
    /// cell from `index` on was blank: on success `r` holds the first of all
    /// the ways to fill the grid; on failure there is no such way, and the
    /// grid is as it was.
    pub open spec fn decided_by(self, index: int, r: Outcome) -> bool {
        &&& r.found ==> self.completes(index, r.values) && forall|t: Seq<nat>| #[trigger]
            self.completes(index, t) ==> precedes(r.values, t)
        &&& !r.found ==> r.values == self.values && forall|t: Seq<nat>|
            !#[trigger] self.completes(index, t)
    }
}

/// The search keeps the grid well formed, touches no cell that is locked or
/// lies before its start, fills the grid from its start on when it succeeds,
/// and at most blanks cells when it fails.
pub proof fn lemma_search_keeps(board: Board, index: int)
    requires
        board.wf(),
        0 <= index <= board.cells(),
    ensures
        board.kept_by(index, board.search(index)),
        board.with_values(board.search(index).values).wf(),
    decreases board.cells() - index, 1int, 0int,
{
    if index >= board.cells() {
    } else if board.locked[index] {
        lemma_search_keeps(board, index + 1);
        assert forall|j: int| 0 <= j < board.cells() implies (board.fixed(index, j)
            <==> board.fixed(index + 1, j)) by {}
    } else {
        let allowed = board.candidates(index);
        assert forall|w: nat| allowed.contains(w) implies board.fits_fixed(index, w) by {}
        lemma_try_from_keeps(board, index, allowed, 1);
    }
}

/// The same of trying the values from `v` on in the free cell `index`.
proof fn lemma_try_from_keeps(board: Board, index: int, allowed: Set<nat>, v: nat)
    requires
        board.wf(),
        0 <= index < board.cells(),
        !board.locked[index],
        forall|w: nat| allowed.contains(w) ==> board.fits_fixed(index, w),
    ensures
        board.kept_by(index, board.try_from(index, allowed, v)),
        board.with_values(board.try_from(index, allowed, v).values).wf(),
    decreases board.cells() - index, 0int, board.dim + 1 - v,
{
    if v > board.dim {
        assert(board.with_values(board.values) == board);
    } else if !allowed.contains(v) {
        lemma_try_from_keeps(board, index, allowed, v + 1);
    } else {
        let placed = board.put(index, v);
        lemma_search_keeps(placed, index + 1);
        let deeper = placed.search(index + 1);
        assert forall|j: int| 0 <= j < board.cells() && board.fixed(index, j) implies {
            &&& placed.fixed(index + 1, j)
            &&& placed.values[j] == board.values[j]
        } by {}
        if deeper.found {
            let s = deeper.values;
            assert(s[index] == v) by {
                assert(placed.fixed(index + 1, index));
            }
            assert forall|j: int|
                0 <= j < board.cells() && !board.fixed(index, j)
                implies #[trigger] board.with_values(s).fits(j, s[j]) by {
                if j == index {
                    assert forall|k: int|
                        0 <= k < board.cells() && #[trigger] peers(board.dim, board.side, index, k)
                        implies s[k] != v by {
                        if board.fixed(index, k) {
                            assert(placed.fixed(index + 1, k));
                        } else {
                            assert(!placed.fixed(index + 1, k));
                            assert(peers(board.dim, board.side, k, index));
                        }
                    }
                } else {
                    assert(!placed.fixed(index + 1, j));
                }
            }
        } else {
            let undone = board.with_values(deeper.values.update(index, 0));
            assert(undone.wf()) by {
                assert forall|i: int|
                    0 <= i < undone.cells() && #[trigger] undone.locked[i]
                    implies undone.values[i] != 0 by {
                    assert(placed.fixed(index + 1, i));
                }
            }
            assert forall|w: nat| allowed.contains(w) implies undone.fits_fixed(index, w) by {
                assert forall|k: int|
                    0 <= k < undone.cells() && #[trigger] peers(undone.dim, undone.side, index, k)
                        && undone.fixed(index, k)
                    implies undone.values[k] != w by {
                    assert(placed.fixed(index + 1, k));
                }
            }
            lemma_try_from_keeps(undone, index, allowed, v + 1);
            assert forall|j: int| 0 <= j < board.cells() implies {
                &&& #[trigger] board.fixed(index, j) <==> undone.fixed(index, j)
                &&& board.fixed(index, j) ==> undone.values[j] == board.values[j]
            } by {
                if board.fixed(index, j) {
                    assert(placed.fixed(index + 1, j));
                }
            }
        }
    }
}

/// A way to fill the grid from the free cell `index` on puts a candidate of
/// that cell into it, when the free cells from `index` on were blank.
proof fn lemma_completion_takes_candidate(board: Board, index: int, t: Seq<nat>)
    requires
        board.wf(),
        0 <= index < board.cells(),
        !board.locked[index],
        board.blank_from(index),
        board.completes(index, t),
    ensures
        board.fits(index, t[index]),
{
    let v = t[index];
    assert(!board.fixed(index, index));
    assert forall|k: int|
        0 <= k < board.cells() && #[trigger] peers(board.dim, board.side, index, k)
        implies board.values[k] != v by {
        let filled = board.with_values(t);
        assert(peers(filled.dim, filled.side, index, k));
        if board.fixed(index, k) {
            assert(t[k] == board.values[k]);
        } else {
            assert(board.values[k] == 0);
        }
    }
}

/// A way to fill the grid from the free cell `index` on is a way to fill,
/// from the next cell on, the grid that holds the same value in that cell;
/// and the other way round when that value is a candidate of the cell.
proof fn lemma_completion_steps(board: Board, index: int, v: nat, t: Seq<nat>)
    requires
        board.wf(),
        0 <= index < board.cells(),
        !board.locked[index],
        t.len() == board.cells(),
        t[index] == v,
    ensures
        board.completes(index, t) ==> board.put(index, v).completes(index + 1, t),
        board.fits_fixed(index, v) && board.put(index, v).completes(index + 1, t)
            ==> board.completes(index, t),
{
    let placed = board.put(index, v);
    assert forall|j: int| 0 <= j < board.cells() implies {
        &&& #[trigger] placed.fixed(index + 1, j) <==> board.fixed(index, j) || j == index
        &&& j != index ==> placed.values[j] == board.values[j]
    } by {}
    if board.completes(index, t) {
        assert forall|j: int|
            0 <= j < placed.cells() && #[trigger] placed.fixed(index + 1, j)
            implies t[j] == placed.values[j] by {
            if j != index {
                assert(board.fixed(index, j));
            }
        }
        assert forall|j: int|
            0 <= j < placed.cells() && !#[trigger] placed.fixed(index + 1, j)
            implies placed.with_values(t).fits(j, t[j]) by {
            assert(!board.fixed(index, j));
        }
    }
    if board.fits_fixed(index, v) && placed.completes(index + 1, t) {
        assert forall|j: int|
            0 <= j < board.cells() && #[trigger] board.fixed(index, j)
            implies t[j] == board.values[j] by {
            assert(placed.fixed(index + 1, j));
        }
        assert forall|j: int|
            0 <= j < board.cells() && !#[trigger] board.fixed(index, j)
            implies board.with_values(t).fits(j, t[j]) by {
            if j == index {
                assert forall|k: int|
                    0 <= k < board.cells() && #[trigger] peers(board.dim, board.side, index, k)
                    implies t[k] != v by {
                    let filled = board.with_values(t);
                    if board.fixed(index, k) {
                        assert(placed.fixed(index + 1, k));
                    } else {
                        assert(!placed.fixed(index + 1, k));
                        assert(peers(filled.dim, filled.side, k, index));
                    }
                }
            } else {
                assert(!placed.fixed(index + 1, j));
            }
        }
    }
}

/// On a grid whose free cells from `index` on are blank, the search from
/// `index` decides whether the grid can be filled: it succeeds exactly if
/// there is a way to fill it, then leaves the first such way, and else leaves
/// the grid as it was.
pub proof fn lemma_search_decides(board: Board, index: int)
    requires
        board.wf(),
        0 <= index <= board.cells(),
        board.blank_from(index),
    ensures
        board.decided_by(index, board.search(index)),
    decreases board.cells() - index, 1int, 0int,
{
    if index >= board.cells() {
        let s = board.values;
        assert(board.completes(index, s)) by {
            assert forall|j: int| 0 <= j < board.cells()
                implies #[trigger] board.fixed(index, j) by {}
        }
        assert forall|t: Seq<nat>| #[trigger] board.completes(index, t) implies precedes(s, t) by {
            assert forall|k: int| 0 <= k < s.len() implies #[trigger] s[k] <= t[k] by {
                assert(board.fixed(index, k));
            }
        }
    } else if board.locked[index] {
        assert(board.blank_from(index + 1)) by {
            assert forall|j: int|
                index + 1 <= j < board.cells() && !#[trigger] board.fixed(index + 1, j)
                implies board.values[j] == 0 by {
                assert(!board.fixed(index, j));
            }
        }
        lemma_search_decides(board, index + 1);
        assert forall|t: Seq<nat>|
            #[trigger] board.completes(index, t) <==> board.completes(index + 1, t) by {
            assert forall|j: int|
                #![trigger board.fixed(index, j)]
                #![trigger board.fixed(index + 1, j)]
                0 <= j < board.cells()
                implies (board.fixed(index, j) <==> board.fixed(index + 1, j)) by {}
        }
    } else {
        assert forall|t: Seq<nat>| #[trigger] board.completes(index, t) implies t[index] >= 1 by {
            lemma_completion_takes_candidate(board, index, t);
        }
        lemma_try_from_decides(board, index, 1);
    }
}

/// The same of trying the values from `v` on in the free cell `index`, when
/// no way to fill the grid puts a smaller value there.
proof fn lemma_try_from_decides(board: Board, index: int, v: nat)
    requires
        board.wf(),
        0 <= index < board.cells(),
        !board.locked[index],
        board.blank_from(index),
        forall|t: Seq<nat>| #[trigger] board.completes(index, t) ==> t[index] >= v,
    ensures
        board.decided_by(index, board.try_from(index, board.candidates(index), v)),
    decreases board.cells() - index, 0int, board.dim + 1 - v,
{
    let allowed = board.candidates(index);
    if v > board.dim {
        assert forall|t: Seq<nat>| !#[trigger] board.completes(index, t) by {
            if board.completes(index, t) {
                lemma_completion_takes_candidate(board, index, t);
            }
        }
    } else if !allowed.contains(v) {
        assert forall|t: Seq<nat>| #[trigger] board.completes(index, t)
            implies t[index] >= v + 1 by {
            lemma_completion_takes_candidate(board, index, t);
        }
        lemma_try_from_decides(board, index, v + 1);
    } else {
        let placed = board.put(index, v);
        assert(!board.fixed(index, index));
        assert(placed.blank_from(index + 1)) by {
            assert forall|j: int|
                index + 1 <= j < placed.cells() && !#[trigger] placed.fixed(index + 1, j)
                implies placed.values[j] == 0 by {
                assert(!board.fixed(index, j));
            }
        }
        lemma_search_decides(placed, index + 1);
        let deeper = placed.search(index + 1);
        if deeper.found {
            let s = deeper.values;
            assert(s[index] == v) by {
                assert(placed.fixed(index + 1, index));
            }
            lemma_completion_steps(board, index, v, s);
            assert forall|t: Seq<nat>| #[trigger] board.completes(index, t)
                implies precedes(s, t) by {
                if t[index] == v {
                    lemma_completion_steps(board, index, v, t);
                } else {
                    assert forall|k: int|
                        0 <= k < s.len() && (forall|j: int| 0 <= j < k ==> s[j] == t[j])
                        implies #[trigger] s[k] <= t[k] by {
                        if k < index {
                            assert(board.fixed(index, k));
                        }
                    }
                }
            }
        } else {
            assert(board.with_values(deeper.values.update(index, 0)) == board) by {
                assert(deeper.values.update(index, 0) =~= board.values);
            }
            assert forall|t: Seq<nat>| #[trigger] board.completes(index, t)
                implies t[index] >= v + 1 by {
                if t[index] == v {
                    lemma_completion_steps(board, index, v, t);
                }
            }
            lemma_try_from_decides(board, index, v + 1);
        }
    }
}

/// The search never makes two peers hold the same value: a grid without such
/// a pair has none after the search either, whether it succeeded or failed.
pub proof fn lemma_search_keeps_consistent(board: Board, index: int)
    requires
        board.wf(),
        0 <= index <= board.cells(),
        board.consistent(),
    ensures
        board.with_values(board.search(index).values).consistent(),
{
    lemma_search_keeps(board, index);
    let r = board.search(index);
    let after = board.with_values(r.values);
    assert forall|i: int, j: int|
        0 <= i < after.cells() && 0 <= j < after.cells()
            && #[trigger] peers(after.dim, after.side, i, j) && after.values[i] != 0
        implies after.values[i] != after.values[j] by {
        assert(peers(board.dim, board.side, j, i));
        if r.found && !board.fixed(index, i) {
            assert(after.fits(i, r.values[i]));
        } else if r.found && !board.fixed(index, j) {
            assert(after.fits(j, r.values[j]));
        } else {
            assert(r.values[i] == board.values[i]);
        }
    }
}

/// A search from the first cell that succeeds on a grid in which no two
/// clues clash leaves a solved grid.
pub proof fn lemma_search_solves(board: Board)
    requires
        board.wf(),
        board.consistent(),
        board.search(0).found,
    ensures
        board.with_values(board.search(0).values).solved(),
{
    lemma_search_keeps(board, 0);
    lemma_search_keeps_consistent(board, 0);
    let r = board.search(0);
    let after = board.with_values(r.values);
    assert forall|i: int| 0 <= i < after.cells() implies #[trigger] after.values[i] != 0 by {
        if board.fixed(0, i) {
            assert(board.locked[i]);
        } else {
            assert(after.fits(i, r.values[i]));
        }
    }
}

/// Two sequences of one length, each of which comes first, agree up to any
/// cell.
proof fn lemma_precedes_agree(s: Seq<nat>, t: Seq<nat>, k: int)
    requires
        s.len() == t.len(),
        precedes(s, t),
        precedes(t, s),
        0 <= k <= s.len(),
    ensures
        forall|j: int| 0 <= j < k ==> s[j] == t[j],
    decreases k,
{
    if k > 0 {
        lemma_precedes_agree(s, t, k - 1);
        assert(s[k - 1] <= t[k - 1]);
        assert(t[k - 1] <= s[k - 1]);
    }
}

/// The search is deterministic in what it finds, not only in how it runs:
/// the contract of a successful search on blank free cells is met by one
/// sequence of values only. Two ways to fill the grid from `index` on, each
/// of which comes before every such way, are the same.
pub proof fn lemma_first_completion_unique(board: Board, index: int, s: Seq<nat>, t: Seq<nat>)
    requires
        board.completes(index, s),
        board.completes(index, t),
        forall|u: Seq<nat>| #[trigger] board.completes(index, u) ==> precedes(s, u),
        forall|u: Seq<nat>| #[trigger] board.completes(index, u) ==> precedes(t, u),
    ensures
        s == t,
{
    lemma_precedes_agree(s, t, s.len() as int);
    assert(s =~= t);
}

} // verus!
