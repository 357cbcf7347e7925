//! The solver: a depth-first search over the cells in index order, which
//! tries the candidates of each free cell in ascending order and takes a
//! value back when the search behind it fails.

use crate::completion::{
    lemma_search_decides,
    lemma_search_keeps,
    lemma_search_keeps_consistent,
    lemma_search_solves,
    precedes,
};
use crate::grid::Sudoku;
use crate::search::{lemma_search_all_locked, lemma_try_from_skips};
use vstd::prelude::*;

verus! {

/// The search found no way to fill the grid. `index` is the first free cell
/// of the search: it had no candidate, or each of its candidates was refuted.
#[derive(Clone, Copy, Debug, PartialEq, Eq)]
pub struct Unsolvable {
    pub index: usize,
}

impl Sudoku {
    /// Searches for values for the free cells from `index` on, such that each
    /// holds a value of `1..=dimension` that none of its peers holds. The
    /// cells are taken in index order, and each free cell tries its
    /// candidates in ascending order; a value that leads nowhere is taken
    /// back. Cells before `index` and locked cells are read, never written.
    ///
    /// The outcome is `search` of the grid as it was. On a grid whose free
    /// cells from `index` on are blank, as `load_board` leaves them, that is:
    /// success exactly if the grid can be filled, then with the first of all
    /// fillings in the cells, and failure with the grid unchanged otherwise.
    ///
    /// The search trusts the clues: it never compares two locked cells.
    #[verifier::loop_isolation(false)]
    pub fn solve(&mut self, index: usize) -> (result: Result<(), Unsolvable>)
        requires
            old(self).wf(),
            index <= old(self)@.cells(),
        ensures
            final(self).wf(),
            final(self)@ == old(self)@.with_values(old(self)@.search(index as int).values),
            result.is_ok() == old(self)@.search(index as int).found,
            result matches Err(e) ==> {
                &&& index <= e.index < old(self)@.cells()
                &&& !old(self)@.locked[e.index as int]
                &&& forall|j: int| index <= j < e.index ==> old(self)@.locked[j]
            },
            forall|j: int|
                0 <= j < old(self)@.cells() && #[trigger] old(self)@.fixed(index as int, j)
                    ==> final(self)@.values[j] == old(self)@.values[j],
            result.is_ok() ==> old(self)@.completes(index as int, final(self)@.values),
            result.is_err() ==> forall|j: int|
                0 <= j < old(self)@.cells() ==> #[trigger] final(self)@.values[j]
                    == old(self)@.values[j] || final(self)@.values[j] == 0,
            old(self)@.consistent() ==> final(self)@.consistent(),
            old(self)@.consistent() && index == 0 && result.is_ok() ==> final(self)@.solved(),
            (forall|j: int| index <= j < old(self)@.cells() ==> old(self)@.locked[j])
                ==> result.is_ok() && final(self)@ == old(self)@,
            old(self)@.blank_from(index as int) ==> (result.is_ok() <==> exists|t: Seq<nat>|
                old(self)@.completes(index as int, t)),
            old(self)@.blank_from(index as int) && result.is_ok() ==> forall|t: Seq<nat>| #[trigger]
                old(self)@.completes(index as int, t) ==> precedes(final(self)@.values, t),
            old(self)@.blank_from(index as int) && result.is_err() ==> final(self)@ == old(self)@,
        decreases old(self)@.cells() - index,
    {
        let ghost start = self@;
        proof {
            lemma_search_keeps(start, index as int);
            if start.blank_from(index as int) {
                lemma_search_decides(start, index as int);
            }
            if start.consistent() {
                lemma_search_keeps_consistent(start, index as int);
                if index == 0 && start.search(0).found {
                    lemma_search_solves(start);
                }
            }
            if forall|j: int| index <= j < start.cells() ==> start.locked[j] {
                lemma_search_all_locked(start, index as int);
            }
        }
        let n: usize = self.dimension();
        if index == n * n {
            return Ok(());
        }
        assert(0 < n <= u32::MAX) by (nonlinear_arith)
            requires
                index < n * n <= usize::MAX,
                usize::MAX <= u64::MAX,
        ;
        let (x, y) = self.get_coords(index);
        if self.is_locked(x, y) {
            return self.solve(index + 1);
        }
        let candidates = self.gather_possible_values(x, y);
        let ghost allowed = start.candidates(index as int);
        proof {
            assert forall|a: int| 0 <= a < candidates.len()
                implies allowed.contains(#[trigger] candidates[a] as nat) by {
                assert(candidates@.contains(candidates[a]));
            }
            assert forall|w: nat| allowed.contains(w) implies exists|a: int|
                0 <= a < candidates.len() && #[trigger] candidates[a] == w by {
                assert(candidates@.contains(w as u32));
            }
        }
        // every value below `lo` has had its turn
        let ghost mut lo: nat = 1;
        let mut k: usize = 0;
        while k < candidates.len()
            invariant
                self.wf(),
                self@.dim == start.dim,
                self@.side == start.side,
                self@.locked == start.locked,
                k <= candidates.len(),
                1 <= lo <= start.dim + 1,
                forall|a: int| 0 <= a < k ==> candidates[a] < lo,
                forall|a: int| k <= a < candidates.len() ==> candidates[a] >= lo,
                start.search(index as int) == self@.try_from(index as int, allowed, lo),
            decreases candidates.len() - k,
        {
            let v: u32 = candidates[k];
            let ghost before = self@;
            proof {
                assert forall|w: nat| lo <= w < v implies !allowed.contains(w) by {
                    if allowed.contains(w) {
                        let a = choose|a: int|
                            0 <= a < candidates.len() && #[trigger] candidates[a] == w;
                        assert(a < k || a > k);
                    }
                }
                lemma_try_from_skips(before, index as int, allowed, lo, v as nat);
            }
            self.set_value(x, y, v);
            match self.solve(index + 1) {
                Ok(()) => {
                    return Ok(());
                },
                Err(_) => {
                    self.set_value(x, y, 0);
                },
            }
            proof {
                let deeper = before.put(index as int, v as nat).search(index + 1);
                assert(self@ == before.with_values(deeper.values.update(index as int, 0)));
                lo = (v + 1) as nat;
            }
            k += 1;
        }
        proof {
            assert forall|w: nat| lo <= w < start.dim + 1 implies !allowed.contains(w) by {
                if allowed.contains(w) {
                    let a = choose|a: int|
                        0 <= a < candidates.len() && #[trigger] candidates[a] == w;
                }
            }
            lemma_try_from_skips(self@, index as int, allowed, lo, start.dim + 1);
        }
        Err(Unsolvable { index })
    }
}

} // verus!
