//! The mathematical model of a puzzle grid, over which every contract of the
//! crate is stated.

use crate::layout::peers;
use vstd::prelude::*;

verus! {

/// A grid as a mathematical value: its dimension, the side of a box, and for
/// every cell its value (0 for a blank) and whether it is a locked clue.
pub struct Board {
    pub dim: nat,
    pub side: nat,
    pub values: Seq<nat>,
    pub locked: Seq<bool>,
}

impl Board {
    /// The number of cells.
    pub open spec fn cells(self) -> nat {
        self.dim * self.dim
    }

    /// The dimension is the square of the box side, every cell holds a value
    /// in `0..=dim`, and every locked cell holds a clue, that is no blank.
    pub open spec fn wf(self) -> bool {
        &&& self.side * self.side == self.dim
        &&& self.values.len() == self.cells()
        &&& self.locked.len() == self.cells()
        &&& forall|i: int| 0 <= i < self.cells() ==> #[trigger] self.values[i] <= self.dim
        &&& forall|i: int| 0 <= i < self.cells() && #[trigger] self.locked[i] ==> self.values[i] != 0
    }

    /// The same grid with the value `v` in cell `i`.
    pub open spec fn put(self, i: int, v: nat) -> Board {
        Board { values: self.values.update(i, v), ..self }
    }

    /// The same grid with other values in its cells.
    pub open spec fn with_values(self, values: Seq<nat>) -> Board {
        Board { values, ..self }
    }

    /// A search that starts at cell `index` leaves cell `j` alone: the cell
    /// lies before `index` or it is locked.
    pub open spec fn fixed(self, index: int, j: int) -> bool {
        j < index || self.locked[j]
    }

    /// Every free cell from `index` on is blank.
    pub open spec fn blank_from(self, index: int) -> bool {
        forall|j: int|
            index <= j < self.cells() && !#[trigger] self.fixed(index, j) ==> self.values[j] == 0
    }

    /// The value `v` may stand in cell `i`: it lies in `1..=dim` and no peer
    /// of `i` holds it.
    pub open spec fn fits(self, i: int, v: nat) -> bool {
        &&& 1 <= v <= self.dim
        &&& forall|j: int|
            0 <= j < self.cells() && #[trigger] peers(self.dim, self.side, i, j)
                ==> self.values[j] != v
    }

    /// The candidate values of cell `i`.
    pub open spec fn candidates(self, i: int) -> Set<nat> {
        Set::new(|v: nat| self.fits(i, v))
    }

    /// No two peers hold the same value, blanks aside.
    pub open spec fn consistent(self) -> bool {
        forall|i: int, j: int|
            0 <= i < self.cells() && 0 <= j < self.cells()
                && #[trigger] peers(self.dim, self.side, i, j) && self.values[i] != 0
                ==> self.values[i] != self.values[j]
    }

    /// No cell is blank.
    pub open spec fn complete(self) -> bool {
        forall|i: int| 0 <= i < self.cells() ==> #[trigger] self.values[i] != 0
    }

    /// Every cell is filled and no two peers hold the same value.
    pub open spec fn solved(self) -> bool {
        self.complete() && self.consistent()
    }
}

} // verus!
