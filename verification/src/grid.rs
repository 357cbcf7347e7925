//! The grid: a flat, row-major vector of cells, each with a value and a lock.

use crate::board::Board;
use crate::layout::{col_of, index_of, lemma_coords_of_index, lemma_index_of_coords, row_of};
use vstd::arithmetic::div_mod::{
    lemma_fundamental_div_mod,
    lemma_fundamental_div_mod_converse,
    lemma_mod_pos_bound,
};
use vstd::prelude::*;

verus! {

/// One cell of a grid. The value 0 stands for a blank; a locked cell is a clue
/// and keeps its value.
#[derive(Clone, Copy, Debug, PartialEq, Eq)]
pub struct DokuCell {
    pub current_value: u32,
    pub is_locked: bool,
}

impl DokuCell {
    /// A blank, unlocked cell.
    pub fn new() -> (cell: DokuCell)
        ensures
            cell.current_value == 0,
            !cell.is_locked,
    {
        DokuCell { current_value: 0, is_locked: false }
    }
}

/// Why a grid could not be made or loaded.
#[derive(Clone, Copy, Debug, PartialEq, Eq)]
pub enum GridError {
    /// The grid would hold more cells than a `usize` can count.
    DimensionTooLarge,
    /// The dimension is not the square of a whole number, so the grid has no
    /// boxes.
    DimensionNotSquare,
    /// The values given are not as many as the grid has cells.
    WrongLength,
    /// One of the values given is greater than the dimension.
    ValueOutOfRange,
}

/// `n` is the square of a whole number.
pub open spec fn is_square(n: nat) -> bool {
    exists|b: nat| #[trigger] (b * b) == n
}

/// A puzzle grid of `dimension` by `dimension` cells.
#[derive(Clone, Debug)]
pub struct Sudoku {
    cells: Vec<DokuCell>,
    dimension: usize,
    box_size: usize,
}

impl Sudoku {
    /// The grid as a mathematical value.
    pub closed spec fn view(&self) -> Board {
        Board {
            dim: self.dimension as nat,
            side: self.box_size as nat,
            values: Seq::new(self.cells@.len(), |i: int| self.cells@[i].current_value as nat),
            locked: Seq::new(self.cells@.len(), |i: int| self.cells@[i].is_locked),
        }
    }

    /// The grid is well formed as a mathematical value, and its cells can be
    /// counted in a `usize`. `new` makes such a grid, and every method keeps
    /// it so.
    pub open spec fn wf(&self) -> bool {
        &&& self@.wf()
        &&& self@.cells() <= usize::MAX
    }

    /// A grid of `dimension` by `dimension` blank, unlocked cells. The
    /// dimension has to be a perfect square, whose root is the side of a box,
    /// and the cells have to be countable in a `usize`.
    pub fn new(dimension: usize) -> (made: Result<Sudoku, GridError>)
        ensures
            match made {
                Ok(grid) => {
                    &&& grid.wf()
                    &&& grid@.dim == dimension
                    &&& is_square(dimension as nat)
                    &&& forall|i: int|
                        #![trigger grid@.values[i]]
                        #![trigger grid@.locked[i]]
                        0 <= i < grid@.cells() ==> grid@.values[i] == 0 && !grid@.locked[i]
                    &&& grid@.blank_from(0)
                    &&& grid@.consistent()
                },
                Err(GridError::DimensionTooLarge) => dimension * dimension > usize::MAX,
                Err(GridError::DimensionNotSquare) => dimension * dimension <= usize::MAX
                    && !is_square(dimension as nat),
                Err(_) => false,
            },
    {
        let count: usize = match dimension.checked_mul(dimension) {
            Some(count) => count,
            None => {
                return Err(GridError::DimensionTooLarge);
            },
        };
        let mut root: usize = 0;
        while root < dimension && root * root < dimension
            invariant
                root <= dimension,
                root * root <= dimension * dimension <= usize::MAX,
                forall|b: nat| b < root ==> #[trigger] (b * b) < dimension,
            decreases dimension - root,
        {
            proof {
                assert((root + 1) * (root + 1) <= dimension * dimension) by (nonlinear_arith)
                    requires
                        root < dimension,
                ;
                assert forall|b: nat| b < root + 1 implies #[trigger] (b * b) < dimension by {
                    assert(b * b <= root * root) by (nonlinear_arith)
                        requires
                            b <= root,
                    ;
                }
            }
            root += 1;
        }
        if root * root != dimension {
            proof {
                assert(root * root >= dimension) by (nonlinear_arith)
                    requires
                        root >= dimension || root * root >= dimension,
                        root >= 0,
                ;
                assert forall|b: nat| #[trigger] (b * b) != dimension by {
                    if b >= root {
                        assert(b * b >= root * root) by (nonlinear_arith)
                            requires
                                b >= root,
                        ;
                    }
                }
            }
            return Err(GridError::DimensionNotSquare);
        }
        let mut cells: Vec<DokuCell> = Vec::new();
        let mut i: usize = 0;
        while i < count
            invariant
                i <= count,
                cells.len() == i,
                forall|k: int| 0 <= k < i ==> cells[k].current_value == 0 && !cells[k].is_locked,
            decreases count - i,
        {
            cells.push(DokuCell::new());
            i += 1;
        }
        let grid = Sudoku { cells, dimension, box_size: root };
        proof {
            assert((root as nat) * (root as nat) == dimension as nat);
        }
        Ok(grid)
    }

    /// Loads a puzzle: takes the values of all cells from `board`, in
    /// row-major order, locks the cells that get a clue and unlocks the
    /// blanks. A board of the wrong length or with a value above the
    /// dimension is refused, and the grid stays as it was.
    pub fn load_board(&mut self, board: Vec<u32>) -> (loaded: Result<(), GridError>)
        requires
            old(self).wf(),
        ensures
            final(self).wf(),
            final(self)@.dim == old(self)@.dim,
            final(self)@.side == old(self)@.side,
            match loaded {
                Ok(()) => {
                    &&& board.len() == old(self)@.cells()
                    &&& forall|i: int|
                        #![trigger board[i]]
                        #![trigger final(self)@.values[i]]
                        #![trigger final(self)@.locked[i]]
                        0 <= i < board.len() ==> {
                            &&& board[i] <= old(self)@.dim
                            &&& final(self)@.values[i] == board[i]
                            &&& final(self)@.locked[i] == (board[i] != 0)
                        }
                    &&& final(self)@.blank_from(0)
                },
                Err(GridError::WrongLength) => {
                    &&& board.len() != old(self)@.cells()
                    &&& final(self)@ == old(self)@
                },
                Err(GridError::ValueOutOfRange) => {
                    &&& board.len() == old(self)@.cells()
                    &&& exists|i: int| 0 <= i < board.len() && #[trigger] board[i] > old(self)@.dim
                    &&& final(self)@ == old(self)@
                },
                Err(_) => false,
            },
    {
        if board.len() != self.cells.len() {
            return Err(GridError::WrongLength);
        }
        let mut cells: Vec<DokuCell> = Vec::new();
        let mut i: usize = 0;
        while i < board.len()
            invariant
                *self == *old(self),
                self.wf(),
                board.len() == self@.cells(),
                i <= board.len(),
                cells.len() == i,
                forall|k: int|
                    #![trigger cells[k]]
                    #![trigger board[k]]
                    0 <= k < i ==> {
                        &&& board[k] <= self.dimension
                        &&& cells[k].current_value == board[k]
                        &&& cells[k].is_locked == (board[k] != 0)
                    },
            decreases board.len() - i,
        {
            let value: u32 = board[i];
            if value as usize > self.dimension {
                return Err(GridError::ValueOutOfRange);
            }
            cells.push(DokuCell { current_value: value, is_locked: value != 0 });
            i += 1;
        }
        self.cells = cells;
        Ok(())
    }

    /// The number of cells in a row, and of rows.
    pub fn dimension(&self) -> (n: usize)
        ensures
            n == self@.dim,
    {
        self.dimension
    }

    /// The number of cells along one side of a box.
    pub fn box_size(&self) -> (b: usize)
        ensures
            b == self@.side,
    {
        self.box_size
    }

    /// The cell in column `x` of row `y`.
    pub fn cell_at(&self, x: usize, y: usize) -> (cell: &DokuCell)
        requires
            self.wf(),
            x < self@.dim,
            y < self@.dim,
        ensures
            cell.current_value == self@.values[index_of(self@.dim, x as int, y as int)],
            cell.is_locked == self@.locked[index_of(self@.dim, x as int, y as int)],
    {
        proof {
            lemma_index_of_coords(self@.dim, x as int, y as int);
        }
        let cell_index: usize = (y * self.dimension) + x;
        &self.cells[cell_index]
    }

    /// The value of the cell in column `x` of row `y`; 0 for a blank.
    pub fn value_at(&self, x: usize, y: usize) -> (v: u32)
        requires
            self.wf(),
            x < self@.dim,
            y < self@.dim,
        ensures
            v == self@.values[index_of(self@.dim, x as int, y as int)],
    {
        self.cell_at(x, y).current_value
    }

    /// Whether the cell in column `x` of row `y` is a clue.
    pub fn is_locked(&self, x: usize, y: usize) -> (locked: bool)
        requires
            self.wf(),
            x < self@.dim,
            y < self@.dim,
        ensures
            locked == self@.locked[index_of(self@.dim, x as int, y as int)],
    {
        self.cell_at(x, y).is_locked
    }

    /// Writes `v` into the unlocked cell in column `x` of row `y`; 0 blanks
    /// it. No other cell changes.
    pub fn set_value(&mut self, x: usize, y: usize, v: u32)
        requires
            old(self).wf(),
            x < old(self)@.dim,
            y < old(self)@.dim,
            v <= old(self)@.dim,
            !old(self)@.locked[index_of(old(self)@.dim, x as int, y as int)],
        ensures
            final(self).wf(),
            final(self)@ == old(self)@.put(index_of(old(self)@.dim, x as int, y as int), v as nat),
    {
        proof {
            lemma_index_of_coords(self@.dim, x as int, y as int);
        }
        let cell_index: usize = (y * self.dimension) + x;
        self.cells[cell_index].current_value = v;
        proof {
            let after = self@;
            let want = old(self)@.put(cell_index as int, v as nat);
            assert(after.values =~= want.values);
            assert(after.locked =~= want.locked);
        }
    }

    /// The column and the row of the cell with linear index `index`.
    pub fn get_coords(&self, index: usize) -> (coords: (usize, usize))
        requires
            self@.dim > 0,
        ensures
            coords.0 == col_of(self@.dim, index as int),
            coords.1 == row_of(self@.dim, index as int),
            index_of(self@.dim, coords.0 as int, coords.1 as int) == index,
            coords.0 < self@.dim,
            index < self@.cells() ==> coords.1 < self@.dim,
    {
        proof {
            let d = self.dimension as int;
            let q = index as int / d;
            let r = index as int % d;
            lemma_fundamental_div_mod(index as int, d);
            lemma_mod_pos_bound(index as int, d);
            assert(d * q == q * d) by (nonlinear_arith);
            lemma_fundamental_div_mod_converse(index - r, d, q, 0);
            if index < self@.cells() {
                lemma_coords_of_index(self@.dim, index as int);
            }
        }
        let x: usize = index % self.dimension;
        let y: usize = (index - x) / self.dimension;
        (x, y)
    }
}

} // verus!
