//! A solver for Sudoku-family puzzles: square grids whose dimension is a
//! perfect square, with boxes of root-by-root cells.
//!
//! [`Sudoku`] is the grid. A puzzle is loaded with [`Sudoku::load_board`],
//! which locks the clues, and solved with [`Sudoku::solve`], a depth-first
//! search that fills the free cells in index order and tries the candidates of
//! each cell in ascending order.
//!
//! Every function carries a contract over [`Board`], the grid as a
//! mathematical value. `search` gives the outcome of the solver as a function
//! of the grid; `completion` proves what that outcome is in terms of the ways
//! to fill the grid; `units` proves what the rows, columns and boxes of a
//! solved grid hold.

pub mod board;
pub mod candidates;
pub mod completion;
pub mod grid;
pub mod layout;
pub mod search;
pub mod solver;
pub mod units;

pub use crate::board::Board;
pub use crate::grid::{DokuCell, GridError, Sudoku};
pub use crate::solver::Unsolvable;
