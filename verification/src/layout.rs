//! The geometry of a grid: rows, columns, boxes, and which cells constrain
//! each other.
//!
//! A grid of dimension `dim` holds `dim * dim` cells in row-major order: the
//! cell in column `x` of row `y` has the linear index `y * dim + x`. Boxes are
//! squares of `side` by `side` cells, where `side * side == dim`.

use vstd::arithmetic::div_mod::{
    lemma_fundamental_div_mod,
    lemma_fundamental_div_mod_converse,
    lemma_mod_pos_bound,
};
use vstd::prelude::*;

verus! {

/// The row of the cell with linear index `i`.
pub open spec fn row_of(dim: nat, i: int) -> int {
    i / (dim as int)
}

/// The column of the cell with linear index `i`.
pub open spec fn col_of(dim: nat, i: int) -> int {
    i % (dim as int)
}

/// The linear index of the cell in column `x` of row `y`.
pub open spec fn index_of(dim: nat, x: int, y: int) -> int {
    y * (dim as int) + x
}

/// The first column (or row) of the box that holds column (or row) `x`.
pub open spec fn box_origin(side: nat, x: int) -> int {
    x / (side as int) * (side as int)
}

/// Two cells lie in the same box.
pub open spec fn same_box(dim: nat, side: nat, i: int, j: int) -> bool {
    &&& row_of(dim, i) / (side as int) == row_of(dim, j) / (side as int)
    &&& col_of(dim, i) / (side as int) == col_of(dim, j) / (side as int)
}

/// Two distinct cells that share a row, a column or a box: neither may hold
/// the value of the other.
pub open spec fn peers(dim: nat, side: nat, i: int, j: int) -> bool {
    &&& i != j
    &&& (row_of(dim, i) == row_of(dim, j) || col_of(dim, i) == col_of(dim, j)
        || same_box(dim, side, i, j))
}

/// A column and a row inside the grid name a cell inside the grid, and that
/// cell's row and column are the two again.
pub proof fn lemma_index_of_coords(dim: nat, x: int, y: int)
    requires
        0 <= x < dim,
        0 <= y < dim,
    ensures
        0 <= index_of(dim, x, y) < dim * dim,
        row_of(dim, index_of(dim, x, y)) == y,
        col_of(dim, index_of(dim, x, y)) == x,
{
    let d = dim as int;
    assert(0 <= y * d && y * d + d <= d * d) by (nonlinear_arith)
        requires
            0 <= y < d,
    ;
    lemma_fundamental_div_mod_converse(y * d + x, d, y, x);
}

/// A cell inside the grid has a row and a column inside the grid, and they
/// name that cell again.
pub proof fn lemma_coords_of_index(dim: nat, i: int)
    requires
        0 <= i < dim * dim,
    ensures
        0 <= row_of(dim, i) < dim,
        0 <= col_of(dim, i) < dim,
        index_of(dim, col_of(dim, i), row_of(dim, i)) == i,
{
    let d = dim as int;
    assert(d > 0) by (nonlinear_arith)
        requires
            0 <= i < d * d,
            d >= 0,
    ;
    lemma_fundamental_div_mod(i, d);
    lemma_mod_pos_bound(i, d);
    let q = i / d;
    let r = i % d;
    assert(d * q == q * d) by (nonlinear_arith);
    assert(0 <= q < d) by (nonlinear_arith)
        requires
            0 <= i < d * d,
            i == q * d + r,
            0 <= r < d,
    ;
}

/// The box that holds column (or row) `x` spans `side` columns from its
/// origin, lies inside the grid, and holds exactly the columns whose quotient
/// by `side` is that of `x`.
pub proof fn lemma_box_span(side: nat, x: int)
    requires
        0 <= x < side * side,
    ensures
        0 <= box_origin(side, x) <= x < box_origin(side, x) + side,
        box_origin(side, x) + side <= side * side,
        forall|x2: int|
            box_origin(side, x) <= x2 < box_origin(side, x) + side
                <==> 0 <= x2 && #[trigger] (x2 / (side as int)) == x / (side as int),
{
    let s = side as int;
    assert(s > 0) by (nonlinear_arith)
        requires
            0 <= x < s * s,
            s >= 0,
    ;
    lemma_fundamental_div_mod(x, s);
    lemma_mod_pos_bound(x, s);
    let q = x / s;
    assert(s * q == q * s) by (nonlinear_arith);
    assert(0 <= q < s && q * s + s <= s * s && 0 <= q * s) by (nonlinear_arith)
        requires
            0 <= x < s * s,
            x == q * s + x % s,
            0 <= x % s < s,
    ;
    assert forall|x2: int| q * s <= x2 < q * s + s <==> 0 <= x2 && #[trigger] (x2 / s) == q by {
        if q * s <= x2 < q * s + s {
            lemma_fundamental_div_mod_converse(x2, s, q, x2 - q * s);
        }
        if 0 <= x2 && x2 / s == q {
            lemma_fundamental_div_mod(x2, s);
            lemma_mod_pos_bound(x2, s);
        }
    }
}

} // verus!
