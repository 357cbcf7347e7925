//! Rows, columns and boxes as sequences of cells, and what a solved grid
//! holds in each of them.

use crate::board::Board;
use crate::layout::{col_of, index_of, lemma_index_of_coords, peers, row_of};
use vstd::arithmetic::div_mod::{
    lemma_fundamental_div_mod,
    lemma_fundamental_div_mod_converse,
    lemma_mod_pos_bound,
};
use vstd::prelude::*;
use vstd::seq_lib::seq_to_set_is_finite;
use vstd::set_lib::lemma_subset_equality;

verus! {

/// The cells of row `y`, from left to right.
pub open spec fn row_cells(dim: nat, y: int) -> Seq<int> {
    Seq::new(dim, |k: int| index_of(dim, k, y))
}

/// The cells of column `x`, from top to bottom.
pub open spec fn column_cells(dim: nat, x: int) -> Seq<int> {
    Seq::new(dim, |k: int| index_of(dim, x, k))
}

/// The cells of the box in box column `bx` and box row `by`, row by row.
pub open spec fn box_cells(dim: nat, side: nat, bx: int, by: int) -> Seq<int> {
    Seq::new(
        dim,
        |k: int| index_of(dim, bx * side + k % (side as int), by * side + k / (side as int)),
    )
}

/// The values `1, 2, .., dim`.
pub open spec fn all_values(dim: nat) -> Seq<nat> {
    Seq::new(dim, |k: int| (k + 1) as nat)
}

impl Board {
    /// The values that the cells `cells` hold, in their order.
    pub open spec fn values_in(self, cells: Seq<int>) -> Seq<nat> {
        Seq::new(cells.len(), |k: int| self.values[cells[k]])
    }
}

/// As many distinct values of `1..=n` as there are such values are all of
/// them, each once.
proof fn lemma_distinct_values_are_all(vals: Seq<nat>, n: nat)
    requires
        vals.len() == n,
        vals.no_duplicates(),
        forall|k: int| 0 <= k < n ==> 1 <= #[trigger] vals[k] <= n,
    ensures
        vals.to_multiset() == all_values(n).to_multiset(),
{
    let all = all_values(n);
    vals.unique_seq_to_set();
    all.unique_seq_to_set();
    seq_to_set_is_finite(vals);
    seq_to_set_is_finite(all);
    assert(vals.to_set().subset_of(all.to_set())) by {
        assert forall|v: nat| vals.to_set().contains(v) implies all.to_set().contains(v) by {
            let k = choose|k: int| 0 <= k < vals.len() && vals[k] == v;
            assert(1 <= vals[k] <= n);
            assert(all[v - 1] == v);
        }
    }
    lemma_subset_equality(vals.to_set(), all.to_set());
    vals.lemma_multiset_has_no_duplicates();
    all.lemma_multiset_has_no_duplicates();
    assert forall|v: nat| vals.to_multiset().count(v) == all.to_multiset().count(v) by {
        vstd::seq_lib::to_multiset_contains(vals, v);
        vstd::seq_lib::to_multiset_contains(all, v);
        assert(vals.contains(v) == vals.to_set().contains(v));
    }
    assert(vals.to_multiset() =~= all.to_multiset());
}

/// In a solved grid, `dim` cells that are peers of each other hold every
/// value of `1..=dim` exactly once.
proof fn lemma_solved_unit(board: Board, cells: Seq<int>)
    requires
        board.wf(),
        board.solved(),
        cells.len() == board.dim,
        forall|k: int| 0 <= k < cells.len() ==> 0 <= #[trigger] cells[k] < board.cells(),
        forall|k: int, l: int|
            0 <= k < cells.len() && 0 <= l < cells.len() && k != l
                ==> peers(board.dim, board.side, #[trigger] cells[k], #[trigger] cells[l]),
    ensures
        board.values_in(cells).to_multiset() == all_values(board.dim).to_multiset(),
{
    let vals = board.values_in(cells);
    assert forall|k: int| 0 <= k < board.dim implies 1 <= #[trigger] vals[k] <= board.dim by {
        assert(board.values[cells[k]] != 0);
    }
    assert forall|k: int, l: int|
        0 <= k < vals.len() && 0 <= l < vals.len() && k != l implies vals[k] != vals[l] by {
        assert(peers(board.dim, board.side, cells[k], cells[l]));
    }
    lemma_distinct_values_are_all(vals, board.dim);
}

/// Every row of a solved grid holds each value of `1..=dim` exactly once.
pub proof fn lemma_solved_row(board: Board, y: int)
    requires
        board.wf(),
        board.solved(),
        0 <= y < board.dim,
    ensures
        board.values_in(row_cells(board.dim, y)).to_multiset()
            == all_values(board.dim).to_multiset(),
{
    let cells = row_cells(board.dim, y);
    assert forall|k: int| 0 <= k < board.dim implies {
        &&& 0 <= #[trigger] cells[k] < board.cells()
        &&& row_of(board.dim, cells[k]) == y
        &&& col_of(board.dim, cells[k]) == k
    } by {
        lemma_index_of_coords(board.dim, k, y);
    }
    lemma_solved_unit(board, cells);
}

/// Every column of a solved grid holds each value of `1..=dim` exactly once.
pub proof fn lemma_solved_column(board: Board, x: int)
    requires
        board.wf(),
        board.solved(),
        0 <= x < board.dim,
    ensures
        board.values_in(column_cells(board.dim, x)).to_multiset()
            == all_values(board.dim).to_multiset(),
{
    let cells = column_cells(board.dim, x);
    assert forall|k: int| 0 <= k < board.dim implies {
        &&& 0 <= #[trigger] cells[k] < board.cells()
        &&& row_of(board.dim, cells[k]) == k
        &&& col_of(board.dim, cells[k]) == x
    } by {
        lemma_index_of_coords(board.dim, x, k);
    }
    lemma_solved_unit(board, cells);
}

/// Every box of a solved grid holds each value of `1..=dim` exactly once.
pub proof fn lemma_solved_box(board: Board, bx: int, by: int)
    requires
        board.wf(),
        board.solved(),
        0 <= bx < board.side,
        0 <= by < board.side,
    ensures
        board.values_in(box_cells(board.dim, board.side, bx, by)).to_multiset()
            == all_values(board.dim).to_multiset(),
{
    let dim = board.dim;
    let s = board.side as int;
    let cells = box_cells(dim, board.side, bx, by);
    assert forall|k: int| 0 <= k < dim implies {
        &&& 0 <= #[trigger] cells[k] < board.cells()
        &&& row_of(dim, cells[k]) == by * s + k / s
        &&& col_of(dim, cells[k]) == bx * s + k % s
        &&& (by * s + k / s) / s == by
        &&& (bx * s + k % s) / s == bx
        &&& 0 <= k % s < s
        &&& k == s * (k / s) + k % s
    } by {
        lemma_fundamental_div_mod(k, s);
        lemma_mod_pos_bound(k, s);
        let q = k / s;
        let r = k % s;
        assert(0 <= q < s) by (nonlinear_arith)
            requires
                0 <= k < s * s,
                k == s * q + r,
                0 <= r < s,
        ;
        assert(0 <= bx * s + r < s * s && 0 <= by * s + q < s * s) by (nonlinear_arith)
            requires
                0 <= bx < s,
                0 <= by < s,
                0 <= r < s,
                0 <= q < s,
        ;
        lemma_fundamental_div_mod_converse(bx * s + r, s, bx, r);
        lemma_fundamental_div_mod_converse(by * s + q, s, by, q);
        lemma_index_of_coords(dim, bx * s + r, by * s + q);
    }
    lemma_solved_unit(board, cells);
}

} // verus!
