//! The candidate values of a cell: what its row, its column and its box leave
//! over.

use crate::board::Board;
use crate::grid::Sudoku;
use crate::layout::{
    col_of,
    index_of,
    lemma_box_span,
    lemma_coords_of_index,
    lemma_index_of_coords,
    peers,
    row_of,
};
use vstd::prelude::*;

verus! {

/// Some cell of `seen` holds the value `v`.
spec fn held(board: Board, seen: Set<int>, v: nat) -> bool {
    exists|j: int| seen.contains(j) && #[trigger] board.values[j] == v
}

/// `taken` tells of every value up to the dimension whether a cell of `seen`
/// holds it.
spec fn marks(taken: Seq<bool>, board: Board, seen: Set<int>) -> bool {
    &&& taken.len() == board.dim + 1
    &&& forall|v: int| 0 <= v <= board.dim ==> (#[trigger] taken[v] <==> held(board, seen, v as nat))
}

/// Looking at one more cell adds its value to those held, and nothing else.
proof fn lemma_held_insert(board: Board, seen: Set<int>, j: int, v: nat)
    ensures
        held(board, seen.insert(j), v) <==> held(board, seen, v) || board.values[j] == v,
{
    if held(board, seen, v) {
        let k = choose|k: int| seen.contains(k) && #[trigger] board.values[k] == v;
        assert(seen.insert(j).contains(k));
    }
    if board.values[j] == v {
        assert(seen.insert(j).contains(j));
    }
}

/// When `seen` holds exactly the peers of cell `i`, a value fits the cell if
/// it lies in `1..=dim` and no cell of `seen` holds it, and only then.
proof fn lemma_fits_unless_held(board: Board, i: int, seen: Set<int>, v: nat)
    requires
        forall|j: int|
            seen.contains(j) <==> 0 <= j < board.cells() && peers(board.dim, board.side, i, j),
    ensures
        board.fits(i, v) <==> 1 <= v <= board.dim && !held(board, seen, v),
{
    if 1 <= v <= board.dim && !board.fits(i, v) {
        let j = choose|j: int|
            0 <= j < board.cells() && #[trigger] peers(board.dim, board.side, i, j)
                && board.values[j] == v;
        assert(seen.contains(j));
    }
}

/// Whether `v` occurs in `list`.
fn occurs(list: &Vec<u32>, v: u32) -> (found: bool)
    ensures
        found == list@.contains(v),
{
    let mut k: usize = 0;
    while k < list.len()
        invariant
            k <= list.len(),
            forall|a: int| 0 <= a < k ==> list[a] != v,
        decreases list.len() - k,
    {
        if list[k] == v {
            return true;
        }
        k += 1;
    }
    false
}

impl Sudoku {
    /// Marks in `taken` the value of the cell in column `x` of row `y`.
    fn mark_value_at(&self, x: usize, y: usize, taken: &mut Vec<bool>, Ghost(seen): Ghost<Set<int>>)
        requires
            self.wf(),
            x < self@.dim,
            y < self@.dim,
            marks(old(taken)@, self@, seen),
        ensures
            marks(final(taken)@, self@, seen.insert(index_of(self@.dim, x as int, y as int))),
    {
        proof {
            lemma_index_of_coords(self@.dim, x as int, y as int);
        }
        let value: u32 = self.value_at(x, y);
        taken.set(value as usize, true);
        proof {
            let j = index_of(self@.dim, x as int, y as int);
            assert forall|v: int| 0 <= v <= self@.dim
                implies (#[trigger] taken@[v] <==> held(self@, seen.insert(j), v as nat)) by {
                lemma_held_insert(self@, seen, j, v as nat);
            }
        }
    }

    /// The candidate values of the cell in column `x` of row `y`, in ascending
    /// order: every value of `1..=dimension` but those held by another cell of
    /// its row, of its column or of its box.
    #[verifier::loop_isolation(false)]
    pub fn gather_possible_values(&self, x: usize, y: usize) -> (out: Vec<u32>)
        requires
            self.wf(),
            x < self@.dim,
            y < self@.dim,
        ensures
            forall|k: int, l: int| 0 <= k < l < out.len() ==> out[k] < out[l],
            forall|v: u32|
                out@.contains(v) <==> self@.fits(index_of(self@.dim, x as int, y as int), v as nat),
    {
        let n: usize = self.dimension();
        let b: usize = self.box_size();
        let ghost board = self@;
        let ghost dim = board.dim;
        let ghost i = index_of(dim, x as int, y as int);
        proof {
            lemma_index_of_coords(dim, x as int, y as int);
            lemma_box_span(board.side, x as int);
            lemma_box_span(board.side, y as int);
            assert(n < usize::MAX && n <= u32::MAX) by (nonlinear_arith)
                requires
                    n * n <= usize::MAX,
                    2 <= usize::MAX <= u64::MAX,
            ;
            assert forall|j: int| 0 <= j < board.cells() implies {
                &&& 0 <= row_of(dim, j) < n
                &&& 0 <= col_of(dim, j) < n
                &&& j == index_of(dim, col_of(dim, j), row_of(dim, j))
            } by {
                lemma_coords_of_index(dim, j);
            }
        }
        let mut taken: Vec<bool> = Vec::new();
        let mut w: usize = 0;
        while w <= n
            invariant
                w <= n + 1,
                taken.len() == w,
                forall|k: int| 0 <= k < w ==> !taken[k],
            decreases n + 1 - w,
        {
            taken.push(false);
            w += 1;
        }
        let ghost mut seen: Set<int> = Set::empty();

        // the row
        let mut x2: usize = 0;
        while x2 < n
            invariant
                x2 <= n,
                marks(taken@, board, seen),
                forall|j: int|
                    seen.contains(j) <==> 0 <= j < board.cells() && j != i && row_of(dim, j) == y
                        && col_of(dim, j) < x2,
            decreases n - x2,
        {
            if x2 != x {
                self.mark_value_at(x2, y, &mut taken, Ghost(seen));
                proof {
                    lemma_index_of_coords(dim, x2 as int, y as int);
                    seen = seen.insert(index_of(dim, x2 as int, y as int));
                }
            }
            x2 += 1;
        }

        // the column
        let mut y2: usize = 0;
        while y2 < n
            invariant
                y2 <= n,
                marks(taken@, board, seen),
                forall|j: int|
                    seen.contains(j) <==> 0 <= j < board.cells() && j != i && (row_of(dim, j) == y
                        || (col_of(dim, j) == x && row_of(dim, j) < y2)),
            decreases n - y2,
        {
            if y2 != y {
                self.mark_value_at(x, y2, &mut taken, Ghost(seen));
                proof {
                    lemma_index_of_coords(dim, x as int, y2 as int);
                    seen = seen.insert(index_of(dim, x as int, y2 as int));
                }
            }
            y2 += 1;
        }

        // the box
        let x0: usize = x / b * b;
        let y0: usize = y / b * b;
        let mut dy: usize = 0;
        while dy < b
            invariant
                dy <= b,
                marks(taken@, board, seen),
                forall|j: int|
                    seen.contains(j) <==> 0 <= j < board.cells() && j != i && (row_of(dim, j) == y
                        || col_of(dim, j) == x || (x0 <= col_of(dim, j) < x0 + b
                        && y0 <= row_of(dim, j) < y0 + dy)),
            decreases b - dy,
        {
            let mut dx: usize = 0;
            while dx < b
                invariant
                    dy < b,
                    dx <= b,
                    marks(taken@, board, seen),
                    forall|j: int|
                        seen.contains(j) <==> 0 <= j < board.cells() && j != i && (row_of(dim, j)
                            == y || col_of(dim, j) == x || (x0 <= col_of(dim, j) < x0 + b
                            && (y0 <= row_of(dim, j) < y0 + dy || (row_of(dim, j) == y0 + dy
                            && col_of(dim, j) < x0 + dx)))),
                decreases b - dx,
            {
                if !(x0 + dx == x && y0 + dy == y) {
                    self.mark_value_at(x0 + dx, y0 + dy, &mut taken, Ghost(seen));
                    proof {
                        lemma_index_of_coords(dim, x0 + dx, y0 + dy);
                        seen = seen.insert(index_of(dim, x0 + dx, y0 + dy));
                    }
                }
                dx += 1;
            }
            dy += 1;
        }
        assert forall|j: int|
            seen.contains(j) <==> 0 <= j < board.cells() && peers(dim, board.side, i, j) by {}

        // what is left, smallest first
        let mut out: Vec<u32> = Vec::new();
        let mut w: usize = 1;
        while w <= n
            invariant
                1 <= w <= n + 1,
                forall|k: int, l: int| 0 <= k < l < out.len() ==> out[k] < out[l],
                forall|k: int| 0 <= k < out.len() ==> out[k] < w,
                forall|v: u32| out@.contains(v) <==> v < w && board.fits(i, v as nat),
            decreases n + 1 - w,
        {
            proof {
                lemma_fits_unless_held(board, i, seen, w as nat);
            }
            if !taken[w] {
                let ghost before = out@;
                out.push(w as u32);
                proof {
                    assert(out@[before.len() as int] == w as u32);
                    assert forall|v: u32|
                        out@.contains(v) <==> v < w + 1 && board.fits(i, v as nat) by {
                        if before.contains(v) {
                            let k = choose|k: int| 0 <= k < before.len() && before[k] == v;
                            assert(out@[k] == v);
                        }
                    }
                }
            }
            w += 1;
        }
        out
    }

    /// Whether no two peers hold the same value, blanks aside. After
    /// `load_board` that is: whether no two clues clash. The search does not
    /// ask this, so a caller that has the clues from elsewhere may.
    pub fn is_consistent(&self) -> (ok: bool)
        requires
            self.wf(),
        ensures
            ok == self@.consistent(),
    {
        let n: usize = self.dimension();
        let ghost board = self@;
        let mut index: usize = 0;
        while index < n * n
            invariant
                self.wf(),
                board == self@,
                n == board.dim,
                index <= n * n,
                forall|i: int|
                    0 <= i < index && board.values[i] != 0
                        ==> board.fits(i, #[trigger] board.values[i]),
            decreases n * n - index,
        {
            assert(n > 0) by (nonlinear_arith)
                requires
                    index < n * n,
            ;
            let (x, y) = self.get_coords(index);
            let value: u32 = self.value_at(x, y);
            if value != 0 {
                let candidates = self.gather_possible_values(x, y);
                if !occurs(&candidates, value) {
                    proof {
                        let j = choose|j: int|
                            0 <= j < board.cells()
                                && #[trigger] peers(board.dim, board.side, index as int, j)
                                && board.values[j] == value;
                        assert(board.values[index as int] == board.values[j]);
                    }
                    return false;
                }
            }
            index += 1;
        }
        proof {
            assert forall|i: int, j: int|
                0 <= i < board.cells() && 0 <= j < board.cells()
                    && #[trigger] peers(board.dim, board.side, i, j) && board.values[i] != 0
                implies board.values[i] != board.values[j] by {
                assert(board.fits(i, board.values[i]));
            }
        }
        true
    }
}

} // verus!
