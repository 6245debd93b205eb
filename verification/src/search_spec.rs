use crate::direction::dir_at;
use crate::grid::{array_cells, cell_index, ByteArray2};
use crate::point::Point2d;
use vstd::prelude::*;

verus! {

/// `(x, y)` is a cell of the array.
pub open spec fn in_bounds(a: ByteArray2, x: int, y: int) -> bool {
    0 <= x < a.cols() && 0 <= y < a.rows()
}

/// `(x, y)` is a cell of the array holding 1, a cell a search may enter.
pub open spec fn is_open(a: ByteArray2, x: int, y: int) -> bool {
    in_bounds(a, x, y) && a.at(y, x) == 1
}

/// `(x, y)` is a cell of the array that is not on its outer frame, so all
/// eight of its neighbours are cells too.
pub open spec fn interior(a: ByteArray2, x: int, y: int) -> bool {
    1 <= x && x + 1 < a.cols() && 1 <= y && y + 1 < a.rows()
}


/// The array's cells number `rows * cols`, and each axis fits an `i32`.
pub open spec fn shape_fits(a: ByteArray2) -> bool {
    &&& array_cells(a).len() == a.rows() * a.cols()
    &&& a.rows() <= i32::MAX
    &&& a.cols() <= i32::MAX
}

/// The cell one step back from `(x, y)` against the direction with code `v`.
pub open spec fn back_x(v: u8, x: int) -> int {
    x - dir_at(v - 2).x
}

/// The row of the cell one step back from row `y` against code `v`.
pub open spec fn back_y(v: u8, y: int) -> int {
    y - dir_at(v - 2).y
}

/// Two points are distinct and differ by at most one in each coordinate.
pub open spec fn adjacent(a: Point2d, b: Point2d) -> bool {
    &&& a != b
    &&& -1 <= b.x - a.x <= 1
    &&& -1 <= b.y - a.y <= 1
}

/// `path` leads from `source` to `target` by unit moves through cells of the
/// grid, never visiting a cell twice.
pub open spec fn is_simple_walk(g: ByteArray2, source: Point2d, target: Point2d, path: Seq<Point2d>) -> bool {
    &&& path.len() >= 1
    &&& path[0] == source
    &&& path.last() == target
    &&& forall|i: int| 0 <= i < path.len() ==> in_bounds(g, #[trigger] path[i].x as int, path[i].y as int)
    &&& forall|i: int| 1 <= i < path.len() ==> adjacent(path[i - 1], #[trigger] path[i])
    &&& forall|i: int| 1 <= i < path.len() ==> #[trigger] path[i] != source
    &&& forall|i: int, j: int| #![trigger path[i], path[j]] 0 <= i < j < path.len() ==> path[i] != path[j]
}

/// `path` leads from `source` to `target` by unit moves through cells of the
/// grid, never visiting a cell twice; every cell after the second is open.
pub open spec fn is_grid_path(g: ByteArray2, source: Point2d, target: Point2d, path: Seq<Point2d>) -> bool {
    &&& is_simple_walk(g, source, target, path)
    &&& forall|i: int| 2 <= i < path.len() ==> is_open(g, #[trigger] path[i].x as int, path[i].y as int)
}

/// Number of zero bytes in a sequence.
pub open spec fn count_zeros(s: Seq<u8>) -> nat
    decreases s.len(),
{
    if s.len() == 0 {
        0
    } else {
        count_zeros(s.drop_last()) + if s.last() == 0 {
            1nat
        } else {
            0nat
        }
    }
}

/// Changing one byte changes the zero count by at most that byte.
pub proof fn lemma_count_zeros_update(s: Seq<u8>, i: int, v: u8)
    requires
        0 <= i < s.len(),
    ensures
        count_zeros(s.update(i, v)) == count_zeros(s) - (if s[i] == 0 {
            1int
        } else {
            0int
        }) + (if v == 0 {
            1int
        } else {
            0int
        }),
    decreases s.len(),
{
    let t = s.update(i, v);
    if i == s.len() - 1 {
        assert(t.drop_last() =~= s.drop_last());
    } else {
        assert(t.drop_last() =~= s.drop_last().update(i, v));
        lemma_count_zeros_update(s.drop_last(), i, v);
    }
}

/// A row-major position is a position of the array, and distinct cells have
/// distinct positions.
pub proof fn lemma_cell_index(rows: int, cols: int, r1: int, c1: int, r2: int, c2: int)
    requires
        0 <= r1 < rows,
        0 <= c1 < cols,
        0 <= r2 < rows,
        0 <= c2 < cols,
    ensures
        0 <= cell_index(r1, c1, cols) < rows * cols,
        (r1 != r2 || c1 != c2) ==> cell_index(r1, c1, cols) != cell_index(r2, c2, cols),
{
    assert(0 <= r1 * cols + c1 < rows * cols) by (nonlinear_arith)
        requires
            0 <= r1 < rows,
            0 <= c1 < cols,
    ;
    if r1 != r2 || c1 != c2 {
        if r1 < r2 {
            assert(r1 * cols + c1 < r2 * cols + c2) by (nonlinear_arith)
                requires
                    r1 < r2,
                    0 <= c1 < cols,
                    0 <= c2,
            ;
        } else if r2 < r1 {
            assert(r2 * cols + c2 < r1 * cols + c1) by (nonlinear_arith)
                requires
                    r2 < r1,
                    0 <= c2 < cols,
                    0 <= c1,
            ;
        }
    }
}

/// A sequence of zeros has as many zeros as elements.
pub proof fn lemma_count_zeros_all(n: nat)
    ensures
        count_zeros(Seq::new(n, |i: int| 0u8)) == n,
    decreases n,
{
    if n > 0 {
        assert(Seq::new(n, |i: int| 0u8).drop_last() =~= Seq::new((n - 1) as nat, |i: int| 0u8));
        lemma_count_zeros_all((n - 1) as nat);
    }
}

} // verus!
