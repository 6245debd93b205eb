use crate::cost::{
    dist, estimate_value, euclid_fits, lemma_estimate_value, Heuristic, DIAGONAL_COST, STRAIGHT_COST,
};
use crate::direction::{dir_at, Direction};
use crate::grid::{array_cells, array_shape, cell_index, ByteArray2};
use crate::point::Point2d;
use crate::queue::{is_first_min, JumpPoint, JumpPointQueue};
use crate::search_spec::{
    adjacent, back_x, back_y, count_zeros, in_bounds, interior, is_grid_path, is_simple_walk,
    is_open, lemma_cell_index, lemma_count_zeros_all, lemma_count_zeros_update, shape_fits,
};
use vstd::prelude::*;

verus! {

/// Jump point search over a grid whose cells holding 1 are open.
///
/// `came_from_grid` has the grid's shape; a cell of it is 0 until the search
/// first enters the cell, and then holds the code of the direction it was
/// entered by, so that following codes backwards leads to the source.
pub struct PathFinder {
    pub grid: ByteArray2,
    pub heuristic: Heuristic,
    pub jump_points: JumpPointQueue,
    pub came_from_grid: ByteArray2,
    pub duplicate_checks: u64,
    /// When each cell was marked, counted in marking order.
    pub rank: Ghost<Seq<nat>>,
    /// The rank the next marked cell gets.
    pub next_rank: Ghost<nat>,
}

/// The search can estimate from any cell to any cell of `g` by `h` without
/// overflow.
pub open spec fn estimates_fit(g: ByteArray2, h: Heuristic) -> bool {
    h == Heuristic::Euclidean ==> (g.rows() - 1) * (g.rows() - 1) + (g.cols() - 1) * (g.cols() - 1)
        <= i32::MAX
}

/// The conditions under which a search from `source` to `target` over `g`
/// indexes only cells of the grid: the grid's axes fit an `i32`, the ends are
/// cells, and when both ends are non-zero the eight neighbours of the source
/// (where the search starts) are cells too and the estimate from every cell
/// to `target` fits.
pub open spec fn search_fits(g: ByteArray2, h: Heuristic, source: Point2d, target: Point2d) -> bool {
    &&& shape_fits(g)
    &&& in_bounds(g, source.x as int, source.y as int)
    &&& g.at(source.y as int, source.x as int) != 0 ==> in_bounds(g, target.x as int, target.y as int)
    &&& g.at(source.y as int, source.x as int) != 0 && g.at(target.y as int, target.x as int) != 0
        ==> {
        &&& interior(g, source.x as int, source.y as int)
        &&& estimable_to(g, h, target)
    }
}

/// Cells of `g` are within `i32` distance bounds of the straight-line estimate.
proof fn lemma_euclid_fits(g: ByteArray2, s: Point2d, t: Point2d)
    requires
        shape_fits(g),
        estimates_fit(g, Heuristic::Euclidean),
        in_bounds(g, s.x as int, s.y as int),
        in_bounds(g, t.x as int, t.y as int),
    ensures
        euclid_fits(s, t),
{
    let r = g.rows();
    let c = g.cols();
    assert((s.x - t.x) * (s.x - t.x) <= (c - 1) * (c - 1)) by (nonlinear_arith)
        requires
            0 <= s.x < c,
            0 <= t.x < c,
    ;
    assert((s.y - t.y) * (s.y - t.y) <= (r - 1) * (r - 1)) by (nonlinear_arith)
        requires
            0 <= s.y < r,
            0 <= t.y < r,
    ;
}

/// The squared distance from `(x, y)` to `t` fits an `i32`.
pub open spec fn sq_dist_fits(x: int, y: int, t: Point2d) -> bool {
    (x - t.x) * (x - t.x) + (y - t.y) * (y - t.y) <= i32::MAX
}

/// The coordinate distances from `(x, y)` to `t` add up within `usize`.
pub open spec fn sum_dist_fits(x: int, y: int, t: Point2d) -> bool {
    dist(x, t.x as int) + dist(y, t.y as int) <= usize::MAX
}

/// The estimate by `h` from every cell of `g` to `t` fits its integer
/// arithmetic: for the straight-line estimate `t`'s coordinates and the
/// squared distance from every cell fit an `i32`; for the Manhattan estimate
/// the distances from every cell add up within `usize`.
pub open spec fn estimable_to(g: ByteArray2, h: Heuristic, t: Point2d) -> bool {
    &&& h == Heuristic::Euclidean ==> {
        &&& t.x <= i32::MAX
        &&& t.y <= i32::MAX
        &&& forall|x: int, y: int| in_bounds(g, x, y) ==> #[trigger] sq_dist_fits(x, y, t)
    }
    &&& h == Heuristic::Manhattan ==> forall|x: int, y: int|
        in_bounds(g, x, y) ==> #[trigger] sum_dist_fits(x, y, t)
}

/// A target that is a cell of a grid whose estimates fit can be estimated
/// from every cell.
pub proof fn lemma_estimable(g: ByteArray2, h: Heuristic, t: Point2d)
    requires
        shape_fits(g),
        estimates_fit(g, h),
        in_bounds(g, t.x as int, t.y as int),
    ensures
        estimable_to(g, h, t),
{
    if h == Heuristic::Euclidean {
        assert forall|x: int, y: int| in_bounds(g, x, y) implies #[trigger] sq_dist_fits(x, y, t) by {
            lemma_euclid_fits(g, Point2d { x: x as usize, y: y as usize }, t);
        }
    }
    assert forall|x: int, y: int| in_bounds(g, x, y) implies #[trigger] sum_dist_fits(x, y, t) by {
        assert(dist(x, t.x as int) <= i32::MAX);
        assert(dist(y, t.y as int) <= i32::MAX);
    }
}

impl PathFinder {
    /// The mark of cell `(x, y)`: 0, or the code it was entered by.
    pub open spec fn mark(self, x: int, y: int) -> u8 {
        array_cells(self.came_from_grid)[cell_index(y, x, self.grid.cols())]
    }

    /// Whether cell `(x, y)` is marked; the same as a non-zero `mark`.
    pub open spec fn marked(self, x: int, y: int) -> bool {
        array_cells(self.came_from_grid)[cell_index(y, x, self.grid.cols())] != 0
    }

    /// When cell `(x, y)` was marked.
    pub open spec fn rank_at(self, x: int, y: int) -> nat {
        self.rank@[cell_index(y, x, self.grid.cols())]
    }

    /// A marked cell carries a direction code and steps back to a cell of
    /// the grid: either the source or a cell marked before it.
    pub open spec fn link_ok(self, source: Point2d, x: int, y: int) -> bool {
        let v = self.mark(x, y);
        let px = back_x(v, x);
        let py = back_y(v, y);
        &&& 2 <= v <= 9
        &&& in_bounds(self.grid, px, py)
        &&& (px == source.x && py == source.y) || (self.marked(px, py) && self.rank_at(px, py)
            < self.rank_at(x, y))
    }

    /// A marked cell links back towards the source, was marked before the
    /// next rank, and is open unless it steps back to the source.
    pub open spec fn mark_ok(self, source: Point2d, x: int, y: int) -> bool {
        let v = self.mark(x, y);
        let px = back_x(v, x);
        let py = back_y(v, y);
        &&& self.link_ok(source, x, y)
        &&& self.rank_at(x, y) < self.next_rank@
        &&& is_open(self.grid, x, y) || (px == source.x && py == source.y)
    }

    /// The marks can be walked back to `source` from any marked cell: the
    /// grid's axes fit an `i32`, the marks have the grid's shape, and each
    /// marked cell carries a direction code and steps back to a cell of the
    /// grid that is either the source or marked earlier.
    pub open spec fn chain_ok(self, source: Point2d) -> bool {
        &&& array_shape(self.came_from_grid) == array_shape(self.grid)
        &&& shape_fits(self.grid)
        &&& forall|x: int, y: int|
            #![trigger self.mark(x, y)]
            in_bounds(self.grid, x, y) && self.mark(x, y) != 0 ==> self.link_ok(source, x, y)
    }

    /// Every marked cell is open, unless it steps back to `source`.
    pub open spec fn marks_open(self, source: Point2d) -> bool {
        forall|x: int, y: int|
            #![trigger self.mark(x, y)]
            in_bounds(self.grid, x, y) && self.mark(x, y) != 0 ==> is_open(self.grid, x, y) || (
            back_x(self.mark(x, y), x) == source.x && back_y(self.mark(x, y), y) == source.y)
    }

    /// The invariant of a search implies that its marks can be walked back
    /// and are open.
    pub proof fn lemma_wf_chain(self, source: Point2d)
        requires
            self.wf(source),
        ensures
            self.chain_ok(source),
            self.marks_open(source),
    {
        assert forall|x: int, y: int|
            #![trigger self.mark(x, y)]
            in_bounds(self.grid, x, y) && self.mark(x, y) != 0 implies self.link_ok(source, x, y) by {
            assert(self.mark_ok(source, x, y));
        }
        assert forall|x: int, y: int|
            #![trigger self.mark(x, y)]
            in_bounds(self.grid, x, y) && self.mark(x, y) != 0 implies is_open(self.grid, x, y) || (
            back_x(self.mark(x, y), x) == source.x && back_y(self.mark(x, y), y) == source.y) by {
            assert(self.mark_ok(source, x, y));
        }
    }

    /// A queued jump point starts at a marked cell of the grid.
    pub open spec fn jp_ok(self, jp: JumpPoint) -> bool {
        &&& in_bounds(self.grid, jp.start.x as int, jp.start.y as int)
        &&& self.marked(jp.start.x as int, jp.start.y as int)
        &&& jp.direction.is_valid()
    }

    /// The invariant of a search from `source`.
    pub open spec fn wf(self, source: Point2d) -> bool {
        &&& array_shape(self.came_from_grid) == array_shape(self.grid)
        &&& shape_fits(self.grid)
        &&& array_cells(self.came_from_grid).len() == array_cells(self.grid).len()
        &&& interior(self.grid, source.x as int, source.y as int)
        &&& self.rank@.len() == array_cells(self.came_from_grid).len()
        &&& forall|x: int, y: int|
            #![trigger self.mark(x, y)]
            in_bounds(self.grid, x, y) && self.mark(x, y) != 0 ==> self.mark_ok(source, x, y)
        &&& forall|i: int|
            0 <= i < self.jump_points@.len() ==> self.jp_ok(#[trigger] self.jump_points@[i])
    }

    /// Cells not yet entered.
    pub open spec fn unvisited(self) -> nat {
        count_zeros(array_cells(self.came_from_grid))
    }

    /// Queued jump points plus twice the unvisited cells: each step of the
    /// search lowers it.
    pub open spec fn work_left(self) -> int {
        self.jump_points@.len() + 2 * self.unvisited() as int
    }

    /// Duplicate checks plus queued jump points plus four times the unvisited
    /// cells: no step of the search raises it, which bounds the counter.
    pub open spec fn budget_used(self) -> int {
        self.duplicate_checks + self.jump_points@.len() + 4 * self.unvisited()
    }

    /// A search state that has not started has used four units of budget
    /// per cell of its grid.
    pub proof fn lemma_fresh_budget(self)
        requires
            self.is_fresh(),
        ensures
            self.unvisited() == array_cells(self.grid).len(),
            self.budget_used() == 4 * array_cells(self.grid).len(),
    {
        lemma_count_zeros_all(array_cells(self.grid).len());
    }

    /// A search state that has not started: nothing marked, nothing queued.
    pub open spec fn is_fresh(self) -> bool {
        &&& self.is_unstarted()
        &&& self.duplicate_checks == 0
    }

    /// A search state with nothing marked and nothing queued (whatever its
    /// counter).
    pub open spec fn is_unstarted(self) -> bool {
        &&& array_shape(self.came_from_grid) == array_shape(self.grid)
        &&& array_cells(self.came_from_grid) == Seq::new(
            array_cells(self.grid).len(),
            |i: int| 0u8,
        )
        &&& self.rank@.len() == array_cells(self.grid).len()
        &&& self.jump_points@.len() == 0
    }

    /// A fresh search over `grid` guided by `heuristic`.
    pub fn new(grid: ByteArray2, heuristic: Heuristic) -> (pf: PathFinder)
        ensures
            pf.grid == grid,
            pf.heuristic == heuristic,
            pf.is_fresh(),
    {
        let shape = grid.dim();
        let came_from_grid = ByteArray2::zeros(shape);
        PathFinder {
            grid,
            heuristic,
            jump_points: JumpPointQueue::new(),
            came_from_grid,
            duplicate_checks: 0,
            rank: Ghost(Seq::new((shape.0 * shape.1) as nat, |i: int| 0nat)),
            next_rank: Ghost(0),
        }
    }

    /// Whether the grid holds 1 at `point`.
    pub fn is_in_grid(&self, point: Point2d) -> (b: bool)
        requires
            in_bounds(self.grid, point.x as int, point.y as int),
        ensures
            b == is_open(self.grid, point.x as int, point.y as int),
    {
        self.grid.get(point.y, point.x) == 1
    }

    /// The neighbour of `point` in `direction`, if it is open.
    /// A neighbour off the grid counts as blocked.
    pub fn new_point_in_grid(&self, point: &Point2d, direction: Direction) -> (r: Option<Point2d>)
        requires
            point.x <= i32::MAX,
            point.y <= i32::MAX,
            point.x + direction.x <= i32::MAX,
            point.y + direction.y <= i32::MAX,
        ensures
            r == (if is_open(
                self.grid,
                point.x + direction.x,
                point.y + direction.y,
            ) {
                Some(Point2d { x: (point.x + direction.x) as usize, y: (point.y + direction.y) as usize })
            } else {
                None
            }),
    {
        let nx = point.x as i64 + direction.x as i64;
        let ny = point.y as i64 + direction.y as i64;
        let (rows, cols) = self.grid.dim();
        if nx < 0 || ny < 0 {
            return None;
        }
        if nx as usize >= cols || ny as usize >= rows {
            return None;
        }
        let new_point = point.add_direction(direction);
        if self.is_in_grid(new_point) {
            return Some(new_point);
        }
        None
    }

    /// `self` is `prev` after `p` was marked with the code of `d` unless it
    /// was already marked, `already` telling whether it was: then nothing
    /// changes; else that cell gets the code and the next rank, and nothing
    /// else changes. Either way `p` ends up marked.
    pub open spec fn came_from_added(self, prev: PathFinder, p: Point2d, d: Direction, already: bool) -> bool {
        &&& self.grid == prev.grid
        &&& self.heuristic == prev.heuristic
        &&& self.jump_points == prev.jump_points
        &&& self.duplicate_checks == prev.duplicate_checks
        &&& array_shape(self.came_from_grid) == array_shape(prev.came_from_grid)
        &&& self.rank@.len() == prev.rank@.len()
        &&& already == prev.marked(p.x as int, p.y as int)
        &&& self.marked(p.x as int, p.y as int)
        &&& already ==> self.came_from_grid == prev.came_from_grid && self.rank == prev.rank
            && self.next_rank == prev.next_rank
        &&& !already ==> {
            let i = cell_index(p.y as int, p.x as int, prev.grid.cols());
            &&& array_cells(self.came_from_grid) == array_cells(prev.came_from_grid).update(
                i,
                d.code() as u8,
            )
            &&& self.rank@ == prev.rank@.update(i, prev.next_rank@)
            &&& self.next_rank@ == prev.next_rank@ + 1
        }
    }

    /// Marking a cell a second time finds it marked and changes nothing: the
    /// first mark of a cell is kept, whatever direction the second names.
    pub proof fn law_second_mark_kept(
        pf: PathFinder,
        mid: PathFinder,
        next: PathFinder,
        p: Point2d,
        d1: Direction,
        d2: Direction,
        first: bool,
        second: bool,
    )
        requires
            mid.came_from_added(pf, p, d1, first),
            next.came_from_added(mid, p, d2, second),
        ensures
            second,
            next == mid,
            next.mark(p.x as int, p.y as int) == mid.mark(p.x as int, p.y as int),
    {
    }

    /// Marks `p` as entered by direction `d` unless it is already marked;
    /// returns whether it was.
    pub fn add_came_from(&mut self, p: &Point2d, d: Direction) -> (already_visited: bool)
        requires
            in_bounds(old(self).came_from_grid, p.x as int, p.y as int),
            array_shape(old(self).came_from_grid) == array_shape(old(self).grid),
            old(self).rank@.len() == array_cells(old(self).came_from_grid).len(),
            array_cells(old(self).came_from_grid).len() == old(self).grid.rows() * old(
                self,
            ).grid.cols(),
            d.is_valid(),
        ensures
            final(self).came_from_added(*old(self), *p, d, already_visited),
    {
        proof {
            lemma_cell_index(
                self.grid.rows(),
                self.grid.cols(),
                p.y as int,
                p.x as int,
                p.y as int,
                p.x as int,
            );
        }
        if self.came_from_grid.get(p.y, p.x) == 0 {
            self.came_from_grid.set(p.y, p.x, d.to_value());
            let ghost i = cell_index(p.y as int, p.x as int, self.grid.cols());
            self.rank = Ghost(self.rank@.update(i, self.next_rank@));
            self.next_rank = Ghost(self.next_rank@ + 1);
            return false;
        }
        return true;
    }

    /// The direction from `source` towards `target`, each component the sign
    /// of the difference.
    pub fn get_direction(&self, source: Point2d, target: Point2d) -> (d: Direction)
        ensures
            d.x == (if target.x < source.x {
                -1int
            } else if target.x > source.x {
                1int
            } else {
                0int
            }),
            d.y == (if target.y < source.y {
                -1int
            } else if target.y > source.y {
                1int
            } else {
                0int
            }),
    {
        let mut x: i32 = 0;
        let mut y: i32 = 0;
        if target.x < source.x {
            x = -1;
        } else if target.x > source.x {
            x = 1;
        }
        if target.y < source.y {
            y = -1;
        } else if target.y > source.y {
            y = 1;
        }
        Direction { x, y }
    }
}

/// A valid direction is the direction at its own angle.
proof fn lemma_dir_at_angle(d: Direction)
    requires
        d.is_valid(),
    ensures
        dir_at(d.angle()) == d,
        dir_at(d.code() - 2) == d,
{
}

impl PathFinder {
    /// `self` continues the search state `prev`: the same grid and shapes,
    /// every mark of `prev` kept, and no more unvisited cells.
    pub open spec fn extends(self, prev: PathFinder) -> bool {
        &&& self.grid == prev.grid
        &&& self.heuristic == prev.heuristic
        &&& array_shape(self.came_from_grid) == array_shape(prev.came_from_grid)
        &&& forall|x: int, y: int|
            #![trigger self.mark(x, y)]
            in_bounds(prev.grid, x, y) && prev.mark(x, y) != 0 ==> self.mark(x, y) == prev.mark(
                x,
                y,
            )
        &&& self.unvisited() <= prev.unvisited()
    }

    /// Continuing a continuation continues the state it began from.
    proof fn lemma_extends_trans(c: PathFinder, b: PathFinder, a: PathFinder)
        requires
            c.extends(b),
            b.extends(a),
        ensures
            c.extends(a),
    {
        assert forall|x: int, y: int|
            #![trigger c.mark(x, y)]
            in_bounds(a.grid, x, y) && a.mark(x, y) != 0 implies c.mark(x, y) == a.mark(x, y) by {
            assert(b.mark(x, y) == a.mark(x, y));
        }
    }

    /// The invariant does not depend on the counter, and holds over any queue
    /// of jump points from marked cells; such a change continues the state.
    proof fn lemma_same_marks(a: PathFinder, b: PathFinder, source: Point2d)
        requires
            a.wf(source),
            b.grid == a.grid,
            b.heuristic == a.heuristic,
            b.came_from_grid == a.came_from_grid,
            b.rank == a.rank,
            b.next_rank == a.next_rank,
            forall|i: int| 0 <= i < b.jump_points@.len() ==> a.jp_ok(#[trigger] b.jump_points@[i]),
        ensures
            b.wf(source),
            b.extends(a),
            b.unvisited() == a.unvisited(),
    {
        assert forall|x: int, y: int|
            #![trigger b.mark(x, y)]
            in_bounds(b.grid, x, y) && b.mark(x, y) != 0 implies b.mark_ok(source, x, y) by {
            assert(a.mark(x, y) != 0);
            assert(a.mark_ok(source, x, y));
        }
        assert forall|i: int| 0 <= i < b.jump_points@.len() implies b.jp_ok(
            #[trigger] b.jump_points@[i],
        ) by {
            assert(a.jp_ok(b.jump_points@[i]));
        }
    }

    /// Marking an unmarked inner cell from a marked neighbour (or from the
    /// source) keeps the invariant, keeps every other mark, and leaves one
    /// cell fewer unvisited.
    proof fn lemma_mark_keeps_wf(
        prev: PathFinder,
        next: PathFinder,
        source: Point2d,
        x: int,
        y: int,
        d: Direction,
    )
        requires
            prev.wf(source),
            in_bounds(prev.grid, x, y),
            in_bounds(prev.grid, x - d.x, y - d.y),
            !prev.marked(x, y),
            d.is_valid(),
            (x - d.x == source.x && y - d.y == source.y) || prev.marked(x - d.x, y - d.y),
            is_open(prev.grid, x, y) || (x - d.x == source.x && y - d.y == source.y),
            next.grid == prev.grid,
            next.heuristic == prev.heuristic,
            forall|k: int|
                0 <= k < next.jump_points@.len() ==> prev.jp_ok(#[trigger] next.jump_points@[k]) || (
                next.jump_points@[k].start.x == x && next.jump_points@[k].start.y == y
                    && next.jump_points@[k].direction.is_valid()),
            array_shape(next.came_from_grid) == array_shape(prev.came_from_grid),
            array_cells(next.came_from_grid) == array_cells(prev.came_from_grid).update(
                cell_index(y, x, prev.grid.cols()),
                d.code() as u8,
            ),
            next.rank@ == prev.rank@.update(cell_index(y, x, prev.grid.cols()), prev.next_rank@),
            next.next_rank@ == prev.next_rank@ + 1,
        ensures
            next.wf(source),
            next.extends(prev),
            next.unvisited() + 1 == prev.unvisited(),
            next.mark(x, y) == d.code(),
            forall|a: int, b: int|
                #![trigger next.mark(a, b)]
                in_bounds(prev.grid, a, b) && (a != x || b != y) ==> next.mark(a, b) == prev.mark(
                    a,
                    b,
                ),
    {
        let g = prev.grid;
        let rows = g.rows();
        let cols = g.cols();
        let i = cell_index(y, x, cols);
        lemma_cell_index(rows, cols, y, x, y, x);
        lemma_dir_at_angle(d);
        lemma_count_zeros_update(array_cells(prev.came_from_grid), i, d.code() as u8);
        assert(next.mark(x, y) == d.code());
        assert forall|a: int, b: int|
            #![trigger next.mark(a, b)]
            in_bounds(g, a, b) && (a != x || b != y) implies next.mark(a, b) == prev.mark(a, b)
            && next.rank_at(a, b) == prev.rank_at(a, b) by {
            lemma_cell_index(rows, cols, b, a, y, x);
        }
        assert forall|a: int, b: int|
            #![trigger next.mark(a, b)]
            in_bounds(next.grid, a, b) && next.mark(a, b) != 0 implies next.mark_ok(
                source,
                a,
                b,
            ) by {
            if a == x && b == y {
                let px = x - d.x;
                let py = y - d.y;
                if !(px == source.x && py == source.y) {
                    assert(prev.mark(px, py) != 0);
                    assert(prev.mark_ok(source, px, py));
                    lemma_cell_index(rows, cols, py, px, y, x);
                    assert(next.mark(px, py) == prev.mark(px, py));
                }
            } else {
                assert(prev.mark(a, b) != 0);
                assert(prev.mark_ok(source, a, b));
                let v = prev.mark(a, b);
                let px = back_x(v, a);
                let py = back_y(v, b);
                if !(px == source.x && py == source.y) {
                    lemma_cell_index(rows, cols, py, px, y, x);
                    assert(next.mark(px, py) == prev.mark(px, py));
                }
            }
        }
        assert forall|k: int| 0 <= k < next.jump_points@.len() implies next.jp_ok(
            #[trigger] next.jump_points@[k],
        ) by {
            let jp = next.jump_points@[k];
            if prev.jp_ok(jp) {
                lemma_cell_index(rows, cols, jp.start.y as int, jp.start.x as int, y, x);
                assert(next.mark(jp.start.x as int, jp.start.y as int) == prev.mark(
                    jp.start.x as int,
                    jp.start.y as int,
                ));
            }
        }
    }
}

/// `a + b`, or `u64::MAX` when that does not fit.
pub open spec fn sat_add(a: int, b: int) -> int {
    if a + b > u64::MAX {
        u64::MAX as int
    } else {
        a + b
    }
}

/// The cost of one step in a direction: diagonal or straight.
pub open spec fn step_cost(d: Direction) -> int {
    if d.spec_is_diagonal() {
        DIAGONAL_COST as int
    } else {
        STRAIGHT_COST as int
    }
}

/// The cost to the start plus `count` steps priced by the direction the
/// search turns to next (a step in a diagonal direction costing the square
/// root of two), saturating at `u64::MAX`.
pub fn cost_after_walk(cost_to_start: u64, traversal_dir: Direction, count: u32) -> (c: u64)
    requires
        count <= i32::MAX,
        traversal_dir.is_valid(),
    ensures
        c == sat_add(cost_to_start as int, step_cost(traversal_dir) * count),
{
    assert(DIAGONAL_COST * count <= 0x20_0000_0000_0000u64) by (nonlinear_arith)
        requires
            count <= i32::MAX,
            DIAGONAL_COST == 1_414_214u64,
    ;
    if traversal_dir.is_diagonal() {
        cost_to_start.saturating_add(DIAGONAL_COST * (count as u64))
    } else {
        cost_to_start.saturating_add(STRAIGHT_COST * (count as u64))
    }
}

/// The jump point queued at a forced neighbour: its total estimate adds the
/// cost to reach it twice to the estimate of the rest, each sum saturating.
pub fn forced_jump_point(start: Point2d, direction: Direction, cost_to_start: u64, estimate: u64) -> (jp:
    JumpPoint)
    ensures
        jp.start == start,
        jp.direction == direction,
        jp.cost_to_start == cost_to_start,
        jp.total_cost_estimate == sat_add(
            cost_to_start as int,
            sat_add(cost_to_start as int, estimate as int),
        ),
{
    let new_total_cost_estimate = cost_to_start.saturating_add(estimate);
    JumpPoint {
        start,
        direction,
        cost_to_start,
        total_cost_estimate: cost_to_start.saturating_add(new_total_cost_estimate),
    }
}

/// The directions probed at each step of a traversal: for a diagonal
/// direction the two 135 degree turns (forced neighbours, continued by 90
/// degree turns) and the two 45 degree turns (straight continuations); for a
/// straight one the two 90 degree turns (continued diagonally).
pub open spec fn probe_list(direction: Direction) -> Seq<(Direction, Direction)> {
    if direction.spec_is_diagonal() {
        seq![
            (direction.turned(3), direction.turned(2)),
            (direction.turned(-3), direction.turned(-2)),
            (direction.turned(1), direction.turned(1)),
            (direction.turned(-1), direction.turned(-1)),
        ]
    } else {
        seq![(direction.turned(2), direction.turned(1)), (direction.turned(-2), direction.turned(-1))]
    }
}

/// Turning a valid direction gives a valid direction; turning by an odd
/// number of steps switches between diagonal and straight.
proof fn lemma_turned(d: Direction, k: int)
    requires
        d.is_valid(),
        -3 <= k <= 3,
    ensures
        d.turned(k).is_valid(),
        (k == 1 || k == -1 || k == 3 || k == -3) ==> d.turned(k).spec_is_diagonal()
            != d.spec_is_diagonal(),
        (k == 2 || k == -2) ==> d.turned(k).spec_is_diagonal() == d.spec_is_diagonal(),
{
}

/// `k` steps along a sign `s`: `k`, `-k` or 0.
pub open spec fn steps(s: int, k: int) -> int {
    if s > 0 {
        k
    } else if s < 0 {
        -k
    } else {
        0
    }
}

/// Column of the cell `k` steps from `start` in direction `d`.
pub open spec fn ray_x(start: Point2d, d: Direction, k: int) -> int {
    start.x + steps(d.x as int, k)
}

/// Row of the cell `k` steps from `start` in direction `d`.
pub open spec fn ray_y(start: Point2d, d: Direction, k: int) -> int {
    start.y + steps(d.y as int, k)
}

/// `a` lies strictly past `b` along the sign `s`, or equals `b` when `s` is 0.
pub open spec fn beyond(a: int, b: int, s: int) -> bool {
    if s > 0 {
        a > b
    } else if s < 0 {
        a < b
    } else {
        a == b
    }
}

/// The cells a walk from `start` in `d` may reach: for a straight direction
/// the cells ahead on its line, for a diagonal one the open quadrant ahead.
pub open spec fn in_region(start: Point2d, d: Direction, x: int, y: int) -> bool {
    beyond(x, start.x as int, d.x as int) && beyond(y, start.y as int, d.y as int)
}

/// The cell `k` steps from `start` in direction `d`.
pub open spec fn ray_point(start: Point2d, d: Direction, k: int) -> Point2d {
    Point2d { x: ray_x(start, d, k) as usize, y: ray_y(start, d, k) as usize }
}

/// The neighbour of the `k`-th cell of the line from `start` in `d` on the
/// side `d.turned(side)` is open.
pub open spec fn side_open(g: ByteArray2, start: Point2d, d: Direction, k: int, side: int) -> bool {
    is_open(
        g,
        ray_x(start, d, k) + d.turned(side).x,
        ray_y(start, d, k) + d.turned(side).y,
    )
}

/// A straight walk queues a jump point at its `k`-th cell turning by `turn`
/// (1 or -1) when the neighbour on that side (`2 * turn`) opens there after
/// being blocked at the cell before.
pub open spec fn opens_at(g: ByteArray2, start: Point2d, d: Direction, k: int, turn: int) -> bool {
    !side_open(g, start, d, k - 1, 2 * turn) && side_open(g, start, d, k, 2 * turn)
}

/// A diagonal walk queues a jump point at its `k`-th cell turning by
/// `2 * turn` (`turn` 1 or -1) when the neighbour behind it on that side
/// (`3 * turn`) opens there after being blocked at the cell before.
pub open spec fn opens_behind(g: ByteArray2, start: Point2d, d: Direction, k: int, turn: int) -> bool {
    !side_open(g, start, d, k - 1, 3 * turn) && side_open(g, start, d, k, 3 * turn)
}

/// The jump point a walk from `start` in `d`, begun at `cost`, queues at its
/// `k`-th cell turning by `turn`: its cost adds `k` steps priced by the new
/// direction, and its total estimate adds that cost twice to the estimate
/// from the cell to `target`, each sum saturating.
pub open spec fn forced_point(
    h: Heuristic,
    start: Point2d,
    d: Direction,
    target: Point2d,
    cost: u64,
    k: int,
    turn: int,
) -> JumpPoint {
    let c = ray_point(start, d, k);
    let t = d.turned(turn);
    let g = sat_add(cost as int, step_cost(t) * k);
    JumpPoint {
        start: c,
        direction: t,
        cost_to_start: g as u64,
        total_cost_estimate: sat_add(g, sat_add(g, estimate_value(h, c, target))) as u64,
    }
}

/// The jump points a straight walk queues at its `k`-th cell: turning
/// left, then right, each where its side opens.
pub open spec fn points_at(
    g: ByteArray2,
    h: Heuristic,
    start: Point2d,
    d: Direction,
    target: Point2d,
    cost: u64,
    k: int,
    turn: int,
) -> Seq<JumpPoint> {
    if opens_at(g, start, d, k, turn) {
        seq![forced_point(h, start, d, target, cost, k, turn)]
    } else {
        Seq::empty()
    }
}

/// The jump points a straight walk queues along its first `n` cells, in
/// order.
pub open spec fn straight_points(
    g: ByteArray2,
    h: Heuristic,
    start: Point2d,
    d: Direction,
    target: Point2d,
    cost: u64,
    n: int,
) -> Seq<JumpPoint>
    decreases n,
{
    if n <= 0 {
        Seq::empty()
    } else {
        straight_points(g, h, start, d, target, cost, n - 1) + points_at(
            g,
            h,
            start,
            d,
            target,
            cost,
            n,
            1,
        ) + points_at(g, h, start, d, target, cost, n, -1)
    }
}

impl PathFinder {
    /// The walk from `start` in `d` passes its `k`-th cell: open, unmarked
    /// in `self`, and not the target.
    pub open spec fn passes(self, start: Point2d, d: Direction, target: Point2d, k: int) -> bool {
        &&& is_open(self.grid, ray_x(start, d, k), ray_y(start, d, k))
        &&& self.ray_mark(start, d, k) == 0
        &&& !(ray_x(start, d, k) == target.x && ray_y(start, d, k) == target.y)
    }

    /// The walk from `start` in `d` passes exactly its first `n` cells.
    pub open spec fn passes_exactly(self, start: Point2d, d: Direction, target: Point2d, n: int) -> bool {
        &&& n >= 0
        &&& forall|k: int| #![trigger ray_x(start, d, k)] 1 <= k <= n ==> self.passes(start, d, target, k)
        &&& !self.passes(start, d, target, n + 1)
    }
}

impl PathFinder {
    /// The mark of the cell `k` steps from `start` in direction `d`.
    pub open spec fn ray_mark(self, start: Point2d, d: Direction, k: int) -> u8 {
        self.mark(ray_x(start, d, k), ray_y(start, d, k))
    }

    /// A walk from `start` in `d` towards `target` enters its `k`-th cell:
    /// every cell up to it is open, and every cell before it was unmarked and
    /// is not the target.
    pub open spec fn walk_reaches(self, start: Point2d, d: Direction, target: Point2d, k: int) -> bool {
        &&& k >= 1
        &&& forall|j: int|
            #![trigger ray_x(start, d, j)]
            1 <= j <= k ==> is_open(self.grid, ray_x(start, d, j), ray_y(start, d, j))
        &&& forall|j: int|
            #![trigger ray_x(start, d, j)]
            1 <= j < k ==> self.ray_mark(start, d, j) == 0 && !(ray_x(start, d, j) == target.x
                && ray_y(start, d, j) == target.y)
    }

    /// Along the line from `start` in `d`, `self` marks with the code of `d`
    /// exactly the cells of `prev` that the walk enters unmarked, and keeps
    /// the mark of every other cell on the line.
    pub open spec fn walk_result(self, prev: PathFinder, start: Point2d, d: Direction, target: Point2d) -> bool {
        forall|k: int|
            #![trigger self.ray_mark(start, d, k)]
            k >= 1 && in_bounds(prev.grid, ray_x(start, d, k), ray_y(start, d, k))
                ==> self.ray_mark(start, d, k) == (if prev.walk_reaches(start, d, target, k)
                && prev.ray_mark(start, d, k) == 0 {
                d.code() as u8
            } else {
                prev.ray_mark(start, d, k)
            })
    }

    /// No cell unmarked in `prev` outside the region of a walk from `start`
    /// in `d` is marked in `self`.
    pub open spec fn keeps_outside(self, prev: PathFinder, start: Point2d, d: Direction) -> bool {
        forall|x: int, y: int|
            #![trigger self.mark(x, y)]
            in_bounds(prev.grid, x, y) && prev.mark(x, y) == 0 && !in_region(start, d, x, y)
                ==> self.mark(x, y) == 0
    }

    /// The `j`-th cell of the line from `start` in `d` was entered by a walk
    /// from the state `prev`: it now carries the code of `d`, and in `prev`
    /// it was unmarked, open and not the target.
    pub open spec fn entered(self, prev: PathFinder, start: Point2d, d: Direction, target: Point2d, j: int) -> bool {
        &&& self.ray_mark(start, d, j) == d.code()
        &&& prev.ray_mark(start, d, j) == 0
        &&& is_open(prev.grid, ray_x(start, d, j), ray_y(start, d, j))
        &&& !(ray_x(start, d, j) == target.x && ray_y(start, d, j) == target.y)
    }

    /// The `k`-th cell of the line from `start` in `d` keeps its mark of
    /// `prev`, if it is a cell.
    pub open spec fn kept(self, prev: PathFinder, start: Point2d, d: Direction, k: int) -> bool {
        in_bounds(prev.grid, ray_x(start, d, k), ray_y(start, d, k)) ==> self.ray_mark(start, d, k)
            == prev.ray_mark(start, d, k)
    }

    /// The marks alone decide how far a walk has come.
    proof fn lemma_walk_same_marks(
        a: PathFinder,
        b: PathFinder,
        prev: PathFinder,
        start: Point2d,
        d: Direction,
        target: Point2d,
        n: int,
    )
        requires
            b.came_from_grid == a.came_from_grid,
            b.grid == a.grid,
            forall|j: int|
                #![trigger a.ray_mark(start, d, j)]
                1 <= j <= n ==> a.entered(prev, start, d, target, j),
            forall|k: int| #![trigger a.ray_mark(start, d, k)] k > n ==> a.kept(prev, start, d, k),
            a.keeps_outside(prev, start, d),
        ensures
            forall|j: int|
                #![trigger b.ray_mark(start, d, j)]
                1 <= j <= n ==> b.entered(prev, start, d, target, j),
            forall|k: int| #![trigger b.ray_mark(start, d, k)] k > n ==> b.kept(prev, start, d, k),
            b.keeps_outside(prev, start, d),
    {
        assert forall|j: int| #![trigger b.ray_mark(start, d, j)] 1 <= j <= n implies b.entered(
            prev,
            start,
            d,
            target,
            j,
        ) by {
            assert(a.ray_mark(start, d, j) == b.ray_mark(start, d, j));
        }
        assert forall|k: int| #![trigger b.ray_mark(start, d, k)] k > n implies b.kept(
            prev,
            start,
            d,
            k,
        ) by {
            assert(a.ray_mark(start, d, k) == b.ray_mark(start, d, k));
        }
        assert forall|x: int, y: int|
            #![trigger b.mark(x, y)]
            in_bounds(prev.grid, x, y) && prev.mark(x, y) == 0 && !in_region(start, d, x, y)
                implies b.mark(x, y) == 0 by {
            assert(a.mark(x, y) == b.mark(x, y));
        }
    }

    /// Entering the next cell of the line, unmarked and open, extends the
    /// cells entered by one unless it is the target, and keeps the rest.
    proof fn lemma_walk_step(
        a: PathFinder,
        b: PathFinder,
        prev: PathFinder,
        start: Point2d,
        d: Direction,
        target: Point2d,
        n: int,
    )
        requires
            d.is_valid(),
            n >= 0,
            forall|j: int|
                #![trigger a.ray_mark(start, d, j)]
                1 <= j <= n ==> a.entered(prev, start, d, target, j),
            forall|k: int| #![trigger a.ray_mark(start, d, k)] k > n ==> a.kept(prev, start, d, k),
            a.keeps_outside(prev, start, d),
            a.grid == prev.grid,
            b.grid == a.grid,
            is_open(prev.grid, ray_x(start, d, n + 1), ray_y(start, d, n + 1)),
            a.ray_mark(start, d, n + 1) == 0,
            b.ray_mark(start, d, n + 1) == d.code(),
            b.same_elsewhere(a, ray_x(start, d, n + 1), ray_y(start, d, n + 1)),
        ensures
            prev.ray_mark(start, d, n + 1) == 0,
            forall|j: int|
                #![trigger b.ray_mark(start, d, j)]
                1 <= j <= n ==> b.entered(prev, start, d, target, j),
            !(ray_x(start, d, n + 1) == target.x && ray_y(start, d, n + 1) == target.y) ==> forall|
                j: int,
            |
                #![trigger b.ray_mark(start, d, j)]
                1 <= j <= n + 1 ==> b.entered(prev, start, d, target, j),
            forall|k: int| #![trigger b.ray_mark(start, d, k)] k > n + 1 ==> b.kept(prev, start, d, k),
            b.keeps_outside(prev, start, d),
    {
        reveal(PathFinder::same_elsewhere);
        assert(a.kept(prev, start, d, n + 1));
        assert forall|j: int| #![trigger b.ray_mark(start, d, j)] 1 <= j <= n implies b.entered(
            prev,
            start,
            d,
            target,
            j,
        ) by {
            assert(a.entered(prev, start, d, target, j));
            assert(b.mark(ray_x(start, d, j), ray_y(start, d, j)) == a.mark(
                ray_x(start, d, j),
                ray_y(start, d, j),
            ));
        }
        if !(ray_x(start, d, n + 1) == target.x && ray_y(start, d, n + 1) == target.y) {
            assert forall|j: int| #![trigger b.ray_mark(start, d, j)] 1 <= j <= n + 1 implies b.entered(
                prev,
                start,
                d,
                target,
                j,
            ) by {
                if j <= n {
                    assert(a.entered(prev, start, d, target, j));
                    assert(b.mark(ray_x(start, d, j), ray_y(start, d, j)) == a.mark(
                        ray_x(start, d, j),
                        ray_y(start, d, j),
                    ));
                }
            }
        }
        assert forall|k: int| #![trigger b.ray_mark(start, d, k)] k > n + 1 implies b.kept(
            prev,
            start,
            d,
            k,
        ) by {
            assert(a.kept(prev, start, d, k));
            if in_bounds(prev.grid, ray_x(start, d, k), ray_y(start, d, k)) {
                assert(b.mark(ray_x(start, d, k), ray_y(start, d, k)) == a.mark(
                    ray_x(start, d, k),
                    ray_y(start, d, k),
                ));
            }
        }
        assert forall|x: int, y: int|
            #![trigger b.mark(x, y)]
            in_bounds(prev.grid, x, y) && prev.mark(x, y) == 0 && !in_region(start, d, x, y)
                implies b.mark(x, y) == 0 by {
            assert(a.mark(x, y) == 0);
        }
    }

    /// When a walk stops after entering `n` cells, at a wall, at a marked
    /// cell or on entering the target, its marks along the line are those
    /// `walk_result` states.
    proof fn lemma_walk_result(
        prev: PathFinder,
        next: PathFinder,
        start: Point2d,
        d: Direction,
        target: Point2d,
        n: int,
    )
        requires
            d.is_valid(),
            n >= 0,
            forall|j: int|
                #![trigger next.ray_mark(start, d, j)]
                1 <= j <= n ==> next.entered(prev, start, d, target, j),
            forall|k: int|
                #![trigger next.ray_mark(start, d, k)]
                k > n + 1 ==> next.kept(prev, start, d, k),
            ((!is_open(prev.grid, ray_x(start, d, n + 1), ray_y(start, d, n + 1))
                || prev.ray_mark(start, d, n + 1) != 0) && (in_bounds(
                prev.grid,
                ray_x(start, d, n + 1),
                ray_y(start, d, n + 1),
            ) ==> next.ray_mark(start, d, n + 1) == prev.ray_mark(start, d, n + 1))) || (ray_x(start, d, n + 1) == target.x
                && ray_y(start, d, n + 1) == target.y && is_open(
                prev.grid,
                ray_x(start, d, n + 1),
                ray_y(start, d, n + 1),
            ) && prev.ray_mark(start, d, n + 1) == 0 && next.ray_mark(start, d, n + 1)
                == d.code()),
        ensures
            next.walk_result(prev, start, d, target),
    {
        assert forall|k: int|
            #![trigger next.ray_mark(start, d, k)]
            k >= 1 && in_bounds(prev.grid, ray_x(start, d, k), ray_y(start, d, k)) implies next.ray_mark(
            start,
            d,
            k,
        ) == (if prev.walk_reaches(start, d, target, k) && prev.ray_mark(start, d, k) == 0 {
            d.code() as u8
        } else {
            prev.ray_mark(start, d, k)
        }) by {
            if k <= n + 1 {
                if k <= n || prev.ray_mark(start, d, n + 1) == 0 && is_open(
                    prev.grid,
                    ray_x(start, d, n + 1),
                    ray_y(start, d, n + 1),
                ) {
                    assert forall|j: int|
                        #![trigger ray_x(start, d, j)]
                        1 <= j <= k implies is_open(prev.grid, ray_x(start, d, j), ray_y(start, d, j)) by {
                        if j <= n {
                            assert(next.entered(prev, start, d, target, j));
                        }
                    }
                    assert forall|j: int|
                        #![trigger ray_x(start, d, j)]
                        1 <= j < k implies prev.ray_mark(start, d, j) == 0 && !(ray_x(start, d, j)
                            == target.x && ray_y(start, d, j) == target.y) by {
                        assert(next.entered(prev, start, d, target, j));
                    }
                    assert(prev.walk_reaches(start, d, target, k));
                    if k <= n {
                        assert(next.entered(prev, start, d, target, k));
                    }
                }
            } else {
                assert(next.kept(prev, start, d, k));
                assert(ray_x(start, d, n + 1) == ray_x(start, d, n + 1));
                assert(!prev.walk_reaches(start, d, target, k));
            }
        }
    }

    /// A walk turned 45 degrees off the line after `n >= 1` cells changes no
    /// cell of the line, and marks nothing outside the region of the line.
    proof fn lemma_side_walk_frame(
        before: PathFinder,
        after: PathFinder,
        prev: PathFinder,
        start: Point2d,
        d: Direction,
        target: Point2d,
        n: int,
        c: Point2d,
        h: Direction,
    )
        requires
            d.is_valid(),
            d.spec_is_diagonal(),
            n >= 1,
            (h.x == d.x && h.y == 0) || (h.x == 0 && h.y == d.y),
            c.x == ray_x(start, d, n),
            c.y == ray_y(start, d, n),
            before.grid == prev.grid,
            forall|j: int|
                #![trigger before.ray_mark(start, d, j)]
                1 <= j <= n ==> before.entered(prev, start, d, target, j),
            forall|k: int|
                #![trigger before.ray_mark(start, d, k)]
                k > n ==> before.kept(prev, start, d, k),
            before.keeps_outside(prev, start, d),
            after.extends(before),
            after.keeps_outside(before, c, h),
        ensures
            forall|j: int|
                #![trigger after.ray_mark(start, d, j)]
                1 <= j <= n ==> after.entered(prev, start, d, target, j),
            forall|k: int| #![trigger after.ray_mark(start, d, k)] k > n ==> after.kept(prev, start, d, k),
            after.keeps_outside(prev, start, d),
    {
        assert forall|j: int| #![trigger after.ray_mark(start, d, j)] 1 <= j <= n implies after.entered(
            prev,
            start,
            d,
            target,
            j,
        ) by {
            assert(before.entered(prev, start, d, target, j));
            assert(after.mark(ray_x(start, d, j), ray_y(start, d, j)) == before.mark(
                ray_x(start, d, j),
                ray_y(start, d, j),
            ));
        }
        assert forall|k: int| #![trigger after.ray_mark(start, d, k)] k > n implies after.kept(
            prev,
            start,
            d,
            k,
        ) by {
            assert(before.kept(prev, start, d, k));
            let x = ray_x(start, d, k);
            let y = ray_y(start, d, k);
            if in_bounds(prev.grid, x, y) {
                assert(!in_region(c, h, x, y));
                if before.mark(x, y) != 0 {
                    assert(after.mark(x, y) == before.mark(x, y));
                } else {
                    assert(after.mark(x, y) == 0);
                }
            }
        }
        assert forall|x: int, y: int|
            #![trigger after.mark(x, y)]
            in_bounds(prev.grid, x, y) && prev.mark(x, y) == 0 && !in_region(start, d, x, y)
                implies after.mark(x, y) == 0 by {
            assert(before.mark(x, y) == 0);
            assert(!in_region(c, h, x, y));
        }
    }
}

impl PathFinder {
    /// The arrays of a search state agree: the marks (and their ranks) have
    /// the grid's shape, whose axes fit an `i32`.
    pub open spec fn shapes_agree(self) -> bool {
        &&& array_shape(self.came_from_grid) == array_shape(self.grid)
        &&& shape_fits(self.grid)
        &&& array_cells(self.came_from_grid).len() == array_cells(self.grid).len()
        &&& self.rank@.len() == array_cells(self.came_from_grid).len()
    }

    /// Cell `(x, y)` is marked in `self` but not in `prev`.
    pub open spec fn newly_marked(self, prev: PathFinder, x: int, y: int) -> bool {
        in_bounds(self.grid, x, y) && prev.mark(x, y) == 0 && self.mark(x, y) != 0
    }

    /// A cell newly marked since `prev` is open, carries a direction code,
    /// was marked after every mark of `prev`, and steps back either to
    /// `start` or to a cell newly marked before it.
    pub open spec fn new_link(self, prev: PathFinder, start: Point2d, x: int, y: int) -> bool {
        let v = self.mark(x, y);
        let px = back_x(v, x);
        let py = back_y(v, y);
        &&& 2 <= v <= 9
        &&& is_open(self.grid, x, y)
        &&& prev.next_rank@ <= self.rank_at(x, y) < self.next_rank@
        &&& (px == start.x && py == start.y) || (self.newly_marked(prev, px, py) && self.rank_at(
            px,
            py,
        ) < self.rank_at(x, y))
    }

    /// Every cell marked since `prev` leads back, through cells marked since
    /// `prev` in strictly decreasing marking order, to `start`; the cells
    /// marked in `prev` keep their place in the marking order.
    #[verifier::opaque]
    pub open spec fn chains_to(self, prev: PathFinder, start: Point2d) -> bool {
        &&& forall|x: int, y: int|
            #![trigger self.mark(x, y)]
            self.newly_marked(prev, x, y) ==> self.new_link(prev, start, x, y)
        &&& forall|x: int, y: int|
            #![trigger self.rank_at(x, y)]
            in_bounds(prev.grid, x, y) && prev.mark(x, y) != 0 ==> self.rank_at(x, y) == prev.rank_at(
                x,
                y,
            )
        &&& prev.next_rank@ <= self.next_rank@
    }

    /// Every jump point queued since `prev` (past the length of its queue)
    /// starts at a cell newly marked since `prev` that is not `target`, and
    /// turns in a diagonal direction.
    #[verifier::opaque]
    pub open spec fn new_points_ok(self, prev: PathFinder, target: Point2d) -> bool {
        forall|i: int|
            prev.jump_points@.len() <= i < self.jump_points@.len() ==> {
                &&& self.newly_marked(
                    prev,
                    (#[trigger] self.jump_points@[i]).start.x as int,
                    self.jump_points@[i].start.y as int,
                )
                &&& self.jump_points@[i].start != target
                &&& self.jump_points@[i].direction.is_valid()
                &&& self.jump_points@[i].direction.spec_is_diagonal()
            }
    }

    /// A state with nothing new since itself chains trivially.
    proof fn lemma_chains_refl(a: PathFinder, start: Point2d, target: Point2d)
        ensures
            a.chains_to(a, start),
            a.new_points_ok(a, target),
    {
        reveal(PathFinder::chains_to);
        reveal(PathFinder::new_points_ok);
    }

    /// Changing only the queue or the counter keeps what a walk has marked.
    proof fn lemma_chains_same_marks(
        a: PathFinder,
        b: PathFinder,
        prev: PathFinder,
        start: Point2d,
        target: Point2d,
    )
        requires
            a.chains_to(prev, start),
            a.new_points_ok(prev, target),
            a.extends(prev),
            prev.jump_points@.len() <= a.jump_points@.len(),
            b.jump_points@.len() == a.jump_points@.len() || b.jump_points@.len() == a.jump_points@.len()
                + 1,
            forall|i: int| 0 <= i < a.jump_points@.len() ==> b.jump_points@[i] == a.jump_points@[i],
            b.jump_points@.len() == a.jump_points@.len() + 1 ==> {
                let jp = b.jump_points@.last();
                &&& a.newly_marked(prev, jp.start.x as int, jp.start.y as int)
                &&& jp.start != target
                &&& jp.direction.is_valid()
                &&& jp.direction.spec_is_diagonal()
            },
            b.came_from_grid == a.came_from_grid,
            b.rank == a.rank,
            b.next_rank == a.next_rank,
            b.grid == a.grid,
            b.heuristic == a.heuristic,
        ensures
            b.chains_to(prev, start),
            b.new_points_ok(prev, target),
            b.extends(prev),
            forall|x: int, y: int|
                #![trigger b.mark(x, y)]
                a.newly_marked(prev, x, y) ==> b.newly_marked(prev, x, y),
    {
        reveal(PathFinder::chains_to);
        reveal(PathFinder::new_points_ok);
        assert forall|x: int, y: int|
            #![trigger b.mark(x, y)]
            b.newly_marked(prev, x, y) implies b.new_link(prev, start, x, y) by {
            assert(a.mark(x, y) == b.mark(x, y));
            assert(a.new_link(prev, start, x, y));
            let v = a.mark(x, y);
            assert(a.mark(back_x(v, x), back_y(v, y)) == b.mark(back_x(v, x), back_y(v, y)));
        }
        assert forall|x: int, y: int|
            #![trigger b.rank_at(x, y)]
            in_bounds(prev.grid, x, y) && prev.mark(x, y) != 0 implies b.rank_at(x, y) == prev.rank_at(
                x,
                y,
            ) by {
            assert(a.rank_at(x, y) == b.rank_at(x, y));
        }
        assert forall|x: int, y: int|
            #![trigger b.mark(x, y)]
            in_bounds(prev.grid, x, y) && prev.mark(x, y) != 0 implies b.mark(x, y) == prev.mark(x, y) by {
            assert(a.mark(x, y) == b.mark(x, y));
        }
        assert forall|x: int, y: int|
            #![trigger b.mark(x, y)]
            a.newly_marked(prev, x, y) implies b.newly_marked(prev, x, y) by {
            assert(a.mark(x, y) == b.mark(x, y));
        }
        assert forall|i: int|
            prev.jump_points@.len() <= i < b.jump_points@.len() implies b.newly_marked(
                prev,
                (#[trigger] b.jump_points@[i]).start.x as int,
                b.jump_points@[i].start.y as int,
            ) && b.jump_points@[i].start != target && b.jump_points@[i].direction.is_valid()
                && b.jump_points@[i].direction.spec_is_diagonal() by {
            let jp = b.jump_points@[i];
            if i < a.jump_points@.len() {
                assert(jp == a.jump_points@[i]);
            }
            assert(a.newly_marked(prev, jp.start.x as int, jp.start.y as int));
            assert(a.mark(jp.start.x as int, jp.start.y as int) == b.mark(
                jp.start.x as int,
                jp.start.y as int,
            ));
        }
    }

    /// `self` has the marks and ranks of `prev` at every cell of the grid
    /// other than `(x, y)`.
    #[verifier::opaque]
    closed spec fn same_elsewhere(self, prev: PathFinder, x: int, y: int) -> bool {
        forall|p: int, q: int|
            #![trigger self.mark(p, q)]
            in_bounds(prev.grid, p, q) && (p != x || q != y) ==> self.mark(p, q) == prev.mark(p, q)
                && self.rank_at(p, q) == prev.rank_at(p, q)
    }

    /// Marking the `k`-th cell of a walk from `start` in `d` with its code,
    /// and nothing else, is entering that cell.
    proof fn lemma_entered_from(prev: PathFinder, next: PathFinder, start: Point2d, d: Direction, k: int)
        requires
            next.same_elsewhere(prev, ray_x(start, d, k), ray_y(start, d, k)),
            next.mark(ray_x(start, d, k), ray_y(start, d, k)) == d.code(),
            next.grid == prev.grid,
            next.heuristic == prev.heuristic,
            next.jump_points@ == prev.jump_points@,
            next.duplicate_checks == prev.duplicate_checks,
        ensures
            next.entered_from(prev, start, d, k),
    {
        reveal(PathFinder::same_elsewhere);
    }

    /// Marking an unmarked cell of the grid with code `d`: that cell gets the
    /// next rank, every other cell keeps its mark and rank, one cell fewer
    /// is unvisited, and the arrays still agree.
    #[verifier::spinoff_prover]
    proof fn lemma_mark_cell(prev: PathFinder, next: PathFinder, x: int, y: int, d: Direction)
        requires
            prev.shapes_agree(),
            in_bounds(prev.grid, x, y),
            !prev.marked(x, y),
            d.is_valid(),
            next.grid == prev.grid,
            next.heuristic == prev.heuristic,
            array_shape(next.came_from_grid) == array_shape(prev.came_from_grid),
            array_cells(next.came_from_grid) == array_cells(prev.came_from_grid).update(
                cell_index(y, x, prev.grid.cols()),
                d.code() as u8,
            ),
            next.rank@ == prev.rank@.update(cell_index(y, x, prev.grid.cols()), prev.next_rank@),
            next.next_rank@ == prev.next_rank@ + 1,
        ensures
            next.shapes_agree(),
            next.extends(prev),
            next.mark(x, y) == d.code(),
            next.rank_at(x, y) == prev.next_rank@,
            next.unvisited() + 1 == prev.unvisited(),
            next.same_elsewhere(prev, x, y),
    {
        reveal(PathFinder::same_elsewhere);
        let rows = prev.grid.rows();
        let cols = prev.grid.cols();
        let i = cell_index(y, x, cols);
        lemma_cell_index(rows, cols, y, x, y, x);
        lemma_dir_at_angle(d);
        lemma_count_zeros_update(array_cells(prev.came_from_grid), i, d.code() as u8);
        assert forall|p: int, q: int|
            #![trigger next.mark(p, q)]
            in_bounds(prev.grid, p, q) && (p != x || q != y) implies next.mark(p, q) == prev.mark(p, q)
            && next.rank_at(p, q) == prev.rank_at(p, q) by {
            lemma_cell_index(rows, cols, q, p, y, x);
        }
        assert(next.same_elsewhere(prev, x, y));
        assert forall|p: int, q: int|
            #![trigger next.mark(p, q)]
            in_bounds(prev.grid, p, q) && prev.mark(p, q) != 0 implies next.mark(p, q) == prev.mark(p, q) by {
            lemma_cell_index(rows, cols, q, p, y, x);
        }
    }

    /// A walk that enters cell `(x, y)` from `(x - d.x, y - d.y)`, the walk's
    /// start or a cell it marked, keeps its chain back to the start, its
    /// new jump points, and continues `prev`.
    proof fn lemma_chain_step(
        pf0: PathFinder,
        a: PathFinder,
        b: PathFinder,
        start: Point2d,
        target: Point2d,
        x: int,
        y: int,
        d: Direction,
    )
        requires
            a.chains_to(pf0, start),
            a.new_points_ok(pf0, target),
            a.extends(pf0),
            a.shapes_agree(),
            in_bounds(a.grid, x, y),
            is_open(a.grid, x, y),
            !a.marked(x, y),
            d.is_valid(),
            (x - d.x == start.x && y - d.y == start.y) || a.newly_marked(pf0, x - d.x, y - d.y),
            b.grid == a.grid,
            b.heuristic == a.heuristic,
            b.jump_points == a.jump_points,
            array_shape(b.came_from_grid) == array_shape(a.came_from_grid),
            b.mark(x, y) == d.code(),
            b.rank_at(x, y) == a.next_rank@,
            b.next_rank@ == a.next_rank@ + 1,
            b.unvisited() + 1 == a.unvisited(),
            b.same_elsewhere(a, x, y),
        ensures
            b.chains_to(pf0, start),
            b.new_points_ok(pf0, target),
            b.extends(pf0),
            b.newly_marked(pf0, x, y),
    {
        reveal(PathFinder::same_elsewhere);
        reveal(PathFinder::chains_to);
        reveal(PathFinder::new_points_ok);
        lemma_dir_at_angle(d);
        assert(a.mark(x, y) == 0);
        assert(pf0.mark(x, y) == 0);
        assert forall|p: int, q: int|
            #![trigger b.mark(p, q)]
            b.newly_marked(pf0, p, q) implies b.new_link(pf0, start, p, q) by {
            if p == x && q == y {
                if !(x - d.x == start.x && y - d.y == start.y) {
                    assert(a.new_link(pf0, start, x - d.x, y - d.y));
                    assert(b.mark(x - d.x, y - d.y) == a.mark(x - d.x, y - d.y));
                }
            } else {
                assert(b.mark(p, q) == a.mark(p, q));
                assert(a.new_link(pf0, start, p, q));
                let v = a.mark(p, q);
                let px = back_x(v, p);
                let py = back_y(v, q);
                if !(px == start.x && py == start.y) {
                    assert(a.mark(px, py) != 0);
                    assert(b.mark(px, py) == a.mark(px, py));
                }
            }
        }
        assert forall|p: int, q: int|
            #![trigger b.rank_at(p, q)]
            in_bounds(pf0.grid, p, q) && pf0.mark(p, q) != 0 implies b.rank_at(p, q) == pf0.rank_at(
                p,
                q,
            ) by {
            assert(a.mark(p, q) == pf0.mark(p, q));
            assert(p != x || q != y);
            assert(a.rank_at(p, q) == pf0.rank_at(p, q));
            assert(b.mark(p, q) == a.mark(p, q));
            assert(b.rank_at(p, q) == a.rank_at(p, q));
        }
        assert forall|i: int|
            pf0.jump_points@.len() <= i < b.jump_points@.len() implies b.newly_marked(
                pf0,
                (#[trigger] b.jump_points@[i]).start.x as int,
                b.jump_points@[i].start.y as int,
            ) by {
            let jp = a.jump_points@[i];
            assert(a.newly_marked(pf0, jp.start.x as int, jp.start.y as int));
            assert(b.mark(jp.start.x as int, jp.start.y as int) != 0);
        }
        assert forall|p: int, q: int|
            #![trigger b.mark(p, q)]
            in_bounds(pf0.grid, p, q) && pf0.mark(p, q) != 0 implies b.mark(p, q) == pf0.mark(p, q) by {
            assert(a.mark(p, q) == pf0.mark(p, q));
        }
    }

    /// A walk turned off the line at a cell `c` marked since `pf0` (or at
    /// `start`), chaining back to `c`, chains back to `start`.
    proof fn lemma_chain_side_walk(
        pf0: PathFinder,
        before: PathFinder,
        after: PathFinder,
        start: Point2d,
        target: Point2d,
        c: Point2d,
    )
        requires
            before.chains_to(pf0, start),
            before.new_points_ok(pf0, target),
            before.extends(pf0),
            after.chains_to(before, c),
            after.new_points_ok(before, target),
            after.extends(before),
            before.jump_points@.is_prefix_of(after.jump_points@),
            before.newly_marked(pf0, c.x as int, c.y as int),
        ensures
            after.chains_to(pf0, start),
            after.new_points_ok(pf0, target),
    {
        reveal(PathFinder::chains_to);
        reveal(PathFinder::new_points_ok);
        assert forall|x: int, y: int|
            #![trigger after.mark(x, y)]
            after.newly_marked(pf0, x, y) implies after.new_link(pf0, start, x, y) by {
            if before.mark(x, y) != 0 {
                assert(after.mark(x, y) == before.mark(x, y));
                assert(before.new_link(pf0, start, x, y));
                let v = before.mark(x, y);
                let px = back_x(v, x);
                let py = back_y(v, y);
                if !(px == start.x && py == start.y) {
                    assert(after.mark(px, py) == before.mark(px, py));
                }
            } else {
                assert(after.new_link(before, c, x, y));
                let v = after.mark(x, y);
                let px = back_x(v, x);
                let py = back_y(v, y);
                if px == c.x && py == c.y {
                    assert(before.new_link(pf0, start, px, py));
                    assert(after.mark(px, py) == before.mark(px, py));
                } else {
                    assert(after.newly_marked(before, px, py));
                    if pf0.mark(px, py) != 0 {
                        assert(before.mark(px, py) == pf0.mark(px, py));
                    }
                }
            }
        }
        assert forall|x: int, y: int|
            #![trigger after.rank_at(x, y)]
            in_bounds(pf0.grid, x, y) && pf0.mark(x, y) != 0 implies after.rank_at(x, y) == pf0.rank_at(
                x,
                y,
            ) by {
            assert(before.mark(x, y) == pf0.mark(x, y));
            assert(after.mark(x, y) == before.mark(x, y));
        }
        assert forall|i: int|
            pf0.jump_points@.len() <= i < after.jump_points@.len() implies after.newly_marked(
                pf0,
                (#[trigger] after.jump_points@[i]).start.x as int,
                after.jump_points@[i].start.y as int,
            ) && after.jump_points@[i].start != target && after.jump_points@[i].direction.is_valid()
                && after.jump_points@[i].direction.spec_is_diagonal() by {
            let jp = after.jump_points@[i];
            if i < before.jump_points@.len() {
                assert(jp == before.jump_points@[i]);
                assert(before.newly_marked(pf0, jp.start.x as int, jp.start.y as int));
                assert(after.mark(jp.start.x as int, jp.start.y as int) == before.mark(
                    jp.start.x as int,
                    jp.start.y as int,
                ));
            } else {
                assert(after.newly_marked(before, jp.start.x as int, jp.start.y as int));
                if pf0.mark(jp.start.x as int, jp.start.y as int) != 0 {
                    assert(before.mark(jp.start.x as int, jp.start.y as int) == pf0.mark(
                        jp.start.x as int,
                        jp.start.y as int,
                    ));
                }
            }
        }
    }

    /// A walk from a marked cell (or from the source) keeps the invariant of
    /// a search from `source`.
    pub proof fn lemma_walk_keeps_wf(
        prev: PathFinder,
        next: PathFinder,
        source: Point2d,
        start: Point2d,
        target: Point2d,
    )
        requires
            prev.wf(source),
            next.shapes_agree(),
            next.extends(prev),
            next.chains_to(prev, start),
            next.new_points_ok(prev, target),
            prev.jump_points@.is_prefix_of(next.jump_points@),
            in_bounds(prev.grid, start.x as int, start.y as int),
            start == source || prev.marked(start.x as int, start.y as int),
        ensures
            next.wf(source),
    {
        reveal(PathFinder::chains_to);
        reveal(PathFinder::new_points_ok);
        assert forall|x: int, y: int|
            #![trigger next.mark(x, y)]
            in_bounds(next.grid, x, y) && next.mark(x, y) != 0 implies next.mark_ok(source, x, y) by {
            if prev.mark(x, y) != 0 {
                assert(next.mark(x, y) == prev.mark(x, y));
                assert(prev.mark_ok(source, x, y));
                let v = prev.mark(x, y);
                let px = back_x(v, x);
                let py = back_y(v, y);
                if !(px == source.x && py == source.y) {
                    assert(prev.mark(px, py) != 0);
                    assert(next.mark(px, py) == prev.mark(px, py));
                }
            } else {
                assert(next.newly_marked(prev, x, y));
                assert(next.new_link(prev, start, x, y));
                let v = next.mark(x, y);
                let px = back_x(v, x);
                let py = back_y(v, y);
                if px == start.x && py == start.y && start != source {
                    assert(prev.mark_ok(source, start.x as int, start.y as int));
                    assert(next.mark(px, py) == prev.mark(px, py));
                }
            }
        }
        assert forall|i: int| 0 <= i < next.jump_points@.len() implies next.jp_ok(
            #[trigger] next.jump_points@[i],
        ) by {
            let jp = next.jump_points@[i];
            if i < prev.jump_points@.len() {
                assert(jp == prev.jump_points@[i]);
                assert(prev.jp_ok(jp));
                assert(next.mark(jp.start.x as int, jp.start.y as int) == prev.mark(
                    jp.start.x as int,
                    jp.start.y as int,
                ));
            }
        }
    }
}

impl PathFinder {
    /// The cell one step on from `(x, y)` along the direction of its code is
    /// marked, unless that cell is blocked: the walk that entered `(x, y)`
    /// went on.
    pub open spec fn continued_at(self, x: int, y: int) -> bool {
        let d = dir_at(self.mark(x, y) - 2);
        is_open(self.grid, x + d.x, y + d.y) ==> self.marked(x + d.x, y + d.y)
    }

    /// Every cell marked in `self` but not in `prev`, other than `target` and
    /// `skip`, continued.
    #[verifier::opaque]
    pub open spec fn continued_new(self, prev: PathFinder, target: Point2d, skip: Point2d) -> bool {
        forall|x: int, y: int|
            #![trigger self.mark(x, y)]
            self.newly_marked(prev, x, y) && !(x == target.x && y == target.y) && !(x == skip.x && y
                == skip.y) ==> self.continued_at(x, y)
    }

    /// Nothing is new in a state relative to itself.
    proof fn lemma_continued_refl(a: PathFinder, target: Point2d, skip: Point2d)
        ensures
            a.continued_new(a, target, skip),
    {
        reveal(PathFinder::continued_new);
    }

    /// Going on from `a` to `b`, which keeps the marks of `a` and marks
    /// nothing new but `skip_b`, keeps every new cell continued, once `skip_a`
    /// (if new and not the target) has continued too.
    proof fn lemma_continued_move(
        pf0: PathFinder,
        a: PathFinder,
        b: PathFinder,
        target: Point2d,
        skip_a: Point2d,
        skip_b: Point2d,
    )
        requires
            a.continued_new(pf0, target, skip_a),
            b.extends(a),
            b.came_from_grid == a.came_from_grid || b.same_elsewhere(
                a,
                skip_b.x as int,
                skip_b.y as int,
            ),
            a.newly_marked(pf0, skip_a.x as int, skip_a.y as int) && skip_a != target && skip_a
                != skip_b ==> b.continued_at(skip_a.x as int, skip_a.y as int),
        ensures
            b.continued_new(pf0, target, skip_b),
    {
        reveal(PathFinder::continued_new);
        reveal(PathFinder::same_elsewhere);
        assert forall|x: int, y: int|
            #![trigger b.mark(x, y)]
            b.newly_marked(pf0, x, y) && !(x == target.x && y == target.y) && !(x == skip_b.x && y
                == skip_b.y) implies b.continued_at(x, y) by {
            if b.came_from_grid == a.came_from_grid {
                assert(b.mark(x, y) == a.mark(x, y));
            }
            assert(a.mark(x, y) != 0);
            assert(b.mark(x, y) == a.mark(x, y));
            if !(x == skip_a.x && y == skip_a.y) {
                assert(a.continued_at(x, y));
                let d = dir_at(a.mark(x, y) - 2);
                if is_open(a.grid, x + d.x, y + d.y) {
                    assert(b.mark(x + d.x, y + d.y) == a.mark(x + d.x, y + d.y));
                }
            }
        }
    }

    /// A walk off a new cell `c`, whose own new cells continued, keeps every
    /// new cell continued.
    proof fn lemma_continued_side(
        pf0: PathFinder,
        a: PathFinder,
        b: PathFinder,
        target: Point2d,
        c: Point2d,
    )
        requires
            a.continued_new(pf0, target, c),
            b.continued_new(a, target, target),
            b.extends(a),
        ensures
            b.continued_new(pf0, target, c),
    {
        reveal(PathFinder::continued_new);
        assert forall|x: int, y: int|
            #![trigger b.mark(x, y)]
            b.newly_marked(pf0, x, y) && !(x == target.x && y == target.y) && !(x == c.x && y == c.y)
                implies b.continued_at(x, y) by {
            if a.mark(x, y) != 0 {
                assert(b.mark(x, y) == a.mark(x, y));
                assert(a.continued_at(x, y));
                let d = dir_at(a.mark(x, y) - 2);
                if is_open(a.grid, x + d.x, y + d.y) {
                    assert(b.mark(x + d.x, y + d.y) == a.mark(x + d.x, y + d.y));
                }
            } else {
                assert(b.newly_marked(a, x, y));
            }
        }
    }
}

impl PathFinder {
    /// A queued jump point walks on from cell `(x, y)` along its code.
    pub open spec fn queued_from(self, x: int, y: int) -> bool {
        exists|i: int|
            #![trigger self.jump_points@[i]]
            0 <= i < self.jump_points@.len() && self.jump_points@[i].start.x == x
                && self.jump_points@[i].start.y == y && self.jump_points@[i].direction == dir_at(
                self.mark(x, y) - 2,
            )
    }

    /// Every marked cell other than `target` has continued, or a queued jump
    /// point will walk on from it.
    #[verifier::opaque]
    pub open spec fn walks_pending(self, target: Point2d) -> bool {
        forall|x: int, y: int|
            #![trigger self.mark(x, y)]
            in_bounds(self.grid, x, y) && self.mark(x, y) != 0 && !(x == target.x && y == target.y)
                ==> self.continued_at(x, y) || self.queued_from(x, y)
    }

    /// Every marked cell other than `target` has continued: each walk of the
    /// search went on until a blocked or already marked cell, or the target.
    pub open spec fn walks_done(self, target: Point2d) -> bool {
        forall|x: int, y: int|
            #![trigger self.mark(x, y)]
            in_bounds(self.grid, x, y) && self.mark(x, y) != 0 && !(x == target.x && y == target.y)
                ==> self.continued_at(x, y)
    }

    /// With nothing queued, every pending walk is done.
    proof fn lemma_walks_done(a: PathFinder, target: Point2d)
        requires
            a.walks_pending(target),
            a.jump_points@.len() == 0,
        ensures
            a.walks_done(target),
    {
        reveal(PathFinder::walks_pending);
    }

    /// A state without marks has no pending walk.
    proof fn lemma_walks_pending_unmarked(a: PathFinder, target: Point2d)
        requires
            forall|x: int, y: int| #![trigger a.mark(x, y)] in_bounds(a.grid, x, y) ==> a.mark(x, y) == 0,
        ensures
            a.walks_pending(target),
            a.walks_done(target),
    {
        reveal(PathFinder::walks_pending);
    }

    /// Queuing a walk from a cell and marking it with the walk's code (or
    /// finding it marked) keeps every walk pending or done.
    proof fn lemma_walks_pending_seed(
        a: PathFinder,
        b: PathFinder,
        target: Point2d,
        x: int,
        y: int,
        d: Direction,
    )
        requires
            a.walks_pending(target),
            d.is_valid(),
            in_bounds(a.grid, x, y),
            b.grid == a.grid,
            b.jump_points@.len() == a.jump_points@.len() + 1,
            forall|i: int| 0 <= i < a.jump_points@.len() ==> b.jump_points@[i] == a.jump_points@[i],
            b.jump_points@.last().start.x == x,
            b.jump_points@.last().start.y == y,
            b.jump_points@.last().direction == d,
            forall|p: int, q: int|
                #![trigger b.mark(p, q)]
                in_bounds(a.grid, p, q) && (p != x || q != y) ==> b.mark(p, q) == a.mark(p, q),
            a.mark(x, y) != 0 ==> b.mark(x, y) == a.mark(x, y),
            a.mark(x, y) == 0 ==> b.mark(x, y) == d.code(),
        ensures
            b.walks_pending(target),
    {
        reveal(PathFinder::walks_pending);
        lemma_dir_at_angle(d);
        assert forall|p: int, q: int|
            #![trigger b.mark(p, q)]
            in_bounds(b.grid, p, q) && b.mark(p, q) != 0 && !(p == target.x && q == target.y)
                implies b.continued_at(p, q) || b.queued_from(p, q) by {
            if p == x && q == y && a.mark(x, y) == 0 {
                let n = a.jump_points@.len() as int;
                assert(b.jump_points@[n] == b.jump_points@.last());
            } else {
                assert(b.mark(p, q) == a.mark(p, q));
                if a.continued_at(p, q) {
                    let e = dir_at(a.mark(p, q) - 2);
                    if is_open(a.grid, p + e.x, q + e.y) {
                        assert(a.mark(p + e.x, q + e.y) != 0);
                        if p + e.x != x || q + e.y != y {
                            assert(b.mark(p + e.x, q + e.y) == a.mark(p + e.x, q + e.y));
                        }
                    }
                } else {
                    let i = choose|i: int|
                        #![trigger a.jump_points@[i]]
                        0 <= i < a.jump_points@.len() && a.jump_points@[i].start.x == p
                            && a.jump_points@[i].start.y == q && a.jump_points@[i].direction
                            == dir_at(a.mark(p, q) - 2);
                    assert(b.jump_points@[i] == a.jump_points@[i]);
                }
            }
        }
    }

    /// Taking a jump point off the queue and walking it keeps every walk
    /// pending or done: the walk goes on from the jump point's start, and
    /// every cell it marks continued.
    proof fn lemma_walks_pending_pop(
        a: PathFinder,
        b: PathFinder,
        c: PathFinder,
        target: Point2d,
        i: int,
    )
        requires
            a.walks_pending(target),
            0 <= i < a.jump_points@.len(),
            b.jump_points@ == a.jump_points@.remove(i),
            b.came_from_grid == a.came_from_grid,
            b.grid == a.grid,
            a.jump_points@[i].direction.is_valid(),
            in_bounds(a.grid, a.jump_points@[i].start.x as int, a.jump_points@[i].start.y as int),
            c.extends(b),
            b.jump_points@.is_prefix_of(c.jump_points@),
            c.continued_new(b, target, target),
            c.walk_result(b, a.jump_points@[i].start, a.jump_points@[i].direction, target),
        ensures
            c.walks_pending(target),
    {
        reveal(PathFinder::walks_pending);
        reveal(PathFinder::continued_new);
        let jp = a.jump_points@[i];
        assert forall|p: int, q: int|
            #![trigger c.mark(p, q)]
            in_bounds(c.grid, p, q) && c.mark(p, q) != 0 && !(p == target.x && q == target.y)
                implies c.continued_at(p, q) || c.queued_from(p, q) by {
            if b.mark(p, q) == 0 {
                assert(c.newly_marked(b, p, q));
            } else {
                assert(a.mark(p, q) == b.mark(p, q));
                assert(c.mark(p, q) == b.mark(p, q));
                let e = dir_at(a.mark(p, q) - 2);
                if a.continued_at(p, q) {
                    if is_open(a.grid, p + e.x, q + e.y) {
                        assert(a.mark(p + e.x, q + e.y) == b.mark(p + e.x, q + e.y));
                        assert(c.mark(p + e.x, q + e.y) == b.mark(p + e.x, q + e.y));
                    }
                } else {
                    let j = choose|j: int|
                        #![trigger a.jump_points@[j]]
                        0 <= j < a.jump_points@.len() && a.jump_points@[j].start.x == p
                            && a.jump_points@[j].start.y == q && a.jump_points@[j].direction
                            == dir_at(a.mark(p, q) - 2);
                    if j < i {
                        assert(b.jump_points@[j] == a.jump_points@[j]);
                        assert(c.jump_points@[j] == b.jump_points@[j]);
                    } else if j > i {
                        assert(b.jump_points@[j - 1] == a.jump_points@[j]);
                        assert(c.jump_points@[j - 1] == b.jump_points@[j - 1]);
                    } else {
                        assert(ray_x(jp.start, jp.direction, 1) == p + e.x);
                        assert(ray_y(jp.start, jp.direction, 1) == q + e.y);
                        if is_open(a.grid, p + e.x, q + e.y) {
                            assert(b.walk_reaches(jp.start, jp.direction, target, 1));
                            assert(c.ray_mark(jp.start, jp.direction, 1) != 0);
                        }
                    }
                }
            }
        }
    }
}

impl PathFinder {
    /// A walk that passed its first `n` cells and stopped at the next passed
    /// exactly `n`; a straight one ends with the queue and counter its
    /// contract states.
    proof fn lemma_walk_summary(
        s: PathFinder,
        pf0: PathFinder,
        start: Point2d,
        d: Direction,
        target: Point2d,
        cost: u64,
        n: int,
        d0: int,
    )
        requires
            n >= 0,
            forall|j: int| #![trigger s.ray_mark(start, d, j)] 1 <= j <= n ==> s.entered(pf0, start, d, target, j),
            !pf0.passes(start, d, target, n + 1),
            !d.spec_is_diagonal() ==> s.jump_points@ == pf0.jump_points@ + straight_points(pf0.grid, pf0.heuristic, start, d, target, cost, n),
            !d.spec_is_diagonal() ==> s.duplicate_checks == d0 + (if is_open(
                pf0.grid,
                ray_x(start, d, n + 1),
                ray_y(start, d, n + 1),
            ) && pf0.ray_mark(start, d, n + 1) != 0 {
                1int
            } else {
                0int
            }),
        ensures
            pf0.passes_exactly(start, d, target, n),
            !d.spec_is_diagonal() ==> exists|m: int|
                #![trigger pf0.passes_exactly(start, d, target, m)]
                {
                    &&& pf0.passes_exactly(start, d, target, m)
                    &&& s.jump_points@ == pf0.jump_points@ + straight_points(
                        pf0.grid,
                        pf0.heuristic,
                        start,
                        d,
                        target,
                        cost,
                        m,
                    )
                    &&& s.duplicate_checks == d0 + (if is_open(
                        pf0.grid,
                        ray_x(start, d, m + 1),
                        ray_y(start, d, m + 1),
                    ) && pf0.ray_mark(start, d, m + 1) != 0 {
                        1int
                    } else {
                        0int
                    })
                },
    {
        assert forall|k: int| #![trigger ray_x(start, d, k)] 1 <= k <= n implies pf0.passes(
            start,
            d,
            target,
            k,
        ) by {
            assert(s.entered(pf0, start, d, target, k));
        }
        assert(pf0.passes_exactly(start, d, target, n));
    }
}

impl PathFinder {
    /// `path` steps back along the marks of `self` from its first point to
    /// `start`: every point before the last is an open cell marked in `self`
    /// but not in `prev`, with a direction code in `2..=9`, and the next
    /// point is one step back against that code.
    pub open spec fn steps_back_to(self, prev: PathFinder, start: Point2d, path: Seq<Point2d>) -> bool {
        &&& path.len() >= 1
        &&& path.last() == start
        &&& forall|i: int|
            #![trigger path[i]]
            0 <= i < path.len() - 1 ==> {
                &&& self.newly_marked(prev, path[i].x as int, path[i].y as int)
                &&& is_open(self.grid, path[i].x as int, path[i].y as int)
                &&& 2 <= self.mark(path[i].x as int, path[i].y as int) <= 9
                &&& path[i + 1].x == back_x(self.mark(path[i].x as int, path[i].y as int), path[i].x as int)
                &&& path[i + 1].y == back_y(self.mark(path[i].x as int, path[i].y as int), path[i].y as int)
            }
    }

    /// From every cell a walk marked, stepping back against the codes passes
    /// only through open cells the walk marked with a direction code, and
    /// reaches the walk's start.
    pub proof fn law_walk_marks_lead_to_start(
        next: PathFinder,
        prev: PathFinder,
        start: Point2d,
        x: int,
        y: int,
    ) -> (path: Seq<Point2d>)
        requires
            next.chains_to(prev, start),
            next.newly_marked(prev, x, y),
        ensures
            path[0].x == x && path[0].y == y,
            next.steps_back_to(prev, start, path),
        decreases next.rank_at(x, y),
    {
        reveal(PathFinder::chains_to);
        assert(next.new_link(prev, start, x, y));
        let v = next.mark(x, y);
        let px = back_x(v, x);
        let py = back_y(v, y);
        let here = Point2d { x: x as usize, y: y as usize };
        if px == start.x && py == start.y {
            let path = seq![here, start];
            assert(path[0] == here);
            path
        } else {
            let rest = PathFinder::law_walk_marks_lead_to_start(next, prev, start, px, py);
            let path = seq![here] + rest;
            assert forall|i: int| #![trigger path[i]] 0 <= i < path.len() - 1 implies {
                &&& next.newly_marked(prev, path[i].x as int, path[i].y as int)
                &&& is_open(next.grid, path[i].x as int, path[i].y as int)
                &&& 2 <= next.mark(path[i].x as int, path[i].y as int) <= 9
                &&& path[i + 1].x == back_x(next.mark(path[i].x as int, path[i].y as int), path[i].x as int)
                &&& path[i + 1].y == back_y(next.mark(path[i].x as int, path[i].y as int), path[i].y as int)
            } by {
                if i > 0 {
                    assert(path[i] == rest[i - 1]);
                    assert(path[i + 1] == rest[i]);
                } else {
                    assert(path[1] == rest[0]);
                }
            }
            assert(path.last() == rest.last());
            path
        }
    }
}

/// Turning a diagonal direction by 45 degrees keeps one of its components.
proof fn lemma_half_turns(d: Direction)
    requires
        d.is_valid(),
        d.spec_is_diagonal(),
    ensures
        (d.turned(1).x == d.x && d.turned(1).y == 0) || (d.turned(1).x == 0 && d.turned(1).y == d.y),
        (d.turned(-1).x == d.x && d.turned(-1).y == 0) || (d.turned(-1).x == 0 && d.turned(-1).y
            == d.y),
{
}

impl PathFinder {
    /// Walks from `start` in `direction` until a wall, an already entered
    /// cell or the target, marking each newly entered cell. At each entered
    /// cell whose neighbour on one side has just opened up after being
    /// blocked, it queues a jump point turning towards it; a diagonal walk
    /// also walks straight off each entered cell.
    ///
    /// Along its line it marks with the code of `direction` exactly the cells
    /// the walk enters unmarked (`walk_result`), and it marks no cell outside
    /// the region ahead of `start` (`keeps_outside`). Every cell it marks is
    /// open and leads back to `start` through cells it marked (`chains_to`);
    /// every jump point it queues starts at a cell it marked other than the
    /// target and turns diagonally (`new_points_ok`); every cell it marks but
    /// the target has its next cell marked or blocked (`continued_new`).
    ///
    /// With `n` the number of cells it passes (open, unmarked, not the
    /// target): a straight walk queues exactly `straight_points` for them and
    /// counts a duplicate exactly when it stops at an open marked cell. A
    /// diagonal walk (`diag_effect`) handles its passed cells one after the
    /// other: at the `k`-th it marks the cell, queues the forced jump point
    /// turning left where the neighbour behind on the left opens up, then the
    /// one turning right, then walks straight off the cell to the left and
    /// then to the right where that neighbour is open, each such walk begun
    /// at the cost of `k` straight steps more than `cost_to_start` and having
    /// the exact effect of a straight walk on queue, marks and counter; it
    /// then stops at its next cell as `stopped_from` says.
    #[verifier::rlimit(100)]
    #[verifier::spinoff_prover]
    pub fn traverse(
        &mut self,
        start: Point2d,
        direction: Direction,
        target: &Point2d,
        cost_to_start: u64,
    )
        requires
            old(self).shapes_agree(),
            estimable_to(old(self).grid, old(self).heuristic, *target),
            in_bounds(old(self).grid, start.x as int, start.y as int),
            direction.is_valid(),
            old(self).budget_used() + 1 <= u64::MAX,
        ensures
            final(self).shapes_agree(),
            final(self).extends(*old(self)),
            old(self).jump_points@.len() <= final(self).jump_points@.len(),
            old(self).duplicate_checks <= final(self).duplicate_checks,
            final(self).jump_points@.len() - old(self).jump_points@.len() <= 2 * (old(
                self,
            ).unvisited() - final(self).unvisited()),
            final(self).duplicate_checks - old(self).duplicate_checks <= 1 + 2 * (old(
                self,
            ).unvisited() - final(self).unvisited()),
            old(self).jump_points@.is_prefix_of(final(self).jump_points@),
            final(self).keeps_outside(*old(self), start, direction),
            final(self).walk_result(*old(self), start, direction, *target),
            final(self).chains_to(*old(self), start),
            final(self).new_points_ok(*old(self), *target),
            final(self).continued_new(*old(self), *target, *target),
            final(self).walked_from(*old(self), start, direction, *target, cost_to_start),
            direction.spec_is_diagonal() ==> final(self).diag_effect(*old(self), start, direction, *target, cost_to_start),
            !direction.spec_is_diagonal() ==> exists|n: int|
                #![trigger old(self).passes_exactly(start, direction, *target, n)]
                {
                    &&& old(self).passes_exactly(start, direction, *target, n)
                    &&& final(self).jump_points@ == old(self).jump_points@ + straight_points(
                        old(self).grid,
                        old(self).heuristic,
                        start,
                        direction,
                        *target,
                        cost_to_start,
                        n,
                    )
                    &&& final(self).duplicate_checks == old(self).duplicate_checks + (if is_open(
                        old(self).grid,
                        ray_x(start, direction, n + 1),
                        ray_y(start, direction, n + 1),
                    ) && old(self).ray_mark(start, direction, n + 1) != 0 {
                        1int
                    } else {
                        0int
                    })
                },
        decreases old(self).unvisited(), (if direction.spec_is_diagonal() {
            1int
        } else {
            0int
        }),
    {
        let ghost q0 = self.jump_points@.len() as int;
        let ghost d0 = self.duplicate_checks as int;
        let ghost z0 = self.unvisited() as int;
        let ghost pf0 = *self;
        let mut traversed_count: u32 = 0;
        let add_nodes: Vec<(Direction, Direction)>;
        proof {
            lemma_turned(direction, 1);
            lemma_turned(direction, -1);
            lemma_turned(direction, 2);
            lemma_turned(direction, -2);
            lemma_turned(direction, 3);
            lemma_turned(direction, -3);
            PathFinder::lemma_chains_refl(pf0, start, *target);
            PathFinder::lemma_continued_refl(pf0, *target, start);
        }
        if direction.is_diagonal() {
            add_nodes = vec![
                (direction.left135(), direction.left()),
                (direction.right135(), direction.right()),
                (direction.half_left(), direction.half_left()),
                (direction.half_right(), direction.half_right()),
            ];
        } else {
            add_nodes = vec![
                (direction.left(), direction.half_left()),
                (direction.right(), direction.half_right()),
            ];
        }
        assert(add_nodes@ == probe_list(direction));
        let mut current_point = start;
        let (mut left_blocked, mut right_blocked) = (false, false);
        let ghost mut cells: Seq<(PathFinder, PathFinder, PathFinder, PathFinder, PathFinder)> = Seq::empty();
        let ghost mut e_cur = pf0;
        let ghost mut q1 = pf0;
        let ghost mut q2 = pf0;
        let ghost mut q3 = pf0;
        assert(diag_run(cells, pf0, start, direction, *target, cost_to_start)) by {
            reveal(diag_run);
        }
        loop
            invariant_except_break
                self.jump_points@.len() - q0 <= 2 * (z0 - self.unvisited()) - (if traversed_count
                    > 0 {
                    2int
                } else {
                    0int
                }),
                self.duplicate_checks - d0 <= 2 * (z0 - self.unvisited()) - (if traversed_count
                    > 0 {
                    2int
                } else {
                    0int
                }),
                current_point.x == ray_x(start, direction, traversed_count as int),
                current_point.y == ray_y(start, direction, traversed_count as int),
                forall|j: int|
                    #![trigger self.ray_mark(start, direction, j)]
                    1 <= j <= traversed_count ==> self.entered(pf0, start, direction, *target, j),
                forall|k: int|
                    #![trigger self.ray_mark(start, direction, k)]
                    k > traversed_count ==> self.kept(pf0, start, direction, k),
                self.continued_new(pf0, *target, current_point),
                direction.spec_is_diagonal() ==> cells.len() == (if traversed_count == 0 {
                    0int
                } else {
                    traversed_count - 1
                }),
                direction.spec_is_diagonal() ==> diag_run(cells, pf0, start, direction, *target, cost_to_start),
                direction.spec_is_diagonal() && traversed_count == 0 ==> *self == pf0,
                direction.spec_is_diagonal() && traversed_count > 0 ==> e_cur == *self
                    && e_cur.entered_from(cell_before(cells, pf0, traversed_count - 1), start, direction, traversed_count as int),
                direction.spec_is_diagonal() && traversed_count == 0 ==> !left_blocked && !right_blocked,
                direction.spec_is_diagonal() && traversed_count > 0 ==> left_blocked == !side_open(
                    pf0.grid,
                    start,
                    direction,
                    traversed_count - 1,
                    3,
                ) && right_blocked == !side_open(pf0.grid, start, direction, traversed_count - 1, -3),
                !direction.spec_is_diagonal() ==> self.jump_points@ == pf0.jump_points@ + straight_points(pf0.grid, pf0.heuristic, start, direction, *target, cost_to_start, traversed_count - 1),
                !direction.spec_is_diagonal() ==> self.duplicate_checks == d0,
                !direction.spec_is_diagonal() && traversed_count == 0 ==> !left_blocked
                    && !right_blocked,
                !direction.spec_is_diagonal() && traversed_count > 0 ==> left_blocked == !side_open(
                    pf0.grid,
                    start,
                    direction,
                    traversed_count - 1,
                    2,
                ) && right_blocked == !side_open(pf0.grid, start, direction, traversed_count - 1, -2),
            invariant
                self.shapes_agree(),
                self.extends(pf0),
                self.chains_to(pf0, start),
                self.new_points_ok(pf0, *target),
                self.keeps_outside(pf0, start, direction),
                pf0.jump_points@.is_prefix_of(self.jump_points@),
                q0 <= self.jump_points@.len(),
                d0 <= self.duplicate_checks,
                q0 == pf0.jump_points@.len(),
                d0 == pf0.duplicate_checks,
                z0 == pf0.unvisited(),
                z0 == old(self).unvisited(),
                estimable_to(self.grid, self.heuristic, *target),
                direction.is_valid(),
                add_nodes@ == probe_list(direction),
                in_bounds(self.grid, current_point.x as int, current_point.y as int),
                in_bounds(self.grid, start.x as int, start.y as int),
                traversed_count <= i32::MAX,
                d0 + q0 + 4 * z0 + 1 <= u64::MAX,
            ensures
                self.shapes_agree(),
                self.extends(pf0),
                self.jump_points@.len() - q0 <= 2 * (z0 - self.unvisited()),
                self.duplicate_checks - d0 <= 2 * (z0 - self.unvisited()) + 1,
                self.keeps_outside(pf0, start, direction),
                self.walk_result(pf0, start, direction, *target),
                self.chains_to(pf0, start),
                self.new_points_ok(pf0, *target),
                pf0.jump_points@.is_prefix_of(self.jump_points@),
                self.continued_new(pf0, *target, *target),
                direction.spec_is_diagonal() ==> self.diag_effect(pf0, start, direction, *target, cost_to_start),
                !direction.spec_is_diagonal() ==> exists|n: int|
                    #![trigger pf0.passes_exactly(start, direction, *target, n)]
                    {
                        &&& pf0.passes_exactly(start, direction, *target, n)
                        &&& self.jump_points@ == pf0.jump_points@ + straight_points(
                            pf0.grid,
                            pf0.heuristic,
                            start,
                            direction,
                            *target,
                            cost_to_start,
                            n,
                        )
                        &&& self.duplicate_checks == d0 + (if is_open(
                            pf0.grid,
                            ray_x(start, direction, n + 1),
                            ray_y(start, direction, n + 1),
                        ) && pf0.ray_mark(start, direction, n + 1) != 0 {
                            1int
                        } else {
                            0int
                        })
                    },
            decreases self.unvisited(),
        {
            let ghost qb = self.jump_points@.len() as int;
            let ghost db = self.duplicate_checks as int;
            let ghost zb = self.unvisited() as int;
            let ghost pfb = *self;
            proof {
                if traversed_count > 0 {
                    assert(self.entered(pf0, start, direction, *target, traversed_count as int));
                }
            }
            let mut index: usize = 0;
            while index < add_nodes.len()
                invariant
                    self.shapes_agree(),
                    self.extends(pfb),
                    pfb.extends(pf0),
                    self.extends(pf0),
                    self.chains_to(pf0, start),
                    self.new_points_ok(pf0, *target),
                    q0 <= qb <= self.jump_points@.len(),
                    d0 <= db <= self.duplicate_checks,
                    qb - q0 <= 2 * (z0 - zb) - (if traversed_count > 0 {
                        2int
                    } else {
                        0int
                    }),
                    db - d0 <= 2 * (z0 - zb) - (if traversed_count > 0 {
                        2int
                    } else {
                        0int
                    }),
                    zb == pfb.unvisited(),
                    self.jump_points@.len() - qb <= (if traversed_count > 0 {
                        if index <= 2 {
                            index as int
                        } else {
                            2int
                        }
                    } else {
                        0int
                    }) + 2 * (zb - self.unvisited()),
                    self.duplicate_checks - db <= (if traversed_count > 0 && index > 2 {
                        index - 2
                    } else {
                        0int
                    }) + 2 * (zb - self.unvisited()),
                    z0 == pf0.unvisited(),
                    z0 == old(self).unvisited(),
                    d0 + q0 + 4 * z0 + 1 <= u64::MAX,
                    estimable_to(self.grid, self.heuristic, *target),
                    direction.is_valid(),
                    add_nodes@ == probe_list(direction),
                    index <= add_nodes@.len(),
                    in_bounds(self.grid, current_point.x as int, current_point.y as int),
                    traversed_count <= i32::MAX,
                    current_point.x == ray_x(start, direction, traversed_count as int),
                    current_point.y == ray_y(start, direction, traversed_count as int),
                    traversed_count > 0 ==> self.newly_marked(
                        pf0,
                        current_point.x as int,
                        current_point.y as int,
                    ) && *target != current_point,
                    forall|j: int|
                        #![trigger self.ray_mark(start, direction, j)]
                        1 <= j <= traversed_count ==> self.entered(pf0, start, direction, *target, j),
                    forall|k: int|
                        #![trigger self.ray_mark(start, direction, k)]
                        k > traversed_count ==> self.kept(pf0, start, direction, k),
                    self.keeps_outside(pf0, start, direction),
                    pf0.jump_points@.is_prefix_of(self.jump_points@),
                    q0 == pf0.jump_points@.len(),
                    pf0.grid == self.grid,
                    pf0.heuristic == self.heuristic,
                    self.continued_new(pf0, *target, current_point),
                    direction.spec_is_diagonal() ==> cells.len() == (if traversed_count == 0 {
                        0int
                    } else {
                        traversed_count - 1
                    }),
                    direction.spec_is_diagonal() ==> diag_run(cells, pf0, start, direction, *target, cost_to_start),
                    direction.spec_is_diagonal() && traversed_count == 0 ==> *self == pf0,
                    direction.spec_is_diagonal() && traversed_count > 0 ==> e_cur.entered_from(
                        cell_before(cells, pf0, traversed_count - 1),
                        start,
                        direction,
                        traversed_count as int,
                    ),
                    direction.spec_is_diagonal() && traversed_count > 0 && index == 0 ==> *self == e_cur,
                    direction.spec_is_diagonal() && traversed_count > 0 && index >= 1 ==> q1.pushed_if(
                        e_cur,
                        opens_behind(pf0.grid, start, direction, traversed_count as int, 1),
                        forced_point(pf0.heuristic, start, direction, *target, cost_to_start, traversed_count as int, 2),
                    ),
                    direction.spec_is_diagonal() && traversed_count > 0 && index == 1 ==> *self == q1,
                    direction.spec_is_diagonal() && traversed_count > 0 && index >= 2 ==> q2.pushed_if(
                        q1,
                        opens_behind(pf0.grid, start, direction, traversed_count as int, -1),
                        forced_point(pf0.heuristic, start, direction, *target, cost_to_start, traversed_count as int, -2),
                    ),
                    direction.spec_is_diagonal() && traversed_count > 0 && index == 2 ==> *self == q2,
                    direction.spec_is_diagonal() && traversed_count > 0 && index >= 3 ==> q3.side_walked(
                        q2,
                        ray_point(start, direction, traversed_count as int),
                        direction.turned(1),
                        *target,
                        side_cost(cost_to_start, traversed_count as int),
                        side_open(pf0.grid, start, direction, traversed_count as int, 1),
                    ),
                    direction.spec_is_diagonal() && traversed_count > 0 && index == 3 ==> *self == q3,
                    direction.spec_is_diagonal() && traversed_count > 0 && index >= 4 ==> self.side_walked(
                        q3,
                        ray_point(start, direction, traversed_count as int),
                        direction.turned(-1),
                        *target,
                        side_cost(cost_to_start, traversed_count as int),
                        side_open(pf0.grid, start, direction, traversed_count as int, -1),
                    ),
                    direction.spec_is_diagonal() && index == 0 && traversed_count == 0 ==> !left_blocked,
                    direction.spec_is_diagonal() && index <= 1 && traversed_count == 0 ==> !right_blocked,
                    direction.spec_is_diagonal() && index == 0 && traversed_count > 0 ==> left_blocked
                        == !side_open(pf0.grid, start, direction, traversed_count - 1, 3),
                    direction.spec_is_diagonal() && index <= 1 && traversed_count > 0 ==> right_blocked
                        == !side_open(pf0.grid, start, direction, traversed_count - 1, -3),
                    direction.spec_is_diagonal() && index >= 1 ==> left_blocked == !side_open(
                        pf0.grid,
                        start,
                        direction,
                        traversed_count as int,
                        3,
                    ),
                    direction.spec_is_diagonal() && index >= 2 ==> right_blocked == !side_open(
                        pf0.grid,
                        start,
                        direction,
                        traversed_count as int,
                        -3,
                    ),
                    !direction.spec_is_diagonal() ==> self.jump_points@ == pf0.jump_points@ + straight_points(pf0.grid, pf0.heuristic, start, direction, *target, cost_to_start, traversed_count - 1) + (if traversed_count > 0 && index >= 1 {
                        points_at(
                            pf0.grid,
                            pf0.heuristic,
                            start,
                            direction,
                            *target,
                            cost_to_start,
                            traversed_count as int,
                            1,
                        )
                    } else {
                        Seq::empty()
                    }) + (if traversed_count > 0 && index >= 2 {
                        points_at(
                            pf0.grid,
                            pf0.heuristic,
                            start,
                            direction,
                            *target,
                            cost_to_start,
                            traversed_count as int,
                            -1,
                        )
                    } else {
                        Seq::empty()
                    }),
                    !direction.spec_is_diagonal() ==> self.duplicate_checks == d0,
                    !direction.spec_is_diagonal() && index == 0 && traversed_count == 0 ==> !left_blocked,
                    !direction.spec_is_diagonal() && index <= 1 && traversed_count == 0 ==> !right_blocked,
                    !direction.spec_is_diagonal() && index == 0 && traversed_count > 0 ==> left_blocked
                        == !side_open(pf0.grid, start, direction, traversed_count - 1, 2),
                    !direction.spec_is_diagonal() && index <= 1 && traversed_count > 0 ==> right_blocked
                        == !side_open(pf0.grid, start, direction, traversed_count - 1, -2),
                    !direction.spec_is_diagonal() && index >= 1 ==> left_blocked == !side_open(
                        pf0.grid,
                        start,
                        direction,
                        traversed_count as int,
                        2,
                    ),
                    !direction.spec_is_diagonal() && index >= 2 ==> right_blocked == !side_open(
                        pf0.grid,
                        start,
                        direction,
                        traversed_count as int,
                        -2,
                    ),
                decreases add_nodes@.len() - index,
            {
                let ghost lb = left_blocked;
                let ghost rb = right_blocked;
                let ghost jp_before = self.jump_points@;
                let ghost before_iter = *self;
                let (check_dir, traversal_dir) = add_nodes[index];
                let temp_point = self.new_point_in_grid(&current_point, check_dir);
                if traversed_count > 0 && (index == 0 && left_blocked || index == 1 && right_blocked
                    || index > 1) && temp_point.is_some() {
                    let new_cost_to_start = cost_after_walk(
                        cost_to_start,
                        traversal_dir,
                        traversed_count,
                    );
                    if index > 1 {
                        let ghost before_call = *self;
                        self.traverse(current_point, traversal_dir, target, new_cost_to_start);
                        proof {
                            PathFinder::lemma_extends_trans(*self, before_call, pfb);
                            PathFinder::lemma_extends_trans(*self, before_call, pf0);
                            assert(self.mark(current_point.x as int, current_point.y as int)
                                == before_call.mark(current_point.x as int, current_point.y as int));
                            lemma_half_turns(direction);
                            PathFinder::lemma_side_walk_frame(
                                before_call,
                                *self,
                                pf0,
                                start,
                                direction,
                                *target,
                                traversed_count as int,
                                current_point,
                                traversal_dir,
                            );
                            PathFinder::lemma_chain_side_walk(
                                pf0,
                                before_call,
                                *self,
                                start,
                                *target,
                                current_point,
                            );
                            PathFinder::lemma_continued_side(
                                pf0,
                                before_call,
                                *self,
                                *target,
                                current_point,
                            );
                            PathFinder::lemma_walked_straight(
                                *self,
                                before_call,
                                current_point,
                                traversal_dir,
                                *target,
                                new_cost_to_start,
                            );
                            assert(pf0.jump_points@ =~= self.jump_points@.subrange(0, q0));
                            if direction.spec_is_diagonal() {
                                lemma_turned(direction, 1);
                                lemma_turned(direction, -1);
                                assert(current_point == ray_point(start, direction, traversed_count as int));
                                assert(new_cost_to_start == side_cost(cost_to_start, traversed_count as int));
                            }
                        }
                    } else {
                        proof {
                            if self.heuristic == Heuristic::Euclidean {
                                assert(sq_dist_fits(current_point.x as int, current_point.y as int, *target));
                            }
                            if self.heuristic == Heuristic::Manhattan {
                                assert(sum_dist_fits(current_point.x as int, current_point.y as int, *target));
                            }
                        }
                        let estimate = self.heuristic.estimate(current_point, *target);
                        let ghost before_push = *self;
                        self.jump_points.push(
                            forced_jump_point(current_point, traversal_dir, new_cost_to_start, estimate),
                        );
                        proof {
                            PathFinder::lemma_chains_same_marks(before_push, *self, pf0, start, *target);
                            PathFinder::lemma_continued_move(
                                pf0,
                                before_push,
                                *self,
                                *target,
                                current_point,
                                current_point,
                            );
                            PathFinder::lemma_extends_trans(*self, before_push, pfb);
                            PathFinder::lemma_walk_same_marks(
                                before_push,
                                *self,
                                pf0,
                                start,
                                direction,
                                *target,
                                traversed_count as int,
                            );
                            assert(pf0.jump_points@ =~= self.jump_points@.subrange(0, q0));
                            if !direction.spec_is_diagonal() {
                                lemma_estimate_value(self.heuristic, current_point, *target, estimate as int);
                                let turn: int = if index == 0 {
                                    1
                                } else {
                                    -1
                                };
                                assert(current_point == ray_point(start, direction, traversed_count as int));
                                assert(self.jump_points@ =~= jp_before.push(forced_point(
                                    pf0.heuristic,
                                    start,
                                    direction,
                                    *target,
                                    cost_to_start,
                                    traversed_count as int,
                                    turn,
                                )));
                            } else {
                                lemma_estimate_value(self.heuristic, current_point, *target, estimate as int);
                                let t: int = if index == 0 {
                                    1
                                } else {
                                    -1
                                };
                                assert(current_point == ray_point(start, direction, traversed_count as int));
                                assert(self.jump_points@ =~= jp_before.push(forced_point(
                                    pf0.heuristic,
                                    start,
                                    direction,
                                    *target,
                                    cost_to_start,
                                    traversed_count as int,
                                    2 * t,
                                )));
                            }
                        }
                    }
                    if index == 0 {
                        left_blocked = false;
                    } else if index == 1 {
                        right_blocked = false;
                    }
                } else if index == 0 && temp_point.is_none() {
                    left_blocked = true;
                } else if index == 1 && temp_point.is_none() {
                    right_blocked = true;
                }
                proof {
                    if direction.spec_is_diagonal() && traversed_count > 0 {
                        let k = traversed_count as int;
                        if index == 0 {
                            PathFinder::lemma_probe_push(
                                before_iter,
                                *self,
                                pf0.grid,
                                start,
                                direction,
                                k,
                                1,
                                lb,
                                temp_point.is_some(),
                                forced_point(pf0.heuristic, start, direction, *target, cost_to_start, k, 2),
                            );
                            q1 = *self;
                        } else if index == 1 {
                            PathFinder::lemma_probe_push(
                                before_iter,
                                *self,
                                pf0.grid,
                                start,
                                direction,
                                k,
                                -1,
                                rb,
                                temp_point.is_some(),
                                forced_point(pf0.heuristic, start, direction, *target, cost_to_start, k, -2),
                            );
                            q2 = *self;
                        } else if index == 2 {
                            q3 = *self;
                        }
                    }
                    if !direction.spec_is_diagonal() {
                        let k = traversed_count as int;
                        let turn: int = if index == 0 {
                            1
                        } else {
                            -1
                        };
                        let blocked = if index == 0 {
                            lb
                        } else {
                            rb
                        };
                        assert(temp_point.is_some() == side_open(pf0.grid, start, direction, k, 2 * turn));
                        let pa = if k > 0 {
                            points_at(pf0.grid, pf0.heuristic, start, direction, *target, cost_to_start, k, turn)
                        } else {
                            Seq::<JumpPoint>::empty()
                        };
                        if k > 0 && blocked && temp_point.is_some() {
                            assert(opens_at(pf0.grid, start, direction, k, turn));
                            assert(self.jump_points@ =~= jp_before + pa);
                        } else {
                            if k > 0 {
                                assert(!opens_at(pf0.grid, start, direction, k, turn));
                            }
                            assert(self.jump_points@ =~= jp_before + pa);
                        }
                        let pa1 = if k > 0 {
                            points_at(pf0.grid, pf0.heuristic, start, direction, *target, cost_to_start, k, 1)
                        } else {
                            Seq::<JumpPoint>::empty()
                        };
                        if index == 0 {
                            assert(self.jump_points@ =~= pf0.jump_points@ + straight_points(pf0.grid, pf0.heuristic, start, direction, *target, cost_to_start, k - 1) + pa1
                                + Seq::<JumpPoint>::empty());
                        } else {
                            assert(self.jump_points@ =~= pf0.jump_points@ + straight_points(pf0.grid, pf0.heuristic, start, direction, *target, cost_to_start, k - 1) + pa1 + pa);
                        }
                    }
                }
                index = index + 1;
            }
            proof {
                if direction.spec_is_diagonal() && traversed_count > 0 {
                    assert(add_nodes@.len() == 4);
                    let c = (e_cur, q1, q2, q3, *self);
                    PathFinder::lemma_diag_run_push(cells, c, pf0, start, direction, *target, cost_to_start);
                    cells = cells.push(c);
                }
                if !direction.spec_is_diagonal() {
                    assert(add_nodes@.len() == 2);
                    assert(self.jump_points@ =~= pf0.jump_points@ + straight_points(pf0.grid, pf0.heuristic, start, direction, *target, cost_to_start, traversed_count as int));
                }
            }
            let ghost p_step = *self;
            assert(direction.spec_is_diagonal() ==> cells.len() == traversed_count && diag_run(cells, pf0, start, direction, *target, cost_to_start)
                && p_step == cell_before(cells, pf0, traversed_count as int));
            if let Some(new_point) = self.new_point_in_grid(&current_point, direction) {
                let ghost prev = *self;
                let ghost prev_point = current_point;
                current_point = new_point;
                proof {
                    assert(current_point.x == ray_x(start, direction, traversed_count + 1));
                    assert(current_point.y == ray_y(start, direction, traversed_count + 1));
                    assert(prev.kept(pf0, start, direction, traversed_count + 1));
                    assert(!in_region(start, direction, start.x as int, start.y as int));
                    assert(prev.mark(start.x as int, start.y as int) == 0 ==> pf0.mark(
                        start.x as int,
                        start.y as int,
                    ) == 0);
                    lemma_dir_at_angle(direction);
                    if traversed_count > 0 {
                        assert(prev.entered(pf0, start, direction, *target, traversed_count as int));
                    }
                }
                if self.add_came_from(&current_point, direction) {
                    self.duplicate_checks += 1;
                    proof {
                        PathFinder::lemma_chains_same_marks(prev, *self, pf0, start, *target);
                        PathFinder::lemma_continued_move(
                            pf0,
                            prev,
                            *self,
                            *target,
                            prev_point,
                            *target,
                        );
                        PathFinder::lemma_walk_same_marks(
                            prev,
                            *self,
                            pf0,
                            start,
                            direction,
                            *target,
                            traversed_count as int,
                        );
                        PathFinder::lemma_walk_result(
                            pf0,
                            *self,
                            start,
                            direction,
                            *target,
                            traversed_count as int,
                        );
                        assert(pf0.ray_mark(start, direction, traversed_count + 1) != 0);
                        PathFinder::lemma_walk_summary(
                            *self,
                            pf0,
                            start,
                            direction,
                            *target,
                            cost_to_start,
                            traversed_count as int,
                            d0,
                        );
                        if direction.spec_is_diagonal() {
                            assert(prev.ray_mark(start, direction, traversed_count + 1) != 0);
                            assert(self.stopped_from(prev, start, direction, traversed_count as int));
                            PathFinder::lemma_diag_effect(*self, pf0, start, direction, *target, cost_to_start, traversed_count as int, cells);
                        }
                    }
                    break ;
                }
                proof {
                    let x = current_point.x as int;
                    let y = current_point.y as int;
                    PathFinder::lemma_mark_cell(prev, *self, x, y, direction);
                    PathFinder::lemma_entered_from(prev, *self, start, direction, traversed_count + 1);
                    e_cur = *self;
                    if traversed_count > 0 {
                        assert(prev.entered(pf0, start, direction, *target, traversed_count as int));
                    }
                    PathFinder::lemma_chain_step(pf0, prev, *self, start, *target, x, y, direction);
                    PathFinder::lemma_extends_trans(*self, prev, pf0);
                    PathFinder::lemma_continued_move(
                        pf0,
                        prev,
                        *self,
                        *target,
                        prev_point,
                        current_point,
                    );
                    PathFinder::lemma_walk_step(
                        prev,
                        *self,
                        pf0,
                        start,
                        direction,
                        *target,
                        traversed_count as int,
                    );
                }
                if current_point == *target {
                    proof {
                        PathFinder::lemma_walk_result(
                            pf0,
                            *self,
                            start,
                            direction,
                            *target,
                            traversed_count as int,
                        );
                        PathFinder::lemma_walk_summary(
                            *self,
                            pf0,
                            start,
                            direction,
                            *target,
                            cost_to_start,
                            traversed_count as int,
                            d0,
                        );
                        if direction.spec_is_diagonal() {
                            assert(self.stopped_from(prev, start, direction, traversed_count as int));
                            PathFinder::lemma_diag_effect(*self, pf0, start, direction, *target, cost_to_start, traversed_count as int, cells);
                        }
                    }
                    break ;
                }
                traversed_count += 1;
            } else {
                proof {
                    assert(self.kept(pf0, start, direction, traversed_count + 1));
                    assert(!in_region(start, direction, start.x as int, start.y as int));
                    assert(self.mark(start.x as int, start.y as int) == 0 ==> pf0.mark(
                        start.x as int,
                        start.y as int,
                    ) == 0);
                    lemma_dir_at_angle(direction);
                    if traversed_count > 0 {
                        assert(self.entered(pf0, start, direction, *target, traversed_count as int));
                    }
                    PathFinder::lemma_continued_move(
                        pf0,
                        *self,
                        *self,
                        *target,
                        current_point,
                        *target,
                    );
                    PathFinder::lemma_walk_result(
                        pf0,
                        *self,
                        start,
                        direction,
                        *target,
                        traversed_count as int,
                    );
                    PathFinder::lemma_walk_summary(
                        *self,
                        pf0,
                        start,
                        direction,
                        *target,
                        cost_to_start,
                        traversed_count as int,
                        d0,
                    );
                    if direction.spec_is_diagonal() {
                        assert(self.stopped_from(p_step, start, direction, traversed_count as int));
                        PathFinder::lemma_diag_effect(*self, pf0, start, direction, *target, cost_to_start, traversed_count as int, cells);
                    }
                }
                break ;
            }
        }
        proof {
            PathFinder::lemma_walked(pf0, *self, start, direction, *target, cost_to_start);
        }
    }
}

/// Each point after the first is one step, against the code marked at it,
/// after the point before it.
pub open spec fn follows_marks(pf: PathFinder, path: Seq<Point2d>) -> bool {
    forall|i: int|
        #![trigger path[i]]
        1 <= i < path.len() ==> path[i - 1].x == back_x(pf.mark(path[i].x as int, path[i].y as int), path[i].x as int)
            && path[i - 1].y == back_y(pf.mark(path[i].x as int, path[i].y as int), path[i].y as int)
}

impl PathFinder {
    /// One step back from `p` against the code marked at it.
    pub open spec fn back_point(self, p: Point2d) -> Point2d {
        let v = self.mark(p.x as int, p.y as int);
        Point2d { x: back_x(v, p.x as int) as usize, y: back_y(v, p.y as int) as usize }
    }

    /// The point reached from `p` after `i` steps back along the marks.
    pub open spec fn chain_point(self, p: Point2d, i: nat) -> Point2d
        decreases i,
    {
        if i == 0 {
            p
        } else {
            self.chain_point(self.back_point(p), (i - 1) as nat)
        }
    }

    /// Walking back along the marks from `target` reaches `source` after
    /// exactly `n` steps: every point before it is a cell of the grid other
    /// than `source` whose code is in `2..=9` and steps back to a cell, and
    /// `source` is a cell.
    pub open spec fn chain_reaches(self, source: Point2d, target: Point2d, n: nat) -> bool {
        &&& self.chain_point(target, n) == source
        &&& in_bounds(self.grid, source.x as int, source.y as int)
        &&& forall|i: nat|
            i < n ==> {
                let q = #[trigger] self.chain_point(target, i);
                &&& in_bounds(self.grid, q.x as int, q.y as int)
                &&& q != source
                &&& 2 <= self.mark(q.x as int, q.y as int) <= 9
                &&& in_bounds(
                    self.grid,
                    back_x(self.mark(q.x as int, q.y as int), q.x as int),
                    back_y(self.mark(q.x as int, q.y as int), q.y as int),
                )
            }
    }

    /// The number of steps back from `target` to `source`, when the chain
    /// reaches it.
    pub open spec fn chain_len(self, source: Point2d, target: Point2d) -> nat {
        choose|n: nat| self.chain_reaches(source, target, n)
    }

    /// The points of the chain from `source` forwards to `target`.
    pub open spec fn chain_path(self, source: Point2d, target: Point2d) -> Seq<Point2d> {
        let n = self.chain_len(source, target);
        Seq::new(n + 1, |i: int| self.chain_point(target, (n - i) as nat))
    }

    /// One more step back is one step back from the last point.
    proof fn lemma_chain_next(self, p: Point2d, i: nat)
        ensures
            self.chain_point(p, i + 1) == self.back_point(self.chain_point(p, i)),
        decreases i,
    {
        if i > 0 {
            let j = (i - 1) as nat;
            self.lemma_chain_next(self.back_point(p), j);
            assert(j + 1 == i);
            assert(self.chain_point(p, i) == self.chain_point(self.back_point(p), j));
            assert(self.chain_point(p, i + 1) == self.chain_point(self.back_point(p), i));
        } else {
            assert(self.chain_point(p, 1) == self.chain_point(self.back_point(p), 0));
        }
    }

    /// Steps back compose.
    proof fn lemma_chain_add(self, p: Point2d, i: nat, k: nat)
        ensures
            self.chain_point(p, i + k) == self.chain_point(self.chain_point(p, i), k),
        decreases i,
    {
        if i > 0 {
            self.lemma_chain_add(self.back_point(p), (i - 1) as nat, k);
            assert(self.chain_point(p, i + k) == self.chain_point(
                self.back_point(p),
                (i + k - 1) as nat,
            ));
        }
    }

    /// A chain reaches the source in only one number of steps, and visits no
    /// point twice on the way.
    proof fn lemma_chain_unique(self, source: Point2d, target: Point2d, n: nat)
        requires
            self.chain_reaches(source, target, n),
        ensures
            self.chain_len(source, target) == n,
            forall|i: nat, j: nat|
                #![trigger self.chain_point(target, i), self.chain_point(target, j)]
                i < j <= n ==> self.chain_point(target, i) != self.chain_point(target, j),
    {
        let m = self.chain_len(source, target);
        assert(self.chain_reaches(source, target, m));
        if m < n {
            assert(self.chain_point(target, m) != source);
        } else if n < m {
            assert(self.chain_point(target, n) != source);
        }
        assert forall|i: nat, j: nat|
            #![trigger self.chain_point(target, i), self.chain_point(target, j)]
            i < j <= n implies self.chain_point(target, i) != self.chain_point(target, j) by {
            if self.chain_point(target, i) == self.chain_point(target, j) {
                let k = (n - j) as nat;
                self.lemma_chain_add(target, i, k);
                self.lemma_chain_add(target, j, k);
                let e = (i + k) as nat;
                assert(self.chain_point(target, e) == self.chain_point(target, n));
                assert(e < n);
                assert(self.chain_point(target, e) != source);
            }
        }
    }

    /// Under the invariant of a search, the chain back from any marked cell
    /// reaches the source.
    proof fn lemma_chain_from_marks(self, source: Point2d, p: Point2d) -> (n: nat)
        requires
            self.chain_ok(source),
            in_bounds(self.grid, source.x as int, source.y as int),
            in_bounds(self.grid, p.x as int, p.y as int),
            p == source || self.marked(p.x as int, p.y as int),
        ensures
            self.chain_reaches(source, p, n),
        decreases self.rank_at(p.x as int, p.y as int),
    {
        if p == source {
            0
        } else {
            assert(self.mark(p.x as int, p.y as int) != 0);
            assert(self.link_ok(source, p.x as int, p.y as int));
            let v = self.mark(p.x as int, p.y as int);
            let b = self.back_point(p);
            assert(b.x as int == back_x(v, p.x as int));
            assert(b.y as int == back_y(v, p.y as int));
            let m: nat = if b == source {
                0
            } else {
                assert(self.mark(b.x as int, b.y as int) != 0);
                self.lemma_chain_from_marks(source, b)
            };
            assert(self.chain_reaches(source, b, m));
            assert forall|i: nat| i < m + 1 implies {
                let q = #[trigger] self.chain_point(p, i);
                &&& in_bounds(self.grid, q.x as int, q.y as int)
                &&& q != source
                &&& 2 <= self.mark(q.x as int, q.y as int) <= 9
                &&& in_bounds(
                    self.grid,
                    back_x(self.mark(q.x as int, q.y as int), q.x as int),
                    back_y(self.mark(q.x as int, q.y as int), q.y as int),
                )
            } by {
                if i > 0 {
                    assert(self.chain_point(p, i) == self.chain_point(b, (i - 1) as nat));
                } else {
                    assert(self.chain_point(p, 0) == p);
                }
            }
            assert(self.chain_point(p, m + 1) == self.chain_point(b, m));
            m + 1
        }
    }

    /// Builds the path from `source` to `target` by walking the marks back
    /// from `target`; without `construct_full_path` the path is left empty.
    /// The path is the chain of marks read forwards; it moves by unit steps
    /// through cells of the grid without visiting a cell twice, and when
    /// every marked cell is open unless it steps back to the source, it moves
    /// through open cells after its second.
    pub fn construct_path(&self, source: Point2d, target: Point2d, construct_full_path: bool) -> (r:
        Option<Vec<Point2d>>)
        requires
            construct_full_path ==> array_shape(self.came_from_grid) == array_shape(self.grid),
            construct_full_path ==> self.grid.rows() <= i32::MAX && self.grid.cols() <= i32::MAX,
            construct_full_path ==> exists|n: nat| self.chain_reaches(source, target, n),
        ensures
            !construct_full_path ==> (r matches Some(path) && path@.len() == 0),
            construct_full_path ==> (r matches Some(path) && path@ == self.chain_path(source, target)),
            construct_full_path ==> (r matches Some(path) && is_simple_walk(
                self.grid,
                source,
                target,
                path@,
            ) && follows_marks(*self, path@)),
            construct_full_path && self.marks_open(source) ==> (r matches Some(path) && is_grid_path(
                self.grid,
                source,
                target,
                path@,
            )),
    {
        let mut path: Vec<Point2d> = Vec::new();
        let mut pos = target;
        let ghost n: nat = 0;
        if construct_full_path {
            proof {
                let m = choose|m: nat| self.chain_reaches(source, target, m);
                self.lemma_chain_unique(source, target, m);
                n = m;
            }
            path.push(target);
            let ghost mut i: nat = 0;
            while pos != source
                invariant
                    self.chain_reaches(source, target, n),
                    array_shape(self.came_from_grid) == array_shape(self.grid),
                    self.grid.rows() <= i32::MAX,
                    self.grid.cols() <= i32::MAX,
                    i <= n,
                    pos == self.chain_point(target, i),
                    path@.len() == i + 1,
                    forall|k: int| 0 <= k <= i ==> path@[k] == self.chain_point(target, k as nat),
                decreases n - i,
            {
                assert(i < n);
                let ghost q = self.chain_point(target, i);
                assert(in_bounds(self.grid, q.x as int, q.y as int) && 2 <= self.mark(
                    q.x as int,
                    q.y as int,
                ) <= 9);
                let dir = self.came_from_grid.get(pos.y, pos.x);
                let back = Direction::from_value_reverse(dir);
                proof {
                    lemma_dir_at_range(dir as int - 2);
                    self.lemma_chain_next(target, i);
                }
                pos = pos.add_direction(back);
                path.push(pos);
                proof {
                    i = i + 1;
                }
            }
            proof {
                if i < n {
                    assert(self.chain_point(target, i) != source);
                }
            }
        }
        let ghost rev = path@;
        let mut out: Vec<Point2d> = Vec::new();
        let mut k: usize = path.len();
        while k > 0
            invariant
                k <= path@.len(),
                path@ == rev,
                out@.len() == rev.len() - k,
                forall|j: int| 0 <= j < out@.len() ==> out@[j] == rev[rev.len() - 1 - j],
            decreases k,
        {
            k = k - 1;
            out.push(path[k]);
        }
        proof {
            if construct_full_path {
                let len = rev.len() as int;
                assert(len == n + 1);
                assert(out@ =~= self.chain_path(source, target));
                assert forall|j: int| 0 <= j < len implies in_bounds(
                    self.grid,
                    #[trigger] out@[j].x as int,
                    out@[j].y as int,
                ) && (j >= 1 ==> out@[j] != source) by {
                    let c = (n - j) as nat;
                    assert(out@[j] == self.chain_point(target, c));
                }
                assert forall|j: int| 1 <= j < len implies adjacent(out@[j - 1], #[trigger] out@[j])
                    && out@[j - 1].x == back_x(self.mark(out@[j].x as int, out@[j].y as int), out@[j].x as int)
                    && out@[j - 1].y == back_y(self.mark(out@[j].x as int, out@[j].y as int), out@[j].y as int) by {
                    let c = (n - j) as nat;
                    assert(out@[j] == self.chain_point(target, c));
                    assert(out@[j - 1] == self.chain_point(target, c + 1));
                    self.lemma_chain_next(target, c);
                    let q = self.chain_point(target, c);
                    let v = self.mark(q.x as int, q.y as int);
                    lemma_dir_at_range(v - 2);
                    assert(out@[j - 1].x as int == back_x(v, q.x as int));
                    assert(out@[j - 1].y as int == back_y(v, q.y as int));
                }
                assert forall|a: int, b: int|
                    #![trigger out@[a], out@[b]]
                    0 <= a < b < len implies out@[a] != out@[b] by {
                    assert(out@[a] == self.chain_point(target, (n - a) as nat));
                    assert(out@[b] == self.chain_point(target, (n - b) as nat));
                }
                if self.marks_open(source) {
                    assert forall|j: int| 2 <= j < len implies is_open(
                        self.grid,
                        #[trigger] out@[j].x as int,
                        out@[j].y as int,
                    ) by {
                        let c = (n - j) as nat;
                        assert(out@[j] == self.chain_point(target, c));
                        assert(out@[j - 1] == self.chain_point(target, c + 1));
                        self.lemma_chain_next(target, c);
                        assert(out@[j - 1] != source);
                        let q = self.chain_point(target, c);
                        assert(self.mark(q.x as int, q.y as int) != 0);
                        lemma_dir_at_range(self.mark(q.x as int, q.y as int) - 2);
                    }
                }
            }
        }
        Some(out)
    }
}

/// The cost a diagonal walk begun at `cost` has reached at its `k`-th cell,
/// as its straight side walks from there count it: `k` straight steps on
/// (saturating).
pub open spec fn side_cost(cost: u64, k: int) -> u64 {
    sat_add(cost as int, STRAIGHT_COST * k) as u64
}

/// The state a diagonal walk leaves after its `j`-th passed cell, given the
/// records `cells` of the cells before and the state `pf0` it began in.
pub open spec fn cell_before(
    cells: Seq<(PathFinder, PathFinder, PathFinder, PathFinder, PathFinder)>,
    pf0: PathFinder,
    j: int,
) -> PathFinder {
    if j <= 0 {
        pf0
    } else {
        cells[j - 1].4
    }
}

impl PathFinder {
    /// `self` is `prev` with a walk from `start` in `d` entering its `k`-th
    /// cell: that cell carries the code of `d`, and every other cell, the
    /// queue and the counter are those of `prev`.
    pub open spec fn entered_from(self, prev: PathFinder, start: Point2d, d: Direction, k: int) -> bool {
        &&& self.grid == prev.grid
        &&& self.heuristic == prev.heuristic
        &&& self.jump_points@ == prev.jump_points@
        &&& self.duplicate_checks == prev.duplicate_checks
        &&& self.ray_mark(start, d, k) == d.code()
        &&& forall|x: int, y: int|
            #![trigger self.mark(x, y)]
            in_bounds(prev.grid, x, y) && !(x == ray_x(start, d, k) && y == ray_y(start, d, k))
                ==> self.mark(x, y) == prev.mark(x, y)
    }

    /// `self` is `prev` with `jp` queued when `cond` holds, and `prev`
    /// unchanged otherwise.
    pub open spec fn pushed_if(self, prev: PathFinder, cond: bool, jp: JumpPoint) -> bool {
        &&& self.grid == prev.grid
        &&& self.heuristic == prev.heuristic
        &&& self.came_from_grid == prev.came_from_grid
        &&& self.duplicate_checks == prev.duplicate_checks
        &&& self.rank == prev.rank
        &&& self.next_rank == prev.next_rank
        &&& self.jump_points@ == (if cond {
            prev.jump_points@.push(jp)
        } else {
            prev.jump_points@
        })
    }

    /// What every walk from `start` in `direction` towards `target` makes of
    /// `mid`: the arrays still agree, marks are kept and queued points stay
    /// first, its line is marked as `walk_result` says and nothing outside
    /// its region, its new marks lead back to `start`, its new jump points
    /// start at cells it marked, and its walks went on.
    pub open spec fn walk_common(
        self,
        mid: PathFinder,
        start: Point2d,
        direction: Direction,
        target: Point2d,
    ) -> bool {
        &&& self.shapes_agree()
        &&& self.extends(mid)
        &&& mid.jump_points@.len() <= self.jump_points@.len()
        &&& mid.duplicate_checks <= self.duplicate_checks
        &&& mid.jump_points@.is_prefix_of(self.jump_points@)
        &&& self.keeps_outside(mid, start, direction)
        &&& self.walk_result(mid, start, direction, target)
        &&& self.chains_to(mid, start)
        &&& self.new_points_ok(mid, target)
        &&& self.continued_new(mid, target, target)
    }

    /// The queue and counter a straight walk leaves: with `n` the cells it
    /// passes, exactly the jump points `straight_points` lists are queued,
    /// and a duplicate is counted exactly when it stops at an open marked
    /// cell.
    pub open spec fn straight_effect(
        self,
        mid: PathFinder,
        start: Point2d,
        direction: Direction,
        target: Point2d,
        cost_to_start: u64,
    ) -> bool {
        exists|n: int|
            #![trigger mid.passes_exactly(start, direction, target, n)]
            {
                &&& mid.passes_exactly(start, direction, target, n)
                &&& self.jump_points@ == mid.jump_points@ + straight_points(
                    mid.grid,
                    mid.heuristic,
                    start,
                    direction,
                    target,
                    cost_to_start,
                    n,
                )
                &&& self.duplicate_checks == mid.duplicate_checks + (if is_open(
                    mid.grid,
                    ray_x(start, direction, n + 1),
                    ray_y(start, direction, n + 1),
                ) && mid.ray_mark(start, direction, n + 1) != 0 {
                    1int
                } else {
                    0int
                })
            }
    }

    /// `self` is what a straight walk from `c` in `h`, begun at `cost`,
    /// makes of `prev`.
    #[verifier::opaque]
    pub open spec fn straight_walked(
        self,
        prev: PathFinder,
        c: Point2d,
        h: Direction,
        target: Point2d,
        cost: u64,
    ) -> bool {
        &&& self.walk_common(prev, c, h, target)
        &&& self.straight_effect(prev, c, h, target, cost)
    }

    /// `self` is what a straight side walk from `c` in `h` makes of `prev`
    /// when that neighbour is `open`, and `prev` itself otherwise.
    pub open spec fn side_walked(
        self,
        prev: PathFinder,
        c: Point2d,
        h: Direction,
        target: Point2d,
        cost: u64,
        open: bool,
    ) -> bool {
        if open {
            self.straight_walked(prev, c, h, target, cost)
        } else {
            self == prev
        }
    }

    /// How a walk from `start` in `d` that passed `n` cells, standing in the
    /// state `p`, stops at its next cell: at a blocked cell nothing changes;
    /// at an open marked cell a duplicate is counted; otherwise (the target)
    /// it enters that cell.
    pub open spec fn stopped_from(self, p: PathFinder, start: Point2d, d: Direction, n: int) -> bool {
        if !is_open(p.grid, ray_x(start, d, n + 1), ray_y(start, d, n + 1)) {
            self.same_state(p)
        } else if p.ray_mark(start, d, n + 1) != 0 {
            &&& self.grid == p.grid
            &&& self.heuristic == p.heuristic
            &&& self.came_from_grid == p.came_from_grid
            &&& self.jump_points@ == p.jump_points@
            &&& self.duplicate_checks == p.duplicate_checks + 1
        } else {
            self.entered_from(p, start, d, n + 1)
        }
    }
}

/// The record `c` of the `k`-th passed cell of a diagonal walk from `start`
/// in `d`, begun at `cost` in `pf0`, after the state `p`: it enters the
/// cell; queues the forced jump point turning left where the neighbour
/// behind on the left opens up, then the one turning right; then walks
/// straight off the cell to the left where that neighbour is open, then to
/// the right.
pub open spec fn diag_cell(
    p: PathFinder,
    c: (PathFinder, PathFinder, PathFinder, PathFinder, PathFinder),
    pf0: PathFinder,
    start: Point2d,
    d: Direction,
    target: Point2d,
    cost: u64,
    k: int,
) -> bool {
    &&& c.0.entered_from(p, start, d, k)
    &&& c.1.pushed_if(
        c.0,
        opens_behind(pf0.grid, start, d, k, 1),
        forced_point(pf0.heuristic, start, d, target, cost, k, 2),
    )
    &&& c.2.pushed_if(
        c.1,
        opens_behind(pf0.grid, start, d, k, -1),
        forced_point(pf0.heuristic, start, d, target, cost, k, -2),
    )
    &&& c.3.side_walked(
        c.2,
        ray_point(start, d, k),
        d.turned(1),
        target,
        side_cost(cost, k),
        side_open(pf0.grid, start, d, k, 1),
    )
    &&& c.4.side_walked(
        c.3,
        ray_point(start, d, k),
        d.turned(-1),
        target,
        side_cost(cost, k),
        side_open(pf0.grid, start, d, k, -1),
    )
}

/// `cells` records the first passed cells of a diagonal walk from `start` in
/// `d`, begun at `cost` in `pf0`, one after the other.
#[verifier::opaque]
pub open spec fn diag_run(
    cells: Seq<(PathFinder, PathFinder, PathFinder, PathFinder, PathFinder)>,
    pf0: PathFinder,
    start: Point2d,
    d: Direction,
    target: Point2d,
    cost: u64,
) -> bool {
    forall|j: int|
        #![trigger cells[j]]
        0 <= j < cells.len() ==> diag_cell(
            cell_before(cells, pf0, j),
            cells[j],
            pf0,
            start,
            d,
            target,
            cost,
            j + 1,
        )
}

impl PathFinder {
    /// What a diagonal walk makes of `mid`: with `n` the cells it passes, it
    /// handles them one after the other as `diag_run` records, and then
    /// stops at its next cell.
    #[verifier::opaque]
    pub open spec fn diag_effect(
        self,
        mid: PathFinder,
        start: Point2d,
        d: Direction,
        target: Point2d,
        cost: u64,
    ) -> bool {
        exists|n: int, cells: Seq<(PathFinder, PathFinder, PathFinder, PathFinder, PathFinder)>|
            #![trigger mid.passes_exactly(start, d, target, n), diag_run(cells, mid, start, d, target, cost)]
            {
                &&& mid.passes_exactly(start, d, target, n)
                &&& cells.len() == n
                &&& diag_run(cells, mid, start, d, target, cost)
                &&& self.stopped_from(cell_before(cells, mid, n), start, d, n)
            }
    }

    /// `self` is what a walk from `start` in `direction`, begun at cost
    /// `cost_to_start` towards `target`, makes of the state `mid`: all that
    /// the walk's contract states.
    #[verifier::opaque]
    pub open spec fn walked_from(
        self,
        mid: PathFinder,
        start: Point2d,
        direction: Direction,
        target: Point2d,
        cost_to_start: u64,
    ) -> bool {
        &&& self.walk_common(mid, start, direction, target)
        &&& direction.spec_is_diagonal() ==> self.diag_effect(
            mid,
            start,
            direction,
            target,
            cost_to_start,
        )
        &&& !direction.spec_is_diagonal() ==> self.straight_effect(
            mid,
            start,
            direction,
            target,
            cost_to_start,
        )
    }

    /// A walk in a straight direction is a straight walk.
    proof fn lemma_walked_straight(
        next: PathFinder,
        mid: PathFinder,
        start: Point2d,
        h: Direction,
        target: Point2d,
        cost: u64,
    )
        requires
            next.walked_from(mid, start, h, target, cost),
            !h.spec_is_diagonal(),
        ensures
            next.straight_walked(mid, start, h, target, cost),
    {
        reveal(PathFinder::walked_from);
        reveal(PathFinder::straight_walked);
    }

    /// A probe for a forced neighbour of a diagonal walk's `k`-th cell, on
    /// the side `turn`: it queues `jp` exactly when that neighbour opens up
    /// there, and changes nothing else.
    proof fn lemma_probe_push(
        prev: PathFinder,
        next: PathFinder,
        g: ByteArray2,
        start: Point2d,
        d: Direction,
        k: int,
        turn: int,
        blocked: bool,
        open: bool,
        jp: JumpPoint,
    )
        requires
            next.grid == prev.grid,
            next.heuristic == prev.heuristic,
            next.came_from_grid == prev.came_from_grid,
            next.duplicate_checks == prev.duplicate_checks,
            next.rank == prev.rank,
            next.next_rank == prev.next_rank,
            blocked && open ==> next.jump_points@ == prev.jump_points@.push(jp),
            !(blocked && open) ==> next.jump_points@ == prev.jump_points@,
            blocked == !side_open(g, start, d, k - 1, 3 * turn),
            open == side_open(g, start, d, k, 3 * turn),
        ensures
            next.pushed_if(prev, opens_behind(g, start, d, k, turn), jp),
    {
    }

    /// A diagonal walk's record run, extended by one more passed cell.
    proof fn lemma_diag_run_push(
        cells: Seq<(PathFinder, PathFinder, PathFinder, PathFinder, PathFinder)>,
        c: (PathFinder, PathFinder, PathFinder, PathFinder, PathFinder),
        pf0: PathFinder,
        start: Point2d,
        d: Direction,
        target: Point2d,
        cost: u64,
    )
        requires
            diag_run(cells, pf0, start, d, target, cost),
            diag_cell(cell_before(cells, pf0, cells.len() as int), c, pf0, start, d, target, cost, cells.len() + 1 as int),
        ensures
            diag_run(cells.push(c), pf0, start, d, target, cost),
            cell_before(cells.push(c), pf0, cells.len() + 1 as int) == c.4,
    {
        reveal(diag_run);
        let t = cells.push(c);
        assert forall|j: int| #![trigger t[j]] 0 <= j < t.len() implies diag_cell(
            cell_before(t, pf0, j),
            t[j],
            pf0,
            start,
            d,
            target,
            cost,
            j + 1,
        ) by {
            if j < cells.len() {
                assert(t[j] == cells[j]);
                assert(cell_before(t, pf0, j) == cell_before(cells, pf0, j));
                assert(diag_cell(cell_before(cells, pf0, j), cells[j], pf0, start, d, target, cost, j + 1));
            } else {
                assert(t[j] == c);
                assert(cell_before(t, pf0, j) == cell_before(cells, pf0, j));
            }
        }
    }

    /// A diagonal walk that passed `n` cells recorded in `cells` and stopped
    /// has the effect `diag_effect`.
    proof fn lemma_diag_effect(
        next: PathFinder,
        mid: PathFinder,
        start: Point2d,
        d: Direction,
        target: Point2d,
        cost: u64,
        n: int,
        cells: Seq<(PathFinder, PathFinder, PathFinder, PathFinder, PathFinder)>,
    )
        requires
            mid.passes_exactly(start, d, target, n),
            cells.len() == n,
            diag_run(cells, mid, start, d, target, cost),
            next.stopped_from(cell_before(cells, mid, n), start, d, n),
        ensures
            next.diag_effect(mid, start, d, target, cost),
    {
        reveal(PathFinder::diag_effect);
    }
}

/// A straight side walk off the `k`-th cell of a diagonal walk begun at
/// `cost` is begun at `cost` plus `k` straight steps (saturating): at the
/// walk's start it is `cost`, and each further diagonal cell adds one
/// straight step.
pub proof fn law_side_cost(cost: u64, k: int)
    requires
        0 <= k,
    ensures
        side_cost(cost, k) == sat_add(cost as int, k * STRAIGHT_COST),
        side_cost(cost, 0) == cost,
        side_cost(cost, k + 1) == sat_add(side_cost(cost, k) as int, STRAIGHT_COST as int),
        side_cost(cost, k) <= side_cost(cost, k + 1),
{
    assert(STRAIGHT_COST * (k + 1) == STRAIGHT_COST * k + STRAIGHT_COST) by (nonlinear_arith);
    assert(0 <= STRAIGHT_COST * k) by (nonlinear_arith)
        requires
            0 <= k,
    ;
}

/// The jump point a walk from `start` in `d`, begun at `cost`, queues at a
/// forced neighbour of its `k`-th cell: it starts at that cell, turns by
/// `turn`, costs `k` steps in its new direction (diagonal when both of its
/// components are non-zero, straight otherwise) more than `cost`, and its
/// total estimate counts that cost twice plus the estimate from its own
/// start to `target` (each sum saturating).
pub proof fn law_forced_point(
    h: Heuristic,
    start: Point2d,
    d: Direction,
    target: Point2d,
    cost: u64,
    k: int,
    turn: int,
)
    requires
        d.is_valid(),
        0 <= k,
        0 <= estimate_value(h, ray_point(start, d, k), target),
    ensures
        forced_point(h, start, d, target, cost, k, turn).start == ray_point(start, d, k),
        forced_point(h, start, d, target, cost, k, turn).direction == d.turned(turn),
        forced_point(h, start, d, target, cost, k, turn).cost_to_start == sat_add(
            cost as int,
            (if d.turned(turn).x != 0 && d.turned(turn).y != 0 {
                DIAGONAL_COST
            } else {
                STRAIGHT_COST
            }) * k,
        ),
        forced_point(h, start, d, target, cost, k, turn).total_cost_estimate == sat_add(
            forced_point(h, start, d, target, cost, k, turn).cost_to_start as int,
            sat_add(
                forced_point(h, start, d, target, cost, k, turn).cost_to_start as int,
                estimate_value(h, forced_point(h, start, d, target, cost, k, turn).start, target),
            ),
        ),
{
    let t = d.turned(turn);
    assert(0 <= step_cost(t) * k) by (nonlinear_arith)
        requires
            0 <= step_cost(t),
            0 <= k,
    ;
}

/// The straight side walks of a diagonal walk from `start` in `d` begun at
/// `cost`: with `n` the cells it passes, off its `k`-th cell (for `k` in
/// `1..=n`) it walks straight to the left, then to the right, from that cell,
/// each walk begun at `cost` plus `k` straight steps (saturating) and taken
/// exactly where that neighbour is open, leaving the state unchanged
/// otherwise.
#[verifier::rlimit(40)]
#[verifier::spinoff_prover]
pub proof fn law_diagonal_side_walks(
    next: PathFinder,
    mid: PathFinder,
    start: Point2d,
    d: Direction,
    target: Point2d,
    cost: u64,
)
    requires
        next.diag_effect(mid, start, d, target, cost),
    ensures
        exists|n: int, cells: Seq<(PathFinder, PathFinder, PathFinder, PathFinder, PathFinder)>|
            #![trigger mid.passes_exactly(start, d, target, n), cells.len()]
            {
                &&& mid.passes_exactly(start, d, target, n)
                &&& cells.len() == n
                &&& forall|k: int|
                    #![trigger cells[k - 1]]
                    1 <= k <= n ==> {
                        &&& (if side_open(mid.grid, start, d, k, 1) {
                            cells[k - 1].3.straight_walked(
                                cells[k - 1].2,
                                ray_point(start, d, k),
                                d.turned(1),
                                target,
                                sat_add(cost as int, k * STRAIGHT_COST) as u64,
                            )
                        } else {
                            cells[k - 1].3 == cells[k - 1].2
                        })
                        &&& (if side_open(mid.grid, start, d, k, -1) {
                            cells[k - 1].4.straight_walked(
                                cells[k - 1].3,
                                ray_point(start, d, k),
                                d.turned(-1),
                                target,
                                sat_add(cost as int, k * STRAIGHT_COST) as u64,
                            )
                        } else {
                            cells[k - 1].4 == cells[k - 1].3
                        })
                    }
            },
{
    reveal(PathFinder::diag_effect);
    let (n, cells) = choose|n: int, cells: Seq<(PathFinder, PathFinder, PathFinder, PathFinder, PathFinder)>|
        #![trigger mid.passes_exactly(start, d, target, n), diag_run(cells, mid, start, d, target, cost)]
        {
            &&& mid.passes_exactly(start, d, target, n)
            &&& cells.len() == n
            &&& diag_run(cells, mid, start, d, target, cost)
            &&& next.stopped_from(cell_before(cells, mid, n), start, d, n)
        };
    reveal(diag_run);
    assert forall|k: int| #![trigger cells[k - 1]] 1 <= k <= n implies {
        &&& (if side_open(mid.grid, start, d, k, 1) {
            cells[k - 1].3.straight_walked(
                cells[k - 1].2,
                ray_point(start, d, k),
                d.turned(1),
                target,
                sat_add(cost as int, k * STRAIGHT_COST) as u64,
            )
        } else {
            cells[k - 1].3 == cells[k - 1].2
        })
        &&& (if side_open(mid.grid, start, d, k, -1) {
            cells[k - 1].4.straight_walked(
                cells[k - 1].3,
                ray_point(start, d, k),
                d.turned(-1),
                target,
                sat_add(cost as int, k * STRAIGHT_COST) as u64,
            )
        } else {
            cells[k - 1].4 == cells[k - 1].3
        })
    } by {
        let j = k - 1;
        assert(diag_cell(cell_before(cells, mid, j), cells[j], mid, start, d, target, cost, j + 1));
        law_side_cost(cost, k);
    }
    assert(cells.len() == n);
}

impl PathFinder {
    /// What a walk's contract states is `walked_from`.
    proof fn lemma_walked(
        mid: PathFinder,
        next: PathFinder,
        start: Point2d,
        direction: Direction,
        target: Point2d,
        cost_to_start: u64,
    )
        requires
            next.shapes_agree(),
            next.extends(mid),
            mid.jump_points@.len() <= next.jump_points@.len(),
            mid.duplicate_checks <= next.duplicate_checks,
            mid.jump_points@.is_prefix_of(next.jump_points@),
            next.keeps_outside(mid, start, direction),
            next.walk_result(mid, start, direction, target),
            next.chains_to(mid, start),
            next.new_points_ok(mid, target),
            next.continued_new(mid, target, target),
            direction.spec_is_diagonal() ==> next.diag_effect(mid, start, direction, target, cost_to_start),
            !direction.spec_is_diagonal() ==> exists|n: int|
                #![trigger mid.passes_exactly(start, direction, target, n)]
                {
                    &&& mid.passes_exactly(start, direction, target, n)
                    &&& next.jump_points@ == mid.jump_points@ + straight_points(
                        mid.grid,
                        mid.heuristic,
                        start,
                        direction,
                        target,
                        cost_to_start,
                        n,
                    )
                    &&& next.duplicate_checks == mid.duplicate_checks + (if is_open(
                        mid.grid,
                        ray_x(start, direction, n + 1),
                        ray_y(start, direction, n + 1),
                    ) && mid.ray_mark(start, direction, n + 1) != 0 {
                        1int
                    } else {
                        0int
                    })
                },
        ensures
            next.walked_from(mid, start, direction, target, cost_to_start),
    {
        reveal(PathFinder::walked_from);
    }
}

/// The cells of a returned path, if any.
pub open spec fn path_cells(r: Option<Vec<Point2d>>) -> Option<Seq<Point2d>> {
    match r {
        Some(p) => Some(p@),
        None => None,
    }
}

/// The code the search marks a neighbour of `source` with when it starts:
/// the code of the direction from `source` to `(x, y)`, or 0 for any other
/// cell.
pub open spec fn seed_mark(source: Point2d, x: int, y: int) -> u8 {
    let dx = x - source.x;
    let dy = y - source.y;
    if -1 <= dx <= 1 && -1 <= dy <= 1 && !(dx == 0 && dy == 0) {
        (Direction { x: dx as i32, y: dy as i32 }).code() as u8
    } else {
        0
    }
}

/// The jump point the search queues first for the `j`-th start offset: one
/// step from `source`, costing one straight or diagonal step, with that cost
/// plus the estimate `h` gives from there to `target` (saturating).
pub open spec fn seed_point(h: Heuristic, source: Point2d, target: Point2d, j: int) -> JumpPoint {
    let off = start_offsets()[j];
    let node = Point2d { x: (source.x + off.0) as usize, y: (source.y + off.1) as usize };
    let cost: int = if j > 3 {
        DIAGONAL_COST as int
    } else {
        STRAIGHT_COST as int
    };
    JumpPoint {
        start: node,
        direction: Direction { x: off.0, y: off.1 },
        cost_to_start: cost as u64,
        total_cost_estimate: sat_add(cost, estimate_value(h, node, target)) as u64,
    }
}

impl PathFinder {
    /// `self` is a search over `g` by `h` from `source` to `target` right
    /// after it started: the eight neighbours of the source are marked with
    /// the code leading to them and queued in the order of `start_offsets`,
    /// nothing else is marked, and the counter is `dups`.
    #[verifier::opaque]
    pub open spec fn is_seeded(
        self,
        g: ByteArray2,
        h: Heuristic,
        source: Point2d,
        target: Point2d,
        dups: u64,
    ) -> bool {
        &&& self.grid == g
        &&& self.heuristic == h
        &&& self.duplicate_checks == dups
        &&& self.shapes_agree()
        &&& self.jump_points@ == Seq::new(8, |j: int| seed_point(h, source, target, j))
        &&& forall|x: int, y: int|
            #![trigger self.mark(x, y)]
            in_bounds(g, x, y) ==> self.mark(x, y) == seed_mark(source, x, y)
    }

    /// One round of the search towards `target`: `next` comes from `self` by
    /// taking off the queue its first jump point of least total estimate and
    /// walking from it.
    #[verifier::opaque]
    pub open spec fn search_step(self, next: PathFinder, target: Point2d) -> bool {
        exists|i: int, mid: PathFinder|
            #![trigger next.walked_from(
                mid,
                self.jump_points@[i].start,
                self.jump_points@[i].direction,
                target,
                self.jump_points@[i].cost_to_start,
            )]
            {
                &&& is_first_min(self.jump_points@, i)
                &&& mid.jump_points@ == self.jump_points@.remove(i)
                &&& mid.came_from_grid == self.came_from_grid
                &&& mid.grid == self.grid
                &&& mid.heuristic == self.heuristic
                &&& mid.duplicate_checks == self.duplicate_checks
                &&& mid.rank == self.rank
                &&& mid.next_rank == self.next_rank
                &&& next.walked_from(
                    mid,
                    self.jump_points@[i].start,
                    self.jump_points@[i].direction,
                    target,
                    self.jump_points@[i].cost_to_start,
                )
            }
    }
}

/// `trace` runs the search towards `target` from its first state: each later
/// state comes from the one before by a round, taken while the target is
/// unmarked (the first round is always taken).
#[verifier::opaque]
pub open spec fn search_run(trace: Seq<PathFinder>, target: Point2d) -> bool {
    &&& trace.len() >= 1
    &&& forall|i: int|
        #![trigger trace[i]]
        0 <= i < trace.len() - 1 ==> trace[i].search_step(trace[i + 1], target) && (i > 0
            ==> !trace[i].marked(target.x as int, target.y as int))
}

/// The outcome of a search run `trace` towards `target` from `source`: it
/// stops after a round that marks the target, with the path along the
/// marks, or when the queue runs empty with the target unmarked, with
/// `None`.
pub open spec fn search_outcome(
    trace: Seq<PathFinder>,
    source: Point2d,
    target: Point2d,
    r: Option<Seq<Point2d>>,
) -> bool {
    let last = trace.last();
    &&& trace.len() >= 2
    &&& match r {
        Some(path) => last.marked(target.x as int, target.y as int) && path == last.chain_path(
            source,
            target,
        ),
        None => !last.marked(target.x as int, target.y as int) && last.jump_points@.len() == 0,
    }
}

/// A run extended by one more round is a run.
proof fn lemma_trace_push(
    trace: Seq<PathFinder>,
    a: PathFinder,
    mid: PathFinder,
    next: PathFinder,
    target: Point2d,
    i: int,
)
    requires
        search_run(trace, target),
        trace.last() == a,
        trace.len() >= 2 ==> !a.marked(target.x as int, target.y as int),
        is_first_min(a.jump_points@, i),
        mid.jump_points@ == a.jump_points@.remove(i),
        mid.came_from_grid == a.came_from_grid,
        mid.grid == a.grid,
        mid.heuristic == a.heuristic,
        mid.duplicate_checks == a.duplicate_checks,
        mid.rank == a.rank,
        mid.next_rank == a.next_rank,
        next.walked_from(
            mid,
            a.jump_points@[i].start,
            a.jump_points@[i].direction,
            target,
            a.jump_points@[i].cost_to_start,
        ),
    ensures
        search_run(trace.push(next), target),
        trace.push(next)[0] == trace[0],
        trace.push(next).last() == next,
        trace.push(next).len() >= 2,
{
    reveal(PathFinder::search_step);
    reveal(search_run);
    assert(a.search_step(next, target));
    let t = trace.push(next);
    assert forall|k: int|
        #![trigger t[k]]
        0 <= k < t.len() - 1 implies t[k].search_step(t[k + 1], target) && (k > 0
            ==> !t[k].marked(target.x as int, target.y as int)) by {
        if k < trace.len() - 1 {
            assert(t[k] == trace[k]);
            assert(t[k + 1] == trace[k + 1]);
            assert(trace[k].search_step(trace[k + 1], target));
        } else {
            assert(t[k] == a);
        }
    }
}

impl PathFinder {
    /// Taking a jump point off the queue keeps the invariant and every mark;
    /// the jump point starts at a marked cell and has a valid direction.
    proof fn lemma_pop_keeps_wf(a: PathFinder, b: PathFinder, source: Point2d, i: int)
        requires
            a.wf(source),
            0 <= i < a.jump_points@.len(),
            b.jump_points@ == a.jump_points@.remove(i),
            b.came_from_grid == a.came_from_grid,
            b.grid == a.grid,
            b.heuristic == a.heuristic,
            b.rank == a.rank,
            b.next_rank == a.next_rank,
        ensures
            b.wf(source),
            b.extends(a),
            b.unvisited() == a.unvisited(),
            in_bounds(a.grid, a.jump_points@[i].start.x as int, a.jump_points@[i].start.y as int),
            a.marked(a.jump_points@[i].start.x as int, a.jump_points@[i].start.y as int),
            a.jump_points@[i].direction.is_valid(),
    {
        assert(a.jp_ok(a.jump_points@[i]));
        assert forall|k: int| 0 <= k < b.jump_points@.len() implies a.jp_ok(
            #[trigger] b.jump_points@[k],
        ) by {
            if k < i {
                assert(b.jump_points@[k] == a.jump_points@[k]);
            } else {
                assert(b.jump_points@[k] == a.jump_points@[k + 1]);
            }
        }
        PathFinder::lemma_same_marks(a, b, source);
    }

    /// The parts of a search state that a caller sees: grid, estimate, marks,
    /// queue and counter.
    pub open spec fn same_state(self, other: PathFinder) -> bool {
        &&& self.grid == other.grid
        &&& self.heuristic == other.heuristic
        &&& self.came_from_grid == other.came_from_grid
        &&& self.jump_points@ == other.jump_points@
        &&& self.duplicate_checks == other.duplicate_checks
    }
}

impl PathFinder {
    /// After a round of the search the invariant holds again, every walk is
    /// still pending or done, and the run goes on by that round.
    proof fn lemma_after_round(
        trace: Seq<PathFinder>,
        a: PathFinder,
        mid: PathFinder,
        next: PathFinder,
        source: Point2d,
        target: Point2d,
        i: int,
    )
        requires
            a.wf(source),
            mid.wf(source),
            a.walks_pending(target),
            search_run(trace, target),
            trace.last() == a,
            trace.len() >= 2 ==> !a.marked(target.x as int, target.y as int),
            is_first_min(a.jump_points@, i),
            mid.jump_points@ == a.jump_points@.remove(i),
            mid.came_from_grid == a.came_from_grid,
            mid.grid == a.grid,
            mid.heuristic == a.heuristic,
            mid.duplicate_checks == a.duplicate_checks,
            mid.rank == a.rank,
            mid.next_rank == a.next_rank,
            in_bounds(a.grid, a.jump_points@[i].start.x as int, a.jump_points@[i].start.y as int),
            a.marked(a.jump_points@[i].start.x as int, a.jump_points@[i].start.y as int),
            a.jump_points@[i].direction.is_valid(),
            next.walked_from(
                mid,
                a.jump_points@[i].start,
                a.jump_points@[i].direction,
                target,
                a.jump_points@[i].cost_to_start,
            ),
        ensures
            next.wf(source),
            next.walks_pending(target),
            search_run(trace.push(next), target),
            trace.push(next)[0] == trace[0],
            trace.push(next).last() == next,
            trace.push(next).len() >= 2,
    {
        reveal(PathFinder::walked_from);
        let jp = a.jump_points@[i];
        PathFinder::lemma_walks_pending_pop(a, mid, next, target, i);
        PathFinder::lemma_walk_keeps_wf(mid, next, source, jp.start, target);
        lemma_trace_push(trace, a, mid, next, target, i);
    }
}

/// A run that starts seeded, ends in `fin` and has outcome `r` witnesses
/// the search's result.
proof fn lemma_search_witness(
    trace: Seq<PathFinder>,
    fin: PathFinder,
    g: ByteArray2,
    h: Heuristic,
    source: Point2d,
    target: Point2d,
    dups: u64,
    r: Option<Seq<Point2d>>,
)
    requires
        trace[0].is_seeded(g, h, source, target, dups),
        search_run(trace, target),
        trace.last().same_state(fin),
        search_outcome(trace, source, target, r),
    ensures
        exists|t: Seq<PathFinder>|
            #![trigger search_run(t, target)]
            {
                &&& t[0].is_seeded(g, h, source, target, dups)
                &&& search_run(t, target)
                &&& t.last().same_state(fin)
                &&& search_outcome(t, source, target, r)
            },
{
}

/// The direction at any angle in `0..8` is valid.
proof fn lemma_dir_at_range(k: int)
    requires
        0 <= k < 8,
    ensures
        dir_at(k).is_valid(),
{
}

/// The eight moves tried first from the source: the four straight ones,
/// then the four diagonal ones.
pub open spec fn start_offsets() -> Seq<(i32, i32)> {
    seq![
        (1i32, 0i32),
        (0i32, 1i32),
        (-1i32, 0i32),
        (0i32, -1i32),
        (1i32, 1i32),
        (-1i32, 1i32),
        (-1i32, -1i32),
        (1i32, -1i32),
    ]
}

/// A neighbour of `s` is `s` moved by one of the start offsets.
proof fn lemma_adjacent_offset(s: Point2d, t: Point2d) -> (j: int)
    requires
        adjacent(s, t),
    ensures
        0 <= j < 8,
        t.x == s.x + start_offsets()[j].0,
        t.y == s.y + start_offsets()[j].1,
{
    let dx = t.x - s.x;
    let dy = t.y - s.y;
    if dx == 1 && dy == 0 {
        0
    } else if dx == 0 && dy == 1 {
        1
    } else if dx == -1 && dy == 0 {
        2
    } else if dx == 0 && dy == -1 {
        3
    } else if dx == 1 && dy == 1 {
        4
    } else if dx == -1 && dy == 1 {
        5
    } else if dx == -1 && dy == -1 {
        6
    } else {
        7
    }
}

/// The largest cell count of a grid whose axes fit an `i32`, bounds the
/// search's counter.
pub proof fn lemma_cells_bound(rows: int, cols: int)
    requires
        0 <= rows <= i32::MAX,
        0 <= cols <= i32::MAX,
    ensures
        4 * (rows * cols) + 9 <= u64::MAX,
{
    assert(rows * cols <= 0x3FFF_FFFF_0000_0001) by (nonlinear_arith)
        requires
            0 <= rows <= 0x7FFF_FFFF,
            0 <= cols <= 0x7FFF_FFFF,
    ;
}

impl PathFinder {
    /// A fresh state satisfies the invariant of a search from any source
    /// whose eight neighbours are cells of the grid.
    proof fn lemma_fresh_wf(self, source: Point2d)
        requires
            self.is_unstarted(),
            shape_fits(self.grid),
            interior(self.grid, source.x as int, source.y as int),
        ensures
            self.wf(source),
            self.unvisited() == array_cells(self.grid).len(),
    {
        let cols = self.grid.cols();
        assert forall|x: int, y: int|
            #![trigger self.mark(x, y)]
            in_bounds(self.grid, x, y) && self.mark(x, y) != 0 implies self.mark_ok(source, x, y) by {
            lemma_cell_index(self.grid.rows(), cols, y, x, y, x);
        }
        lemma_count_zeros_all(array_cells(self.grid).len());
    }

    /// Searches for a path from `source` to `target`, returning the cells
    /// from `source` to `target`; `None` when either end is a wall (0) or
    /// the search runs out of jump points. Every path found moves by unit
    /// steps through open cells without visiting a cell twice (the cell after
    /// the source may be any cell next to it) and follows the marks back from
    /// the target; a target next to the source is reached directly. The
    /// search starts by marking and queuing the eight neighbours of the
    /// source, so all eight end up marked. A wall
    /// at either end leaves the state as it was; a search that runs out of
    /// jump points has taken every walk on to a blocked or already marked
    /// cell (`walks_done`). With both ends open the state must be unstarted,
    /// and the result is the outcome of a run of the search (`search_run`):
    /// it starts seeded (`is_seeded`), and each round takes off the queue a
    /// first jump point of least total estimate and walks from it
    /// (`search_step`, `walked_from`).
    #[verifier::rlimit(100)]
    #[verifier::spinoff_prover]
    pub fn find_path(&mut self, source: &Point2d, target: &Point2d) -> (r: Option<Vec<Point2d>>)
        requires
            search_fits(old(self).grid, old(self).heuristic, *source, *target),
            old(self).grid.at(source.y as int, source.x as int) != 0 && old(self).grid.at(
                target.y as int,
                target.x as int,
            ) != 0 ==> old(self).is_unstarted() && old(self).duplicate_checks + 4 * array_cells(
                old(self).grid,
            ).len() + 9 <= u64::MAX,
        ensures
            final(self).grid == old(self).grid,
            old(self).grid.at(source.y as int, source.x as int) == 0 ==> r is None,
            old(self).grid.at(target.y as int, target.x as int) == 0 ==> r is None,
            old(self).grid.at(source.y as int, source.x as int) == 0 || old(self).grid.at(
                target.y as int,
                target.x as int,
            ) == 0 ==> *final(self) == *old(self),
            r matches Some(path) ==> is_grid_path(old(self).grid, *source, *target, path@),
            r matches Some(path) ==> follows_marks(*final(self), path@),
            old(self).grid.at(source.y as int, source.x as int) != 0 && old(self).grid.at(
                target.y as int,
                target.x as int,
            ) != 0 && r is None ==> final(self).walks_done(*target),
            old(self).grid.at(source.y as int, source.x as int) != 0 && old(self).grid.at(
                target.y as int,
                target.x as int,
            ) != 0 ==> forall|j: int|
                0 <= j < 8 ==> final(self).mark(
                    source.x + (#[trigger] start_offsets()[j]).0,
                    source.y + start_offsets()[j].1,
                ) != 0,
            old(self).grid.at(source.y as int, source.x as int) != 0 && old(self).grid.at(
                target.y as int,
                target.x as int,
            ) != 0 ==> {
                &&& final(self).wf(*source)
                &&& (r is Some <==> final(self).marked(target.x as int, target.y as int))
                &&& (r is None ==> final(self).jump_points@.len() == 0)
            },
            old(self).grid.at(source.y as int, source.x as int) != 0 && old(self).grid.at(
                target.y as int,
                target.x as int,
            ) != 0 ==> exists|trace: Seq<PathFinder>|
                #![trigger search_run(trace, *target)]
                {
                    &&& trace[0].is_seeded(
                        old(self).grid,
                        old(self).heuristic,
                        *source,
                        *target,
                        old(self).duplicate_checks,
                    )
                    &&& search_run(trace, *target)
                    &&& trace.last().same_state(*final(self))
                    &&& search_outcome(trace, *source, *target, path_cells(r))
                },
            old(self).grid.at(source.y as int, source.x as int) != 0 && old(self).grid.at(
                target.y as int,
                target.x as int,
            ) != 0 && adjacent(*source, *target) ==> (r matches Some(path) && path@ == seq![
                *source,
                *target,
            ]),
    {
        if self.grid.get(source.y, source.x) == 0 {
            return None;
        }
        if self.grid.get(target.y, target.x) == 0 {
            return None;
        }
        let ghost g = self.grid;
        let heuristic = self.heuristic;
        proof {
            self.lemma_fresh_wf(*source);
            assert forall|x: int, y: int|
                #![trigger self.mark(x, y)]
                in_bounds(g, x, y) implies self.mark(x, y) == 0 by {
                lemma_cell_index(g.rows(), g.cols(), y, x, y, x);
            }
            PathFinder::lemma_walks_pending_unmarked(*self, *target);
        }
        let offsets: Vec<(i32, i32)> = vec![
            (1, 0),
            (0, 1),
            (-1, 0),
            (0, -1),
            (1, 1),
            (-1, 1),
            (-1, -1),
            (1, -1),
        ];
        assert(offsets@ == start_offsets());
        let mut index: usize = 0;
        while index < offsets.len()
            invariant
                self.wf(*source),
                self.grid == g,
                old(self).grid == g,
                self.heuristic == heuristic,
                offsets@ == start_offsets(),
                index <= 8,
                self.jump_points@.len() == index,
                self.jump_points@ == Seq::new(index as nat, |j: int| seed_point(heuristic, *source, *target, j)),
                self.walks_pending(*target),
                self.duplicate_checks == old(self).duplicate_checks,
                self.unvisited() <= array_cells(g).len(),
                shape_fits(g),
                self.duplicate_checks + 4 * array_cells(g).len() + 9 <= u64::MAX,
                in_bounds(g, target.x as int, target.y as int),
                estimable_to(g, heuristic, *target),
                interior(g, source.x as int, source.y as int),
                forall|x: int, y: int|
                    #![trigger self.mark(x, y)]
                    in_bounds(g, x, y) && self.mark(x, y) != 0 ==> back_x(self.mark(x, y), x)
                        == source.x && back_y(self.mark(x, y), y) == source.y,
                forall|j: int|
                    0 <= j < index ==> self.marked(
                        source.x + (#[trigger] start_offsets()[j]).0,
                        source.y + start_offsets()[j].1,
                    ),
            decreases 8 - index,
        {
            let n = offsets[index];
            let cost_to_start = if index > 3 {
                DIAGONAL_COST
            } else {
                STRAIGHT_COST
            };
            let new_node = source.add_tuple(n);
            proof {
                if heuristic == Heuristic::Euclidean {
                    assert(sq_dist_fits(new_node.x as int, new_node.y as int, *target));
                }
                if heuristic == Heuristic::Manhattan {
                    assert(sum_dist_fits(new_node.x as int, new_node.y as int, *target));
                }
            }
            let estimate = heuristic.estimate(new_node, *target);
            let dir = Direction { x: n.0, y: n.1 };
            let _left_blocked = self.new_point_in_grid(source, dir.left()).is_none();
            let _right_blocked = self.new_point_in_grid(source, dir.right()).is_none();
            let ghost before = *self;
            self.jump_points.push(
                JumpPoint {
                    start: new_node,
                    direction: dir,
                    cost_to_start: cost_to_start,
                    total_cost_estimate: cost_to_start.saturating_add(estimate),
                },
            );
            proof {
                lemma_estimate_value(heuristic, new_node, *target, estimate as int);
                assert(self.jump_points@ =~= Seq::new(
                    (index + 1) as nat,
                    |j: int| seed_point(heuristic, *source, *target, j),
                ));
            }
            let ghost pushed = *self;
            let already = self.add_came_from(&new_node, dir);
            proof {
                let x = new_node.x as int;
                let y = new_node.y as int;
                lemma_cell_index(g.rows(), g.cols(), y, x, y, x);
                if !already {
                    PathFinder::lemma_mark_keeps_wf(before, *self, *source, x, y, dir);
                }
                PathFinder::lemma_walks_pending_seed(before, *self, *target, x, y, dir);
                if already {
                    assert forall|i: int| 0 <= i < self.jump_points@.len() implies before.jp_ok(
                        #[trigger] self.jump_points@[i],
                    ) by {
                        if i < before.jump_points@.len() {
                            assert(self.jump_points@[i] == before.jump_points@[i]);
                        }
                    }
                    PathFinder::lemma_same_marks(before, *self, *source);
                } else {
                    assert forall|k: int| 0 <= k < self.jump_points@.len() implies before.jp_ok(
                        #[trigger] self.jump_points@[k],
                    ) || (self.jump_points@[k].start.x == x && self.jump_points@[k].start.y == y
                        && self.jump_points@[k].direction.is_valid()) by {
                        if k < before.jump_points@.len() {
                            assert(self.jump_points@[k] == before.jump_points@[k]);
                        }
                    }
                    PathFinder::lemma_mark_keeps_wf(before, *self, *source, x, y, dir);
                    lemma_dir_at_angle(dir);
                    assert forall|a: int, b: int|
                        #![trigger self.mark(a, b)]
                        in_bounds(g, a, b) && self.mark(a, b) != 0 implies back_x(self.mark(a, b), a)
                            == source.x && back_y(self.mark(a, b), b) == source.y by {
                        if a != x || b != y {
                            lemma_cell_index(g.rows(), g.cols(), b, a, y, x);
                            assert(before.mark(a, b) != 0);
                        }
                    }
                }
                assert forall|j: int| 0 <= j < index + 1 implies self.marked(
                    source.x + (#[trigger] start_offsets()[j]).0,
                    source.y + start_offsets()[j].1,
                ) by {
                    if j < index {
                        let a = source.x + start_offsets()[j].0;
                        let b = source.y + start_offsets()[j].1;
                        assert(before.mark(a, b) != 0);
                        assert(self.mark(a, b) == before.mark(a, b));
                    }
                }
            }
            index = index + 1;
        }
        proof {
            if adjacent(*source, *target) {
                let j = lemma_adjacent_offset(*source, *target);
                assert(self.marked(
                    source.x + start_offsets()[j].0,
                    source.y + start_offsets()[j].1,
                ));
                assert(self.mark(target.x as int, target.y as int) != 0);
            }
            assert forall|x: int, y: int|
                #![trigger self.mark(x, y)]
                in_bounds(g, x, y) implies self.mark(x, y) == seed_mark(*source, x, y) by {
                let dx = x - source.x;
                let dy = y - source.y;
                if -1 <= dx <= 1 && -1 <= dy <= 1 && !(dx == 0 && dy == 0) {
                    let j = lemma_adjacent_offset(
                        *source,
                        Point2d { x: x as usize, y: y as usize },
                    );
                    assert(self.marked(
                        source.x + start_offsets()[j].0,
                        source.y + start_offsets()[j].1,
                    ));
                    assert(self.mark(x, y) != 0);
                    assert(self.mark_ok(*source, x, y));
                    assert(self.link_ok(*source, x, y));
                }
                if self.mark(x, y) != 0 {
                    assert(self.mark_ok(*source, x, y));
                    assert(self.link_ok(*source, x, y));
                }
            }
            assert(self.is_seeded(g, heuristic, *source, *target, old(self).duplicate_checks)) by {
                reveal(PathFinder::is_seeded);
            }
        }
        let ghost pf_init = *self;
        let ghost mut trace: Seq<PathFinder> = seq![*self];
        proof {
            reveal(search_run);
            assert(search_run(trace, *target));
        }
        loop
            invariant
                self.wf(*source),
                self.grid == g,
                old(self).grid == g,
                self.heuristic == heuristic,
                self.extends(pf_init),
                pf_init.grid == g,
                old(self).heuristic == heuristic,
                trace.len() >= 1,
                trace[0].is_seeded(g, heuristic, *source, *target, old(self).duplicate_checks),
                search_run(trace, *target),
                trace.last() == *self,
                trace.len() >= 2 ==> !self.marked(target.x as int, target.y as int),
                trace.len() == 1 ==> self.jump_points@.len() == 8,
                g.at(source.y as int, source.x as int) != 0,
                g.at(target.y as int, target.x as int) != 0,
                self.budget_used() + 1 <= u64::MAX,
                in_bounds(g, target.x as int, target.y as int),
                estimable_to(g, heuristic, *target),
                adjacent(*source, *target) ==> self.jump_points@.len() > 0,
                self.jump_points@.len() > 0 || !self.marked(target.x as int, target.y as int),
                self.walks_pending(*target),
                interior(g, source.x as int, source.y as int),
                forall|j: int|
                    0 <= j < 8 ==> self.mark(
                        source.x + (#[trigger] start_offsets()[j]).0,
                        source.y + start_offsets()[j].1,
                    ) != 0,
                adjacent(*source, *target) ==> pf_init.mark(target.x as int, target.y as int) != 0
                    && back_x(pf_init.mark(target.x as int, target.y as int), target.x as int)
                    == source.x && back_y(pf_init.mark(target.x as int, target.y as int), target.y as int)
                    == source.y,
            decreases self.work_left(),
        {
            let ghost before_pop = *self;
            match self.jump_points.pop() {
                Some(jp) => {
                    let ghost i = choose|i: int|
                        #![trigger before_pop.jump_points@[i]]
                        is_first_min(before_pop.jump_points@, i) && Some(jp) == Some(before_pop.jump_points@[i])
                            && self.jump_points@ == before_pop.jump_points@.remove(i);
                    proof {
                        PathFinder::lemma_pop_keeps_wf(before_pop, *self, *source, i);
                        PathFinder::lemma_extends_trans(*self, before_pop, pf_init);
                    }
                    let ghost before_call = *self;
                    self.traverse(jp.start, jp.direction, target, jp.cost_to_start);
                    proof {
                        PathFinder::lemma_extends_trans(*self, before_call, pf_init);
                        PathFinder::lemma_after_round(
                            trace,
                            before_pop,
                            before_call,
                            *self,
                            *source,
                            *target,
                            i,
                        );
                        trace = trace.push(*self);
                    }
                    if self.came_from_grid.get(target.y, target.x) != 0 {
                        proof {
                            self.lemma_wf_chain(*source);
                            let n = self.lemma_chain_from_marks(*source, *target);
                        }
                        let r = self.construct_path(*source, *target, true);
                        proof {
                            if adjacent(*source, *target) {
                                let path = r->0@;
                                let n = path.len() as int;
                                assert(self.mark(target.x as int, target.y as int) == pf_init.mark(
                                    target.x as int,
                                    target.y as int,
                                ));
                                assert(path[n - 1] == *target);
                                if n >= 2 {
                                    assert(path[n - 2].x == source.x && path[n - 2].y == source.y);
                                    if n > 2 {
                                        assert(path[n - 2] != *source);
                                    }
                                }
                                assert(path =~= seq![*source, *target]);
                            }
                            assert(search_outcome(trace, *source, *target, path_cells(r)));
                            lemma_search_witness(
                                trace,
                                *self,
                                old(self).grid,
                                old(self).heuristic,
                                *source,
                                *target,
                                old(self).duplicate_checks,
                                path_cells(r),
                            );
                        }
                        return r;
                    }
                    proof {
                        if adjacent(*source, *target) {
                            assert(self.mark(target.x as int, target.y as int) == pf_init.mark(
                                target.x as int,
                                target.y as int,
                            ));
                        }
                    }
                },
                None => {
                    proof {
                        PathFinder::lemma_same_marks(before_pop, *self, *source);
                        assert(self.came_from_grid == before_pop.came_from_grid);
                        PathFinder::lemma_walks_done(before_pop, *target);
                        assert(self.marked(target.x as int, target.y as int) == before_pop.marked(
                            target.x as int,
                            target.y as int,
                        ));
                        assert(before_pop.same_state(*self));
                        assert(search_outcome(trace, *source, *target, path_cells(None)));
                        lemma_search_witness(
                            trace,
                            *self,
                            old(self).grid,
                            old(self).heuristic,
                            *source,
                            *target,
                            old(self).duplicate_checks,
                            path_cells(None),
                        );
                    }
                    return None;
                },
            }
        }
    }
}

} // verus!
