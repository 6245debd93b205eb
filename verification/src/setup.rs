use crate::cost::Heuristic;
use crate::grid::{array_cells, array_shape, ByteArray2};
use crate::pathfinder::{
    estimates_fit, lemma_estimable, path_cells, search_fits, search_outcome, search_run, PathFinder,
};
use crate::point::Point2d;
use crate::search_spec::{adjacent, in_bounds, interior, is_grid_path, shape_fits};
use vstd::prelude::*;

verus! {

/// Side length of the square test grids.
pub const TEST_GRID_SIZE: usize = 100;

/// Runs an octal-guided jump point search from `source` to `target`: `None`
/// when either end is a wall (0) or no path is found, otherwise the cells of
/// a path from `source` to `target` moving by unit steps through open
/// cells without visiting a cell twice (the cell after the source may be
/// any cell next to it). With both ends open, the result is the outcome of
/// a run of the search (`search_run`) from the start in which the eight
/// neighbours of the source are queued with their octal estimates, each
/// round walking from a first jump point of least total estimate.
pub fn jps_test(grid: ByteArray2, source: Point2d, target: Point2d) -> (r: Option<Vec<Point2d>>)
    requires
        search_fits(grid, Heuristic::Octal, source, target),
    ensures
        grid.at(source.y as int, source.x as int) == 0 ==> r is None,
        grid.at(target.y as int, target.x as int) == 0 ==> r is None,
        r matches Some(path) ==> is_grid_path(grid, source, target, path@),
        grid.at(source.y as int, source.x as int) != 0 && grid.at(target.y as int, target.x as int)
            != 0 ==> exists|trace: Seq<PathFinder>|
            #![trigger search_run(trace, target)]
            {
                &&& trace[0].is_seeded(grid, Heuristic::Octal, source, target, 0)
                &&& search_run(trace, target)
                &&& search_outcome(trace, source, target, path_cells(r))
            },
        grid.at(source.y as int, source.x as int) != 0 && grid.at(target.y as int, target.x as int)
            != 0 && adjacent(source, target) ==> (r matches Some(path) && path@ == seq![
            source,
            target,
        ]),
{
    let heuristic = Heuristic::from_name("octal");
    proof {
        reveal_strlit("octal");
        reveal_strlit("manhattan");
        assert("octal"@.len() != "manhattan"@.len());
    }
    let mut pf = PathFinder::new(grid, heuristic);
    proof {
        crate::pathfinder::lemma_cells_bound(grid.rows(), grid.cols());
    }
    let path = pf.find_path(&source, &target);
    return path;
}

/// `g` is a `size` by `size` grid holding 1 inside its frame and 0 on it.
pub open spec fn is_framed_square(g: ByteArray2, size: usize) -> bool {
    &&& array_shape(g) == (size, size)
    &&& array_cells(g).len() == size * size
    &&& forall|x: int, y: int|
        #![trigger g.at(y, x)]
        0 <= x < size && 0 <= y < size ==> g.at(y, x) == (if interior(g, x, y) {
            1u8
        } else {
            0u8
        })
}

/// A `size` by `size` grid of open cells (1) framed by walls (0).
pub fn grid_setup(size: usize) -> (g: ByteArray2)
    requires
        size * size <= isize::MAX,
    ensures
        is_framed_square(g, size),
{
    let mut ndarray = ByteArray2::ones((size, size));
    let ghost ones = ndarray;
    proof {
        assert forall|a: int, b: int|
            #![trigger ndarray.at(b, a)]
            0 <= a < size && 0 <= b < size implies ndarray.at(b, a) == 1u8 by {
            crate::search_spec::lemma_cell_index(size as int, size as int, b, a, b, a);
        }
    }
    let mut y: usize = 0;
    while y < size
        invariant
            array_shape(ndarray) == (size, size),
            array_cells(ndarray).len() == size * size,
            size * size <= isize::MAX,
            0 <= y <= size,
            array_cells(ones) == Seq::new((size * size) as nat, |i: int| 1u8),
            forall|a: int, b: int|
                #![trigger ndarray.at(b, a)]
                0 <= a < size && 0 <= b < size ==> ndarray.at(b, a) == (if (a == 0 || a == size
                    - 1) && b < y {
                    0u8
                } else {
                    1u8
                }),
        decreases size - y,
    {
        let ghost prev = ndarray;
        proof {
            crate::search_spec::lemma_cell_index(size as int, size as int, y as int, 0, y as int, 0);
            crate::search_spec::lemma_cell_index(
                size as int,
                size as int,
                y as int,
                size - 1,
                y as int,
                size - 1,
            );
        }
        ndarray.set(y, 0, 0);
        let ghost mid = ndarray;
        ndarray.set(y, size - 1, 0);
        proof {
            assert forall|a: int, b: int|
                #![trigger ndarray.at(b, a)]
                0 <= a < size && 0 <= b < size implies ndarray.at(b, a) == (if (a == 0 || a == size
                    - 1) && b < y + 1 {
                    0u8
                } else {
                    1u8
                }) by {
                crate::search_spec::lemma_cell_index(size as int, size as int, b, a, y as int, 0);
                crate::search_spec::lemma_cell_index(
                    size as int,
                    size as int,
                    b,
                    a,
                    y as int,
                    size - 1,
                );
                if !((a == 0 || a == size - 1) && b == y) {
                    assert(ndarray.at(b, a) == mid.at(b, a));
                    assert(mid.at(b, a) == prev.at(b, a));
                }
            }
        }
        y = y + 1;
    }
    let mut x: usize = 0;
    while x < size
        invariant
            array_shape(ndarray) == (size, size),
            array_cells(ndarray).len() == size * size,
            size * size <= isize::MAX,
            0 <= x <= size,
            forall|a: int, b: int|
                #![trigger ndarray.at(b, a)]
                0 <= a < size && 0 <= b < size ==> ndarray.at(b, a) == (if (a == 0 || a == size
                    - 1) || ((b == 0 || b == size - 1) && a < x) {
                    0u8
                } else {
                    1u8
                }),
        decreases size - x,
    {
        let ghost prev = ndarray;
        proof {
            crate::search_spec::lemma_cell_index(size as int, size as int, 0, x as int, 0, x as int);
            crate::search_spec::lemma_cell_index(
                size as int,
                size as int,
                size - 1,
                x as int,
                size - 1,
                x as int,
            );
        }
        ndarray.set(0, x, 0);
        let ghost mid = ndarray;
        ndarray.set(size - 1, x, 0);
        proof {
            assert forall|a: int, b: int|
                #![trigger ndarray.at(b, a)]
                0 <= a < size && 0 <= b < size implies ndarray.at(b, a) == (if (a == 0 || a == size
                    - 1) || ((b == 0 || b == size - 1) && a < x + 1) {
                    0u8
                } else {
                    1u8
                }) by {
                crate::search_spec::lemma_cell_index(size as int, size as int, b, a, 0, x as int);
                crate::search_spec::lemma_cell_index(
                    size as int,
                    size as int,
                    b,
                    a,
                    size - 1,
                    x as int,
                );
                if !((b == 0 || b == size - 1) && a == x) {
                    assert(ndarray.at(b, a) == mid.at(b, a));
                    assert(mid.at(b, a) == prev.at(b, a));
                }
            }
        }
        x = x + 1;
    }
    ndarray
}

/// A 100 by 100 grid of ones as nested vectors, indexed by row then column.
pub fn vec_2d_setup() -> (grid: Vec<Vec<u8>>)
    ensures
        grid@.len() == TEST_GRID_SIZE,
        forall|y: int|
            0 <= y < TEST_GRID_SIZE ==> (#[trigger] grid@[y])@ == Seq::new(
                TEST_GRID_SIZE as nat,
                |x: int| 1u8,
            ),
{
    let width = TEST_GRID_SIZE;
    let height = TEST_GRID_SIZE;
    let mut grid: Vec<Vec<u8>> = Vec::new();
    let mut y: usize = 0;
    while y < height
        invariant
            height == TEST_GRID_SIZE,
            width == TEST_GRID_SIZE,
            y <= height,
            grid@.len() == y,
            forall|r: int|
                0 <= r < y ==> (#[trigger] grid@[r])@ == Seq::new(TEST_GRID_SIZE as nat, |x: int| 1u8),
        decreases height - y,
    {
        let mut row: Vec<u8> = Vec::new();
        let mut x: usize = 0;
        while x < width
            invariant
                width == TEST_GRID_SIZE,
                x <= width,
                row@ == Seq::new(x as nat, |i: int| 1u8),
            decreases width - x,
        {
            row.push(1);
            x = x + 1;
            assert(row@ =~= Seq::new(x as nat, |i: int| 1u8));
        }
        grid.push(row);
        y = y + 1;
    }
    grid
}

/// Reads every cell of a 100 by 100 nested-vector grid.
pub fn vec_2d_index_test(my_vec: &Vec<Vec<u8>>)
    requires
        my_vec@.len() >= TEST_GRID_SIZE,
        forall|y: int| 0 <= y < TEST_GRID_SIZE ==> (#[trigger] my_vec@[y])@.len() >= TEST_GRID_SIZE,
{
    let mut y: usize = 0;
    while y < TEST_GRID_SIZE
        invariant
            y <= TEST_GRID_SIZE,
            my_vec@.len() >= TEST_GRID_SIZE,
            forall|r: int| 0 <= r < TEST_GRID_SIZE ==> (#[trigger] my_vec@[r])@.len() >= TEST_GRID_SIZE,
        decreases TEST_GRID_SIZE - y,
    {
        let mut x: usize = 0;
        while x < TEST_GRID_SIZE
            invariant
                x <= TEST_GRID_SIZE,
                y < TEST_GRID_SIZE,
                my_vec@.len() >= TEST_GRID_SIZE,
                forall|r: int|
                    0 <= r < TEST_GRID_SIZE ==> (#[trigger] my_vec@[r])@.len() >= TEST_GRID_SIZE,
            decreases TEST_GRID_SIZE - x,
        {
            let _cell = my_vec[y][x];
            x = x + 1;
        }
        y = y + 1;
    }
}

/// A 100 by 100 grid of ones as a fixed-size array, indexed by row then
/// column.
pub fn array_2d_setup() -> (array: [[u8; 100]; 100])
    ensures
        forall|y: int, x: int| 0 <= y < 100 && 0 <= x < 100 ==> #[trigger] array[y][x] == 1,
{
    let array = [[1u8; 100]; 100];
    array
}

/// Reads every cell of a 100 by 100 array grid.
pub fn array_2d_index_test(my_vec: &[[u8; 100]; 100]) {
    let mut y: usize = 0;
    while y < TEST_GRID_SIZE
        invariant
            y <= TEST_GRID_SIZE,
        decreases TEST_GRID_SIZE - y,
    {
        let mut x: usize = 0;
        while x < TEST_GRID_SIZE
            invariant
                x <= TEST_GRID_SIZE,
                y < TEST_GRID_SIZE,
            decreases TEST_GRID_SIZE - x,
        {
            let _cell = my_vec[y][x];
            x = x + 1;
        }
        y = y + 1;
    }
}

/// A 100 by 100 ndarray grid of ones.
pub fn ndarray_setup() -> (grid: ByteArray2)
    ensures
        array_shape(grid) == (TEST_GRID_SIZE, TEST_GRID_SIZE),
        array_cells(grid) == Seq::new((TEST_GRID_SIZE * TEST_GRID_SIZE) as nat, |i: int| 1u8),
{
    let width = TEST_GRID_SIZE;
    let height = TEST_GRID_SIZE;
    ByteArray2::ones((width, height))
}

/// Reads every cell of a grid at least 100 by 100.
pub fn ndarray_index_test(my_vec: &ByteArray2)
    requires
        my_vec.rows() >= TEST_GRID_SIZE,
        my_vec.cols() >= TEST_GRID_SIZE,
{
    let mut y: usize = 0;
    while y < TEST_GRID_SIZE
        invariant
            y <= TEST_GRID_SIZE,
            my_vec.rows() >= TEST_GRID_SIZE,
            my_vec.cols() >= TEST_GRID_SIZE,
        decreases TEST_GRID_SIZE - y,
    {
        let mut x: usize = 0;
        while x < TEST_GRID_SIZE
            invariant
                x <= TEST_GRID_SIZE,
                y < TEST_GRID_SIZE,
                my_vec.rows() >= TEST_GRID_SIZE,
                my_vec.cols() >= TEST_GRID_SIZE,
            decreases TEST_GRID_SIZE - x,
        {
            let _cell = my_vec.get(y, x);
            x = x + 1;
        }
        y = y + 1;
    }
}

/// A framed square grid admits a search between any two of its inner
/// cells (for the straight-line estimate, when the grid is small enough for
/// its `i32` arithmetic).
pub proof fn law_framed_square_searchable(
    g: ByteArray2,
    size: usize,
    h: Heuristic,
    source: Point2d,
    target: Point2d,
)
    requires
        is_framed_square(g, size),
        size <= i32::MAX,
        h == Heuristic::Euclidean ==> 2 * (size - 1) * (size - 1) <= i32::MAX,
        interior(g, source.x as int, source.y as int),
        interior(g, target.x as int, target.y as int),
    ensures
        search_fits(g, h, source, target),
        g.at(source.y as int, source.x as int) == 1,
        g.at(target.y as int, target.x as int) == 1,
{
    assert(g.at(source.y as int, source.x as int) == 1);
    assert(g.at(target.y as int, target.x as int) == 1);
    let m = size - 1;
    assert(m * m + m * m == 2 * m * m) by (nonlinear_arith);
    assert(shape_fits(g));
    assert(estimates_fit(g, h));
    lemma_estimable(g, h, target);
}

} // verus!
