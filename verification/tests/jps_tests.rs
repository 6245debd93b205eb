use jps_grid::absdiff::absdiff;
use jps_grid::cost::{
    euclidean_heuristic, isqrt, manhattan_heuristic, no_heuristic, octal_heuristic, Heuristic,
    DIAGONAL_COST, STRAIGHT_COST,
};
use jps_grid::direction::Direction;
use jps_grid::grid::ByteArray2;
use jps_grid::pathfinder::{cost_after_walk, forced_jump_point, PathFinder};
use jps_grid::point::Point2d;
use jps_grid::queue::{JumpPoint, JumpPointQueue};
use jps_grid::setup::{
    array_2d_index_test, array_2d_setup, grid_setup, jps_test, ndarray_index_test, ndarray_setup,
    vec_2d_index_test, vec_2d_setup,
};

fn p(x: usize, y: usize) -> Point2d {
    Point2d { x, y }
}

fn d(x: i32, y: i32) -> Direction {
    Direction { x, y }
}

fn same(a: Direction, b: Direction) -> bool {
    a.x == b.x && a.y == b.y
}

const ALL: [(i32, i32); 8] = [(1, 0), (1, 1), (0, 1), (-1, 1), (-1, 0), (-1, -1), (0, -1), (1, -1)];

fn check_path(grid: &ByteArray2, path: &[Point2d], source: Point2d, target: Point2d) {
    assert!(!path.is_empty());
    assert_eq!(path[0], source);
    assert_eq!(*path.last().unwrap(), target);
    for i in 1..path.len() {
        let a = path[i - 1];
        let b = path[i];
        assert_ne!(a, b);
        assert!(absdiff(a.x, b.x) <= 1 && absdiff(a.y, b.y) <= 1);
        assert_ne!(b, source);
        if i >= 2 {
            assert_eq!(grid.get(b.y, b.x), 1);
        }
        assert!(!path[..i].contains(&b));
    }
}

#[test]
fn absdiff_of_integers() {
    assert_eq!(absdiff(3usize, 7usize), 4);
    assert_eq!(absdiff(7usize, 3usize), 4);
    assert_eq!(absdiff(5u8, 5u8), 0);
    assert_eq!(absdiff(-4i32, 6i32), 10);
}

#[test]
fn absdiff_of_floats() {
    assert!((absdiff(1.5f32, 4.0f32) - 2.5).abs() < 1e-6);
}

#[test]
fn direction_codes_round_trip() {
    for (k, (x, y)) in ALL.iter().enumerate() {
        let dir = d(*x, *y);
        let v = dir.to_value();
        assert_eq!(v as usize, k + 2);
        assert!(same(Direction::from_value(v), dir));
        assert!(same(Direction::from_value_reverse(v), d(-x, -y)));
    }
}

#[test]
fn direction_turns() {
    assert!(same(d(1, 0).left(), d(0, 1)));
    assert!(same(d(1, 0).right(), d(0, -1)));
    assert!(same(d(1, 0).half_left(), d(1, 1)));
    assert!(same(d(1, 0).half_right(), d(1, -1)));
    assert!(same(d(1, 1).left135(), d(-1, 0)));
    assert!(same(d(1, 1).right135(), d(0, -1)));
    assert!(same(d(-1, -1).left(), d(1, -1)));
    for (x, y) in ALL.iter() {
        let dir = d(*x, *y);
        assert!(same(dir.left().right(), dir));
        assert!(same(dir.half_left().half_left(), dir.left()));
        assert!(same(dir.left().left().left().left(), dir));
        assert_eq!(dir.left().is_diagonal(), dir.is_diagonal());
        assert_ne!(dir.half_right().is_diagonal(), dir.is_diagonal());
        if dir.is_diagonal() {
            assert!(same(dir.left135(), dir.left().half_left()));
            assert!(same(dir.right135(), dir.right().half_right()));
        }
    }
}

#[test]
fn direction_is_diagonal() {
    assert!(!d(0, 1).is_diagonal());
    assert!(!d(-1, 0).is_diagonal());
    assert!(d(1, -1).is_diagonal());
    assert!(d(0, 0).is_diagonal());
}

#[test]
fn point_arithmetic() {
    assert_eq!(p(2, 3).add(&p(4, 5)), p(6, 8));
    assert_eq!(p(2, 3).add_tuple((-1, 1)), p(1, 4));
    assert_eq!(p(2, 3).add_direction(d(1, -1)), p(3, 2));
    assert_eq!(p(0, 3).add_tuple((-1, 0)).x, usize::MAX);
    let grid = vec![vec![0u8, 1u8], vec![1u8, 0u8]];
    assert!(p(1, 0).is_in_grid(grid.clone()));
    assert!(!p(1, 1).is_in_grid(grid));
}

#[test]
fn integer_square_roots() {
    assert_eq!(isqrt(0), 0);
    assert_eq!(isqrt(1), 1);
    assert_eq!(isqrt(24), 4);
    assert_eq!(isqrt(25), 5);
    assert_eq!(isqrt(26), 5);
    assert_eq!(isqrt(u128::MAX), u64::MAX);
}

#[test]
fn heuristic_values() {
    let a = p(0, 0);
    let b = p(3, 4);
    assert_eq!(manhattan_heuristic(a, b), 7 * STRAIGHT_COST);
    assert_eq!(octal_heuristic(a, b), 4 * STRAIGHT_COST + 3 * DIAGONAL_COST - 3 * STRAIGHT_COST);
    assert_eq!(octal_heuristic(a, b), 5_242_642);
    assert_eq!(euclidean_heuristic(a, b), 5 * STRAIGHT_COST);
    assert_eq!(euclidean_heuristic(p(0, 0), p(1, 1)), 1_414_213);
    assert_eq!(no_heuristic(a, b), 0);
    assert_eq!(octal_heuristic(b, a), octal_heuristic(a, b));
}

#[test]
fn heuristic_estimates_are_ordered() {
    for (s, t) in [(p(0, 0), p(3, 4)), (p(7, 2), p(1, 9)), (p(5, 5), p(5, 5)), (p(0, 9), p(9, 0))] {
        let e = euclidean_heuristic(s, t);
        let o = octal_heuristic(s, t);
        let m = manhattan_heuristic(s, t);
        assert!(e <= o && o <= m);
    }
}

#[test]
fn heuristic_names() {
    assert_eq!(Heuristic::from_name("manhattan"), Heuristic::Manhattan);
    assert_eq!(Heuristic::from_name("octal"), Heuristic::Octal);
    assert_eq!(Heuristic::from_name("euclidean"), Heuristic::Euclidean);
    assert_eq!(Heuristic::from_name("none"), Heuristic::Zero);
    assert_eq!(Heuristic::from_name("other"), Heuristic::Euclidean);
    assert_eq!(Heuristic::Octal.estimate(p(0, 0), p(3, 4)), 5_242_642);
}

fn jp(total: u64, x: usize) -> JumpPoint {
    JumpPoint { start: p(x, 0), direction: d(1, 0), cost_to_start: 0, total_cost_estimate: total }
}

#[test]
fn queue_pops_smallest_first() {
    let mut q = JumpPointQueue::new();
    assert!(q.pop().is_none());
    q.push(jp(30, 1));
    q.push(jp(10, 2));
    q.push(jp(20, 3));
    q.push(jp(10, 4));
    assert_eq!(q.len(), 4);
    let order: Vec<usize> = (0..4).map(|_| q.pop().unwrap().start.x).collect();
    assert_eq!(order, vec![2, 4, 3, 1]);
    assert!(q.pop().is_none());
    assert_eq!(q.len(), 0);
}

#[test]
fn framed_grid() {
    let g = grid_setup(6);
    assert_eq!(g.dim(), (6, 6));
    for y in 0..6 {
        for x in 0..6 {
            let inner = x >= 1 && x <= 4 && y >= 1 && y <= 4;
            assert_eq!(g.get(y, x), if inner { 1 } else { 0 });
        }
    }
    let empty = grid_setup(0);
    assert_eq!(empty.dim(), (0, 0));
}

#[test]
fn search_on_open_grid() {
    let grid = grid_setup(100);
    let copy = grid_setup(100);
    let source = p(5, 5);
    let target = p(10, 12);
    let path = jps_test(grid, source, target).expect("a path on an open grid");
    check_path(&copy, &path, source, target);
}

#[test]
fn search_to_a_neighbour() {
    let grid = grid_setup(20);
    let path = jps_test(grid, p(5, 5), p(6, 6)).unwrap();
    assert_eq!(path, vec![p(5, 5), p(6, 6)]);
}

#[test]
fn search_from_or_to_a_wall() {
    let grid = grid_setup(20);
    assert!(jps_test(grid, p(0, 5), p(6, 6)).is_none());
    let grid = grid_setup(20);
    assert!(jps_test(grid, p(5, 5), p(19, 6)).is_none());
}

fn grid_from_rows(rows: &[&str]) -> ByteArray2 {
    let h = rows.len();
    let w = rows[0].len();
    let cells: Vec<u8> = rows.iter().flat_map(|r| r.bytes().map(|b| b - b'0')).collect();
    ByteArray2::from_shape_vec((h, w), cells).unwrap()
}

#[test]
fn search_around_a_wall() {
    let rows = [
        "0000000000",
        "0111111110",
        "0111111110",
        "0111101110",
        "0111101110",
        "0111101110",
        "0111101110",
        "0111111110",
        "0000000000",
    ];
    let source = p(2, 5);
    let target = p(7, 5);
    let path = jps_test(grid_from_rows(&rows), source, target);
    let copy = grid_from_rows(&rows);
    if let Some(path) = path {
        check_path(&copy, &path, source, target);
        assert!(path.iter().all(|q| !(q.x == 5 && q.y >= 3 && q.y <= 6)));
    }
}

#[test]
fn search_with_each_heuristic() {
    for h in [Heuristic::Manhattan, Heuristic::Octal, Heuristic::Euclidean, Heuristic::Zero] {
        let mut pf = PathFinder::new(grid_setup(30), h);
        let path = pf.find_path(&p(3, 4), &p(20, 25));
        if let Some(path) = path {
            check_path(&grid_setup(30), &path, p(3, 4), p(20, 25));
        }
    }
}

#[test]
fn same_source_and_target() {
    let grid = grid_setup(20);
    match jps_test(grid, p(5, 5), p(5, 5)) {
        Some(path) => assert_eq!(path, vec![p(5, 5)]),
        None => {}
    }
}

#[test]
fn partial_path_is_empty() {
    let pf = PathFinder::new(grid_setup(10), Heuristic::Octal);
    assert_eq!(pf.construct_path(p(3, 3), p(5, 5), false), Some(vec![]));
}

#[test]
fn new_point_in_grid_and_direction() {
    let pf = PathFinder::new(grid_setup(10), Heuristic::Octal);
    assert_eq!(pf.new_point_in_grid(&p(1, 1), d(1, 0)), Some(p(2, 1)));
    assert_eq!(pf.new_point_in_grid(&p(1, 1), d(-1, 0)), None);
    let dir = pf.get_direction(p(5, 5), p(2, 9));
    assert!(same(dir, d(-1, 1)));
    let dir = pf.get_direction(p(5, 5), p(5, 5));
    assert!(dir.x == 0 && dir.y == 0);
    assert!(pf.is_in_grid(p(4, 4)));
    assert!(!pf.is_in_grid(p(0, 4)));
}

#[test]
fn bench_grids() {
    let v = vec_2d_setup();
    assert_eq!(v.len(), 100);
    assert!(v.iter().all(|r| r.len() == 100 && r.iter().all(|c| *c == 1)));
    vec_2d_index_test(&v);
    let a = array_2d_setup();
    assert!(a.iter().all(|r| r.iter().all(|c| *c == 1)));
    array_2d_index_test(&a);
    let n = ndarray_setup();
    assert_eq!(n.dim(), (100, 100));
    assert_eq!(n.get(99, 99), 1);
    ndarray_index_test(&n);
}

#[test]
fn byte_array_basics() {
    let mut a = ByteArray2::zeros((2, 3));
    assert_eq!(a.dim(), (2, 3));
    a.set(1, 2, 7);
    assert_eq!(a.get(1, 2), 7);
    assert_eq!(a.get(0, 2), 0);
    assert!(ByteArray2::from_shape_vec((2, 2), vec![1, 2, 3]).is_none());
    let b = ByteArray2::from_shape_vec((2, 2), vec![1, 2, 3, 4]).unwrap();
    assert_eq!(b.get(1, 0), 3);
    let o = ByteArray2::ones((3, 1));
    assert_eq!(o.get(2, 0), 1);
}

#[test]
fn grid_text_parsing() {
    let (g, h, w) = jps_grid::parse::grid_from_text("0000\n0110\r\n0000\n").unwrap();
    assert_eq!((h, w), (3, 4));
    assert_eq!(g.dim(), (3, 4));
    assert_eq!(g.get(1, 1), 1);
    assert_eq!(g.get(1, 3), 0);
    let (g, h, w) = jps_grid::parse::grid_from_text("12\n34").unwrap();
    assert_eq!((h, w), (2, 2));
    assert_eq!(g.get(1, 0), 3);
    let (_, h, w) = jps_grid::parse::grid_from_text("").unwrap();
    assert_eq!((h, w), (0, 0));
}

#[test]
fn grid_text_rejects_bad_input() {
    assert!(jps_grid::parse::grid_from_text("01\n011\n").is_none());
    assert!(jps_grid::parse::grid_from_text("0 1\n010\n").is_none());
    // The width is that of the last line: three lines holding six cells fill 3 by 2.
    let (g, h, w) = jps_grid::parse::grid_from_text("111\n1\n11\n").unwrap();
    assert_eq!((h, w), (3, 2));
    assert_eq!(g.dim(), (3, 2));
}

#[test]
fn walk_costs() {
    assert_eq!(cost_after_walk(5, d(1, 1), 3), 5 + 3 * DIAGONAL_COST);
    assert_eq!(cost_after_walk(5, d(0, 1), 3), 5 + 3 * STRAIGHT_COST);
    assert_eq!(cost_after_walk(u64::MAX - 1, d(0, 1), 2), u64::MAX);
    let jp = forced_jump_point(p(4, 7), d(-1, 0), 10, 3);
    assert_eq!(jp.start, p(4, 7));
    assert_eq!(jp.cost_to_start, 10);
    assert_eq!(jp.total_cost_estimate, 23);
    assert_eq!(forced_jump_point(p(1, 1), d(1, 0), u64::MAX, 3).total_cost_estimate, u64::MAX);
}

#[test]
fn jump_point_ordering() {
    let a = jp(10, 1);
    let b = jp(20, 2);
    assert!(a > b);
    assert!(b < a);
    assert!(a == jp(10, 5));
    assert_eq!(a.partial_cmp(&b), Some(std::cmp::Ordering::Greater));
}

#[test]
fn search_from_next_to_the_frame() {
    assert_eq!(
        jps_test(grid_setup(5), p(1, 1), p(3, 3)),
        Some(vec![p(1, 1), p(2, 2), p(3, 3)])
    );
    assert_eq!(
        jps_test(grid_setup(5), p(1, 1), p(3, 1)),
        Some(vec![p(1, 1), p(2, 1), p(3, 1)])
    );
}

#[test]
fn neighbour_off_the_grid_is_blocked() {
    let pf = PathFinder::new(grid_setup(3), Heuristic::Octal);
    assert_eq!(pf.new_point_in_grid(&p(0, 0), d(-1, -1)), None);
    assert_eq!(pf.new_point_in_grid(&p(2, 2), d(1, 0)), None);
    assert_eq!(pf.new_point_in_grid(&p(0, 1), d(1, 0)), Some(p(1, 1)));
}

#[test]
fn wall_end_leaves_the_search_untouched() {
    let mut pf = PathFinder::new(grid_setup(6), Heuristic::Octal);
    assert!(pf.find_path(&p(0, 0), &p(3, 3)).is_none());
    assert!(pf.find_path(&p(2, 2), &p(5, 5)).is_none());
    assert_eq!(pf.duplicate_checks, 0);
    assert_eq!(pf.came_from_grid.get(2, 2), 0);
    assert_eq!(pf.came_from_grid.get(3, 3), 0);
}

#[test]
fn path_follows_marks_back() {
    let mut pf = PathFinder::new(grid_setup(5), Heuristic::Octal);
    pf.came_from_grid.set(2, 2, 3);
    pf.came_from_grid.set(3, 3, 3);
    assert_eq!(
        pf.construct_path(p(1, 1), p(3, 3), true),
        Some(vec![p(1, 1), p(2, 2), p(3, 3)])
    );
    let mut small = PathFinder::new(grid_setup(3), Heuristic::Octal);
    small.came_from_grid.set(1, 1, 3);
    small.came_from_grid.set(2, 2, 3);
    assert_eq!(
        small.construct_path(p(0, 0), p(2, 2), true),
        Some(vec![p(0, 0), p(1, 1), p(2, 2)])
    );
}

#[test]
fn straight_walk_marks_and_queues() {
    let rows = ["00000", "01110", "00110", "00000"];
    let mut pf = PathFinder::new(grid_from_rows(&rows), Heuristic::Zero);
    pf.traverse(p(1, 1), d(1, 0), &p(3, 2), 0);
    for y in 0..4 {
        for x in 0..5 {
            let expected = if y == 1 && (x == 2 || x == 3) { 2 } else { 0 };
            assert_eq!(pf.came_from_grid.get(y, x), expected);
        }
    }
    assert_eq!(pf.duplicate_checks, 0);
    assert_eq!(pf.jump_points.len(), 1);
    let jp = pf.jump_points.pop().unwrap();
    assert_eq!(jp.start, p(2, 1));
    assert!(same(jp.direction, d(1, 1)));
    assert_eq!(jp.cost_to_start, DIAGONAL_COST);
}

#[test]
fn first_mark_is_kept() {
    let mut pf = PathFinder::new(grid_setup(5), Heuristic::Octal);
    assert!(!pf.add_came_from(&p(2, 2), d(1, 1)));
    assert_eq!(pf.came_from_grid.get(2, 2), 3);
    assert!(pf.add_came_from(&p(2, 2), d(-1, 0)));
    assert_eq!(pf.came_from_grid.get(2, 2), 3);
}

#[test]
fn diagonal_walk_side_walks_carry_the_walked_cost() {
    let rows = ["00000000", "01100110", "01111111", "01111111", "01111111", "00000000"];
    let mut pf = PathFinder::new(grid_from_rows(&rows), Heuristic::Zero);
    pf.traverse(p(1, 1), d(1, 1), &p(0, 0), 5);
    let expected: [[u8; 8]; 6] = [
        [0, 0, 0, 0, 0, 0, 0, 0],
        [0, 0, 0, 0, 0, 0, 0, 0],
        [0, 0, 3, 2, 2, 2, 2, 2],
        [0, 0, 4, 3, 2, 2, 2, 2],
        [0, 0, 4, 4, 3, 2, 2, 2],
        [0, 0, 0, 0, 0, 0, 0, 0],
    ];
    for y in 0..6 {
        for x in 0..8 {
            assert_eq!(pf.came_from_grid.get(y, x), expected[y][x]);
        }
    }
    assert_eq!(pf.duplicate_checks, 0);
    assert_eq!(pf.jump_points.len(), 3);
    let first = pf.jump_points.pop().unwrap();
    assert_eq!(first.start, p(2, 2));
    assert!(same(first.direction, d(-1, 1)));
    assert_eq!(first.cost_to_start, 5 + DIAGONAL_COST);
    assert_eq!(first.total_cost_estimate, 2 * (5 + DIAGONAL_COST));
    let second = pf.jump_points.pop().unwrap();
    assert_eq!(second.start, p(2, 2));
    assert!(same(second.direction, d(1, -1)));
    assert_eq!(second.cost_to_start, 5 + DIAGONAL_COST);
    // Found by the straight walk to the right off the first diagonal cell,
    // begun at one straight step past the walk's own cost.
    let third = pf.jump_points.pop().unwrap();
    assert_eq!(third.start, p(5, 2));
    assert!(same(third.direction, d(1, -1)));
    assert_eq!(third.cost_to_start, 5 + STRAIGHT_COST + 3 * DIAGONAL_COST);
    assert_eq!(third.cost_to_start, 5_242_647);
    assert_eq!(third.total_cost_estimate, 10_485_294);
    assert!(pf.jump_points.pop().is_none());
}

#[test]
fn estimates_on_far_coordinates() {
    let far = 5_000_000_000usize;
    assert_eq!(manhattan_heuristic(p(0, 0), p(far, 0)), 5_000_000_000 * STRAIGHT_COST);
    assert_eq!(octal_heuristic(p(0, 0), p(far, far)), 5_000_000_000 * DIAGONAL_COST);
    let huge = usize::MAX / 2;
    assert_eq!(manhattan_heuristic(p(0, 0), p(huge, huge)), u64::MAX);
    assert_eq!(octal_heuristic(p(usize::MAX, 0), p(0, usize::MAX)), u64::MAX);
}
