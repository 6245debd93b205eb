# jps_grid

Jump point search on occupancy grids, verified with Verus.

A grid is a two-dimensional byte array (held in an `ndarray::Array2<u8>`);
cells holding 1 are open. `setup::jps_test` searches from a source to a
target, guided by the octal distance estimate, and returns the cells of a
path. Path costs are integers in millionths of a straight step, with a
diagonal step costing the square root of two in that unit; sums saturate
at `u64::MAX`, and so do estimates too large for it.

Layout of `src/`:

- `direction.rs`: the eight unit moves, their codes and turns.
- `point.rs`: grid points and their arithmetic.
- `absdiff.rs`: distance between two ordered values.
- `cost.rs`: the cost unit, the four distance estimates, integer square root.
- `grid.rs`: the byte array over `ndarray`, and what each of its calls does.
- `queue.rs`: jump points and the priority queue that orders them.
- `search_spec.rs`: what a grid path is, and counting lemmas.
- `pathfinder.rs`: the search itself, its invariant and its proofs.
- `setup.rs`: the search entry point and the grids used to exercise it.
- `parse.rs`: reading a grid from text.
- `laws.rs`: properties of directions, estimates and the queue.

`app/` reads grids from files.
