//! Jump point search over an occupancy grid, with its direction algebra,
//! grid points, integer cost model and a priority queue of jump points.

pub mod direction;
pub mod grid;
pub mod point;
pub mod absdiff;
pub mod cost;
pub mod queue;
pub mod search_spec;
pub mod pathfinder;
pub mod setup;
pub mod laws;
pub mod parse;
