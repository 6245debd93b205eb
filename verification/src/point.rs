use crate::direction::Direction;
use vstd::prelude::*;

verus! {

/// A cell of a grid: `x` is the column, `y` the row.
#[derive(Debug, Hash, Eq, PartialEq, Structural, Copy, Clone)]
pub struct Point2d {
    pub x: usize,
    pub y: usize,
}

impl Point2d {
    /// Component-wise sum.
    pub fn add(&self, other: &Self) -> (p: Point2d)
        requires
            self.x + other.x <= usize::MAX,
            self.y + other.y <= usize::MAX,
        ensures
            p.x == self.x + other.x,
            p.y == self.y + other.y,
    {
        Point2d { x: self.x + other.x, y: self.y + other.y }
    }

    /// Adds a signed offset. Each coordinate is taken as an `i32`, so it must
    /// fit one, and so must the sum; a negative sum wraps around as `usize`.
    pub fn add_tuple(&self, other: (i32, i32)) -> (p: Point2d)
        requires
            self.x <= i32::MAX,
            self.y <= i32::MAX,
            self.x + other.0 <= i32::MAX,
            self.y + other.1 <= i32::MAX,
        ensures
            p.x == (self.x + other.0) as usize,
            p.y == (self.y + other.1) as usize,
    {
        Point2d { x: (self.x as i32 + other.0) as usize, y: (self.y as i32 + other.1) as usize }
    }

    /// Moves by a direction, with the same arithmetic as `add_tuple`.
    pub fn add_direction(&self, other: Direction) -> (p: Point2d)
        requires
            self.x <= i32::MAX,
            self.y <= i32::MAX,
            self.x + other.x <= i32::MAX,
            self.y + other.y <= i32::MAX,
        ensures
            p.x == (self.x + other.x) as usize,
            p.y == (self.y + other.y) as usize,
    {
        Point2d { x: (self.x as i32 + other.x) as usize, y: (self.y as i32 + other.y) as usize }
    }

    /// Whether the grid, indexed by row then column, holds 1 at this point.
    pub fn is_in_grid(&self, grid: Vec<Vec<u8>>) -> (b: bool)
        requires
            self.y < grid@.len(),
            self.x < grid@[self.y as int]@.len(),
        ensures
            b == (grid@[self.y as int]@[self.x as int] == 1),
    {
        grid[self.y][self.x] == 1
    }
}

} // verus!
