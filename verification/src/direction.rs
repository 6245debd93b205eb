use vstd::prelude::*;

verus! {

/// A unit step on the grid: each component is -1, 0 or 1.
///
/// The eight valid directions are numbered counter-clockwise by their angle
/// in steps of 45 degrees, starting with `(1, 0)` at angle 0.
#[derive(Debug, Copy, Clone)]
pub struct Direction {
    pub x: i32,
    pub y: i32,
}

/// The direction at angle `k` (in steps of 45 degrees), for `0 <= k < 8`.
pub open spec fn dir_at(k: int) -> Direction {
    if k == 0 {
        Direction { x: 1, y: 0 }
    } else if k == 1 {
        Direction { x: 1, y: 1 }
    } else if k == 2 {
        Direction { x: 0, y: 1 }
    } else if k == 3 {
        Direction { x: -1i32, y: 1 }
    } else if k == 4 {
        Direction { x: -1i32, y: 0 }
    } else if k == 5 {
        Direction { x: -1i32, y: -1i32 }
    } else if k == 6 {
        Direction { x: 0, y: -1i32 }
    } else {
        Direction { x: 1, y: -1i32 }
    }
}

/// `k` reduced to the range `0..8`.
pub open spec fn wrap8(k: int) -> int {
    ((k % 8) + 8) % 8
}

impl Direction {
    /// One of the eight unit moves (the zero move is not a direction).
    pub open spec fn is_valid(self) -> bool {
        &&& -1 <= self.x <= 1
        &&& -1 <= self.y <= 1
        &&& !(self.x == 0 && self.y == 0)
    }

    /// The angle of a valid direction, in steps of 45 degrees, in `0..8`.
    pub open spec fn angle(self) -> int {
        if self.x == 1 && self.y == 0 {
            0
        } else if self.x == 1 && self.y == 1 {
            1
        } else if self.x == 0 && self.y == 1 {
            2
        } else if self.x == -1 && self.y == 1 {
            3
        } else if self.x == -1 && self.y == 0 {
            4
        } else if self.x == -1 && self.y == -1 {
            5
        } else if self.x == 0 && self.y == -1 {
            6
        } else {
            7
        }
    }

    /// Both components are non-zero.
    pub open spec fn spec_is_diagonal(self) -> bool {
        self.x != 0 && self.y != 0
    }

    /// The direction turned by `k` steps of 45 degrees counter-clockwise.
    pub open spec fn turned(self, k: int) -> Direction {
        dir_at(wrap8(self.angle() + k))
    }

    /// The opposite direction.
    pub open spec fn negated(self) -> Direction {
        Direction { x: (-self.x) as i32, y: (-self.y) as i32 }
    }

    /// The code of a valid direction: its angle plus two, so in `2..=9`.
    pub open spec fn code(self) -> int {
        self.angle() + 2
    }

    /// Encodes the direction as its code.
    pub fn to_value(self) -> (v: u8)
        requires
            self.is_valid(),
        ensures
            v == self.code(),
    {
        match (self.x, self.y) {
            (1, 0) => 2,
            (0, 1) => 4,
            (-1, 0) => 6,
            (0, -1) => 8,
            (1, 1) => 3,
            (-1, 1) => 5,
            (-1, -1) => 7,
            _ => 9,
        }
    }

    /// Decodes a direction from its code.
    pub fn from_value(value: u8) -> (d: Direction)
        requires
            2 <= value <= 9,
        ensures
            d == dir_at(value - 2),
    {
        match value {
            2 => Direction { x: 1, y: 0 },
            4 => Direction { x: 0, y: 1 },
            6 => Direction { x: -1, y: 0 },
            8 => Direction { x: 0, y: -1 },
            3 => Direction { x: 1, y: 1 },
            5 => Direction { x: -1, y: 1 },
            7 => Direction { x: -1, y: -1 },
            _ => Direction { x: 1, y: -1 },
        }
    }

    /// Decodes the direction opposite to the one with the given code.
    pub fn from_value_reverse(value: u8) -> (d: Direction)
        requires
            2 <= value <= 9,
        ensures
            d == dir_at(value - 2).negated(),
    {
        match value {
            6 => Direction { x: 1, y: 0 },
            8 => Direction { x: 0, y: 1 },
            2 => Direction { x: -1, y: 0 },
            4 => Direction { x: 0, y: -1 },
            7 => Direction { x: 1, y: 1 },
            9 => Direction { x: -1, y: 1 },
            3 => Direction { x: -1, y: -1 },
            _ => Direction { x: 1, y: -1 },
        }
    }

    /// Whether the move changes both coordinates. Any pair other than the
    /// four axis-aligned unit moves counts as diagonal.
    pub fn is_diagonal(self) -> (b: bool)
        ensures
            b == !((self.x == 0 && (self.y == 1 || self.y == -1)) || (self.y == 0 && (self.x == 1
                || self.x == -1))),
    {
        match self {
            Direction { x: 0, y: 1 }
            | Direction { x: 1, y: 0 }
            | Direction { x: -1, y: 0 }
            | Direction { x: 0, y: -1 } => false,
            _ => true,
        }
    }

    /// Turns 90 degrees counter-clockwise.
    pub fn left(self) -> (d: Direction)
        requires
            self.is_valid(),
        ensures
            d == self.turned(2),
    {
        match (self.x, self.y) {
            (1, 0) => Direction { x: 0, y: 1 },
            (0, 1) => Direction { x: -1, y: 0 },
            (-1, 0) => Direction { x: 0, y: -1 },
            (0, -1) => Direction { x: 1, y: 0 },
            (1, 1) => Direction { x: -1, y: 1 },
            (-1, 1) => Direction { x: -1, y: -1 },
            (-1, -1) => Direction { x: 1, y: -1 },
            _ => Direction { x: 1, y: 1 },
        }
    }

    /// Turns 90 degrees clockwise.
    pub fn right(self) -> (d: Direction)
        requires
            self.is_valid(),
        ensures
            d == self.turned(-2),
    {
        match (self.x, self.y) {
            (1, 0) => Direction { x: 0, y: -1 },
            (0, 1) => Direction { x: 1, y: 0 },
            (-1, 0) => Direction { x: 0, y: 1 },
            (0, -1) => Direction { x: -1, y: 0 },
            (1, 1) => Direction { x: 1, y: -1 },
            (-1, 1) => Direction { x: 1, y: 1 },
            (-1, -1) => Direction { x: -1, y: 1 },
            _ => Direction { x: -1, y: -1 },
        }
    }

    /// Turns 45 degrees counter-clockwise.
    pub fn half_left(self) -> (d: Direction)
        requires
            self.is_valid(),
        ensures
            d == self.turned(1),
    {
        match (self.x, self.y) {
            (1, 0) => Direction { x: 1, y: 1 },
            (0, 1) => Direction { x: -1, y: 1 },
            (-1, 0) => Direction { x: -1, y: -1 },
            (0, -1) => Direction { x: 1, y: -1 },
            (1, 1) => Direction { x: 0, y: 1 },
            (-1, 1) => Direction { x: -1, y: 0 },
            (-1, -1) => Direction { x: 0, y: -1 },
            _ => Direction { x: 1, y: 0 },
        }
    }

    /// Turns 45 degrees clockwise.
    pub fn half_right(self) -> (d: Direction)
        requires
            self.is_valid(),
        ensures
            d == self.turned(-1),
    {
        match (self.x, self.y) {
            (1, 0) => Direction { x: 1, y: -1 },
            (0, 1) => Direction { x: 1, y: 1 },
            (-1, 0) => Direction { x: -1, y: 1 },
            (0, -1) => Direction { x: -1, y: -1 },
            (1, 1) => Direction { x: 1, y: 0 },
            (-1, 1) => Direction { x: 0, y: 1 },
            (-1, -1) => Direction { x: -1, y: 0 },
            _ => Direction { x: 0, y: -1 },
        }
    }

    /// Turns a diagonal direction 135 degrees counter-clockwise.
    pub fn left135(self) -> (d: Direction)
        requires
            self.is_valid(),
            self.spec_is_diagonal(),
        ensures
            d == self.turned(3),
    {
        match (self.x, self.y) {
            (1, 1) => Direction { x: -1, y: 0 },
            (-1, 1) => Direction { x: 0, y: -1 },
            (-1, -1) => Direction { x: 1, y: 0 },
            _ => Direction { x: 0, y: 1 },
        }
    }

    /// Turns a diagonal direction 135 degrees clockwise.
    pub fn right135(self) -> (d: Direction)
        requires
            self.is_valid(),
            self.spec_is_diagonal(),
        ensures
            d == self.turned(-3),
    {
        match (self.x, self.y) {
            (1, 1) => Direction { x: 0, y: -1 },
            (-1, 1) => Direction { x: 1, y: 0 },
            (-1, -1) => Direction { x: 0, y: 1 },
            _ => Direction { x: -1, y: 0 },
        }
    }
}

} // verus!
