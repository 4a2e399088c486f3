//! Grid coordinates: signed 2D positions, bounded so that single steps in
//! any direction never overflow the machine integers.

use vstd::prelude::*;

use crate::direction::Direction;

verus! {

/// The largest grid side length the engine accepts.
pub const MAX_DIM: i32 = 1000000;

/// A 2D grid position; `x` grows rightward and `y` grows downward.
#[derive(Debug, PartialEq, Eq, Structural, Clone, Copy)]
pub struct Coord {
    pub x: i32,
    pub y: i32,
}

/// The pair of mathematical integers a coordinate stands for.
pub open spec fn loc_of(c: Coord) -> (int, int) {
    (c.x as int, c.y as int)
}

/// One step from `l` in direction `d`.
pub open spec fn move_loc(l: (int, int), d: Direction) -> (int, int) {
    match d {
        Direction::Up => (l.0, l.1 - 1),
        Direction::Down => (l.0, l.1 + 1),
        Direction::Left => (l.0 - 1, l.1),
        Direction::Right => (l.0 + 1, l.1),
    }
}

/// Whether `l` lies inside a grid with the given dimensions.
pub open spec fn in_bounds(dims: (int, int), l: (int, int)) -> bool {
    0 <= l.0 < dims.0 && 0 <= l.1 < dims.1
}

impl Coord {
    pub fn new(x: i32, y: i32) -> (r: Coord)
        ensures
            r.x == x,
            r.y == y,
    {
        Coord { x, y }
    }

    /// The neighboring coordinate one step in direction `d`.
    pub fn step(self, d: Direction) -> (r: Coord)
        requires
            -MAX_DIM - 2 <= self.x <= MAX_DIM + 2,
            -MAX_DIM - 2 <= self.y <= MAX_DIM + 2,
        ensures
            loc_of(r) == move_loc(loc_of(self), d),
    {
        match d {
            Direction::Up => Coord { x: self.x, y: self.y - 1 },
            Direction::Down => Coord { x: self.x, y: self.y + 1 },
            Direction::Left => Coord { x: self.x - 1, y: self.y },
            Direction::Right => Coord { x: self.x + 1, y: self.y },
        }
    }
}

} // verus!
