//! Four-way compass directions and their symmetry operations.

use vstd::prelude::*;

verus! {

/// A compass direction. Grid coordinates grow rightward in `x` and downward
/// in `y`, so `Down` points toward increasing `y`.
#[derive(PartialEq, Eq, Structural, Debug, Clone, Copy)]
pub enum Direction {
    Up,
    Down,
    Left,
    Right,
}

impl Direction {
    /// The direction pointing the opposite way.
    pub fn opposite(&self) -> (r: Self)
        ensures
            r == self.spec_opposite(),
    {
        match self {
            Direction::Up => Direction::Down,
            Direction::Down => Direction::Up,
            Direction::Left => Direction::Right,
            Direction::Right => Direction::Left,
        }
    }

    pub open spec fn spec_opposite(self) -> Self {
        match self {
            Direction::Up => Direction::Down,
            Direction::Down => Direction::Up,
            Direction::Left => Direction::Right,
            Direction::Right => Direction::Left,
        }
    }

    /// Mirror across a vertical axis: swaps `Left`/`Right`, fixes `Up`/`Down`.
    pub fn reflect_h(&self) -> (r: Self)
        ensures
            r == self.spec_reflect_h(),
    {
        match self {
            Direction::Up => Direction::Up,
            Direction::Down => Direction::Down,
            Direction::Left => Direction::Right,
            Direction::Right => Direction::Left,
        }
    }

    pub open spec fn spec_reflect_h(self) -> Self {
        match self {
            Direction::Left => Direction::Right,
            Direction::Right => Direction::Left,
            _ => self,
        }
    }

    /// Mirror across a horizontal axis: swaps `Up`/`Down`, fixes `Left`/`Right`.
    pub fn reflect_v(&self) -> (r: Self)
        ensures
            r == self.spec_reflect_v(),
    {
        match self {
            Direction::Up => Direction::Down,
            Direction::Down => Direction::Up,
            Direction::Left => Direction::Left,
            Direction::Right => Direction::Right,
        }
    }

    pub open spec fn spec_reflect_v(self) -> Self {
        match self {
            Direction::Up => Direction::Down,
            Direction::Down => Direction::Up,
            _ => self,
        }
    }

    /// Mirror across the main diagonal: swaps `Up`/`Left` and `Down`/`Right`.
    pub fn transpose(&self) -> (r: Self)
        ensures
            r == self.spec_transpose(),
    {
        match self {
            Direction::Up => Direction::Left,
            Direction::Left => Direction::Up,
            Direction::Down => Direction::Right,
            Direction::Right => Direction::Down,
        }
    }

    pub open spec fn spec_transpose(self) -> Self {
        match self {
            Direction::Up => Direction::Left,
            Direction::Left => Direction::Up,
            Direction::Down => Direction::Right,
            Direction::Right => Direction::Down,
        }
    }

    /// Whether the direction is horizontal (`Left` or `Right`).
    pub fn horizontal(&self) -> (r: bool)
        ensures
            r == (self == Direction::Left || self == Direction::Right),
    {
        matches!(self, Direction::Left | Direction::Right)
    }

    /// Whether the direction points along a positive axis (`Down` or `Right`).
    pub fn positive(&self) -> (r: bool)
        ensures
            r == (self == Direction::Down || self == Direction::Right),
    {
        matches!(self, Direction::Down | Direction::Right)
    }

    /// The unit offset a traveler moves by when facing this direction.
    pub fn to_offset(&self) -> (r: (i32, i32))
        ensures
            r == self.spec_offset(),
    {
        match self {
            Direction::Up => (0, -1),
            Direction::Down => (0, 1),
            Direction::Left => (-1, 0),
            Direction::Right => (1, 0),
        }
    }

    pub open spec fn spec_offset(self) -> (i32, i32) {
        match self {
            Direction::Up => (0int as i32, (-1int) as i32),
            Direction::Down => (0int as i32, 1int as i32),
            Direction::Left => ((-1int) as i32, 0int as i32),
            Direction::Right => (1int as i32, 0int as i32),
        }
    }

    /// All four directions, in a fixed order.
    pub fn all() -> (r: Vec<Direction>)
        ensures
            r@ == seq![Direction::Up, Direction::Down, Direction::Left, Direction::Right],
    {
        let mut v: Vec<Direction> = Vec::new();
        v.push(Direction::Up);
        v.push(Direction::Down);
        v.push(Direction::Left);
        v.push(Direction::Right);
        proof {
            assert(v@ =~= seq![Direction::Up, Direction::Down, Direction::Left, Direction::Right]);
        }
        v
    }
}

/// Each symmetry operation on directions is an involution: applying
/// `opposite`, `reflect_h`, `reflect_v` or `transpose` twice gives back the
/// original direction.
pub proof fn lemma_direction_involutions(d: Direction)
    ensures
        d.spec_opposite().spec_opposite() == d,
        d.spec_reflect_h().spec_reflect_h() == d,
        d.spec_reflect_v().spec_reflect_v() == d,
        d.spec_transpose().spec_transpose() == d,
{
}

} // verus!
