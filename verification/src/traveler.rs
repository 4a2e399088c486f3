//! A traveler: a mobile token carrying a register value across the grid.

use vstd::prelude::*;

use crate::coords::loc_of;
use crate::coords::move_loc;
use crate::coords::Coord;
use crate::coords::MAX_DIM;
use crate::direction::Direction;
use crate::registers::mul_factors;
use crate::registers::mul_fits;
use crate::registers::wf_factors;
use crate::registers::Registers;

verus! {

/// The mathematical shadow of a traveler.
pub ghost struct TravView {
    pub value: Seq<(int, int)>,
    pub location: (int, int),
    pub direction: Direction,
}

#[derive(Debug, PartialEq)]
pub struct Traveler {
    pub value: Registers,
    pub location: Coord,
    pub direction: Direction,
}

impl DeepView for Traveler {
    type V = TravView;

    open spec fn deep_view(&self) -> TravView {
        TravView { value: self.value@, location: loc_of(self.location), direction: self.direction }
    }
}

impl Traveler {
    /// The register value is normalized and the position is near the grid.
    pub open spec fn wf(&self) -> bool {
        &&& wf_factors(self.value@)
        &&& -MAX_DIM - 2 <= self.location.x <= MAX_DIM + 2
        &&& -MAX_DIM - 2 <= self.location.y <= MAX_DIM + 2
    }

    /// Turns toward `direction` and advances one cell that way.
    pub fn direct(self, direction: Direction) -> (r: Self)
        requires
            self.wf(),
        ensures
            r.value@ == self.value@,
            r.direction == direction,
            loc_of(r.location) == move_loc(loc_of(self.location), direction),
    {
        Traveler { value: self.value, location: self.location.step(direction), direction }
    }

    /// Replaces the carried value.
    pub fn value(self, value: Registers) -> (r: Self)
        ensures
            r.value@ == value@,
            r.direction == self.direction,
            r.location == self.location,
    {
        Traveler { value, location: self.location, direction: self.direction }
    }

    /// Multiplies the carried value.
    pub fn mul(self, value: &Registers) -> (r: Self)
        requires
            wf_factors(self.value@),
            wf_factors(value@),
            mul_fits(self.value@, value@),
        ensures
            r.value@ == mul_factors(self.value@, value@),
            wf_factors(r.value@),
            r.direction == self.direction,
            r.location == self.location,
    {
        let v = self.value.multiply(value);
        Traveler { value: v, location: self.location, direction: self.direction }
    }

    /// Advances one cell in the current facing direction.
    pub fn step(self) -> (r: Self)
        requires
            self.wf(),
        ensures
            r.value@ == self.value@,
            r.direction == self.direction,
            loc_of(r.location) == move_loc(loc_of(self.location), self.direction),
    {
        let d = self.direction;
        Traveler { value: self.value, location: self.location.step(d), direction: d }
    }

    /// A copy of this traveler.
    pub fn duplicate(&self) -> (r: Self)
        ensures
            r.deep_view() == self.deep_view(),
            r.location == self.location,
            r.direction == self.direction,
            r.value@ == self.value@,
    {
        Traveler {
            value: self.value.duplicate(),
            location: self.location,
            direction: self.direction,
        }
    }
}

} // verus!
