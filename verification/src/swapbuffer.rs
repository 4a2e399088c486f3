//! A double buffer: one tick's producers write the inactive side while the
//! active side stays readable, and a swap commits the new generation.

use vstd::prelude::*;

verus! {

pub struct SwapBuffer<T> {
    pub active: Vec<T>,
    pub inactive: Vec<T>,
}

impl<T> SwapBuffer<T> {
    pub fn new() -> (r: SwapBuffer<T>)
        ensures
            r.active@.len() == 0,
            r.inactive@.len() == 0,
    {
        SwapBuffer { active: Vec::new(), inactive: Vec::new() }
    }

    /// Empties both generations.
    pub fn clear(&mut self)
        ensures
            final(self).active@.len() == 0,
            final(self).inactive@.len() == 0,
    {
        self.active.clear();
        self.inactive.clear();
    }

    /// Commits the staged generation: what was staged becomes active, and
    /// the staging side is left empty.
    pub fn try_swap(&mut self)
        ensures
            final(self).active@ == old(self).inactive@,
            final(self).inactive@.len() == 0,
    {
        core::mem::swap(&mut self.active, &mut self.inactive);
        self.inactive.clear();
    }
}

} // verus!
