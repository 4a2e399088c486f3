//! A small by-value vector: every operation consumes the old vector and
//! hands back the new one, so a sequence of edits reads as a chain.

use vstd::prelude::*;

verus! {

pub struct ConstVec<T> {
    pub data: Vec<T>,
}

impl<T> ConstVec<T> {
    pub fn new() -> (r: ConstVec<T>)
        ensures
            r.data@ =~= Seq::<T>::empty(),
    {
        ConstVec { data: Vec::new() }
    }

    /// Appends a value at the end.
    pub fn push(self, value: T) -> (r: ConstVec<T>)
        ensures
            r.data@ == self.data@.push(value),
    {
        let mut data = self.data;
        data.push(value);
        ConstVec { data }
    }

    /// Removes and returns the last value.
    pub fn pop(self) -> (r: (ConstVec<T>, T))
        requires
            self.data@.len() > 0,
        ensures
            r.0.data@ == self.data@.drop_last(),
            r.1 == self.data@.last(),
    {
        let n = self.data.len();
        self.take(n - 1)
    }

    /// Removes and returns the value at `index`, closing the gap.
    pub fn take(self, index: usize) -> (r: (ConstVec<T>, T))
        requires
            index < self.data@.len(),
        ensures
            r.0.data@ == self.data@.remove(index as int),
            r.1 == self.data@[index as int],
    {
        let mut data = self.data;
        let v = data.remove(index);
        (ConstVec { data }, v)
    }

    /// Inserts a value at `index`, shifting the tail right.
    pub fn insert(self, value: T, index: usize) -> (r: ConstVec<T>)
        requires
            index <= self.data@.len(),
        ensures
            r.data@ == self.data@.insert(index as int, value),
    {
        let mut data = self.data;
        data.insert(index, value);
        ConstVec { data }
    }

    /// The value at `index`.
    pub fn get(&self, index: usize) -> (r: &T)
        requires
            index < self.data@.len(),
        ensures
            r == &self.data@[index as int],
    {
        &self.data[index]
    }
}

impl ConstVec<u64> {
    /// The sum of an empty vector, consuming it.
    #[allow(non_snake_case)]
    pub fn drainToSumZero(self) -> (r: u64)
        requires
            self.data@.len() == 0,
        ensures
            r == 0,
    {
        0
    }
}

} // verus!
