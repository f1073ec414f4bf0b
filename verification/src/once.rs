//! A move-once cell: a single-use value carried through several layers of
//! indirection without ever being taken twice.
//!
//! The slot is an owned, nullable cell — taking the value empties it, and a
//! second take simply reports that nothing is left.

use vstd::prelude::*;

verus! {

/// A cell holding a value that may be taken out exactly once.
pub struct OnceValue<T> {
    slot: Option<T>,
}

impl<T> OnceValue<T> {
    /// What the cell still holds.
    pub closed spec fn view(self) -> Option<T> {
        self.slot
    }

    /// A full cell.
    pub fn new(value: T) -> (c: OnceValue<T>)
        ensures
            c@ == Some(value),
    {
        OnceValue { slot: Some(value) }
    }

    /// An empty cell.
    pub fn empty() -> (c: OnceValue<T>)
        ensures
            c@ is None,
    {
        OnceValue { slot: None }
    }

    /// Take the value out; after the first take the cell stays empty.
    pub fn get(&mut self) -> (r: Option<T>)
        ensures
            r == old(self)@,
            final(self)@ is None,
    {
        self.slot.take()
    }

    /// Whether the value is still there.
    pub fn is_valid(&self) -> (b: bool)
        ensures
            b == (self@ is Some),
    {
        self.slot.is_some()
    }
}

} // verus!
