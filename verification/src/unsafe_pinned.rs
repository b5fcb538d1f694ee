use vstd::prelude::*;

verus! {

/// A value that stays where it is while others point at it.
#[derive(Debug)]
pub struct UnsafePinned<T> {
    value: T,
}

impl<T> View for UnsafePinned<T> {
    type V = T;

    closed spec fn view(&self) -> T {
        self.value
    }
}

impl<T> UnsafePinned<T> {
    /// Pins `inner`.
    pub fn new(inner: T) -> (pinned: Self)
        ensures
            pinned@ == inner,
    {
        UnsafePinned { value: inner }
    }

    /// Gives the value back.
    pub fn into_inner(self) -> (inner: T)
        ensures
            inner == self@,
    {
        self.value
    }

    /// The value, for reading.
    pub fn get(&self) -> (value: &T)
        ensures
            *value == self@,
    {
        &self.value
    }

    /// The value, for writing.
    pub fn raw_get(this: &mut Self) -> (value: &mut T)
        ensures
            *value == old(this)@,
            final(this)@ == *final(value),
    {
        &mut this.value
    }
}

} // verus!
