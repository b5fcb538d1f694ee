use vstd::prelude::*;

verus! {

/// One word of memory that threads share, holding an address or a marker.
///
/// Each method is one indivisible access.
#[derive(Debug)]
pub struct AtomicPtr {
    word: usize,
}

impl View for AtomicPtr {
    type V = usize;

    closed spec fn view(&self) -> usize {
        self.word
    }
}

impl AtomicPtr {
    /// A cell that holds `ptr`.
    pub fn new(ptr: usize) -> (cell: Self)
        ensures
            cell@ == ptr,
    {
        AtomicPtr { word: ptr }
    }

    /// Reads the word.
    pub fn load(&self) -> (word: usize)
        ensures
            word == self@,
    {
        self.word
    }

    /// Overwrites the word.
    pub fn store(&mut self, ptr: usize)
        ensures
            final(self)@ == ptr,
    {
        self.word = ptr;
    }

    /// Overwrites the word and returns what it held.
    pub fn swap(&mut self, ptr: usize) -> (previous: usize)
        ensures
            previous == old(self)@,
            final(self)@ == ptr,
    {
        let previous: usize = self.word;
        self.word = ptr;
        previous
    }

    /// Overwrites the word with `new` if it holds `current`, and leaves it alone otherwise.
    /// The word found is returned either way.
    pub fn compare_exchange(&mut self, current: usize, new: usize) -> (found: Result<usize, usize>)
        ensures
            old(self)@ == current ==> found == Ok::<usize, usize>(current) && final(self)@ == new,
            old(self)@ != current ==> found == Err::<usize, usize>(old(self)@) && final(self)@
                == old(self)@,
    {
        if self.word == current {
            self.word = new;
            Ok(current)
        } else {
            Err(self.word)
        }
    }
}

} // verus!
