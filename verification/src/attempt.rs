use vstd::prelude::*;

verus! {

/// What became of one try at an operation that may have to wait for another thread.
///
/// Unless it is `Done`, the calling thread makes the same call again: at once after `Spin`, and
/// after `Wait` once it has been woken, by whoever releases the mutex or unparks the parker. The
/// contract of each call says what such a try leaves behind.
#[derive(Debug)]
pub enum Attempt<R> {
    Done(R),
    Spin,
    Wait,
}

/// What became of one try at an operation that uses up the value it is called on. Unless it is
/// `Done`, what the next try is called on is handed back.
#[derive(Debug)]
pub enum AttemptFrom<R, S> {
    Done(R),
    Spin(S),
    Wait(S),
}

impl<R, S> AttemptFrom<R, S> {
    /// The outcome, without what it hands back.
    pub open spec fn outcome(self) -> Attempt<R> {
        match self {
            AttemptFrom::Done(result) => Attempt::Done(result),
            AttemptFrom::Spin(_) => Attempt::Spin,
            AttemptFrom::Wait(_) => Attempt::Wait,
        }
    }

    /// What the next try is called on.
    pub open spec fn again(self) -> Option<S> {
        match self {
            AttemptFrom::Done(_) => None,
            AttemptFrom::Spin(again) => Some(again),
            AttemptFrom::Wait(again) => Some(again),
        }
    }
}

} // verus!
