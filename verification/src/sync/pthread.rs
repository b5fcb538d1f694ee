//! What the primitives of the platform's thread library need besides that library: a value that is
//! made on first use, and the states of a parker.

use vstd::prelude::*;

use crate::attempt::Attempt;
use crate::sync::parker::{Parker, ParkerState};

verus! {

/// A boxed value that is made when it is first asked for.
#[derive(Debug)]
pub struct LazyBox<T> {
    value: Option<Box<T>>,
}

impl<T> LazyBox<T> {
    /// The value, if it has been made.
    pub closed spec fn get(&self) -> Option<T> {
        match self.value {
            Some(value) => Some(*value),
            None => None,
        }
    }

    /// Nothing made yet.
    pub fn new() -> (lazy: Self)
        ensures
            lazy.get() is None,
    {
        LazyBox { value: None }
    }

    /// The value, made by `f` if there is none yet.
    pub fn get_or_init<F: FnOnce() -> Box<T>>(&mut self, f: F) -> (value: &T)
        requires
            old(self).get() is None ==> call_requires(f, ()),
        ensures
            final(self).get() == Some(*value),
            old(self).get() matches Some(made) ==> *value == made,
            old(self).get() is None ==> exists|made: Box<T>| #[trigger]
                call_ensures(f, (), made) && *made == *value,
    {
        if self.value.is_none() {
            let made = f();
            self.init(made);
        }
        match &self.value {
            Some(value) => &**value,
            None => vstd::pervasive::unreached(),
        }
    }

    /// Installs `made`, unless another thread was faster: then the value that is there stays, and
    /// `made` is handed back to be dropped.
    pub fn init(&mut self, made: Box<T>) -> (rejected: Option<Box<T>>)
        ensures
            old(self).get() is None ==> final(self).get() == Some(*made) && rejected is None,
            old(self).get() is Some ==> final(self).get() == old(self).get() && rejected == Some(
                made,
            ),
    {
        if self.value.is_some() {
            Some(made)
        } else {
            self.value = Some(made);
            None
        }
    }
}

/// A parker that sleeps on a condition variable of the thread library.
#[derive(Debug)]
pub struct PthreadParker {
    state: ParkerState,
}

impl Parker for PthreadParker {
    closed spec fn notified(&self) -> bool {
        self.state.notified()
    }

    closed spec fn asleep(&self) -> bool {
        self.state.asleep()
    }

    open spec fn sleeps() -> bool {
        true
    }

    fn new() -> (parker: Self) {
        PthreadParker { state: ParkerState::new() }
    }

    fn park(&mut self) -> (taken: Attempt<()>) {
        self.state.park()
    }

    fn unpark(&mut self) -> (wake: bool) {
        self.state.unpark()
    }
}

} // verus!
