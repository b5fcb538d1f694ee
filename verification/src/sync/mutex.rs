//! Mutual exclusion. Whoever finds a mutex locked has to wait and try again.

use vstd::prelude::*;

use crate::attempt::Attempt;

verus! {

/// A lock that one thread at a time can hold.
pub trait Mutex: Sized {
    /// What the holder of the lock is given, and gives back.
    type Guard;

    /// Some thread holds the lock.
    spec fn is_locked(&self) -> bool;

    /// An unlocked mutex.
    fn new() -> (mutex: Self)
        ensures
            !mutex.is_locked(),
    ;

    /// Takes the lock, unless it is taken already.
    fn lock(&mut self) -> (guard: Attempt<Self::Guard>)
        ensures
            guard is Done <==> !old(self).is_locked(),
            guard is Wait <==> old(self).is_locked(),
            final(self).is_locked(),
    ;

    /// Releases the lock.
    fn unlock(&mut self, guard: Self::Guard)
        requires
            old(self).is_locked(),
        ensures
            !final(self).is_locked(),
    ;
}

/// The mutex of the default primitives.
pub type DefaultMutex = StdMutex;

/// A flag that the holder of the lock has raised.
#[derive(Debug)]
pub struct SpinMutex {
    locked: bool,
}

impl Mutex for SpinMutex {
    type Guard = ();

    closed spec fn is_locked(&self) -> bool {
        self.locked
    }

    fn new() -> (mutex: Self) {
        SpinMutex { locked: false }
    }

    fn lock(&mut self) -> (guard: Attempt<()>) {
        let locked = self.locked;
        self.locked = true;
        if locked {
            Attempt::Wait
        } else {
            Attempt::Done(())
        }
    }

    fn unlock(&mut self, _guard: ()) {
        self.locked = false;
    }
}

/// A mutex whose lock is a guard that is handed out and taken back.
#[derive(Debug)]
pub struct StdMutex {
    guard: Option<StdGuard>,
}

/// The lock of a [`StdMutex`].
#[derive(Debug)]
pub struct StdGuard {
    _private: (),
}

impl Mutex for StdMutex {
    type Guard = StdGuard;

    closed spec fn is_locked(&self) -> bool {
        self.guard is None
    }

    fn new() -> (mutex: Self) {
        StdMutex { guard: Some(StdGuard { _private: () }) }
    }

    fn lock(&mut self) -> (guard: Attempt<StdGuard>) {
        match self.guard.take() {
            Some(guard) => Attempt::Done(guard),
            None => Attempt::Wait,
        }
    }

    fn unlock(&mut self, guard: StdGuard) {
        self.guard = Some(guard);
    }
}

} // verus!
