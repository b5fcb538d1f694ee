//! Blocking with a token: whoever parks waits for the token and takes it, whoever unparks puts it
//! there.

use vstd::prelude::*;

use crate::attempt::Attempt;

verus! {

/// A place where one thread at a time can wait to be notified.
pub trait Parker: Sized {
    /// The token is there: the next `park` will not wait.
    spec fn notified(&self) -> bool;

    /// A thread sleeps here, and has to be woken.
    spec fn asleep(&self) -> bool;

    /// A thread that has to wait here goes to sleep. Otherwise it looks again and again.
    spec fn sleeps() -> bool;

    /// A parker without a token.
    fn new() -> (parker: Self)
        ensures
            !parker.notified(),
            !parker.asleep(),
    ;

    /// Takes the token. Without one the thread has to wait, and to call again when it is woken.
    /// Only one thread at a time may park.
    fn park(&mut self) -> (taken: Attempt<()>)
        ensures
            taken is Done <==> old(self).notified(),
            taken is Wait <==> !old(self).notified(),
            !final(self).notified(),
            taken is Done ==> !final(self).asleep(),
            taken is Wait ==> final(self).asleep() == Self::sleeps(),
    ;

    /// Puts the token there, and says whether a sleeping thread has to be woken.
    fn unpark(&mut self) -> (wake: bool)
        ensures
            final(self).notified(),
            !final(self).asleep(),
            wake == old(self).asleep(),
    ;
}

/// The parker of the default primitives.
pub type DefaultParker = StdParker;

/// A flag that the waiting thread polls.
#[derive(Debug)]
pub struct SpinParker {
    token: bool,
}

impl Parker for SpinParker {
    closed spec fn notified(&self) -> bool {
        self.token
    }

    closed spec fn asleep(&self) -> bool {
        false
    }

    open spec fn sleeps() -> bool {
        false
    }

    fn new() -> (parker: Self) {
        SpinParker { token: false }
    }

    fn park(&mut self) -> (taken: Attempt<()>) {
        let token = self.token;
        self.token = false;
        if token {
            Attempt::Done(())
        } else {
            Attempt::Wait
        }
    }

    fn unpark(&mut self) -> (wake: bool) {
        self.token = true;
        false
    }
}

/// The state of a parker that a thread sleeps on: a word that is counted down by whoever asks for
/// the token, and set by whoever puts it there.
#[derive(Debug)]
pub struct ParkerState {
    word: u32,
}

impl ParkerState {
    /// There is no token and nobody waits.
    pub const EMPTY: u32 = 0;

    /// There is a token.
    pub const NOTIFIED: u32 = 1;

    /// There is no token and a thread waits for one.
    pub const PARKED: u32 = u32::MAX;

    #[verifier::type_invariant]
    spec fn valid(self) -> bool {
        self.word == Self::EMPTY || self.word == Self::NOTIFIED || self.word == Self::PARKED
    }

    /// The token is there.
    pub closed spec fn notified(&self) -> bool {
        self.word == Self::NOTIFIED
    }

    /// A thread sleeps.
    pub closed spec fn asleep(&self) -> bool {
        self.word == Self::PARKED
    }

    /// No token, and nobody waits.
    pub fn new() -> (state: Self)
        ensures
            !state.notified(),
            !state.asleep(),
    {
        ParkerState { word: Self::EMPTY }
    }

    /// The word found when a token was asked for shows that there was one.
    pub fn had_token(previous: u32) -> (token: bool)
        ensures
            token == (previous == Self::NOTIFIED),
    {
        previous == Self::NOTIFIED
    }

    /// The word found when a token was put there shows that a thread has to be woken.
    pub fn had_sleeper(previous: u32) -> (wake: bool)
        ensures
            wake == (previous == Self::PARKED),
    {
        previous == Self::PARKED
    }

    /// Asks for a token by counting the word down: from `NOTIFIED` to `EMPTY`, or from `EMPTY` to
    /// `PARKED`, in which case the thread sleeps.
    pub fn begin(&mut self) -> (taken: Attempt<()>)
        requires
            !old(self).asleep(),
        ensures
            taken is Done <==> old(self).notified(),
            taken is Wait <==> !old(self).notified(),
            !final(self).notified(),
            final(self).asleep() == (taken is Wait),
    {
        proof {
            use_type_invariant(&*self);
        }
        let previous: u32 = self.word;
        self.word = previous.wrapping_sub(1);
        if Self::had_token(previous) {
            Attempt::Done(())
        } else {
            Attempt::Wait
        }
    }

    /// What a thread that was woken does: it takes the token, or goes back to sleep.
    pub fn resume(&mut self) -> (taken: Attempt<()>)
        requires
            old(self).asleep() || old(self).notified(),
        ensures
            taken is Done <==> old(self).notified(),
            taken is Wait <==> !old(self).notified(),
            !final(self).notified(),
            final(self).asleep() == (taken is Wait),
    {
        if self.word == Self::NOTIFIED {
            self.word = Self::EMPTY;
            Attempt::Done(())
        } else {
            Attempt::Wait
        }
    }

    /// Takes the token, or goes to sleep.
    pub fn park(&mut self) -> (taken: Attempt<()>)
        ensures
            taken is Done <==> old(self).notified(),
            taken is Wait <==> !old(self).notified(),
            !final(self).notified(),
            final(self).asleep() == (taken is Wait),
    {
        if self.word == Self::PARKED {
            self.resume()
        } else {
            self.begin()
        }
    }

    /// Puts the token there, and says whether a thread has to be woken.
    pub fn unpark(&mut self) -> (wake: bool)
        ensures
            final(self).notified(),
            !final(self).asleep(),
            wake == old(self).asleep(),
    {
        let previous: u32 = self.word;
        self.word = Self::NOTIFIED;
        Self::had_sleeper(previous)
    }
}

/// A parker whose word a thread can sleep on.
#[derive(Debug)]
pub struct AtomicParker {
    state: ParkerState,
}

impl Parker for AtomicParker {
    closed spec fn notified(&self) -> bool {
        self.state.notified()
    }

    closed spec fn asleep(&self) -> bool {
        self.state.asleep()
    }

    open spec fn sleeps() -> bool {
        true
    }

    fn new() -> (parker: Self) {
        AtomicParker { state: ParkerState::new() }
    }

    fn park(&mut self) -> (taken: Attempt<()>) {
        self.state.park()
    }

    fn unpark(&mut self) -> (wake: bool) {
        self.state.unpark()
    }
}

/// A parker that sleeps on a condition variable.
#[derive(Debug)]
pub struct StdParker {
    state: ParkerState,
}

impl Parker for StdParker {
    closed spec fn notified(&self) -> bool {
        self.state.notified()
    }

    closed spec fn asleep(&self) -> bool {
        self.state.asleep()
    }

    open spec fn sleeps() -> bool {
        true
    }

    fn new() -> (parker: Self) {
        StdParker { state: ParkerState::new() }
    }

    fn park(&mut self) -> (taken: Attempt<()>) {
        self.state.park()
    }

    fn unpark(&mut self) -> (wake: bool) {
        self.state.unpark()
    }
}

} // verus!
