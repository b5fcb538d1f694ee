//! The primitives that a queue needs: a mutex that serializes removals, and a parker on which a
//! removal waits for an insertion to complete.

use vstd::prelude::*;

use crate::sync::mutex::{DefaultMutex, Mutex};
use crate::sync::parker::{DefaultParker, Parker};

pub mod mutex;
pub mod parker;
pub mod pthread;

verus! {

/// The choice of primitives that a queue is built with.
pub trait SyncPrimitives: Sized {
    /// Serializes the removal of nodes.
    type Mutex: Mutex;

    /// Lets a removal wait for the end of an insertion.
    type Parker: Parker;

    /// How often a thread looks again before it parks.
    const SPIN_BEFORE_PARK: usize;
}

/// The default primitives.
#[derive(Debug)]
pub struct DefaultSyncPrimitives;

impl SyncPrimitives for DefaultSyncPrimitives {
    type Mutex = DefaultMutex;

    type Parker = DefaultParker;

    const SPIN_BEFORE_PARK: usize = 100;
}

} // verus!
