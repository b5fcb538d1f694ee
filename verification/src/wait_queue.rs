//! A queue of tasks that wait to be notified.
//!
//! The tasks' wakers are opaque here. What has to be woken is handed to the caller, who wakes it
//! when the call has returned, without the lock.

use vstd::prelude::*;

use crate::queue::model::Model;
use crate::queue::{Handshake, Queue, QueueView, MAX_SLOTS};
use crate::sync::{DefaultSyncPrimitives, SyncPrimitives};

pub mod effects;
pub mod laws;
pub mod notify;
pub mod predicate;
pub mod wait;
pub mod wake;

pub use crate::wait_queue::notify::Notification;
pub use crate::wait_queue::wait::{Poll, PollUntil, Wait, WaitDropping, WaitIf, WaitUntil};
pub use crate::wait_queue::wake::{Wakers, Waking, Woken};

verus! {

/// The state of a wait queue that is open.
pub const EMPTY: usize = 0;

/// The state of a wait queue that has been closed.
pub const CLOSED: usize = 1;

/// A queue of tasks that wait to be notified, known by their wakers.
pub struct WaitQueue<W, SP: SyncPrimitives = DefaultSyncPrimitives> {
    queue: Queue<Option<W>, SP>,
}

impl<W, SP: SyncPrimitives> View for WaitQueue<W, SP> {
    type V = QueueView<Option<W>>;

    closed spec fn view(&self) -> QueueView<Option<W>> {
        self.queue@
    }
}

/// The wait queue takes no waiter any more.
pub open spec fn closed(m: Model) -> bool {
    m.state is Some && m.state != Some(EMPTY)
}

impl<W, SP: SyncPrimitives> WaitQueue<W, SP> {
    /// The queue is well formed.
    pub closed spec fn wf(&self) -> bool {
        self.queue.wf()
    }

    /// What holds of every wait queue.
    pub proof fn lemma_wf(&self)
        requires
            self.wf(),
        ensures
            self@.model.wf(),
            self@.data.dom() == self@.model.nodes,
            self@.model.leaving is Some || self@.model.open is Some || self@.model.waiting is Some
                ==> self@.locked,
    {
        self.queue.lemma_wf();
    }

    /// A wait queue called `id` that is open and that nobody waits in.
    pub fn new(id: usize) -> (queue: Self)
        ensures
            queue.wf(),
            queue@.id == id,
            queue@.model == Model::empty(EMPTY),
            queue@.data == Map::<usize, Option<W>>::empty(),
            queue@.room == MAX_SLOTS,
            !queue@.locked,
            !queue@.notified,
            !queue@.asleep,
            queue@.handshake == Handshake::none(),
            !queue@.own_word,
    {
        WaitQueue { queue: Queue::new(id) }
    }

    /// The wait queue has been closed.
    pub fn is_closed(&self) -> (is_closed: bool)
        requires
            self.wf(),
        ensures
            is_closed == closed(self@.model),
    {
        match self.queue.state() {
            Some(state) => state != EMPTY,
            None => false,
        }
    }
}

impl<W, SP: SyncPrimitives> Default for WaitQueue<W, SP> {
    /// A wait queue called zero. A program that has several gives them names by [`WaitQueue::new`].
    fn default() -> (queue: Self)
        ensures
            queue.wf(),
            queue@.id == 0,
            queue@.model == Model::empty(EMPTY),
            queue@.data == Map::<usize, Option<W>>::empty(),
            queue@.room == MAX_SLOTS,
            !queue@.locked,
            !queue@.notified,
            !queue@.asleep,
            queue@.handshake == Handshake::none(),
            !queue@.own_word,
    {
        Self::new(0)
    }
}

impl<W, SP: SyncPrimitives> WaitQueue<W, SP> {
    /// There is memory for one more waiter.
    pub fn has_room(&self) -> (room: bool)
        requires
            self.wf(),
        ensures
            room == (self@.room > 0),
    {
        self.queue.has_room()
    }
}

} // verus!
