//! The queue: a tail word, a head word, and the links of the nodes.
//!
//! Insertion swings the tail word to the new node and then links the node behind its predecessor;
//! it takes no lock. Removal takes the lock, and waits where it meets an insertion that has not
//! linked its node yet.
//!
//! These are steps, which take effect at one access to the shared words:
//!
//! - `load_tail`, `state`, `is_empty`, `raw_state`, `update_tail`, `link_next`, `look_parked`, `unpark`,
//!   `fetch_update_seen`, `reset_node`, `lock`;
//! - of the holder of the lock: `LockedQueue::look`, `announce`, `look_again`, `park`, `retract`,
//!   `detach_node`, `release_tail`, `unlink_node`, `unlock`, and of a drain: `Drain::next`, `unlock`,
//!   `relock`.
//!
//! A node that is taken out counts as dequeued when the step is over that takes it out; until then its
//! owner finds it queued, and waits for the lock.
//!
//! These are made of several steps:
//!
//! - `link_node`: `link_next`, in a queue with a word for the announcement `look_parked`, and `unpark`;
//!   `LockedQueue::get_next`: `look`, and to wait `announce`, `look_again`, `park`, or to go on
//!   `retract`;
//! - `enqueue`, and the ways to insert a node that are built on it: `load_tail`, `update_tail`, and the
//!   steps of `link_node`;
//! - `fetch_update_state`: `load_tail`, `fetch_update_seen`; `is_empty_or_lock`: `is_empty`, `lock`;
//!   `fetch_update_state_or_lock`, `fetch_update_state_with_lock`, `fetch_update_state_locked`: the
//!   steps of `fetch_update_state`, `lock`, and those of `fetch_update_state` again;
//! - `LockedQueue::remove`, and the ways to take a node out that are built on it: `detach_node`,
//!   `release_tail`, the steps of `get_next`, `unlink_node`; `dequeue`, `pop`, `drain`: `load_tail`, the
//!   steps of `get_next`, and for a drain the exchange of the tail;
//! - `Node::state`: `raw_state`, `lock`, `raw_state` again; `Drain::execute_unlocked`, `for_each`,
//!   `finish`;
//! - every operation of a wait queue but `is_closed`.
//!
//! A thread that waits for an insertion and the one that ends it meet as follows. The one that waits
//! announces itself, looks again, and parks; the other links its node, and then looks whether somebody
//! is announced. Whichever comes first, one of them sees the other. Without a word of its own for the
//! announcement, it stands in the cell itself: announcing finds a node that has been linked, and linking
//! finds an announcement. The [`Handshake`] of a queue says who has yet to look; `park` can only be
//! called after `look_again`, and `look_parked` only after `link_next`.
//!
//! Where one of these has to wait in the middle, it says so there: what it has done up to then is in
//! its contract, and other threads take their steps before it is called again.

use std::marker::PhantomData;
use std::sync::Arc;

use vstd::multiset::Multiset;
use vstd::prelude::*;

use crate::atomic::AtomicPtr;
use crate::node::NodeInner;
use crate::queue::model::{is_addr, Link, Model, Words, HEAD_MARKER};
use crate::queue::state::{state_to_ptr, QueueState, INTRUSIVE_QUEUE_MAX_STATE};
use crate::sync::mutex::Mutex;
use crate::sync::parker::Parker;
use crate::sync::{DefaultSyncPrimitives, SyncPrimitives};
use crate::unsafe_pinned::UnsafePinned;

pub mod backoff;
pub mod drain;
pub mod insert;
pub mod lock;
pub mod memory;
pub mod model;
pub mod remove;
pub mod ring;
pub mod state;

pub use crate::queue::insert::{Enqueued, Linked, NewTail, TailUpdate};
pub use crate::queue::lock::{stalled, LockedQueue, StateOrLock, StateUpdate};
pub use crate::queue::remove::{reached, removal, NodeDequeuing};

verus! {

/// What a node keeps of the queue that it belongs to.
pub trait QueueRef {
    /// What the nodes of the queue carry.
    type NodeData;

    /// The primitives that the queue is built with.
    type SyncPrimitives: SyncPrimitives;

    /// What the queue is called.
    spec fn queue_id(&self) -> usize;

    /// What the queue is called.
    fn queue(&self) -> (id: usize)
        ensures
            id == self.queue_id(),
    ;
}

/// A reference to a queue.
#[derive(Debug)]
pub struct QueueHandle<T, SP: SyncPrimitives = DefaultSyncPrimitives> {
    id: usize,
    phantom: PhantomData<(T, SP)>,
}

impl<T, SP: SyncPrimitives> Clone for QueueHandle<T, SP> {
    fn clone(&self) -> (handle: Self)
        ensures
            handle.queue_id() == self.queue_id(),
    {
        QueueHandle { id: self.id, phantom: PhantomData }
    }
}

impl<T, SP: SyncPrimitives> QueueRef for QueueHandle<T, SP> {
    type NodeData = T;

    type SyncPrimitives = SP;

    closed spec fn queue_id(&self) -> usize {
        self.id
    }

    fn queue(&self) -> (id: usize) {
        self.id
    }
}

impl<Q: QueueRef> QueueRef for Arc<Q> {
    type NodeData = Q::NodeData;

    type SyncPrimitives = Q::SyncPrimitives;

    open spec fn queue_id(&self) -> usize {
        (**self).queue_id()
    }

    fn queue(&self) -> (id: usize) {
        (**self).queue()
    }
}

/// How many nodes and drains fit in the memory of one queue.
pub const MAX_SLOTS: usize = usize::MAX / 4;

/// A queue, with the memory that its nodes are pinned in.
pub struct Queue<T, SP: SyncPrimitives = DefaultSyncPrimitives> {
    id: usize,
    tail: AtomicPtr,
    head: AtomicPtr,
    parked_node: Option<AtomicPtr>,
    mutex: SP::Mutex,
    parker: SP::Parker,
    slots: Vec<UnsafePinned<NodeInner<T>>>,
    free: Vec<usize>,
    model: Ghost<Model>,
    handshake: Ghost<Handshake>,
}

/// How far the holder of the lock has come that has announced itself on a cell.
pub enum Parking {
    /// It has to look at the cell before it may park.
    Announced,
    /// It has looked since, found nothing, and is about to park.
    Looked,
    /// It has parked, and waits to be woken.
    Parked,
}

/// What a thread that waits for an insertion to end, and the threads that end insertions, have yet to
/// do.
#[verifier::ext_equal]
pub struct Handshake {
    /// How far the holder of the lock has come, while it is announced on a cell.
    pub parking: Parking,
    /// The cells behind which a node has been linked by a thread that has yet to look whether
    /// somebody is announced there.
    pub looking: Multiset<usize>,
    /// How many threads have found that somebody is announced, and have yet to unpark.
    pub waking: nat,
}

impl Handshake {
    /// Nothing is left to do.
    pub open spec fn none() -> Handshake {
        Handshake { parking: Parking::Announced, looking: Multiset::empty(), waking: 0 }
    }

    /// A thread will look at cell `w`, or unpark.
    pub open spec fn owed(self, w: usize) -> bool {
        self.looking.count(w) > 0 || self.waking > 0
    }

    /// The holder of the lock has come to `parking`.
    pub open spec fn at(self, parking: Parking) -> Handshake {
        Handshake { parking, ..self }
    }
}

/// A queue as its users see it.
#[verifier::ext_equal]
pub struct QueueView<T> {
    /// What the queue is called.
    pub id: usize,
    /// The order of the nodes, and the operations under way.
    pub model: Model,
    /// What the nodes carry.
    pub data: Map<usize, T>,
    /// How many more nodes and drains fit in memory.
    pub room: nat,
    /// A thread holds the lock.
    pub locked: bool,
    /// The token of the parker is there.
    pub notified: bool,
    /// A thread sleeps on the parker.
    pub asleep: bool,
    /// A thread that has to wait goes to sleep on the parker.
    pub sleeps: bool,
    /// What waiting and inserting threads have yet to do for each other.
    pub handshake: Handshake,
    /// A waiting thread is announced in a word of its own, and not in the cell that it waits on.
    pub own_word: bool,
}

impl<T> QueueView<T> {
    /// Node `a` exists, and is neither in the queue nor in a drain: what it carries is its owner's.
    pub open spec fn owned(self, a: usize) -> bool {
        self.model.nodes.contains(a) && !self.model.queued.contains(a)
    }
}

/// The place in memory that an address stands for.
pub open spec fn index_of(a: usize) -> int {
    a as int / 4 - 1
}

/// What stands at address `a`.
spec fn slot_at<T>(slots: Seq<UnsafePinned<NodeInner<T>>>, a: usize) -> NodeInner<T> {
    slots[index_of(a)]@
}

spec fn in_memory<T>(slots: Seq<UnsafePinned<NodeInner<T>>>, a: usize) -> bool {
    is_addr(a) && index_of(a) < slots.len()
}

/// The links of the nodes and sentinels in memory.
spec fn links_of<T>(slots: Seq<UnsafePinned<NodeInner<T>>>) -> Map<usize, Link> {
    Map::new(
        |a: usize|
            in_memory(slots, a) && (slot_at(slots, a).data is Some || slot_at(slots, a).sentinel),
        |a: usize|
            Link { prev: slot_at(slots, a).link.prev@, next: slot_at(slots, a).link.next@ },
    )
}

/// What the nodes in memory carry.
spec fn data_of<T>(slots: Seq<UnsafePinned<NodeInner<T>>>) -> Map<usize, T> {
    Map::new(
        |a: usize| in_memory(slots, a) && slot_at(slots, a).data is Some,
        |a: usize| slot_at(slots, a).data->0,
    )
}

impl<T, SP: SyncPrimitives> Queue<T, SP> {
    spec fn words(&self) -> Words {
        Words {
            tail: self.tail@,
            head: self.head@,
            links: links_of(self.slots@),
            parked_node: match self.parked_node {
                Some(cell) => Some(cell@),
                None => None,
            },
        }
    }

    spec fn memory_wf(&self) -> bool {
        &&& self.slots@.len() <= MAX_SLOTS
        &&& self.free@.len() <= self.slots@.len()
        &&& self.free@.no_duplicates()
        &&& forall|j: int|
            #![trigger self.free@[j]]
            0 <= j < self.free@.len() ==> {
                &&& 0 <= self.free@[j] < self.slots@.len()
                &&& self.slots@[self.free@[j] as int]@.data is None
                &&& !self.slots@[self.free@[j] as int]@.sentinel
            }
    }

    /// The words in memory stand for the model, no notification that is owed is missing, and no
    /// thread waits that nobody would wake.
    pub closed spec fn wf(&self) -> bool {
        &&& self.memory_wf()
        &&& self.model@.wf()
        &&& self.words().represents(self.model@)
        &&& data_of(self.slots@).dom() == self.model@.nodes
        &&& (self.model@.leaving is Some || self.model@.open is Some || self.model@.waiting is Some)
            ==> self.mutex.is_locked()
        &&& self.handshake@.looking.count(0) == 0
        &&& self.model@.waiting matches Some(w) ==> self.parking_wf(w)
    }

    /// A thread that waits on cell `w` and is not going to look there before it parks finds the token
    /// once the word is set, or somebody will put it there. If it has parked and the word is not set,
    /// it sleeps, if it goes to sleep at all, or it has been woken.
    spec fn parking_wf(&self, w: usize) -> bool {
        &&& !(self.handshake@.parking is Announced) && self.words().next_at(w) >= 2
            ==> self.parker.notified() || self.handshake@.owed(w)
        &&& self.handshake@.parking is Parked && self.words().next_at(w) < 2
            ==> self.parker.notified() || self.parker.asleep() == <SP::Parker as Parker>::sleeps()
    }
}

impl<T, SP: SyncPrimitives> View for Queue<T, SP> {
    type V = QueueView<T>;

    closed spec fn view(&self) -> QueueView<T> {
        QueueView {
            id: self.id,
            model: self.model@,
            data: data_of(self.slots@),
            room: (MAX_SLOTS - self.slots@.len() + self.free@.len()) as nat,
            locked: self.mutex.is_locked(),
            notified: self.parker.notified(),
            asleep: self.parker.asleep(),
            sleeps: <SP::Parker as Parker>::sleeps(),
            handshake: self.handshake@,
            own_word: self.parked_node is Some,
        }
    }
}

/// Making queues.
impl<T, SP: SyncPrimitives> Queue<T, SP> {
    /// What holds of every queue.
    pub proof fn lemma_wf(&self)
        requires
            self.wf(),
        ensures
            self@.model.wf(),
            self@.data.dom() == self@.model.nodes,
            self@.model.leaving is Some || self@.model.open is Some || self@.model.waiting is Some
                ==> self@.locked,
            self@.sleeps == <SP::Parker as Parker>::sleeps(),
    {
    }

    /// No sleeper is forgotten: when a thread has parked to wait for a node whose insertion has not
    /// ended, it sleeps, if it goes to sleep at all, so that the end of the insertion wakes it; or it
    /// has been woken already.
    pub proof fn no_forgotten_sleeper(&self, a: usize)
        requires
            self.wf(),
            self@.model.pending.contains_key(a),
            self@.model.waiting == Some(self@.model.pending[a]),
            self@.handshake.parking is Parked,
        ensures
            self@.notified || self@.asleep == self@.sleeps,
    {
        let m = self.model@;
        m.lemma_position(a);
        let (k, i) = m.position(a);
        assert(m.has(k, i) && m.pred(k, i) == m.pending[a]);
        assert(self.words().unset(m, m.pred(k, i)));
    }

    /// No wakeup is lost: when a thread waits for the node behind a cell, is not going to look there
    /// before it parks, and that node has been linked, then the token is there for the thread, or the
    /// thread that linked the node has yet to look for it or to unpark it.
    pub proof fn no_lost_wakeup(&self, k: usize, i: int)
        requires
            self.wf(),
            self@.model.has(k, i),
            self@.model.waiting == Some(self@.model.pred(k, i)),
            self@.model.attached(self@.model.chains[k][i]),
            !(self@.handshake.parking is Announced),
        ensures
            self@.notified || self@.handshake.owed(self@.model.pred(k, i)),
    {
        let a = self.model@.chains[k][i];
        assert(self.model@.nodes.contains(a));
        assert(self.words().next_at(self.model@.pred(k, i)) == a);
    }

    fn new_impl(id: usize, state: QueueState, parked_node: Option<AtomicPtr>) -> (queue: Self)
        requires
            state <= INTRUSIVE_QUEUE_MAX_STATE,
            parked_node matches Some(cell) ==> cell@ == 0,
        ensures
            queue.wf(),
            queue@.id == id,
            queue@.model == Model::empty(state),
            queue@.data == Map::<usize, T>::empty(),
            queue@.room == MAX_SLOTS,
            !queue@.locked,
            !queue@.notified,
            !queue@.asleep,
            queue@.handshake == Handshake::none(),
            queue@.own_word == (parked_node is Some),
    {
        let queue = Queue {
            id,
            tail: AtomicPtr::new(state_to_ptr(state)),
            head: AtomicPtr::new(0),
            parked_node,
            mutex: <SP::Mutex as Mutex>::new(),
            parker: <SP::Parker as Parker>::new(),
            slots: Vec::new(),
            free: Vec::new(),
            model: Ghost(Model::empty(state)),
            handshake: Ghost(Handshake::none()),
        };
        assert(data_of(queue.slots@) =~= Map::<usize, T>::empty());
        assert(queue.words().links =~= Map::<usize, Link>::empty());
        queue
    }

    /// An empty queue whose state is zero, called `id`. The queues of a program are told apart by
    /// what they are called, and so are their locks: that nobody else unlocks a queue rests on no other
    /// being called so.
    pub fn new(id: usize) -> (queue: Self)
        ensures
            queue.wf(),
            queue@.id == id,
            queue@.model == Model::empty(0),
            queue@.data == Map::<usize, T>::empty(),
            queue@.room == MAX_SLOTS,
            !queue@.locked,
            !queue@.notified,
            !queue@.asleep,
            queue@.handshake == Handshake::none(),
            !queue@.own_word,
    {
        Self::new_impl(id, 0, None)
    }

    /// A reference to this queue.
    pub fn handle(&self) -> (handle: QueueHandle<T, SP>)
        ensures
            handle.queue_id() == self@.id,
    {
        QueueHandle { id: self.id, phantom: PhantomData }
    }

    /// An empty queue called `id` that carries `state`, in which a parked thread is announced in a
    /// word of its own and not in the cell that it waits on.
    pub fn with_parked_node(id: usize, state: QueueState) -> (queue: Self)
        requires
            state <= INTRUSIVE_QUEUE_MAX_STATE,
        ensures
            queue.wf(),
            queue@.id == id,
            queue@.model == Model::empty(state),
            queue@.data == Map::<usize, T>::empty(),
            queue@.room == MAX_SLOTS,
            !queue@.locked,
            !queue@.notified,
            !queue@.asleep,
            queue@.handshake == Handshake::none(),
            queue@.own_word,
    {
        Self::new_impl(id, state, Some(AtomicPtr::new(0)))
    }

    /// An empty queue called `id` that carries `state`.
    pub fn with_state(id: usize, state: QueueState) -> (queue: Self)
        requires
            state <= INTRUSIVE_QUEUE_MAX_STATE,
        ensures
            queue.wf(),
            queue@.id == id,
            queue@.model == Model::empty(state),
            queue@.data == Map::<usize, T>::empty(),
            queue@.room == MAX_SLOTS,
            !queue@.locked,
            !queue@.notified,
            !queue@.asleep,
            queue@.handshake == Handshake::none(),
            !queue@.own_word,
    {
        Self::new_impl(id, state, None)
    }
}

impl<T, SP: SyncPrimitives> Default for Queue<T, SP> {
    /// An empty queue whose state is zero, called zero. Of two queues made so, the lock of the one is
    /// taken for that of the other; a program that has several gives them names by [`Queue::new`].
    fn default() -> (queue: Self)
        ensures
            queue.wf(),
            queue@.id == 0,
            queue@.model == Model::empty(0),
            queue@.data == Map::<usize, T>::empty(),
            queue@.room == MAX_SLOTS,
            !queue@.locked,
            !queue@.notified,
            !queue@.asleep,
            queue@.handshake == Handshake::none(),
            !queue@.own_word,
    {
        Self::new(0)
    }
}

impl<T, SP: SyncPrimitives> Queue<T, SP> {
    /// There is memory for one more node or drain.
    pub fn has_room(&self) -> (room: bool)
        requires
            self.wf(),
        ensures
            room == (self@.room > 0),
    {
        self.slots.len() < MAX_SLOTS || self.free.len() > 0
    }
}

/// Access to the words.
impl<T, SP: SyncPrimitives> Queue<T, SP> {
    /// Nothing but the words of links, of the head and of the tail differs.
    spec fn same_rest(&self, other: &Self) -> bool {
        &&& self.id == other.id
        &&& self.mutex == other.mutex
        &&& self.parker == other.parker
        &&& self.handshake == other.handshake
        &&& self.slots@.len() == other.slots@.len()
        &&& self.free == other.free
        &&& self.model == other.model
        &&& data_of(self.slots@) == data_of(other.slots@)
        &&& other.memory_wf() ==> self.memory_wf()
    }

    /// Nothing but the slots differs.
    spec fn same_outside(&self, other: &Self) -> bool {
        &&& self.id == other.id
        &&& self.tail == other.tail
        &&& self.head == other.head
        &&& self.parked_node == other.parked_node
        &&& self.mutex == other.mutex
        &&& self.parker == other.parker
        &&& self.handshake == other.handshake
        &&& self.model == other.model
    }

    fn prev_of(&self, a: usize) -> (word: usize)
        requires
            self.words().links.contains_key(a),
        ensures
            word == self.words().links[a].prev,
    {
        self.slots[a / 4 - 1].get().link.prev()
    }

    fn next_of(&self, c: usize) -> (word: usize)
        requires
            c == HEAD_MARKER || self.words().links.contains_key(c),
        ensures
            word == self.words().next_at(c),
    {
        if c == HEAD_MARKER {
            self.head.load()
        } else {
            self.slots[c / 4 - 1].get().link.next.load()
        }
    }

    fn set_prev(&mut self, a: usize, word: usize)
        requires
            old(self).words().links.contains_key(a),
        ensures
            final(self).words() == old(self).words().set_prev(a, word),
            final(self).same_rest(old(self)),
    {
        let i: usize = a / 4 - 1;
        UnsafePinned::raw_get(&mut self.slots[i]).link.prev.store(word);
        proof {
            lemma_other_addresses(a);
            assert(self.words().links =~= old(self).words().set_prev(a, word).links);
            assert(data_of(self.slots@) =~= data_of(old(self).slots@));
        }
    }

    fn set_next(&mut self, c: usize, word: usize)
        requires
            c == HEAD_MARKER || old(self).words().links.contains_key(c),
        ensures
            final(self).words() == old(self).words().set_next(c, word),
            final(self).same_rest(old(self)),
    {
        if c == HEAD_MARKER {
            self.head.store(word);
            proof {
                assert(self.words().links =~= old(self).words().links);
                assert(data_of(self.slots@) =~= data_of(old(self).slots@));
            }
        } else {
            let i: usize = c / 4 - 1;
            UnsafePinned::raw_get(&mut self.slots[i]).link.next.store(word);
            proof {
                lemma_other_addresses(c);
                assert(self.words().links =~= old(self).words().set_next(c, word).links);
                assert(data_of(self.slots@) =~= data_of(old(self).slots@));
            }
        }
    }

    /// Overwrites the `next` word of cell `c`, and returns what it held.
    fn swap_next(&mut self, c: usize, word: usize) -> (previous: usize)
        requires
            c == HEAD_MARKER || old(self).words().links.contains_key(c),
        ensures
            previous == old(self).words().next_at(c),
            final(self).words() == old(self).words().set_next(c, word),
            final(self).same_rest(old(self)),
    {
        if c == HEAD_MARKER {
            let previous = self.head.swap(word);
            proof {
                assert(self.words().links =~= old(self).words().links);
                assert(data_of(self.slots@) =~= data_of(old(self).slots@));
            }
            previous
        } else {
            let i: usize = c / 4 - 1;
            let previous = UnsafePinned::raw_get(&mut self.slots[i]).link.next.swap(word);
            proof {
                lemma_other_addresses(c);
                assert(self.words().links =~= old(self).words().set_next(c, word).links);
                assert(data_of(self.slots@) =~= data_of(old(self).slots@));
            }
            previous
        }
    }

    /// Puts `new` in the `next` word of cell `c` if it is empty. Otherwise returns what it holds.
    fn fill_next(&mut self, c: usize, new: usize) -> (found: Option<usize>)
        requires
            c == HEAD_MARKER || old(self).words().links.contains_key(c),
        ensures
            old(self).words().next_at(c) == 0 ==> found is None && final(self).words() == old(
                self,
            ).words().set_next(c, new),
            old(self).words().next_at(c) != 0 ==> found == Some(old(self).words().next_at(c))
                && final(self).words() == old(self).words(),
            final(self).same_rest(old(self)),
    {
        let result = if c == HEAD_MARKER {
            self.head.compare_exchange(0, new)
        } else {
            let i: usize = c / 4 - 1;
            UnsafePinned::raw_get(&mut self.slots[i]).link.next.compare_exchange(0, new)
        };
        proof {
            lemma_other_addresses(c);
            if old(self).words().next_at(c) == 0 {
                assert(self.words().links =~= old(self).words().set_next(c, new).links);
            } else {
                assert(self.words().links =~= old(self).words().links);
            }
            assert(data_of(self.slots@) =~= data_of(old(self).slots@));
        }
        match result {
            Ok(_) => None,
            Err(found) => Some(found),
        }
    }
}

/// Two addresses stand for two places.
proof fn lemma_other_addresses(a: usize)
    ensures
        forall|b: usize| is_addr(a) && is_addr(b) && #[trigger] index_of(b) == index_of(a) ==> a == b,
{
}

} // verus!
