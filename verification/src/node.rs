//! Nodes, and what can be done with one in each of its states.

use vstd::prelude::*;

use crate::atomic::AtomicPtr;
use crate::attempt::{Attempt, AttemptFrom};
use crate::effects::{all_stay, doing_away, lines_without, others_carry, others_stay, same_lines};
use crate::queue::model::{is_addr, DEQUEUED, HEAD_MARKER, UNQUEUED};
use crate::queue::state::{QueueState, StateOrTail, INTRUSIVE_QUEUE_MAX_STATE};
use crate::queue::{
    removal, stalled, LockedQueue, NewTail, Queue, QueueRef, QueueView,
};
use crate::sync::SyncPrimitives;

verus! {

/// Where a node stands.
#[derive(Debug, Clone, Copy, PartialEq, Eq, Structural)]
pub enum RawNodeState {
    /// It has not been inserted.
    Unqueued,
    /// It is in a queue, or in a drain.
    Queued,
    /// It has been taken out.
    Dequeued,
}

/// The state that a `prev` word stands for.
pub open spec fn raw_state(prev: usize) -> RawNodeState {
    if prev == UNQUEUED {
        RawNodeState::Unqueued
    } else if prev == DEQUEUED {
        RawNodeState::Dequeued
    } else {
        RawNodeState::Queued
    }
}

impl RawNodeState {
    /// The `prev` word of a node that is in no queue.
    pub fn into_ptr(self) -> (word: usize)
        ensures
            self is Unqueued ==> word == UNQUEUED,
            self is Dequeued ==> word == DEQUEUED,
            raw_state(word) == self,
    {
        match self {
            RawNodeState::Unqueued => 0,
            RawNodeState::Dequeued => 1,
            RawNodeState::Queued => 2,
        }
    }
}

/// The two words by which a node is linked to its neighbours. `prev` also tells its state.
#[derive(Debug)]
pub struct NodeLink {
    pub prev: AtomicPtr,
    pub next: AtomicPtr,
}

impl NodeLink {
    /// The link of a node that is in no queue.
    pub fn new() -> (link: Self)
        ensures
            link.prev@ == UNQUEUED,
            link.next@ == 0,
    {
        NodeLink { prev: AtomicPtr::new(0), next: AtomicPtr::new(0) }
    }

    /// The address in `prev`.
    pub fn prev(&self) -> (prev: usize)
        ensures
            prev == self.prev@,
    {
        self.prev.load()
    }

    /// The state that `prev` tells.
    pub fn state(&self) -> (state: RawNodeState)
        ensures
            state == raw_state(self.prev@),
    {
        let prev: usize = self.prev.load();
        if prev == UNQUEUED {
            RawNodeState::Unqueued
        } else if prev == DEQUEUED {
            RawNodeState::Dequeued
        } else {
            RawNodeState::Queued
        }
    }

    /// Marks the node as taken out.
    pub fn dequeue(&mut self)
        ensures
            final(self).prev@ == DEQUEUED,
            final(self).next@ == old(self).next@,
    {
        self.prev.store(RawNodeState::Dequeued.into_ptr());
    }
}

/// A link and the data that it carries. The sentinel of a drain carries none.
#[derive(Debug)]
pub struct NodeInner<T> {
    pub link: NodeLink,
    pub data: Option<T>,
    pub sentinel: bool,
}

/// The memory of the queue that a reference names.
pub type Memory<Q> = Queue<<Q as QueueRef>::NodeData, <Q as QueueRef>::SyncPrimitives>;

/// The lock of the queue that a reference names.
pub type Lock<Q> = LockedQueue<<Q as QueueRef>::SyncPrimitives>;

/// A node, pinned in the memory of its queue.
pub struct Node<Q: QueueRef> {
    queue: Q,
    node: usize,
}

/// A node, by its state.
pub enum NodeState<'a, Q: QueueRef> {
    Unqueued(NodeUnqueued<'a, Q>),
    Queued(NodeQueued<'a, Q>),
    Dequeued(NodeDequeued<'a, Q>),
}

/// A node that has not been inserted.
pub struct NodeUnqueued<'a, Q: QueueRef> {
    node: usize,
    queue: &'a Q,
}

/// A node that is in the queue, with the queue's lock.
pub struct NodeQueued<'a, Q: QueueRef> {
    node: usize,
    queue: &'a Q,
    locked: Lock<Q>,
}

/// A node that has been taken out.
pub struct NodeDequeued<'a, Q: QueueRef> {
    node: usize,
    queue: &'a Q,
}

impl<Q: QueueRef> Node<Q> {
    /// The address of the node.
    pub closed spec fn addr(&self) -> usize {
        self.node
    }

    /// The reference to the queue that the node belongs to.
    pub closed spec fn queue_ref(&self) -> Q {
        self.queue
    }

    /// The node is in this memory.
    pub open spec fn pinned(&self, v: QueueView<Q::NodeData>) -> bool {
        v.id == self.queue_ref().queue_id() && v.model.nodes.contains(self.addr())
    }

    /// Makes a node for the queue that `queue` names, carrying the default data.
    pub fn new(queue: Q, memory: &mut Memory<Q>) -> (node: Self) where Q::NodeData: Default
        requires
            old(memory).wf(),
            old(memory)@.room > 0,
            old(memory)@.id == queue.queue_id(),
        ensures
            final(memory).wf(),
            node.queue_ref() == queue,
            is_addr(node.addr()),
            !old(memory)@.model.nodes.contains(node.addr()),
            !old(memory)@.model.chains.contains_key(node.addr()),
            exists|data: Q::NodeData| #[trigger]
                call_ensures(<Q::NodeData as Default>::default, (), data) && final(memory)@ == (
                QueueView {
                    model: old(memory)@.model.created(node.addr()),
                    data: old(memory)@.data.insert(node.addr(), data),
                    room: (old(memory)@.room - 1) as nat,
                    ..old(memory)@
                }),
    {
        Self::with_data(queue, memory, Default::default())
    }

    /// Makes a node for the queue that `queue` names, carrying `data`.
    pub fn with_data(queue: Q, memory: &mut Memory<Q>, data: Q::NodeData) -> (node: Self)
        requires
            old(memory).wf(),
            old(memory)@.room > 0,
            old(memory)@.id == queue.queue_id(),
        ensures
            final(memory).wf(),
            node.queue_ref() == queue,
            is_addr(node.addr()),
            !old(memory)@.model.nodes.contains(node.addr()),
            !old(memory)@.model.chains.contains_key(node.addr()),
            final(memory)@ == (QueueView {
                model: old(memory)@.model.created(node.addr()),
                data: old(memory)@.data.insert(node.addr(), data),
                room: (old(memory)@.room - 1) as nat,
                ..old(memory)@
            }),
    {
        let node = memory.create_node(data);
        Node { queue, node }
    }

    /// The reference to the node's queue.
    pub fn queue(&self) -> (queue: &Q)
        ensures
            *queue == self.queue_ref(),
    {
        &self.queue
    }

    /// The node's state.
    pub fn raw_state(&self, memory: &Memory<Q>) -> (state: RawNodeState)
        requires
            memory.wf(),
            self.pinned(memory@),
        ensures
            state is Unqueued <==> memory@.model.unqueued(self.addr()),
            state is Queued <==> memory@.model.queued.contains(self.addr()),
            state is Dequeued <==> memory@.model.dequeued.contains(self.addr()),
    {
        memory.raw_state(self.node)
    }

    /// What can be done with the node. For a node that is queued this takes the queue's lock; if
    /// another thread holds that, the question is to be asked again by `NodeLocking::resume`.
    pub fn state(&mut self, memory: &mut Memory<Q>) -> (state: AttemptFrom<
        NodeState<'_, Q>,
        NodeLocking<'_, Q>,
    >)
        requires
            old(memory).wf(),
            old(self).pinned(old(memory)@),
        ensures
            *final(self) == *old(self),
            final(memory).wf(),
            state_of(*old(self), old(memory)@, state, final(memory)@),
    {
        self.state_impl(memory)
    }

    fn state_impl<'a>(&'a self, memory: &mut Memory<Q>) -> (state: AttemptFrom<
        NodeState<'a, Q>,
        NodeLocking<'a, Q>,
    >)
        requires
            old(memory).wf(),
            self.pinned(old(memory)@),
        ensures
            final(memory).wf(),
            state_of(*self, old(memory)@, state, final(memory)@),
    {
        let node: usize = self.node;
        let queue = &self.queue;
        match self.raw_state(memory) {
            RawNodeState::Unqueued => AttemptFrom::Done(
                NodeState::Unqueued(NodeUnqueued { node, queue }),
            ),
            RawNodeState::Dequeued => AttemptFrom::Done(
                NodeState::Dequeued(NodeDequeued { node, queue }),
            ),
            RawNodeState::Queued => NodeLocking { node, queue }.resume(memory),
        }
    }

    /// What can be done with the node, and the reference to its queue.
    pub fn state_and_queue(&mut self, memory: &mut Memory<Q>) -> (both: (
        AttemptFrom<NodeState<'_, Q>, NodeLocking<'_, Q>>,
        &Q,
    ))
        requires
            old(memory).wf(),
            old(self).pinned(old(memory)@),
        ensures
            *final(self) == *old(self),
            *both.1 == old(self).queue_ref(),
            final(memory).wf(),
            state_of(*old(self), old(memory)@, both.0, final(memory)@),
    {
        (self.state_impl(memory), &self.queue)
    }
}

/// A node that was queued when its state was read, and whose queue's lock has to be taken now.
pub struct NodeLocking<'a, Q: QueueRef> {
    node: usize,
    queue: &'a Q,
}

impl<'a, Q: QueueRef> NodeLocking<'a, Q> {
    /// The address of the node.
    pub closed spec fn addr(&self) -> usize {
        self.node
    }

    /// The reference to the queue that the node belongs to.
    pub closed spec fn queue_ref(&self) -> Q {
        *self.queue
    }

    /// Takes the lock, and reads the state of the node again: it may have been taken out before the
    /// lock was taken.
    pub fn resume(self, memory: &mut Memory<Q>) -> (state: AttemptFrom<NodeState<'a, Q>, Self>)
        requires
            old(memory).wf(),
            old(memory)@.id == self.queue_ref().queue_id(),
            old(memory)@.model.queued.contains(self.addr())
                || old(memory)@.model.dequeued.contains(self.addr()),
        ensures
            final(memory).wf(),
            locking(self.addr(), self.queue_ref(), old(memory)@, state, final(memory)@),
    {
        proof {
            memory.lemma_wf();
        }
        let node: usize = self.node;
        let queue = self.queue;
        match memory.lock() {
            Attempt::Done(locked) => {
                if let RawNodeState::Dequeued = memory.raw_state(node) {
                    locked.unlock(memory);
                    assert(memory@ =~= old(memory)@);
                    AttemptFrom::Done(NodeState::Dequeued(NodeDequeued { node, queue }))
                } else {
                    AttemptFrom::Done(NodeState::Queued(NodeQueued { node, queue, locked }))
                }
            },
            _ => {
                assert(memory@ =~= old(memory)@);
                AttemptFrom::Wait(self)
            },
        }
    }
}

/// What asking for the state of `node` yields and does.
pub open spec fn state_of<'a, Q: QueueRef>(
    node: Node<Q>,
    before: QueueView<Q::NodeData>,
    state: AttemptFrom<NodeState<'a, Q>, NodeLocking<'a, Q>>,
    after: QueueView<Q::NodeData>,
) -> bool {
    if before.model.queued.contains(node.addr()) {
        locking(node.addr(), node.queue_ref(), before, state, after)
    } else if before.model.dequeued.contains(node.addr()) {
        &&& state matches AttemptFrom::Done(NodeState::Dequeued(dequeued))
        &&& dequeued.addr() == node.addr()
        &&& dequeued.queue_ref() == node.queue_ref()
        &&& after == before
    } else {
        &&& state matches AttemptFrom::Done(NodeState::Unqueued(unqueued))
        &&& unqueued.addr() == node.addr()
        &&& unqueued.queue_ref() == node.queue_ref()
        &&& after == before
    }
}

/// What a try at taking the lock for the node at address `a` yields and does: while another thread
/// has the lock it waits. A node that is queued is then handed out with the lock; for one that has
/// been taken out the lock is given back.
pub open spec fn locking<'a, Q: QueueRef>(
    a: usize,
    queue: Q,
    before: QueueView<Q::NodeData>,
    state: AttemptFrom<NodeState<'a, Q>, NodeLocking<'a, Q>>,
    after: QueueView<Q::NodeData>,
) -> bool {
    if before.locked {
        &&& state matches AttemptFrom::Wait(again)
        &&& again.addr() == a
        &&& again.queue_ref() == queue
        &&& after == before
    } else if before.model.queued.contains(a) {
        &&& state matches AttemptFrom::Done(NodeState::Queued(queued))
        &&& queued.addr() == a
        &&& queued.queue_ref() == queue
        &&& queued.lock().holds(after)
        &&& queued.lock().spins() == 0
        &&& after == (QueueView { locked: true, ..before })
    } else {
        &&& state matches AttemptFrom::Done(NodeState::Dequeued(dequeued))
        &&& dequeued.addr() == a
        &&& dequeued.queue_ref() == queue
        &&& after == before
    }
}

impl<'a, Q: QueueRef> NodeUnqueued<'a, Q> {
    /// The address of the node.
    pub closed spec fn addr(&self) -> usize {
        self.node
    }

    /// The reference to the queue that the node belongs to.
    pub closed spec fn queue_ref(&self) -> Q {
        *self.queue
    }

    /// The address of the node, for a caller who makes the steps of the insertion one by one.
    pub fn as_ptr(&self) -> (node: usize)
        ensures
            node == self.addr(),
    {
        self.node
    }

    /// The reference to the node's queue.
    pub fn queue(&self) -> (queue: &'a Q)
        ensures
            *queue == self.queue_ref(),
    {
        self.queue
    }

    /// What the node carries.
    pub fn data<'m>(&self, memory: &'m Memory<Q>) -> (data: &'m Q::NodeData)
        requires
            memory.wf(),
            memory@.owned(self.addr()),
        ensures
            *data == memory@.data[self.addr()],
    {
        memory.data(self.node)
    }

    /// What the node carries, to be changed.
    pub fn data_mut<'m>(&mut self, memory: &'m mut Memory<Q>) -> (data: &'m mut Q::NodeData)
        requires
            old(memory).wf(),
            old(memory)@.owned(old(self).addr()),
        ensures
            *final(self) == *old(self),
            *data == old(memory)@.data[old(self).addr()],
            final(memory).wf(),
            final(memory)@ == (QueueView {
                data: old(memory)@.data.insert(old(self).addr(), *final(data)),
                ..old(memory)@
            }),
    {
        memory.data_mut(self.node)
    }

    /// Hands `f` what the node carries.
    pub fn with_data<F: FnOnce(&Q::NodeData) -> R, R>(&self, memory: &Memory<Q>, f: F) -> (result: R)
        requires
            memory.wf(),
            memory@.owned(self.addr()),
            call_requires(f, (&memory@.data[self.addr()],)),
        ensures
            call_ensures(f, (&memory@.data[self.addr()],), result),
    {
        f(memory.data(self.node))
    }

    /// Hands `f` what the node carries, to be changed.
    pub fn with_data_mut<F: FnOnce(&mut Q::NodeData) -> R, R>(
        &mut self,
        memory: &mut Memory<Q>,
        f: F,
    ) -> (result: R)
        requires
            old(memory).wf(),
            old(memory)@.owned(old(self).addr()),
            forall|data: &mut Q::NodeData|
                *data == old(memory)@.data[old(self).addr()] ==> #[trigger] call_requires(
                    f,
                    (data,),
                ),
        ensures
            *final(self) == *old(self),
            final(memory).wf(),
            exists|data: &mut Q::NodeData| #[trigger]
                call_ensures(f, (data,), result) && *data == old(memory)@.data[old(self).addr()]
                    && final(memory)@ == (QueueView {
                    data: old(memory)@.data.insert(old(self).addr(), *final(data)),
                    ..old(memory)@
                }),
    {
        f(memory.data_mut(self.node))
    }
}

impl<'a, Q: QueueRef> NodeQueued<'a, Q> {
    /// The address of the node.
    pub closed spec fn addr(&self) -> usize {
        self.node
    }

    /// The reference to the queue that the node belongs to.
    pub closed spec fn queue_ref(&self) -> Q {
        *self.queue
    }

    /// The lock of the queue.
    pub closed spec fn lock(&self) -> Lock<Q> {
        self.locked
    }

    /// The reference to the node's queue.
    pub fn queue(&self) -> (queue: &'a Q)
        ensures
            *queue == self.queue_ref(),
    {
        self.queue
    }

    /// What the node carries.
    pub fn data<'m>(&self, memory: &'m Memory<Q>) -> (data: &'m Q::NodeData)
        requires
            memory.wf(),
            self.lock().holds(memory@),
            memory@.model.nodes.contains(self.addr()),
        ensures
            *data == memory@.data[self.addr()],
    {
        self.locked.data(memory, self.node)
    }

    /// What the node carries, to be changed.
    pub fn data_mut<'m>(&mut self, memory: &'m mut Memory<Q>) -> (data: &'m mut Q::NodeData)
        requires
            old(memory).wf(),
            old(self).lock().holds(old(memory)@),
            old(memory)@.model.nodes.contains(old(self).addr()),
        ensures
            *final(self) == *old(self),
            *data == old(memory)@.data[old(self).addr()],
            final(memory).wf(),
            final(memory)@ == (QueueView {
                data: old(memory)@.data.insert(old(self).addr(), *final(data)),
                ..old(memory)@
            }),
    {
        self.locked.data_mut(memory, self.node)
    }

    /// Hands `f` what the node carries.
    pub fn with_data<F: FnOnce(&Q::NodeData) -> R, R>(&self, memory: &Memory<Q>, f: F) -> (result: R)
        requires
            memory.wf(),
            self.lock().holds(memory@),
            memory@.model.nodes.contains(self.addr()),
            call_requires(f, (&memory@.data[self.addr()],)),
        ensures
            call_ensures(f, (&memory@.data[self.addr()],), result),
    {
        f(self.locked.data(memory, self.node))
    }

    /// Hands `f` what the node carries, to be changed.
    pub fn with_data_mut<F: FnOnce(&mut Q::NodeData) -> R, R>(
        &mut self,
        memory: &mut Memory<Q>,
        f: F,
    ) -> (result: R)
        requires
            old(memory).wf(),
            old(self).lock().holds(old(memory)@),
            old(memory)@.model.nodes.contains(old(self).addr()),
            forall|data: &mut Q::NodeData|
                *data == old(memory)@.data[old(self).addr()] ==> #[trigger] call_requires(
                    f,
                    (data,),
                ),
        ensures
            *final(self) == *old(self),
            final(memory).wf(),
            exists|data: &mut Q::NodeData| #[trigger]
                call_ensures(f, (data,), result) && *data == old(memory)@.data[old(self).addr()]
                    && final(memory)@ == (QueueView {
                    data: old(memory)@.data.insert(old(self).addr(), *final(data)),
                    ..old(memory)@
                }),
    {
        f(self.locked.data_mut(memory, self.node))
    }
}

impl<'a, Q: QueueRef> NodeDequeued<'a, Q> {
    /// The address of the node.
    pub closed spec fn addr(&self) -> usize {
        self.node
    }

    /// The reference to the queue that the node belongs to.
    pub closed spec fn queue_ref(&self) -> Q {
        *self.queue
    }

    /// The reference to the node's queue.
    pub fn queue(&self) -> (queue: &'a Q)
        ensures
            *queue == self.queue_ref(),
    {
        self.queue
    }

    /// What the node carries.
    pub fn data<'m>(&self, memory: &'m Memory<Q>) -> (data: &'m Q::NodeData)
        requires
            memory.wf(),
            memory@.owned(self.addr()),
        ensures
            *data == memory@.data[self.addr()],
    {
        memory.data(self.node)
    }

    /// What the node carries, to be changed.
    pub fn data_mut<'m>(&mut self, memory: &'m mut Memory<Q>) -> (data: &'m mut Q::NodeData)
        requires
            old(memory).wf(),
            old(memory)@.owned(old(self).addr()),
        ensures
            *final(self) == *old(self),
            *data == old(memory)@.data[old(self).addr()],
            final(memory).wf(),
            final(memory)@ == (QueueView {
                data: old(memory)@.data.insert(old(self).addr(), *final(data)),
                ..old(memory)@
            }),
    {
        memory.data_mut(self.node)
    }

    /// Hands `f` what the node carries.
    pub fn with_data<F: FnOnce(&Q::NodeData) -> R, R>(&self, memory: &Memory<Q>, f: F) -> (result: R)
        requires
            memory.wf(),
            memory@.owned(self.addr()),
            call_requires(f, (&memory@.data[self.addr()],)),
        ensures
            call_ensures(f, (&memory@.data[self.addr()],), result),
    {
        f(memory.data(self.node))
    }

    /// Hands `f` what the node carries, to be changed.
    pub fn with_data_mut<F: FnOnce(&mut Q::NodeData) -> R, R>(
        &mut self,
        memory: &mut Memory<Q>,
        f: F,
    ) -> (result: R)
        requires
            old(memory).wf(),
            old(memory)@.owned(old(self).addr()),
            forall|data: &mut Q::NodeData|
                *data == old(memory)@.data[old(self).addr()] ==> #[trigger] call_requires(
                    f,
                    (data,),
                ),
        ensures
            *final(self) == *old(self),
            final(memory).wf(),
            exists|data: &mut Q::NodeData| #[trigger]
                call_ensures(f, (data,), result) && *data == old(memory)@.data[old(self).addr()]
                    && final(memory)@ == (QueueView {
                    data: old(memory)@.data.insert(old(self).addr(), *final(data)),
                    ..old(memory)@
                }),
    {
        f(memory.data_mut(self.node))
    }
}

/// Insertion.
impl<'a, Q: QueueRef> NodeUnqueued<'a, Q> {
    /// The node has not been inserted in its queue.
    pub open spec fn ready(&self, v: QueueView<Q::NodeData>) -> bool {
        v.id == self.queue_ref().queue_id() && v.model.unqueued(self.addr())
    }

    /// Inserts the node at the back of the queue.
    pub fn enqueue(self, memory: &mut Memory<Q>)
        requires
            old(memory).wf(),
            self.ready(old(memory)@),
        ensures
            final(memory).wf(),
            final(memory)@ == (QueueView {
                model: old(memory)@.model.enqueued(self.addr()),
                ..old(memory)@
            }),
    {
        let tail = memory.load_tail();
        self.enqueue_behind(memory, tail);
    }

    /// Inserts the node if `accept` says so of the queue's state, of which there is none if there
    /// are nodes in the queue. Otherwise the node is handed back.
    pub fn try_enqueue_if<P: Fn(Option<QueueState>) -> bool>(
        self,
        memory: &mut Memory<Q>,
        accept: P,
    ) -> (result: Result<(), Self>)
        requires
            old(memory).wf(),
            self.ready(old(memory)@),
            call_requires(accept, (old(memory)@.model.state,)),
        ensures
            final(memory).wf(),
            call_ensures(accept, (old(memory)@.model.state,), result is Ok),
            result is Ok ==> final(memory)@ == (QueueView {
                model: old(memory)@.model.enqueued(self.addr()),
                ..old(memory)@
            }),
            result matches Err(node) ==> node == self && final(memory)@ == old(memory)@,
    {
        proof {
            memory.lemma_wf();
        }
        let tail = memory.load_tail();
        let state = match tail {
            StateOrTail::State(state) => Some(state),
            StateOrTail::Tail(_) => None,
        };
        if !accept(state) {
            return Err(self);
        }
        self.enqueue_behind(memory, tail);
        Ok(())
    }

    /// Inserts the node behind the queue's tail.
    fn enqueue_behind(&self, memory: &mut Memory<Q>, tail: StateOrTail)
        requires
            old(memory).wf(),
            self.ready(old(memory)@),
            tail == old(memory)@.model.tail(),
        ensures
            final(memory).wf(),
            final(memory)@ == (QueueView {
                model: old(memory)@.model.enqueued(self.addr()),
                ..old(memory)@
            }),
    {
        let take = |found: StateOrTail| -> (new_tail: NewTail)
            ensures
                new_tail == (if found == tail {
                    NewTail::Node
                } else {
                    NewTail::Keep
                }),
        {
            if found == tail {
                NewTail::Node
            } else {
                NewTail::Keep
            }
        };
        let _ = memory.enqueue(self.node, take);
    }

    /// Inserts the node if the queue's state is `state`, or, without one, if there are nodes in
    /// the queue. Otherwise the node is handed back.
    pub fn try_enqueue_with_queue_state(
        self,
        memory: &mut Memory<Q>,
        state: Option<QueueState>,
    ) -> (result: Result<(), Self>)
        requires
            old(memory).wf(),
            self.ready(old(memory)@),
        ensures
            final(memory).wf(),
            result is Ok <==> old(memory)@.model.state == state,
            result is Ok ==> final(memory)@ == (QueueView {
                model: old(memory)@.model.enqueued(self.addr()),
                ..old(memory)@
            }),
            result matches Err(node) ==> node == self && final(memory)@ == old(memory)@,
    {
        let same_state = |found: Option<QueueState>| -> (same: bool)
            ensures
                same == (found == state),
        {
            match (found, state) {
                (Some(found), Some(state)) => found == state,
                (None, None) => true,
                _ => false,
            }
        };
        self.try_enqueue_if(memory, same_state)
    }

    /// If the queue is empty, asks `f` what to make of its state, and replaces the state if it says
    /// so. Otherwise the node is inserted, provided that `init`, which is shown the state and what
    /// the node carries, answers true. `Ok` tells that the state was replaced, `Err` the state
    /// that was found.
    pub fn fetch_update_queue_state_or_enqueue<
        F: FnMut(QueueState) -> Option<QueueState>,
        I: FnMut(Option<QueueState>, &mut Q::NodeData) -> bool,
    >(self, memory: &mut Memory<Q>, f: F, init: I) -> (result: Result<(), Option<QueueState>>)
        requires
            old(memory).wf(),
            self.ready(old(memory)@),
            old(memory)@.model.state matches Some(s) ==> call_requires(f, (s,)),
            forall|s: QueueState, new: QueueState| #[trigger]
                call_ensures(f, (s,), Some(new)) ==> new <= INTRUSIVE_QUEUE_MAX_STATE,
            forall|data: &mut Q::NodeData|
                *data == old(memory)@.data[self.addr()] ==> #[trigger] call_requires(
                    init,
                    (old(memory)@.model.state, data),
                ),
        ensures
            final(memory).wf(),
            result matches Err(found) ==> found == old(memory)@.model.state,
            result is Ok ==> old(memory)@.model.state is Some,
            old(memory)@.model.state matches Some(s) ==> result is Ok ==> exists|new: QueueState|
                #[trigger]
                call_ensures(f, (s,), Some(new)) && final(memory)@ == (QueueView {
                    model: old(memory)@.model.with_state(new),
                    ..old(memory)@
                }),
            old(memory)@.model.state matches Some(s) ==> result is Err ==> call_ensures(
                f,
                (s,),
                None::<QueueState>,
            ),
            result is Err ==> exists|data: &mut Q::NodeData, enqueue: bool| #[trigger]
                call_ensures(init, (old(memory)@.model.state, data), enqueue) && *data == old(
                    memory,
                )@.data[self.addr()] && final(memory)@ == (QueueView {
                    model: if enqueue {
                        old(memory)@.model.enqueued(self.addr())
                    } else {
                        old(memory)@.model
                    },
                    data: old(memory)@.data.insert(self.addr(), *final(data)),
                    ..old(memory)@
                }),
    {
        proof {
            memory.lemma_wf();
        }
        let mut f = f;
        let mut init = init;
        let tail = memory.load_tail();
        let state = match tail {
            StateOrTail::State(state) => Some(state),
            StateOrTail::Tail(_) => None,
        };
        if let Some(state) = state {
            if let Some(new) = f(state) {
                let _ = memory.update_tail(self.node, tail, NewTail::State(new));
                return Ok(());
            }
        }
        let enqueue = init(state, memory.data_mut(self.node));
        if enqueue {
            self.enqueue_behind(memory, tail);
        }
        Err(state)
    }
}

/// Removal.
impl<'a, Q: QueueRef> NodeQueued<'a, Q> {
    /// The node is in its queue or in a drain, and its thread holds the lock.
    pub open spec fn held(&self, v: QueueView<Q::NodeData>) -> bool {
        &&& v.id == self.queue_ref().queue_id()
        &&& self.lock().holds(v)
        &&& v.model.open is None
        &&& v.model.queued.contains(self.addr())
        &&& !v.model.pending.contains_key(self.addr())
        &&& v.model.leaving is None || v.model.leaving == Some(self.addr())
        &&& v.model.waiting is None || v.model.waiting == Some(self.addr())
    }

    /// Takes the node out of the queue, and hands over the lock.
    pub fn dequeue(self, memory: &mut Memory<Q>) -> (done: AttemptFrom<(&'a Q, Lock<Q>), Self>)
        requires
            old(memory).wf(),
            self.held(old(memory)@),
        ensures
            final(memory).wf(),
            done matches AttemptFrom::Done(out) ==> *out.0 == self.queue_ref() && out.1.spins()
                == 0 && out.1.holds(final(memory)@) && removal(
                old(memory)@,
                self.addr(),
                0,
                self.lock().may_spin(),
                Attempt::Done(emptying(old(memory)@, self.addr())),
                final(memory)@,
            ),
            done matches AttemptFrom::Spin(node) ==> self.again(node, 1, final(memory)@) && removal(
                old(memory)@,
                self.addr(),
                0,
                self.lock().may_spin(),
                Attempt::Spin,
                final(memory)@,
            ),
            done matches AttemptFrom::Wait(node) ==> self.again(node, 0, final(memory)@) && removal(
                old(memory)@,
                self.addr(),
                0,
                self.lock().may_spin(),
                Attempt::Wait,
                final(memory)@,
            ),
    {
        let mut this = self;
        match this.locked.remove(memory, this.node, 0) {
            Attempt::Done(_) => AttemptFrom::Done((this.queue, this.locked)),
            Attempt::Spin => AttemptFrom::Spin(this),
            Attempt::Wait => AttemptFrom::Wait(this),
        }
    }

    /// The same node, handed back by a try that has looked `more` times and left a queue in state `v`.
    pub open spec fn again(&self, node: Self, more: nat, v: QueueView<Q::NodeData>) -> bool {
        &&& node.addr() == self.addr()
        &&& node.queue_ref() == self.queue_ref()
        &&& node.lock().holds(v)
        &&& node.lock().spins() == self.lock().spins() + more
    }

    /// Takes the node out of the queue, and hands over the lock: as `Ok` if that left the queue
    /// empty, in which case its state is `state` from then on, and as `Err` otherwise.
    pub fn dequeue_try_set_queue_state(self, memory: &mut Memory<Q>, state: QueueState) -> (done:
        AttemptFrom<Result<(&'a Q, Lock<Q>), (&'a Q, Lock<Q>)>, Self>)
        requires
            old(memory).wf(),
            self.held(old(memory)@),
            state <= INTRUSIVE_QUEUE_MAX_STATE,
        ensures
            final(memory).wf(),
            done matches AttemptFrom::Done(out) ==> {
                &&& removal(
                    old(memory)@,
                    self.addr(),
                    state,
                    self.lock().may_spin(),
                    Attempt::Done(out is Ok),
                    final(memory)@,
                )
                &&& out matches Ok(out) ==> *out.0 == self.queue_ref() && out.1.spins() == 0
                    && out.1.holds(final(memory)@)
                &&& out matches Err(out) ==> *out.0 == self.queue_ref() && out.1.spins() == 0
                    && out.1.holds(final(memory)@)
            },
            done matches AttemptFrom::Spin(node) ==> self.again(node, 1, final(memory)@) && removal(
                old(memory)@,
                self.addr(),
                state,
                self.lock().may_spin(),
                Attempt::Spin,
                final(memory)@,
            ),
            done matches AttemptFrom::Wait(node) ==> self.again(node, 0, final(memory)@) && removal(
                old(memory)@,
                self.addr(),
                state,
                self.lock().may_spin(),
                Attempt::Wait,
                final(memory)@,
            ),
    {
        let mut this = self;
        match this.locked.remove(memory, this.node, state) {
            Attempt::Done(true) => AttemptFrom::Done(Ok((this.queue, this.locked))),
            Attempt::Done(false) => AttemptFrom::Done(Err((this.queue, this.locked))),
            Attempt::Spin => AttemptFrom::Spin(this),
            Attempt::Wait => AttemptFrom::Wait(this),
        }
    }

    /// Leaves the node where it is, and gives the lock back.
    pub fn unlock(self, memory: &mut Memory<Q>)
        requires
            old(memory).wf(),
            self.held(old(memory)@),
            old(memory)@.model.leaving is None,
            old(memory)@.model.waiting is None,
        ensures
            final(memory).wf(),
            final(memory)@ == (QueueView { locked: false, ..old(memory)@ }),
    {
        self.locked.unlock(memory);
    }
}

/// Taking out `node` leaves the queue empty.
pub open spec fn emptying<T>(v: QueueView<T>, node: usize) -> bool {
    v.model.position(node).0 == HEAD_MARKER && v.model.order().len() == 1
}

impl<'a, Q: QueueRef> NodeDequeued<'a, Q> {
    /// Makes the node ready for another insertion.
    pub fn reset(self, memory: &mut Memory<Q>) -> (node: NodeUnqueued<'a, Q>)
        requires
            old(memory).wf(),
            old(memory)@.model.dequeued.contains(self.addr()),
        ensures
            node.addr() == self.addr(),
            node.queue_ref() == self.queue_ref(),
            final(memory).wf(),
            final(memory)@ == (QueueView {
                model: old(memory)@.model.reset(self.addr()),
                ..old(memory)@
            }),
    {
        memory.reset_node(self.node);
        NodeUnqueued { node: self.node, queue: self.queue }
    }
}

/// A node on its way out of existence: it has to leave the queue first.
pub struct NodeDropping<Q: QueueRef> {
    queue: Q,
    node: usize,
    locked: Option<Lock<Q>>,
}

impl<Q: QueueRef> Node<Q> {
    /// Starts to do away with the node.
    pub fn release(self) -> (dropping: NodeDropping<Q>)
        ensures
            dropping.addr() == self.addr(),
            dropping.queue_ref() == self.queue_ref(),
            dropping.lock() is None,
    {
        NodeDropping { queue: self.queue, node: self.node, locked: None }
    }
}

impl<Q: QueueRef> NodeDropping<Q> {
    /// The address of the node.
    pub closed spec fn addr(&self) -> usize {
        self.node
    }

    /// The reference to the queue that the node belongs to.
    pub closed spec fn queue_ref(&self) -> Q {
        self.queue
    }

    /// The queue's lock, if it has been taken.
    pub closed spec fn lock(&self) -> Option<Lock<Q>> {
        self.locked
    }

    /// The node is in this memory, and the thread holds the lock if it has taken it.
    pub open spec fn pinned(&self, v: QueueView<Q::NodeData>) -> bool {
        &&& v.id == self.queue_ref().queue_id()
        &&& v.model.nodes.contains(self.addr())
        &&& !v.model.pending.contains_key(self.addr())
        &&& self.lock() matches Some(lock) ==> {
            &&& lock.holds(v)
            &&& v.model.open is None
            &&& v.model.queued.contains(self.addr())
            &&& v.model.leaving is None || v.model.leaving == Some(self.addr())
            &&& v.model.waiting is None || v.model.waiting == Some(self.addr())
        }
    }

    /// Takes the node out of the queue if it is there, does away with it, and returns what it
    /// carried. All others stay where they are, and carry what they carried.
    pub fn finish(&mut self, memory: &mut Memory<Q>) -> (data: Attempt<Q::NodeData>)
        requires
            old(memory).wf(),
            old(self).pinned(old(memory)@),
        ensures
            final(self).addr() == old(self).addr(),
            final(self).queue_ref() == old(self).queue_ref(),
            final(memory).wf(),
            dropping(
                old(memory)@,
                old(self).addr(),
                old(self).lock(),
                data,
                final(self).lock(),
                final(memory)@,
            ),
            others_stay(old(memory)@.model, final(memory)@.model, old(self).addr()),
            others_carry(old(memory)@, final(memory)@, old(self).addr()),
            data is Done ==> lines_without(
                old(memory)@.model,
                final(memory)@.model,
                old(self).addr(),
            ),
            !(data is Done) ==> same_lines(old(memory)@.model, final(memory)@.model),
    {
        proof {
            memory.lemma_wf();
        }
        let data = self.try_finish(memory);
        proof {
            doing_away(
                old(memory)@,
                old(self).addr(),
                old(self).lock(),
                data,
                self.lock(),
                memory@,
            );
            assert(all_stay(old(memory)@.model, memory@.model) ==> others_stay(
                old(memory)@.model,
                memory@.model,
                old(self).addr(),
            ));
        }
        data
    }

    /// One try at that.
    fn try_finish(&mut self, memory: &mut Memory<Q>) -> (data: Attempt<Q::NodeData>)
        requires
            old(memory).wf(),
            old(self).pinned(old(memory)@),
        ensures
            final(self).addr() == old(self).addr(),
            final(self).queue_ref() == old(self).queue_ref(),
            final(memory).wf(),
            dropping(
                old(memory)@,
                old(self).addr(),
                old(self).lock(),
                data,
                final(self).lock(),
                final(memory)@,
            ),
    {
        proof {
            memory.lemma_wf();
        }
        let ghost before = memory@;
        let node: usize = self.node;
        if let RawNodeState::Queued = memory.raw_state(node) {
            let mut locked = match self.locked.take() {
                Some(locked) => locked,
                None => match memory.lock() {
                    Attempt::Done(locked) => locked,
                    _ => {
                        assert(memory@ =~= old(memory)@);
                        return Attempt::Wait;
                    },
                },
            };
            proof {
                memory.lemma_wf();
                memory@.model.lemma_position(node);
            }
            match locked.remove(memory, node, 0) {
                Attempt::Done(_) => {
                    locked.unlock(memory);
                },
                Attempt::Spin => {
                    self.locked = Some(locked);
                    return Attempt::Spin;
                },
                Attempt::Wait => {
                    self.locked = Some(locked);
                    return Attempt::Wait;
                },
            }
        }
        Attempt::Done(memory.destroy_node(node))
    }
}

/// What a try at doing away with `node` does, by a thread that may hold the lock `lock` already.
pub open spec fn dropping<T, SP: SyncPrimitives>(
    before: QueueView<T>,
    node: usize,
    lock: Option<LockedQueue<SP>>,
    data: Attempt<T>,
    kept: Option<LockedQueue<SP>>,
    after: QueueView<T>,
) -> bool {
    let m = before.model;
    let (k, i) = m.position(node);
    let spins = match lock {
        Some(lock) => lock.spins(),
        None => 0,
    };
    let gone = QueueView { data: before.data.remove(node), room: before.room + 1, ..before };
    if !m.queued.contains(node) {
        &&& data == Attempt::Done(before.data[node])
        &&& kept == lock
        &&& after == (QueueView { model: m.destroyed(node), ..gone })
    } else if lock is None && before.locked {
        &&& data is Wait
        &&& kept is None
        &&& after == before
    } else if i + 1 < m.chains[k].len() && m.pending.contains_key(m.chains[k][i + 1]) {
        &&& data !is Done
        &&& kept is Some
        &&& kept->0.holds(after)
        &&& kept->0.spins() == if data is Spin {
            spins + 1
        } else {
            spins
        }
        &&& stalled(
            QueueView { model: m.detached(node), locked: true, ..before },
            node,
            spins < SP::SPIN_BEFORE_PARK,
            data,
            after,
        )
    } else {
        &&& data == Attempt::Done(before.data[node])
        &&& kept is None
        &&& after == (QueueView {
            model: m.awaiting(None).removed(k, i, 0).destroyed(node),
            locked: false,
            ..gone
        })
    }
}

} // verus!
