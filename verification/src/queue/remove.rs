//! Removal, which takes the lock.

use vstd::prelude::*;

use crate::attempt::Attempt;
use crate::queue::model::{
    lemma_committed, lemma_detached, lemma_unlinked, Model, DEQUEUED, HEAD_MARKER, PARKED,
};
use crate::queue::state::{
    tail_word, tail_word_is_injective, QueueState, StateOrTail, INTRUSIVE_QUEUE_MAX_STATE,
};
use crate::queue::{stalled, LockedQueue, Queue, QueueView};
use crate::sync::{DefaultSyncPrimitives, SyncPrimitives};

verus! {

/// What a try at removing `node` does to a queue: while the insertion of the node behind it has not
/// ended it waits, and otherwise it takes the node out.
pub open spec fn removal<T>(
    before: QueueView<T>,
    node: usize,
    state: QueueState,
    spin: bool,
    emptied: Attempt<bool>,
    after: QueueView<T>,
) -> bool {
    let m = before.model;
    let (k, i) = m.position(node);
    if i + 1 < m.chains[k].len() && m.pending.contains_key(m.chains[k][i + 1]) {
        stalled(
            QueueView { model: m.detached(node), ..before },
            node,
            spin,
            emptied,
            after,
        )
    } else {
        &&& emptied == Attempt::Done(k == HEAD_MARKER && m.order().len() == 1)
        &&& after == (QueueView { model: m.awaiting(None).removed(k, i, state), ..before })
    }
}

/// Removal.
impl<SP: SyncPrimitives> LockedQueue<SP> {
    /// First step of the removal of a node that nothing is linked behind: its predecessor ceases
    /// to point at it, so that the predecessor can become the tail.
    #[verifier::spinoff_prover]
    #[verifier::rlimit(50)]
    pub fn detach_node<T>(&mut self, queue: &mut Queue<T, SP>, node: usize)
        requires
            old(queue).wf(),
            old(self).holds(old(queue)@),
            old(queue)@.model.open is None,
            old(queue)@.model.queued.contains(node),
            !old(queue)@.model.pending.contains_key(node),
            old(queue)@.model.leaving is None || old(queue)@.model.leaving == Some(node),
            old(queue)@.model.waiting is None || old(queue)@.model.waiting == Some(node),
        ensures
            final(queue).wf(),
            *final(self) == *old(self),
            final(queue)@ == (QueueView {
                model: old(queue)@.model.detached(node),
                ..old(queue)@
            }),
    {
        let ghost m = queue.model@;
        let ghost p = queue.words();
        let ghost (k, i) = m.position(node);
        proof {
            m.lemma_position(node);
            if i > 0 {
                assert(m.has(k, i - 1));
            }
            assert(p.links.contains_key(node));
            lemma_detached(m, p, k, i);
        }
        let prev: usize = queue.prev_of(node);
        queue.set_next(prev, 0);
        queue.model = Ghost(m.detached(node));
        proof {
            assert(queue.words() =~= p.set_next(prev, 0));
            if m.waiting is Some {
                m.lemma_one_follower(node);
            }
        }
    }

    /// Second step: if the node is the tail, its predecessor takes its place, or `state` if there
    /// is none, and the node is out. Says whether the queue is empty now, or nothing if the node
    /// is not the tail.
    #[verifier::spinoff_prover]
    #[verifier::rlimit(50)]
    pub fn release_tail<T>(&mut self, queue: &mut Queue<T, SP>, node: usize, state: QueueState) -> (emptied:
        Option<bool>)
        requires
            old(queue).wf(),
            old(self).holds(old(queue)@),
            old(queue)@.model.leaving == Some(node),
            old(queue)@.model.waiting is None || old(queue)@.model.waiting == Some(node),
            state <= INTRUSIVE_QUEUE_MAX_STATE,
        ensures
            final(queue).wf(),
            *final(self) == *old(self),
            old(queue)@.model.tail() == StateOrTail::Tail(node) ==> {
                &&& emptied == Some(old(queue)@.model.order().len() == 1)
                &&& old(queue)@.model.waiting is None
                &&& final(queue)@ == (QueueView {
                    model: old(queue)@.model.removed(
                        HEAD_MARKER,
                        old(queue)@.model.order().len() - 1,
                        state,
                    ),
                    ..old(queue)@
                })
            },
            old(queue)@.model.tail() != StateOrTail::Tail(node) ==> emptied is None
                && final(queue)@ == old(queue)@,
    {
        let ghost m = queue.model@;
        let ghost p = queue.words();
        let ghost (k, i) = m.position(node);
        proof {
            m.lemma_position(node);
            if i > 0 {
                assert(m.has(k, i - 1));
            }
            assert(p.links.contains_key(node));
            queue.lemma_tail();
            if tail_word(StateOrTail::Tail(node)) == tail_word(m.tail()) {
                tail_word_is_injective(StateOrTail::Tail(node), m.tail());
            }
            if m.tail() == StateOrTail::Tail(node) {
                assert(m.has(HEAD_MARKER, m.order().len() - 1));
                if let Some(w) = m.waiting {
                    let (l, j) = choose|l: usize, j: int| #[trigger]
                        m.has(l, j) && m.pred(l, j) == w;
                    if j > 0 {
                        assert(m.has(l, j - 1));
                    }
                }
            }
        }
        let prev: usize = queue.prev_of(node);
        let is_head = prev == HEAD_MARKER;
        let new_tail = if is_head {
            StateOrTail::State(state)
        } else {
            StateOrTail::Tail(prev)
        };
        let word = new_tail.into_word();
        match queue.tail.compare_exchange(StateOrTail::Tail(node).into_word(), word) {
            Err(_) => {
                assert(queue.words() =~= p);
                None
            },
            Ok(_) => {
                assert(queue.words() =~= p.set_tail(word));
                queue.set_prev(node, DEQUEUED);
                queue.model = Ghost(m.removed(HEAD_MARKER, m.order().len() - 1, state));
                proof {
                    lemma_committed(m, p, state, word);
                    assert(queue.words() =~= p.set_tail(word).set_prev(node, DEQUEUED));
                }
                Some(is_head)
            },
        }
    }

    /// Takes out a node that another node, or the sentinel of its drain, is linked behind.
    #[verifier::spinoff_prover]
    #[verifier::rlimit(50)]
    pub fn unlink_node<T>(&mut self, queue: &mut Queue<T, SP>, node: usize)
        requires
            old(queue).wf(),
            old(self).holds(old(queue)@),
            old(queue)@.model.open is None,
            old(queue)@.model.queued.contains(node),
            !old(queue)@.model.pending.contains_key(node),
            old(queue)@.model.leaving is None || old(queue)@.model.leaving == Some(node),
            old(queue)@.model.waiting is None,
            forall|k: usize, i: int| #[trigger]
                old(queue)@.model.has(k, i) && old(queue)@.model.chains[k][i] == node
                    ==> if i + 1 < old(queue)@.model.chains[k].len() {
                    !old(queue)@.model.pending.contains_key(old(queue)@.model.chains[k][i + 1])
                } else {
                    k != HEAD_MARKER
                },
        ensures
            final(queue).wf(),
            *final(self) == *old(self),
            forall|k: usize, i: int| #[trigger]
                old(queue)@.model.has(k, i) && old(queue)@.model.chains[k][i] == node
                    ==> final(queue)@ == (QueueView {
                    model: old(queue)@.model.removed(k, i, 0),
                    ..old(queue)@
                }),
    {
        let ghost m = queue.model@;
        let ghost p = queue.words();
        let ghost (k, i) = m.position(node);
        proof {
            m.lemma_position(node);
            if i > 0 {
                assert(m.has(k, i - 1));
            }
            if i + 1 < m.chains[k].len() {
                assert(m.has(k, i + 1));
            }
            assert(p.links.contains_key(node));
            lemma_unlinked(m, p, k, i, 0);
        }
        let prev: usize = queue.prev_of(node);
        let next: usize = queue.next_of(node);
        queue.set_prev(next, prev);
        queue.set_next(prev, next);
        queue.set_prev(node, DEQUEUED);
        queue.model = Ghost(m.removed(k, i, 0));
        proof {
            assert(queue.words() =~= p.set_prev(next, prev).set_next(prev, next).set_prev(
                node,
                DEQUEUED,
            ));
        }
    }

    /// Takes `node` out of the queue, or out of the drain that has it. A queue that this leaves
    /// empty carries `state` from then on, and the result is true.
    #[verifier::spinoff_prover]
    #[verifier::rlimit(50)]
    pub fn remove<T>(&mut self, queue: &mut Queue<T, SP>, node: usize, state: QueueState) -> (emptied:
        Attempt<bool>)
        requires
            old(queue).wf(),
            old(self).holds(old(queue)@),
            old(queue)@.model.open is None,
            old(queue)@.model.queued.contains(node),
            !old(queue)@.model.pending.contains_key(node),
            old(queue)@.model.leaving is None || old(queue)@.model.leaving == Some(node),
            old(queue)@.model.waiting is None || old(queue)@.model.waiting == Some(node),
            state <= INTRUSIVE_QUEUE_MAX_STATE,
        ensures
            final(queue).wf(),
            final(self).holds(final(queue)@),
            removal(old(queue)@, node, state, old(self).may_spin(), emptied, final(queue)@),
            emptied is Done ==> final(self).spins() == 0,
            emptied is Spin ==> final(self).spins() == old(self).spins() + 1,
            emptied is Wait ==> final(self).spins() == old(self).spins(),
    {
        let ghost m = queue.model@;
        let ghost p = queue.words();
        let ghost (k, i) = m.position(node);
        proof {
            m.lemma_position(node);
            assert(p.links.contains_key(node));
            if i + 1 < m.chains[k].len() {
                assert(m.has(k, i + 1) && m.pred(k, i + 1) == node);
                assert(m.detached(node).has(k, i + 1) && m.detached(node).pred(k, i + 1) == node);
            }
            assert forall|l: usize, j: int| #[trigger]
                m.awaiting(None).has(l, j) && m.chains[l][j] == node implies l == k && j == i by {
                assert(m.has(l, j));
            }
            if m.order().len() > 0 {
                assert(m.has(HEAD_MARKER, m.order().len() - 1));
            }
        }
        let next: usize = queue.next_of(node);
        if next > PARKED {
            self.retract(queue);
            assert(queue@.model.has(k, i));
            self.unlink_node(queue, node);
            self.stop_spinning();
            return Attempt::Done(false);
        }
        self.detach_node(queue, node);
        match self.release_tail(queue, node, state) {
            Some(emptied) => {
                self.stop_spinning();
                Attempt::Done(emptied)
            },
            None => match self.get_next(queue, node) {
                Attempt::Done(_) => {
                    self.unlink_node(queue, node);
                    Attempt::Done(false)
                },
                Attempt::Spin => Attempt::Spin,
                Attempt::Wait => Attempt::Wait,
            },
        }
    }
}

/// A node at an end of the queue, about to be taken out.
pub struct NodeDequeuing<'a, SP: SyncPrimitives = DefaultSyncPrimitives> {
    /// The address of the node.
    pub node: usize,
    /// The lock that the node is taken out under.
    pub locked: &'a mut LockedQueue<SP>,
}

/// What a try at getting hold of the node at position `i` of the queue does: it waits while the
/// insertion of that node has not ended, and changes nothing otherwise.
pub open spec fn reached<'a, T, SP: SyncPrimitives>(
    before: QueueView<T>,
    i: int,
    spin: bool,
    found: Attempt<Option<NodeDequeuing<'a, SP>>>,
    after: QueueView<T>,
) -> bool {
    let m = before.model;
    if m.order().len() == 0 {
        found matches Attempt::Done(end) && end is None && after == before
    } else if m.pending.contains_key(m.order()[i]) {
        stalled(before, m.pred(HEAD_MARKER, i), spin, found, after)
    } else {
        &&& found matches Attempt::Done(Some(end))
        &&& end.node == m.order()[i]
        &&& after == (QueueView { model: m.awaiting(None), ..before })
    }
}

/// Cell `w` precedes a place of the queue.
pub open spec fn precedes_place(m: Model, w: usize) -> bool {
    exists|i: int| #[trigger] m.has(HEAD_MARKER, i) && m.pred(HEAD_MARKER, i) == w
}

/// The place of the node that `pop` yields: the last one, or, if its holder waits, the one that was
/// last when it began to wait.
pub open spec fn popped_place(m: Model) -> int {
    match m.waiting {
        Some(w) => choose|i: int| #[trigger] m.has(HEAD_MARKER, i) && m.pred(HEAD_MARKER, i) == w,
        None => m.order().len() - 1,
    }
}

/// The ends of the queue.
impl<SP: SyncPrimitives> LockedQueue<SP> {
    /// The oldest node in the queue.
    pub fn dequeue<T>(&mut self, queue: &mut Queue<T, SP>) -> (head: Attempt<
        Option<NodeDequeuing<'_, SP>>,
    >)
        requires
            old(queue).wf(),
            old(self).holds(old(queue)@),
            old(queue)@.model.leaving is None,
            old(queue)@.model.waiting is None || old(queue)@.model.waiting == Some(HEAD_MARKER),
        ensures
            final(queue).wf(),
            reached(old(queue)@, 0, old(self).may_spin(), head, final(queue)@),
            head matches Attempt::Done(Some(end)) ==> end.locked.spins() == 0
                && end.locked.holds(final(queue)@) && *final(self) == *final(end.locked),
            !(head is Done) || head->Done_0 is None ==> final(self).holds(final(queue)@),
            head matches Attempt::Done(None) ==> *final(self) == *old(self),
            head is Spin ==> final(self).spins() == old(self).spins() + 1,
            head is Wait ==> final(self).spins() == old(self).spins(),
    {
        proof {
            queue.lemma_wf();
            let m = queue@.model;
            if m.order().len() > 0 {
                assert(m.has(HEAD_MARKER, 0) && m.pred(HEAD_MARKER, 0) == HEAD_MARKER);
            } else {
                m.lemma_no_follower(HEAD_MARKER);
            }
        }
        if queue.is_empty() {
            return Attempt::Done(None);
        }
        match self.get_next(queue, HEAD_MARKER) {
            Attempt::Done(node) => Attempt::Done(Some(NodeDequeuing { node, locked: self })),
            Attempt::Spin => Attempt::Spin,
            Attempt::Wait => Attempt::Wait,
        }
    }

    /// The newest node in the queue. If its holder has to wait for the insertion of that node to end,
    /// it is still that node which the next call yields, though newer ones may have come.
    pub fn pop<T>(&mut self, queue: &mut Queue<T, SP>) -> (last: Attempt<
        Option<NodeDequeuing<'_, SP>>,
    >)
        requires
            old(queue).wf(),
            old(self).holds(old(queue)@),
            old(queue)@.model.leaving is None,
            old(queue)@.model.waiting matches Some(w) ==> precedes_place(old(queue)@.model, w),
        ensures
            final(queue).wf(),
            reached(
                old(queue)@,
                popped_place(old(queue)@.model),
                old(self).may_spin(),
                last,
                final(queue)@,
            ),
            last matches Attempt::Done(Some(end)) ==> end.locked.spins() == 0
                && end.locked.holds(final(queue)@) && *final(self) == *final(end.locked),
            !(last is Done) || last->Done_0 is None ==> final(self).holds(final(queue)@),
            last matches Attempt::Done(None) ==> *final(self) == *old(self),
            last is Spin ==> final(self).spins() == old(self).spins() + 1,
            last is Wait ==> final(self).spins() == old(self).spins(),
    {
        proof {
            queue.lemma_wf();
            let m = queue@.model;
            if m.order().len() > 0 {
                assert(m.has(HEAD_MARKER, m.order().len() - 1));
            }
        }
        let prev: usize = match self.waiting_cell() {
            Some(cell) => cell,
            None => match queue.load_tail() {
                StateOrTail::State(_) => {
                    return Attempt::Done(None);
                },
                StateOrTail::Tail(node) => queue.prev_of(node),
            },
        };
        match self.get_next(queue, prev) {
            Attempt::Done(node) => Attempt::Done(Some(NodeDequeuing { node, locked: self })),
            Attempt::Spin => Attempt::Spin,
            Attempt::Wait => Attempt::Wait,
        }
    }
}

impl<'a, SP: SyncPrimitives> NodeDequeuing<'a, SP> {
    /// What the node carries.
    pub fn data<'q, T>(&self, queue: &'q Queue<T, SP>) -> (data: &'q T)
        requires
            queue.wf(),
            self.locked.holds(queue@),
            queue@.model.nodes.contains(self.node),
        ensures
            *data == queue@.data[self.node],
    {
        self.locked.data(queue, self.node)
    }

    /// What the node carries, to be changed.
    pub fn data_pinned<'q, T>(&mut self, queue: &'q mut Queue<T, SP>) -> (data: &'q mut T)
        requires
            old(queue).wf(),
            old(self).locked.holds(old(queue)@),
            old(queue)@.model.nodes.contains(old(self).node),
        ensures
            *final(self) == *old(self),
            *data == old(queue)@.data[old(self).node],
            final(queue).wf(),
            final(queue)@ == (QueueView {
                data: old(queue)@.data.insert(old(self).node, *final(data)),
                ..old(queue)@
            }),
    {
        queue.node_data_mut(self.node)
    }

    /// Leaves the node where it is, and gives the lock back as it was borrowed.
    pub fn requeue<T>(self, queue: &mut Queue<T, SP>)
        ensures
            *final(queue) == *old(queue),
            *final(self.locked) == *old(self.locked),
    {
    }

    /// Takes the node out. If that leaves the queue empty, its state is `state` from then on and
    /// the result is true.
    pub fn try_set_queue_state<T>(&mut self, queue: &mut Queue<T, SP>, state: QueueState) -> (emptied:
        Attempt<bool>)
        requires
            old(queue).wf(),
            old(self).locked.holds(old(queue)@),
            old(queue)@.model.open is None,
            old(queue)@.model.queued.contains(old(self).node),
            !old(queue)@.model.pending.contains_key(old(self).node),
            old(queue)@.model.leaving is None || old(queue)@.model.leaving == Some(old(self).node),
            old(queue)@.model.waiting is None || old(queue)@.model.waiting == Some(old(self).node),
            state <= INTRUSIVE_QUEUE_MAX_STATE,
        ensures
            final(self).node == old(self).node,
            final(self).locked.holds(final(queue)@),
            *final(final(self).locked) == *final(old(self).locked),
            emptied is Done ==> final(self).locked.spins() == 0,
            emptied is Spin ==> final(self).locked.spins() == old(self).locked.spins() + 1,
            emptied is Wait ==> final(self).locked.spins() == old(self).locked.spins(),
            final(queue).wf(),
            removal(
                old(queue)@,
                old(self).node,
                state,
                old(self).locked.may_spin(),
                emptied,
                final(queue)@,
            ),
    {
        self.locked.remove(queue, self.node, state)
    }

    /// Takes the node out.
    pub fn finish<T>(&mut self, queue: &mut Queue<T, SP>) -> (emptied: Attempt<bool>)
        requires
            old(queue).wf(),
            old(self).locked.holds(old(queue)@),
            old(queue)@.model.open is None,
            old(queue)@.model.queued.contains(old(self).node),
            !old(queue)@.model.pending.contains_key(old(self).node),
            old(queue)@.model.leaving is None || old(queue)@.model.leaving == Some(old(self).node),
            old(queue)@.model.waiting is None || old(queue)@.model.waiting == Some(old(self).node),
        ensures
            final(self).node == old(self).node,
            final(self).locked.holds(final(queue)@),
            *final(final(self).locked) == *final(old(self).locked),
            emptied is Done ==> final(self).locked.spins() == 0,
            emptied is Spin ==> final(self).locked.spins() == old(self).locked.spins() + 1,
            emptied is Wait ==> final(self).locked.spins() == old(self).locked.spins(),
            final(queue).wf(),
            removal(
                old(queue)@,
                old(self).node,
                0,
                old(self).locked.may_spin(),
                emptied,
                final(queue)@,
            ),
    {
        self.locked.remove(queue, self.node, 0)
    }
}

} // verus!
