//! Draining: all nodes are taken out of the queue at once, and then handed out one by one.
//!
//! The nodes go over to a chain of the drain's own. The lock can be given back in between: then
//! the chain is closed to a ring around the drain's sentinel, so that nodes which leave on their
//! own account never meet the queue's head or tail.

use vstd::prelude::*;

use crate::attempt::{Attempt, AttemptFrom};
use crate::queue::model::{is_addr, Model, HEAD_MARKER};
use crate::queue::state::{QueueState, INTRUSIVE_QUEUE_MAX_STATE};
use crate::queue::{stalled, LockedQueue, Queue, QueueView};
use crate::sync::{DefaultSyncPrimitives, SyncPrimitives};

verus! {

/// Nodes that have been taken out of the queue together.
pub struct Drain<SP: SyncPrimitives = DefaultSyncPrimitives> {
    id: usize,
    sentinel: usize,
    locked: Option<LockedQueue<SP>>,
    visited: Option<bool>,
}

impl<SP: SyncPrimitives> LockedQueue<SP> {
    /// Takes all nodes out of the queue. If there were any, its state is zero from then on.
    pub fn drain<T>(self, queue: &mut Queue<T, SP>) -> (drain: AttemptFrom<Drain<SP>, LockedQueue<SP>>)
        requires
            old(queue).wf(),
            self.holds(old(queue)@),
            old(queue)@.room > 0,
            old(queue)@.model.open is None,
            old(queue)@.model.leaving is None,
            old(queue)@.model.waiting is None || old(queue)@.model.waiting == Some(HEAD_MARKER),
        ensures
            final(queue).wf(),
            draining(old(queue)@, 0, self.may_spin(), drain, final(queue)@),
            drain matches AttemptFrom::Spin(lock) ==> lock.spins() == self.spins() + 1,
            drain matches AttemptFrom::Wait(lock) ==> lock.spins() == self.spins(),
            drain.again() matches Some(lock) ==> lock.holds(final(queue)@),
            drain matches AttemptFrom::Done(drain) ==> old(queue)@.model.order().len() > 0
                ==> drain.spins() == 0,
    {
        Drain::new(self, queue, 0)
    }

    /// Takes all nodes out of the queue. If there were any, its state is `state` from then on.
    pub fn drain_try_set_state<T>(self, queue: &mut Queue<T, SP>, state: QueueState) -> (drain:
        AttemptFrom<Drain<SP>, LockedQueue<SP>>)
        requires
            old(queue).wf(),
            self.holds(old(queue)@),
            old(queue)@.room > 0,
            old(queue)@.model.open is None,
            old(queue)@.model.leaving is None,
            old(queue)@.model.waiting is None || old(queue)@.model.waiting == Some(HEAD_MARKER),
            state <= INTRUSIVE_QUEUE_MAX_STATE,
        ensures
            final(queue).wf(),
            draining(old(queue)@, state, self.may_spin(), drain, final(queue)@),
            drain matches AttemptFrom::Spin(lock) ==> lock.spins() == self.spins() + 1,
            drain matches AttemptFrom::Wait(lock) ==> lock.spins() == self.spins(),
            drain.again() matches Some(lock) ==> lock.holds(final(queue)@),
            drain matches AttemptFrom::Done(drain) ==> old(queue)@.model.order().len() > 0
                ==> drain.spins() == 0,
    {
        Drain::new(self, queue, state)
    }
}

/// What a try at starting a drain does: it waits while the insertion of the queue's head has not
/// ended, and otherwise moves all nodes over.
pub open spec fn draining<T, SP: SyncPrimitives>(
    before: QueueView<T>,
    state: QueueState,
    spin: bool,
    drain: AttemptFrom<Drain<SP>, LockedQueue<SP>>,
    after: QueueView<T>,
) -> bool {
    let m = before.model;
    if m.order().len() > 0 && m.pending.contains_key(m.order()[0]) {
        stalled(before, HEAD_MARKER, spin, drain.outcome(), after)
    } else {
        &&& drain matches AttemptFrom::Done(drain)
        &&& drain.is_open()
        &&& drain.visited() is None
        &&& drain.fits(after)
        &&& is_addr(drain.sentinel())
        &&& !m.nodes.contains(drain.sentinel())
        &&& !m.chains.contains_key(drain.sentinel())
        &&& after == (QueueView {
            model: m.awaiting(None).draining(drain.sentinel(), state),
            room: (before.room - 1) as nat,
            ..before
        })
    }
}

impl<SP: SyncPrimitives> Drain<SP> {
    /// The address of the drain's sentinel, which names its chain.
    pub closed spec fn sentinel(&self) -> usize {
        self.sentinel
    }

    /// The drain holds the lock.
    pub closed spec fn is_open(&self) -> bool {
        self.locked is Some
    }

    /// The first node has been visited and only needs to be taken out; this tells whether the
    /// lock is then to be given back for a while.
    pub closed spec fn visited(&self) -> Option<bool> {
        self.visited
    }

    /// How often the holder of the lock, if the drain holds it, has looked in vain for a node to be
    /// linked.
    pub closed spec fn spins(&self) -> nat {
        match self.locked {
            Some(locked) => locked.spins(),
            None => 0,
        }
    }

    /// The drain looks again before it parks.
    pub open spec fn may_spin(&self) -> bool {
        self.spins() < SP::SPIN_BEFORE_PARK
    }

    /// The drain, and the lock if it holds it, are those of a queue in state `v`.
    pub closed spec fn fits<T>(&self, v: QueueView<T>) -> bool {
        self.id == v.id && (self.locked matches Some(locked) ==> locked.holds(v))
    }

    /// The drain belongs to a queue in state `v`.
    pub open spec fn in_queue<T>(&self, v: QueueView<T>) -> bool {
        &&& self.fits(v)
        &&& self.sentinel() != HEAD_MARKER
        &&& v.model.chains.contains_key(self.sentinel())
        &&& self.is_open() <==> v.model.open == Some(self.sentinel())
    }

    /// The nodes that are left.
    pub open spec fn rest<T>(&self, v: QueueView<T>) -> Seq<usize> {
        v.model.chains[self.sentinel()]
    }

    fn new<T>(locked: LockedQueue<SP>, queue: &mut Queue<T, SP>, state: QueueState) -> (drain:
        AttemptFrom<Drain<SP>, LockedQueue<SP>>)
        requires
            old(queue).wf(),
            locked.holds(old(queue)@),
            old(queue)@.room > 0,
            old(queue)@.model.open is None,
            old(queue)@.model.leaving is None,
            old(queue)@.model.waiting is None || old(queue)@.model.waiting == Some(HEAD_MARKER),
            state <= INTRUSIVE_QUEUE_MAX_STATE,
        ensures
            final(queue).wf(),
            draining(old(queue)@, state, locked.may_spin(), drain, final(queue)@),
            drain matches AttemptFrom::Spin(lock) ==> lock.spins() == locked.spins() + 1,
            drain matches AttemptFrom::Wait(lock) ==> lock.spins() == locked.spins(),
            drain.again() matches Some(lock) ==> lock.holds(final(queue)@),
            drain matches AttemptFrom::Done(drain) ==> old(queue)@.model.order().len() > 0
                ==> drain.spins() == 0,
    {
        proof {
            queue.lemma_wf();
            let m = queue@.model;
            if m.order().len() > 0 {
                assert(m.has(HEAD_MARKER, 0) && m.pred(HEAD_MARKER, 0) == HEAD_MARKER);
            } else {
                m.lemma_no_follower(HEAD_MARKER);
            }
        }
        let mut locked = locked;
        if !queue.is_empty() {
            match locked.get_next(queue, HEAD_MARKER) {
                Attempt::Done(_) => {},
                Attempt::Spin => {
                    return AttemptFrom::Spin(locked);
                },
                Attempt::Wait => {
                    return AttemptFrom::Wait(locked);
                },
            }
        }
        let sentinel = queue.move_to_drain(state);
        AttemptFrom::Done(Drain { id: locked.queue(), sentinel, locked: Some(locked), visited: None })
    }
}

/// The first node of a drain, about to be taken out.
pub struct NodeDrained<'a, SP: SyncPrimitives = DefaultSyncPrimitives> {
    pub node: usize,
    pub drain: &'a mut Drain<SP>,
}

/// What a try at taking out the first node of the drain with sentinel `s` does: it waits while the
/// insertion of the node behind it has not ended.
pub open spec fn advance<T>(
    before: QueueView<T>,
    s: usize,
    spin: bool,
    outcome: Attempt<()>,
    after: QueueView<T>,
) -> bool {
    let m = before.model;
    if m.chains[s].len() > 1 && m.pending.contains_key(m.chains[s][1]) {
        stalled(before, m.chains[s][0], spin, outcome, after)
    } else {
        &&& outcome == Attempt::Done(())
        &&& after == (QueueView { model: m.awaiting(None).removed(s, 0, 0), ..before })
    }
}

/// How often the holder of the lock has looked in vain when it has tried to take out the first of
/// `len` nodes: it has to look for the node behind that one, if there is one.
pub open spec fn looked(outcome: Attempt<()>, len: nat, spins: nat, after: nat) -> bool {
    match outcome {
        Attempt::Spin => after == spins + 1,
        Attempt::Wait => after == spins,
        Attempt::Done(_) => after == if len > 1 {
            0
        } else {
            spins
        },
    }
}

/// How often the holder of the lock has looked in vain when it comes to the node at place `n`.
pub open spec fn spins_at(spins: nat, n: int) -> nat {
    if n == 0 {
        spins
    } else {
        0
    }
}

impl<'a, SP: SyncPrimitives> NodeDrained<'a, SP> {
    /// What the node carries.
    pub fn data<'q, T>(&self, queue: &'q Queue<T, SP>) -> (data: &'q T)
        requires
            queue.wf(),
            self.drain.in_queue(queue@),
            self.drain.is_open(),
            queue@.model.nodes.contains(self.node),
        ensures
            *data == queue@.data[self.node],
    {
        queue.node_data(self.node)
    }

    /// What the node carries, to be changed.
    pub fn data_mut<'q, T>(&mut self, queue: &'q mut Queue<T, SP>) -> (data: &'q mut T)
        requires
            old(queue).wf(),
            old(self).drain.in_queue(old(queue)@),
            old(self).drain.is_open(),
            old(queue)@.model.nodes.contains(old(self).node),
        ensures
            *final(self) == *old(self),
            final(self).drain.in_queue(final(queue)@),
            *data == old(queue)@.data[old(self).node],
            final(queue).wf(),
            final(queue)@ == (QueueView {
                data: old(queue)@.data.insert(old(self).node, *final(data)),
                ..old(queue)@
            }),
    {
        queue.node_data_mut(self.node)
    }

    /// Takes the node out of the drain.
    pub fn finish<T>(&mut self, queue: &mut Queue<T, SP>) -> (outcome: Attempt<()>)
        requires
            old(queue).wf(),
            old(self).drain.in_queue(old(queue)@),
            old(self).drain.is_open(),
            old(self).drain.rest(old(queue)@).len() > 0,
            old(self).node == old(self).drain.rest(old(queue)@)[0],
            old(queue)@.model.waiting is None || old(queue)@.model.waiting == Some(old(self).node),
        ensures
            final(queue).wf(),
            final(self).node == old(self).node,
            final(self).drain.sentinel() == old(self).drain.sentinel(),
            final(self).drain.fits(final(queue)@),
            final(self).drain.is_open(),
            final(self).drain.visited() == old(self).drain.visited(),
            *final(final(self).drain) == *final(old(self).drain),
            looked(
                outcome,
                old(self).drain.rest(old(queue)@).len(),
                old(self).drain.spins(),
                final(self).drain.spins(),
            ),
            advance(
                old(queue)@,
                old(self).drain.sentinel(),
                old(self).drain.may_spin(),
                outcome,
                final(queue)@,
            ),
    {
        self.drain.advance(queue)
    }
}

impl<SP: SyncPrimitives> Drain<SP> {
    /// The first of the nodes that are left.
    pub fn next<T>(&mut self, queue: &Queue<T, SP>) -> (node: Option<NodeDrained<'_, SP>>)
        requires
            queue.wf(),
            old(self).in_queue(queue@),
            old(self).is_open(),
        ensures
            node is None <==> old(self).rest(queue@).len() == 0,
            node matches Some(first) ==> {
                &&& first.node == old(self).rest(queue@)[0]
                &&& *first.drain == *old(self)
                &&& *final(self) == *final(first.drain)
            },
            node is None ==> *final(self) == *old(self),
    {
        match queue.drain_head(self.sentinel) {
            Some(node) => Some(NodeDrained { node, drain: self }),
            None => None,
        }
    }

    /// Takes out the first node.
    fn advance<T>(&mut self, queue: &mut Queue<T, SP>) -> (outcome: Attempt<()>)
        requires
            old(queue).wf(),
            old(self).in_queue(old(queue)@),
            old(self).is_open(),
            old(self).rest(old(queue)@).len() > 0,
            old(queue)@.model.waiting is None || old(queue)@.model.waiting == Some(
                old(self).rest(old(queue)@)[0],
            ),
        ensures
            final(queue).wf(),
            final(self).sentinel() == old(self).sentinel(),
            final(self).fits(final(queue)@),
            final(self).is_open(),
            final(self).visited() == old(self).visited(),
            looked(
                outcome,
                old(self).rest(old(queue)@).len(),
                old(self).spins(),
                final(self).spins(),
            ),
            advance(
                old(queue)@,
                old(self).sentinel(),
                old(self).may_spin(),
                outcome,
                final(queue)@,
            ),
    {
        let ghost m = queue@.model;
        let ghost s = self.sentinel;
        proof {
            queue.lemma_wf();
            assert(m.has(s, 0));
            if m.chains[s].len() > 1 {
                assert(m.has(s, 1) && m.pred(s, 1) == m.chains[s][0]);
                assert(m.has(s, m.chains[s].len() - 1));
            } else {
                m.lemma_last_not_followed(s);
            }
        }
        if let Some(node) = queue.drain_head(self.sentinel) {
            if !queue.is_drain_tail(self.sentinel, node) {
                if let Some(locked) = &mut self.locked {
                    match locked.get_next(queue, node) {
                        Attempt::Done(_) => {},
                        Attempt::Spin => {
                            return Attempt::Spin;
                        },
                        Attempt::Wait => {
                            return Attempt::Wait;
                        },
                    }
                }
            }
        }
        queue.drain_advance(self.sentinel);
        Attempt::Done(())
    }
}

/// Giving the lock back for a while.
impl<SP: SyncPrimitives> Drain<SP> {
    /// The drain holds the lock.
    pub fn is_locked(&self) -> (locked: bool)
        ensures
            locked == self.is_open(),
    {
        self.locked.is_some()
    }

    /// Closes the chain to a ring, and gives the lock back.
    pub fn unlock<T>(&mut self, queue: &mut Queue<T, SP>)
        requires
            old(queue).wf(),
            old(self).in_queue(old(queue)@),
            old(self).is_open(),
            old(queue)@.model.waiting is None,
        ensures
            final(queue).wf(),
            final(self).sentinel() == old(self).sentinel(),
            final(self).fits(final(queue)@),
            !final(self).is_open(),
            final(self).visited() == old(self).visited(),
            final(queue)@ == (QueueView {
                model: old(queue)@.model.closed(),
                locked: false,
                ..old(queue)@
            }),
    {
        proof {
            queue.lemma_wf();
        }
        queue.drain_close(self.sentinel);
        if let Some(locked) = self.locked.take() {
            locked.unlock(queue);
        }
    }

    /// Takes the lock again, unless another thread holds it.
    pub fn relock<T>(&mut self, queue: &mut Queue<T, SP>) -> (outcome: Attempt<()>)
        requires
            old(queue).wf(),
            old(self).in_queue(old(queue)@),
            !old(self).is_open(),
        ensures
            final(queue).wf(),
            final(self).sentinel() == old(self).sentinel(),
            final(self).fits(final(queue)@),
            final(self).visited() == old(self).visited(),
            old(queue)@.locked ==> outcome is Wait && *final(self) == *old(self) && final(queue)@
                == old(queue)@,
            !old(queue)@.locked ==> {
                &&& outcome == Attempt::Done(())
                &&& final(self).is_open()
                &&& final(self).spins() == 0
                &&& final(queue)@ == (QueueView {
                    model: old(queue)@.model.opened(old(self).sentinel()),
                    locked: true,
                    ..old(queue)@
                })
            },
    {
        proof {
            queue.lemma_wf();
        }
        match queue.lock() {
            Attempt::Done(locked) => {
                queue.drain_open(self.sentinel);
                self.locked = Some(locked);
                Attempt::Done(())
            },
            _ => {
                assert(queue@ =~= old(queue)@);
                Attempt::Wait
            },
        }
    }

    /// Gives the lock back, runs `f` on the queue, and takes the lock again. Nodes may leave the
    /// drain and others may be inserted in the queue meanwhile. If another thread holds the lock when
    /// `f` is done, it is to be taken by `relock`.
    pub fn execute_unlocked<T, F: FnOnce(&mut Queue<T, SP>) -> R, R>(
        &mut self,
        queue: &mut Queue<T, SP>,
        f: F,
    ) -> (done: (R, Attempt<()>))
        requires
            old(queue).wf(),
            old(self).in_queue(old(queue)@),
            old(self).is_open(),
            old(queue)@.model.waiting is None,
            forall|q: &mut Queue<T, SP>|
                q.wf() && q@ == unlocked(old(queue)@) ==> #[trigger] call_requires(f, (q,)),
            forall|q: &mut Queue<T, SP>, result: R| #[trigger]
                call_ensures(f, (q,), result) && q.wf() && q@ == unlocked(old(queue)@) ==> {
                    &&& final(q).wf()
                    &&& final(q)@.id == q@.id
                    &&& final(q)@.model.chains.contains_key(old(self).sentinel())
                    &&& final(q)@.model.open != Some(old(self).sentinel())
                },
        ensures
            final(queue).wf(),
            final(self).sentinel() == old(self).sentinel(),
            final(self).fits(final(queue)@),
            final(self).visited() == old(self).visited(),
            final(self).is_open() == (done.1 is Done),
            final(self).spins() == 0,
            exists|q: &mut Queue<T, SP>| #[trigger]
                call_ensures(f, (q,), done.0) && q.wf() && q@ == unlocked(old(queue)@)
                    && if final(q)@.locked {
                    done.1 is Wait && final(queue)@ == final(q)@
                } else {
                    done.1 is Done && final(queue)@ == relocked(final(q)@, old(self).sentinel())
                },
    {
        proof {
            queue.lemma_wf();
        }
        self.unlock(queue);
        let result = f(queue);
        assert(exists|q: &mut Queue<T, SP>| #[trigger]
            call_ensures(f, (q,), result) && q.wf() && q@ == unlocked(old(queue)@) && *final(q)
                == *queue);
        let ghost between = *queue;
        proof {
            queue.lemma_wf();
        }
        let outcome = self.relock(queue);
        let done = (result, outcome);
        proof {
            let q = choose|q: &mut Queue<T, SP>| #[trigger]
                call_ensures(f, (q,), result) && q.wf() && q@ == unlocked(old(queue)@) && *final(q)
                    == between;
            assert(call_ensures(f, (q,), done.0));
            assert(final(q)@ == between@);
        }
        done
    }
}

/// The queue in state `v` when the drain that holds the lock has given it back.
pub open spec fn unlocked<T>(v: QueueView<T>) -> QueueView<T> {
    QueueView { model: v.model.closed(), locked: false, ..v }
}

/// The queue in state `v` when the drain with sentinel `s` has taken the lock.
pub open spec fn relocked<T>(v: QueueView<T>, s: usize) -> QueueView<T> {
    QueueView { model: v.model.opened(s), locked: true, ..v }
}

/// What the nodes `nodes` carry, in order.
pub open spec fn carried<T>(data: Map<usize, T>, nodes: Seq<usize>) -> Seq<T> {
    nodes.map_values(|a: usize| data[a])
}

/// The queue in state `v` when the first node of the drain with sentinel `s` carries `left`.
pub open spec fn left_behind<T>(v: QueueView<T>, s: usize, left: T) -> QueueView<T> {
    QueueView { data: v.data.insert(v.model.chains[s][0], left), ..v }
}

/// The queue in state `v` when the first node of the drain with sentinel `s` has been taken out.
pub open spec fn taken_out<T>(v: QueueView<T>, s: usize) -> QueueView<T> {
    QueueView { model: v.model.awaiting(None).removed(s, 0, 0), ..v }
}

/// The insertion behind the first node of the drain with sentinel `s` has not ended.
pub open spec fn blocked<T>(v: QueueView<T>, s: usize) -> bool {
    v.model.chains[s].len() > 1 && v.model.pending.contains_key(v.model.chains[s][1])
}

/// `on_next` is shown what the first node of the drain with sentinel `s` carries, under the lock. It
/// makes `seen` of `helper`, lets the node carry `left`, and asks to `unlock`, or not.
pub open spec fn shown<T, SP: SyncPrimitives, H, N: FnMut(H, T, &LockedQueue<SP>) -> (H, T, bool)>(
    on_next: N,
    s: usize,
    v: QueueView<T>,
    helper: H,
    lock: LockedQueue<SP>,
    seen: H,
    left: T,
    unlock: bool,
) -> bool {
    &&& v.model.chains[s].len() > 0
    &&& lock.holds(v)
    &&& call_ensures(on_next, (helper, v.data[v.model.chains[s][0]], &lock), (seen, left, unlock))
}

/// `on_unlock` is handed the queue in state `v`, which is not locked by the drain, and hands it back
/// as `after`; it makes `done` of `helper`.
pub open spec fn ran_unlocked<T, SP: SyncPrimitives, H, U: FnMut(H, Queue<T, SP>) -> (H, Queue<T, SP>)>(
    on_unlock: U,
    v: QueueView<T>,
    helper: H,
    before: Queue<T, SP>,
    done: H,
    after: Queue<T, SP>,
) -> bool {
    &&& before.wf()
    &&& before@ == v
    &&& call_ensures(on_unlock, (helper, before), (done, after))
}

/// One visit: `on_next` is shown what the first node carries, under the lock, and the node is taken
/// out. If `on_next` asked for that, the lock is then given back while `on_unlock` runs.
pub open spec fn visit<
    T,
    SP: SyncPrimitives,
    H,
    N: FnMut(H, T, &LockedQueue<SP>) -> (H, T, bool),
    U: FnMut(H, Queue<T, SP>) -> (H, Queue<T, SP>),
>(on_next: N, on_unlock: U, s: usize, h: H, v: QueueView<T>, h2: H, v2: QueueView<T>) -> bool {
    &&& !blocked(v, s)
    &&& exists|lock: LockedQueue<SP>, seen: H, left: T, unlock: bool| #[trigger]
        shown(on_next, s, v, h, lock, seen, left, unlock) && if unlock {
            exists|q: Queue<T, SP>, q2: Queue<T, SP>| #[trigger]
                ran_unlocked(on_unlock, unlocked(taken_out(left_behind(v, s, left), s)), seen, q, h2, q2)
                    && !q2@.locked && v2 == relocked(q2@, s)
        } else {
            h2 == seen && v2 == taken_out(left_behind(v, s, left), s)
        }
}

/// `n` visits, one after the other.
pub open spec fn visits<
    T,
    SP: SyncPrimitives,
    H,
    N: FnMut(H, T, &LockedQueue<SP>) -> (H, T, bool),
    U: FnMut(H, Queue<T, SP>) -> (H, Queue<T, SP>),
>(on_next: N, on_unlock: U, s: usize, n: nat, h: H, v: QueueView<T>, h2: H, v2: QueueView<T>) -> bool
    decreases n,
{
    if n == 0 {
        h2 == h && v2 == v
    } else {
        exists|h1: H, v1: QueueView<T>|
            visits::<T, SP, H, N, U>(on_next, on_unlock, s, (n - 1) as nat, h, v, h1, v1)
                && #[trigger] visit::<T, SP, H, N, U>(on_next, on_unlock, s, h1, v1, h2, v2)
    }
}

/// A queue called `id` in state `v`, without the lock, and with the drain with sentinel `s`.
pub open spec fn handed_over<T>(v: QueueView<T>, id: usize, s: usize) -> bool {
    &&& v.id == id
    &&& !v.locked
    &&& v.model.open is None
    &&& v.model.chains.contains_key(s)
}

/// Whatever `on_unlock` does to a queue called `id` that it is handed without the lock, the drain
/// with sentinel `s` is still there, and no node has joined it.
pub open spec fn keeps_drain<T, SP: SyncPrimitives, H, U: FnMut(H, Queue<T, SP>) -> (H, Queue<T, SP>)>(
    on_unlock: U,
    id: usize,
    s: usize,
) -> bool {
    &&& forall|h: H, q: Queue<T, SP>|
        q.wf() && handed_over(q@, id, s) ==> #[trigger] call_requires(on_unlock, (h, q))
    &&& forall|h: H, q: Queue<T, SP>, h2: H, q2: Queue<T, SP>| #[trigger]
        call_ensures(on_unlock, (h, q), (h2, q2)) && q.wf() && handed_over(q@, id, s) ==> {
            &&& q2.wf()
            &&& q2@.id == id
            &&& q2@.model.chains.contains_key(s)
            &&& q2@.model.open != Some(s)
            &&& q2@.model.chains[s].len() <= q@.model.chains[s].len()
        }
}

/// What `Drain::finish_visit` does to the drain with sentinel `s` whose first node has been visited,
/// with the answer `unlock`: while the insertion behind that node has not ended it waits. Otherwise it
/// takes the node out. If that was asked for, the lock is then given back while `on_unlock` runs, and
/// taken again unless another thread holds it.
pub open spec fn finished<T, SP: SyncPrimitives, H, U: FnMut(H, Queue<T, SP>) -> (H, Queue<T, SP>)>(
    on_unlock: U,
    s: usize,
    unlock: bool,
    spin: bool,
    h: H,
    v: QueueView<T>,
    outcome: Attempt<()>,
    open: bool,
    h2: H,
    v2: QueueView<T>,
) -> bool {
    if blocked(v, s) {
        open && h2 == h && stalled(v, v.model.chains[s][0], spin, outcome, v2)
    } else if unlock {
        exists|q: Queue<T, SP>, q2: Queue<T, SP>| #[trigger]
            ran_unlocked(on_unlock, unlocked(taken_out(v, s)), h, q, h2, q2) && open == !q2@.locked
                && if q2@.locked {
                outcome is Wait && v2 == q2@
            } else {
                outcome is Done && v2 == relocked(q2@, s)
            }
    } else {
        open && outcome is Done && h2 == h && v2 == taken_out(v, s)
    }
}

/// What `Drain::for_each` does to the drain with sentinel `s`: it visits the nodes in order, as many
/// as there are. It stops where an insertion behind a node that it has shown has not ended, and where
/// another thread has the lock that it gave back. Before it, the holder of the lock has looked
/// `spins` times in vain for a node; it parks after `limit` times.
pub open spec fn for_each_done<
    T,
    SP: SyncPrimitives,
    H,
    N: FnMut(H, T, &LockedQueue<SP>) -> (H, T, bool),
    U: FnMut(H, Queue<T, SP>) -> (H, Queue<T, SP>),
>(
    on_next: N,
    on_unlock: U,
    s: usize,
    spins: nat,
    h: H,
    v: QueueView<T>,
    outcome: Attempt<()>,
    visited: Option<bool>,
    open: bool,
    h2: H,
    v2: QueueView<T>,
) -> bool {
    exists|n: nat, h1: H, v1: QueueView<T>| #[trigger]
        visits::<T, SP, H, N, U>(on_next, on_unlock, s, n, h, v, h1, v1) && for_each_stopped::<
            T,
            SP,
            H,
            N,
            U,
        >(
            on_next,
            on_unlock,
            s,
            spins_at(spins, n as int) < SP::SPIN_BEFORE_PARK,
            h1,
            v1,
            outcome,
            visited,
            open,
            h2,
            v2,
        )
}

/// How `Drain::for_each` ends when it has come to state `v`.
pub open spec fn for_each_stopped<
    T,
    SP: SyncPrimitives,
    H,
    N: FnMut(H, T, &LockedQueue<SP>) -> (H, T, bool),
    U: FnMut(H, Queue<T, SP>) -> (H, Queue<T, SP>),
>(
    on_next: N,
    on_unlock: U,
    s: usize,
    spin: bool,
    h: H,
    v: QueueView<T>,
    outcome: Attempt<()>,
    visited: Option<bool>,
    open: bool,
    h2: H,
    v2: QueueView<T>,
) -> bool {
    if v.model.chains[s].len() == 0 {
        outcome is Done && visited is None && open && h2 == h && v2 == v
    } else {
        &&& outcome !is Done
        &&& exists|lock: LockedQueue<SP>, seen: H, left: T, unlock: bool| #[trigger]
            shown(on_next, s, v, h, lock, seen, left, unlock) && finished::<T, SP, H, U>(
                on_unlock,
                s,
                unlock,
                spin,
                seen,
                left_behind(v, s, left),
                outcome,
                open,
                h2,
                v2,
            ) && visited == if blocked(v, s) {
                Some(unlock)
            } else {
                None
            }
    }
}

/// Visiting the nodes.
impl<SP: SyncPrimitives> Drain<SP> {
    /// Shows `on_next` what the first node carries, if there is one. The node is to be taken out
    /// by `finish_visit`.
    pub fn visit_next<T, H, N: FnMut(H, T, &LockedQueue<SP>) -> (H, T, bool)>(
        &mut self,
        queue: &mut Queue<T, SP>,
        helper: H,
        on_next: &mut N,
    ) -> (seen: (H, bool))
        requires
            old(queue).wf(),
            old(self).in_queue(old(queue)@),
            old(self).is_open(),
            old(self).visited() is None,
            old(self).rest(old(queue)@).len() > 0 ==> forall|lock: LockedQueue<SP>|
                lock.holds(old(queue)@) ==> #[trigger] call_requires(
                    *old(on_next),
                    (helper, old(queue)@.data[old(self).rest(old(queue)@)[0]], &lock),
                ),
        ensures
            *final(on_next) == *old(on_next),
            final(queue).wf(),
            final(self).sentinel() == old(self).sentinel(),
            final(self).fits(final(queue)@),
            final(self).is_open(),
            final(self).spins() == old(self).spins(),
            seen.1 == (old(self).rest(old(queue)@).len() > 0),
            !seen.1 ==> seen.0 == helper && final(self).visited() is None && final(queue)@ == old(
                queue,
            )@,
            seen.1 ==> final(self).visited() is Some && exists|lock: LockedQueue<SP>, left: T|
                #[trigger]
                shown(
                    *old(on_next),
                    old(self).sentinel(),
                    old(queue)@,
                    helper,
                    lock,
                    seen.0,
                    left,
                    final(self).visited()->0,
                ) && final(queue)@ == left_behind(old(queue)@, old(self).sentinel(), left),
    {
        proof {
            queue.lemma_wf();
            if self.rest(queue@).len() > 0 {
                assert(queue@.model.has(self.sentinel, 0));
            }
        }
        let node: usize = match queue.drain_head(self.sentinel) {
            None => {
                return (helper, false);
            },
            Some(node) => node,
        };
        let lock = match &self.locked {
            Some(lock) => lock,
            None => {
                return (helper, false);
            },
        };
        let ghost data = queue@.data[node];
        let (after, unlock) = queue.visit_data(node, helper, lock, on_next);
        let seen = (after, true);
        let ghost left = choose|left: T| #[trigger]
            call_ensures(*old(on_next), (helper, data, lock), (after, left, unlock)) && queue@ == (
            QueueView { data: old(queue)@.data.insert(node, left), ..old(queue)@ });
        let ghost holder = *lock;
        self.visited = Some(unlock);
        assert(shown(
            *old(on_next),
            old(self).sentinel(),
            old(queue)@,
            helper,
            holder,
            seen.0,
            left,
            self.visited()->0,
        ));
        seen
    }

    /// Takes out the node that has been visited. If `on_next` asked for that, the lock is then given
    /// back while `on_unlock` runs on the queue. If another thread holds the lock when that is done,
    /// it is to be taken by `relock`.
    #[verifier::spinoff_prover]
    #[verifier::rlimit(50)]
    pub fn finish_visit<T, H, U: FnMut(H, Queue<T, SP>) -> (H, Queue<T, SP>)>(
        &mut self,
        queue: &mut Queue<T, SP>,
        helper: H,
        on_unlock: &mut U,
    ) -> (done: (H, Attempt<()>))
        requires
            old(queue).wf(),
            old(self).in_queue(old(queue)@),
            old(self).is_open(),
            old(self).visited() is Some,
            old(self).rest(old(queue)@).len() > 0,
            old(queue)@.model.waiting is None || old(queue)@.model.waiting == Some(
                old(self).rest(old(queue)@)[0],
            ),
            keeps_drain(*old(on_unlock), old(queue)@.id, old(self).sentinel()),
        ensures
            *final(on_unlock) == *old(on_unlock),
            final(queue).wf(),
            final(queue)@.id == old(queue)@.id,
            final(self).sentinel() == old(self).sentinel(),
            final(self).in_queue(final(queue)@),
            finished(
                *old(on_unlock),
                old(self).sentinel(),
                old(self).visited()->0,
                old(self).may_spin(),
                helper,
                old(queue)@,
                done.1,
                final(self).is_open(),
                done.0,
                final(queue)@,
            ),
            final(self).visited() == if blocked(old(queue)@, old(self).sentinel()) {
                old(self).visited()
            } else {
                None
            },
            done.1 is Done ==> final(self).visited() is None,
            final(self).visited() is Some ==> done.0 == helper && final(queue)@.data == old(queue)@.data,
            final(self).visited() is None && old(self).visited() == Some(false) ==> done.0 == helper,
            final(self).visited() is None && old(self).visited() == Some(true) ==> exists|
                given: Queue<T, SP>,
                back: Queue<T, SP>,
            | #[trigger]
                call_ensures(*old(on_unlock), (helper, given), (done.0, back)) && given.wf()
                    && !given@.locked && given@.model.dequeued.contains(
                    old(self).rest(old(queue)@)[0],
                ) && final(queue)@.data == back@.data,
            final(self).is_open() ==> final(self).spins() == if done.1 is Spin {
                old(self).spins() + 1
            } else if done.1 is Wait {
                old(self).spins()
            } else if old(self).visited() == Some(true) || old(self).rest(old(queue)@).len() > 1 {
                0
            } else {
                old(self).spins()
            },
    {
        let ghost before = queue@;
        let ghost s = self.sentinel;
        proof {
            queue.lemma_wf();
        }
        match self.advance(queue) {
            Attempt::Spin => {
                return (helper, Attempt::Spin);
            },
            Attempt::Wait => {
                return (helper, Attempt::Wait);
            },
            Attempt::Done(_) => {},
        }
        assert(queue@ == taken_out(before, s));
        if let Some(true) = self.visited.take() {
            proof {
                queue.lemma_wf();
            }
            self.unlock(queue);
            let mut handed: Queue<T, SP> = Queue::new(0);
            std::mem::swap(queue, &mut handed);
            let ghost given = handed;
            let (after, back) = on_unlock(helper, handed);
            proof {
                assert(ran_unlocked(
                    *old(on_unlock),
                    unlocked(taken_out(before, s)),
                    helper,
                    given,
                    after,
                    back,
                ));
                back.lemma_wf();
            }
            *queue = back;
            let outcome = self.relock(queue);
            return (after, outcome);
        }
        (helper, Attempt::Done(()))
    }

    /// Visits the nodes in order and takes each of them out. `on_next` is shown what a node
    /// carries, under the lock; where it answers true, the lock is given back, when the node is out,
    /// while `on_unlock` runs on the queue. If this meets an insertion that has not ended, the visit
    /// that was begun is ended by `finish_visit`, and the rest by another call; if another thread
    /// holds the lock, `relock` comes before that.
    #[verifier::spinoff_prover]
    #[verifier::rlimit(60)]
    pub fn for_each<
        T,
        H,
        N: FnMut(H, T, &LockedQueue<SP>) -> (H, T, bool),
        U: FnMut(H, Queue<T, SP>) -> (H, Queue<T, SP>),
    >(&mut self, queue: &mut Queue<T, SP>, helper: H, on_next: N, on_unlock: U) -> (done: (
        H,
        Attempt<()>,
    ))
        requires
            old(queue).wf(),
            old(self).in_queue(old(queue)@),
            old(self).is_open(),
            old(self).visited() is None,
            old(queue)@.model.waiting is None,
            forall|h: H, d: T, lock: LockedQueue<SP>|
                lock.queue_id() == old(queue)@.id ==> #[trigger] call_requires(
                    on_next,
                    (h, d, &lock),
                ),
            keeps_drain(on_unlock, old(queue)@.id, old(self).sentinel()),
        ensures
            final(queue).wf(),
            final(queue)@.id == old(queue)@.id,
            final(self).sentinel() == old(self).sentinel(),
            final(self).in_queue(final(queue)@),
            for_each_done::<T, SP, H, N, U>(
                on_next,
                on_unlock,
                old(self).sentinel(),
                old(self).spins(),
                helper,
                old(queue)@,
                done.1,
                final(self).visited(),
                final(self).is_open(),
                done.0,
                final(queue)@,
            ),
    {
        let ghost before = queue@;
        let ghost s = self.sentinel;
        let mut current = helper;
        let mut visitor = on_next;
        let mut unlocked = on_unlock;
        let ghost mut n: nat = 0;
        loop
            invariant
                queue.wf(),
                before == old(queue)@,
                s == old(self).sentinel(),
                queue@.id == before.id,
                visitor == on_next,
                unlocked == on_unlock,
                forall|h: H, d: T, lock: LockedQueue<SP>|
                    lock.queue_id() == before.id ==> #[trigger] call_requires(
                        on_next,
                        (h, d, &lock),
                    ),
                keeps_drain(on_unlock, before.id, s),
                self.sentinel() == s,
                self.is_open(),
                self.visited() is None,
                self.in_queue(queue@),
                queue@.model.waiting is None,
                queue@.model.chains[s].len() > 0 ==> self.spins() == spins_at(
                    old(self).spins(),
                    n as int,
                ),
                visits::<T, SP, H, N, U>(
                    on_next,
                    on_unlock,
                    s,
                    n,
                    helper,
                    before,
                    current,
                    queue@,
                ),
            decreases queue@.model.chains[s].len(),
        {
            let ghost h1 = current;
            let ghost v1 = queue@;
            proof {
                queue.lemma_wf();
            }
            let (after, some) = self.visit_next(queue, current, &mut visitor);
            if !some {
                return (after, Attempt::Done(()));
            }
            let ghost seen = after;
            let ghost answer = self.visited()->0;
            let ghost (lock, left) = choose|lock: LockedQueue<SP>, left: T| #[trigger]
                shown(on_next, s, v1, h1, lock, seen, left, answer) && queue@ == left_behind(
                    v1,
                    s,
                    left,
                );
            assert(shown(on_next, s, v1, h1, lock, seen, left, answer));
            let ghost v = queue@;
            proof {
                queue.lemma_wf();
            }
            let (after, outcome) = self.finish_visit(queue, after, &mut unlocked);
            proof {
                queue.lemma_wf();
            }
            if let Attempt::Done(_) = outcome {
                proof {
                    assert(visit::<T, SP, H, N, U>(on_next, on_unlock, s, h1, v1, after, queue@));
                    n = n + 1;
                }
                current = after;
            } else {
                return (after, outcome);
            }
        }
    }
}

/// What a try at ending the drain with sentinel `s`, which holds the lock, does: it takes the nodes
/// out in order, up to the first one behind which an insertion has not ended. When none is left,
/// the drain is gone and the lock is given back. Before it, the holder of the lock has looked
/// `spins` times in vain for a node, and afterwards `spins_after` times; it parks after `limit`
/// times.
pub open spec fn ending<T>(
    before: QueueView<T>,
    s: usize,
    spins: nat,
    limit: usize,
    outcome: Attempt<()>,
    spins_after: nat,
    after: QueueView<T>,
) -> bool {
    let m = before.model;
    let nodes = m.chains[s];
    if forall|j: int| 1 <= j < nodes.len() ==> !m.pending.contains_key(#[trigger] nodes[j]) {
        &&& outcome is Done
        &&& after == (QueueView {
            model: m.awaiting(None).taken(s, nodes.len() as int).drained(s),
            room: before.room + 1,
            locked: false,
            ..before
        })
    } else {
        &&& outcome !is Done
        &&& exists|n: int| #[trigger]
            stopped_at(m, s, n) && stalled(
                QueueView {
                    model: if n == 0 {
                        m
                    } else {
                        m.awaiting(None).taken(s, n)
                    },
                    ..before
                },
                nodes[n],
                spins_at(spins, n) < limit,
                outcome,
                after,
            ) && looked(outcome, 2, spins_at(spins, n), spins_after)
    }
}

/// Position `n` of chain `s` is the first one behind which an insertion has not ended.
pub open spec fn stopped_at(m: Model, s: usize, n: int) -> bool {
    &&& 0 <= n && n + 1 < m.chains[s].len()
    &&& m.pending.contains_key(m.chains[s][n + 1])
    &&& forall|j: int| 1 <= j <= n ==> !m.pending.contains_key(#[trigger] m.chains[s][j])
}

/// Ending a drain.
impl<SP: SyncPrimitives> Drain<SP> {
    /// Takes out all nodes that are left, and ends the drain.
    #[verifier::spinoff_prover]
    #[verifier::rlimit(60)]
    pub fn finish<T>(&mut self, queue: &mut Queue<T, SP>) -> (outcome: Attempt<()>)
        requires
            old(queue).wf(),
            old(self).in_queue(old(queue)@),
            old(self).is_open() ==> old(queue)@.locked && (old(queue)@.model.waiting is None || (
            old(self).rest(old(queue)@).len() > 0 && old(queue)@.model.waiting == Some(
                old(self).rest(old(queue)@)[0],
            ))),
        ensures
            final(queue).wf(),
            final(self).sentinel() == old(self).sentinel(),
            final(self).fits(final(queue)@),
            !old(self).is_open() && old(queue)@.locked ==> {
                &&& outcome is Wait
                &&& *final(self) == *old(self)
                &&& final(queue)@ == old(queue)@
            },
            !old(self).is_open() && !old(queue)@.locked ==> ending(
                QueueView {
                    model: old(queue)@.model.opened(old(self).sentinel()),
                    locked: true,
                    ..old(queue)@
                },
                old(self).sentinel(),
                0,
                SP::SPIN_BEFORE_PARK,
                outcome,
                final(self).spins(),
                final(queue)@,
            ),
            old(self).is_open() ==> ending(
                old(queue)@,
                old(self).sentinel(),
                old(self).spins(),
                SP::SPIN_BEFORE_PARK,
                outcome,
                final(self).spins(),
                final(queue)@,
            ),
            outcome is Spin ==> final(self).is_open(),
            outcome is Wait ==> final(self).is_open() == (old(self).is_open() || !old(queue)@.locked),
    {
        proof {
            queue.lemma_wf();
        }
        if self.locked.is_none() {
            match self.relock(queue) {
                Attempt::Done(_) => {},
                _ => {
                    return Attempt::Wait;
                },
            }
        }
        let ghost before = queue@;
        let ghost m = queue@.model;
        let ghost s = self.sentinel;
        let ghost nodes = m.chains[s];
        let ghost spins = self.spins();
        let ghost mut n: int = 0;
        proof {
            queue.lemma_wf();
            m.awaiting(None).lemma_taken_none(s);
        }
        while queue.drain_head(self.sentinel).is_some()
            invariant
                queue.wf(),
                before.locked,
                m == before.model,
                m.wf(),
                m.open == Some(s),
                m.leaving is None,
                nodes == m.chains[s],
                m.waiting is None || (nodes.len() > 0 && m.waiting == Some(nodes[0])),
                s == self.sentinel(),
                s == old(self).sentinel(),
                self.fits(queue@),
                s != HEAD_MARKER,
                self.is_open(),
                !old(self).is_open() ==> !old(queue)@.locked && before == (QueueView {
                    model: old(queue)@.model.opened(s),
                    locked: true,
                    ..old(queue)@
                }),
                old(self).is_open() ==> before == old(queue)@,
                spins == if old(self).is_open() {
                    old(self).spins()
                } else {
                    0
                },
                n < nodes.len() ==> self.spins() == spins_at(spins, n),
                0 <= n <= nodes.len(),
                forall|j: int|
                    1 <= j <= n && j < nodes.len() ==> !m.pending.contains_key(#[trigger] nodes[j]),
                queue@ == (QueueView {
                    model: if n == 0 {
                        m
                    } else {
                        m.awaiting(None).taken(s, n)
                    },
                    ..before
                }),
            decreases nodes.len() - n,
        {
            let ghost view = queue@;
            proof {
                m.awaiting(None).lemma_taken(s, n);
                m.awaiting(None).lemma_taken_none(s);
                if n + 1 < nodes.len() {
                    assert(view.model.chains[s][1] == nodes[n + 1]);
                }
            }
            match self.advance(queue) {
                Attempt::Done(_) => {
                    proof {
                        assert(view.model.awaiting(None) =~= m.awaiting(None).taken(s, n));
                        n = n + 1;
                    }
                },
                Attempt::Spin => {
                    assert(stopped_at(m, s, n));
                    return Attempt::Spin;
                },
                Attempt::Wait => {
                    assert(stopped_at(m, s, n));
                    return Attempt::Wait;
                },
            }
        }
        proof {
            assert(n == nodes.len());
            if n == 0 {
                m.awaiting(None).lemma_taken_none(s);
            }
            assert(queue@.model =~= m.awaiting(None).taken(s, n));
        }
        queue.drain_end(self.sentinel);
        if let Some(locked) = self.locked.take() {
            locked.unlock(queue);
        }
        Attempt::Done(())
    }
}

} // verus!
