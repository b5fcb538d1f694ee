//! Notifying all waiters.
//!
//! The waiters go over to a drain, all at once. Then they are taken out in order, and their wakers
//! are collected and handed to the caller in batches. In between the lock is given back, so that
//! nobody has to wait for longer than one batch takes, and no waker is woken under the lock.

use vstd::prelude::*;

use crate::attempt::{Attempt, AttemptFrom};
use crate::queue::drain::{carried, spins_at, Drain};
use crate::queue::model::{Model, HEAD_MARKER};
use crate::queue::state::{QueueState, INTRUSIVE_QUEUE_MAX_STATE};
use crate::queue::{stalled, LockedQueue, QueueView};
use crate::sync::{DefaultSyncPrimitives, SyncPrimitives};
use crate::wait_queue::{WaitQueue, CLOSED, EMPTY};

verus! {

/// How many wakers are collected before the lock is given back.
pub const WAKER_LIST_CAPACITY: usize = 32;

/// The wakers in the slots from `first` to `end`.
spec fn in_slots<W>(slots: Seq<Option<W>>, first: int, end: int) -> Seq<W> {
    Seq::new((end - first) as nat, |i: int| slots[first + i]->0)
}

/// There are wakers in the slots from `first` to `end`.
spec fn filled<W>(slots: Seq<Option<W>>, first: int, end: int) -> bool {
    forall|i: int| first <= i < end ==> (#[trigger] slots[i]) is Some
}

/// Slots without wakers.
fn empty_slots<W>() -> [Option<W>; WAKER_LIST_CAPACITY] {
    [
        None, None, None, None, None, None, None, None,
        None, None, None, None, None, None, None, None,
        None, None, None, None, None, None, None, None,
        None, None, None, None, None, None, None, None,
    ]
}

/// Wakers that have been collected.
pub struct WakerList<W> {
    slots: [Option<W>; WAKER_LIST_CAPACITY],
    len: usize,
}

impl<W> View for WakerList<W> {
    type V = Seq<W>;

    closed spec fn view(&self) -> Seq<W> {
        in_slots(self.slots@, 0, self.len as int)
    }
}

impl<W> WakerList<W> {
    #[verifier::type_invariant]
    spec fn wf(self) -> bool {
        self.len <= WAKER_LIST_CAPACITY && filled(self.slots@, 0, self.len as int)
    }

    /// No wakers.
    pub fn new() -> (list: Self)
        ensures
            list@ == Seq::<W>::empty(),
    {
        WakerList { slots: empty_slots(), len: 0 }
    }

    /// One more waker.
    pub fn push(&mut self, waker: W)
        requires
            old(self)@.len() < WAKER_LIST_CAPACITY,
        ensures
            final(self)@ == old(self)@.push(waker),
    {
        proof {
            use_type_invariant(&*self);
        }
        self.slots[self.len] = Some(waker);
        self.len = self.len + 1;
    }

    /// There is no place for another waker.
    pub fn is_full(&self) -> (full: bool)
        ensures
            full == (self@.len() >= WAKER_LIST_CAPACITY),
    {
        proof {
            use_type_invariant(self);
        }
        self.len >= WAKER_LIST_CAPACITY
    }

    /// Takes all wakers out of the list.
    pub fn drain(&mut self) -> (wakers: Wakers<W>)
        ensures
            wakers@ == old(self)@,
            final(self)@ == Seq::<W>::empty(),
    {
        proof {
            use_type_invariant(&*self);
        }
        let end: usize = self.len;
        self.len = 0;
        let mut slots = empty_slots();
        std::mem::swap(&mut slots, &mut self.slots);
        Wakers { slots, first: 0, end }
    }
}

/// Wakers that are to be woken, in order.
pub struct Wakers<W> {
    slots: [Option<W>; WAKER_LIST_CAPACITY],
    first: usize,
    end: usize,
}

impl<W> View for Wakers<W> {
    type V = Seq<W>;

    closed spec fn view(&self) -> Seq<W> {
        in_slots(self.slots@, self.first as int, self.end as int)
    }
}

impl<W> Wakers<W> {
    #[verifier::type_invariant]
    spec fn wf(self) -> bool {
        self.first <= self.end <= WAKER_LIST_CAPACITY && filled(
            self.slots@,
            self.first as int,
            self.end as int,
        )
    }

    /// How many there are.
    pub fn len(&self) -> (len: usize)
        ensures
            len == self@.len(),
    {
        proof {
            use_type_invariant(self);
        }
        self.end - self.first
    }

    /// The next waker.
    pub fn next(&mut self) -> (waker: Option<W>)
        ensures
            old(self)@.len() == 0 ==> waker is None && final(self)@ == old(self)@,
            old(self)@.len() > 0 ==> waker == Some(old(self)@[0]) && final(self)@ == old(
                self,
            )@.skip(1),
    {
        proof {
            use_type_invariant(&*self);
        }
        if self.first == self.end {
            return None;
        }
        let first: usize = self.first;
        self.first = first + 1;
        let mut waker = None;
        std::mem::swap(&mut waker, &mut self.slots[first]);
        waker
    }
}

/// The waker, if there is one.
pub open spec fn one<W>(waker: Option<W>) -> Seq<W> {
    match waker {
        Some(waker) => seq![waker],
        None => Seq::empty(),
    }
}

/// The wakers among `data`, in order.
pub open spec fn wakers_of<W>(data: Seq<Option<W>>) -> Seq<W>
    decreases data.len(),
{
    if data.len() == 0 {
        Seq::empty()
    } else {
        wakers_of(data.drop_last()) + one(data.last())
    }
}

/// What waiters carry once the wakers of `nodes` have been taken.
pub open spec fn without_wakers<W>(data: Map<usize, Option<W>>, nodes: Seq<usize>) -> Map<
    usize,
    Option<W>,
> {
    Map::new(
        |a: usize| data.contains_key(a),
        |a: usize|
            if nodes.contains(a) {
                None
            } else {
                data[a]
            },
    )
}

/// The notification of all waiters, under way.
pub struct Waking<W, SP: SyncPrimitives = DefaultSyncPrimitives> {
    state: QueueState,
    locked: Option<LockedQueue<SP>>,
    drain: Option<Drain<SP>>,
    list: WakerList<W>,
}

/// What a try at notifying all waiters yields.
pub enum Woken<W, SP: SyncPrimitives = DefaultSyncPrimitives> {
    /// All waiters have been notified, and these wakers are to be woken.
    Done(Wakers<W>),
    /// These wakers are to be woken, without the lock, and then there are more.
    Batch(Wakers<W>, Waking<W, SP>),
    /// To be tried again at once.
    Spin(Waking<W, SP>),
    /// To be tried again when the thread has been woken.
    Wait(Waking<W, SP>),
}

impl<W, SP: SyncPrimitives> Woken<W, SP> {
    /// What the next try is called on.
    pub open spec fn again(self) -> Option<Waking<W, SP>> {
        match self {
            Woken::Done(_) => None,
            Woken::Batch(_, again) => Some(again),
            Woken::Spin(again) => Some(again),
            Woken::Wait(again) => Some(again),
        }
    }

    /// Whether the thread has to wait.
    pub open spec fn outcome(self) -> Attempt<()> {
        match self {
            Woken::Spin(_) => Attempt::Spin,
            Woken::Wait(_) => Attempt::Wait,
            _ => Attempt::Done(()),
        }
    }
}

/// How far the notification of all waiters has come.
pub enum Progress<W> {
    /// It has not begun.
    Start,
    /// It has the lock, whose holder has looked this often in vain for a node to be linked.
    Locked(nat),
    /// The waiters are in the drain with this sentinel, which holds the lock, whose holder has looked
    /// this often in vain for a node to be linked, and these wakers have been collected.
    Draining(usize, nat, Seq<W>),
    /// The waiters are in the drain with this sentinel, which has given the lock back.
    Unlocked(usize),
}

impl<W, SP: SyncPrimitives> Waking<W, SP> {
    /// The state that the queue is left in.
    pub closed spec fn state(&self) -> QueueState {
        self.state
    }

    /// The lock, before the waiters are in a drain.
    pub closed spec fn lock(&self) -> Option<LockedQueue<SP>> {
        self.locked
    }

    /// The drain that the waiters are in.
    pub closed spec fn drain(&self) -> Option<Drain<SP>> {
        self.drain
    }

    /// How far it has come.
    pub closed spec fn progress(&self) -> Progress<W> {
        match self.drain {
            Some(drain) => if drain.is_open() {
                Progress::Draining(drain.sentinel(), drain.spins(), self.list@)
            } else {
                Progress::Unlocked(drain.sentinel())
            },
            None => match self.locked {
                Some(locked) => Progress::Locked(locked.spins()),
                None => Progress::Start,
            },
        }
    }

    /// The drain that it has come to is the one that the waiters are in.
    pub proof fn lemma_progress(&self)
        ensures
            match self.progress() {
                Progress::Draining(s, _, _) => self.drain() matches Some(drain) && drain.sentinel()
                    == s && drain.is_open(),
                Progress::Unlocked(s) => self.drain() matches Some(drain) && drain.sentinel() == s
                    && !drain.is_open(),
                _ => self.drain() is None,
            },
    {
    }

    /// No waker has been collected that was not handed out.
    pub closed spec fn is_clean(&self) -> bool {
        self.list@.len() == 0
    }

    /// It takes place in a queue in state `v`.
    pub open spec fn in_queue(&self, v: QueueView<Option<W>>) -> bool {
        &&& self.state() <= INTRUSIVE_QUEUE_MAX_STATE
        &&& match self.progress() {
            Progress::Start => self.is_clean(),
            Progress::Locked(_) => {
                &&& self.is_clean()
                &&& self.lock() is Some
                &&& self.lock()->0.holds(v)
                &&& v.model.order().len() > 0
                &&& v.model.open is None
                &&& v.model.leaving is None
                &&& v.model.waiting is None || v.model.waiting == Some(HEAD_MARKER)
            },
            Progress::Draining(_, _, batch) => self.drain() is Some && collecting(
                v,
                self.drain()->0,
                batch,
            ),
            Progress::Unlocked(_) => {
                &&& self.is_clean()
                &&& self.drain() is Some
                &&& self.drain()->0.in_queue(v)
            },
        }
    }
}

/// The drain holds the lock. A batch is never larger than the list of wakers, and if it is full, the
/// waiter is still in front that its last waker was taken from.
pub open spec fn collecting<W, SP: SyncPrimitives>(
    v: QueueView<Option<W>>,
    drain: Drain<SP>,
    batch: Seq<W>,
) -> bool {
    &&& v.locked
    &&& drain.in_queue(v)
    &&& drain.is_open()
    &&& v.model.waiting is None || (drain.rest(v).len() > 0 && v.model.waiting == Some(
        drain.rest(v)[0],
    ))
    &&& batch.len() <= WAKER_LIST_CAPACITY
    &&& batch.len() == WAKER_LIST_CAPACITY ==> drain.rest(v).len() > 0 && v.data[drain.rest(v)[0]]
        is None
}

/// The batch that `batch` has grown to when the waiters that carry `data` have been visited.
pub open spec fn grown<W>(batch: Seq<W>, data: Seq<Option<W>>) -> Seq<W> {
    batch + wakers_of(data)
}

/// The first `n` waiters in the drain with sentinel `s` are taken out without a stop: the batch is
/// full after none of them but perhaps the last, and behind none of them an insertion is under way.
pub open spec fn passed<W>(before: QueueView<Option<W>>, s: usize, batch: Seq<W>, n: int) -> bool {
    let nodes = before.model.chains[s];
    let data = carried(before.data, nodes);
    &&& 0 <= n <= nodes.len()
    &&& forall|j: int|
        1 <= j <= n && j < nodes.len() ==> !before.model.pending.contains_key(#[trigger] nodes[j])
    &&& forall|j: int| 1 <= j < n ==> #[trigger] grown(batch, data.take(j)).len()
        < WAKER_LIST_CAPACITY
}

/// What a try does with the waiters in the drain with sentinel `s`, which holds the lock, when
/// `batch` has been collected and the holder of the lock has looked `spins` times in vain: it
/// collects their wakers in order and takes the waiters out.
///
/// It stops when the batch is full: then the lock is given back and the batch is handed out. It also
/// stops where the insertion of the next waiter has not ended. When no waiter is left the drain is
/// ended, and the lock is given back with the last batch.
pub open spec fn wake_drained<W, SP: SyncPrimitives>(
    before: QueueView<Option<W>>,
    s: usize,
    spins: nat,
    batch: Seq<W>,
    woken: Woken<W, SP>,
    after: QueueView<Option<W>>,
) -> bool {
    exists|n: int| #[trigger]
        passed(before, s, batch, n) && wake_stopped(before, s, spins, batch, n, woken, after)
}

/// What a try does that stops after `n` waiters.
pub open spec fn wake_stopped<W, SP: SyncPrimitives>(
    before: QueueView<Option<W>>,
    s: usize,
    spins: nat,
    batch: Seq<W>,
    n: int,
    woken: Woken<W, SP>,
    after: QueueView<Option<W>>,
) -> bool {
    let m = before.model;
    let nodes = m.chains[s];
    let data = carried(before.data, nodes);
    let full = n > 0 && grown(batch, data.take(n)).len() >= WAKER_LIST_CAPACITY;
    match woken {
        Woken::Batch(wakers, again) => {
            &&& full
            &&& wakers@ == grown(batch, data.take(n))
            &&& again.progress() == Progress::<W>::Unlocked(s)
            &&& after == (QueueView {
                model: m.awaiting(None).taken(s, n).closed(),
                data: without_wakers(before.data, nodes.take(n)),
                locked: false,
                ..before
            })
        },
        Woken::Done(wakers) => {
            &&& !full
            &&& n == nodes.len()
            &&& wakers@ == grown(batch, data)
            &&& after == (QueueView {
                model: m.awaiting(None).taken(s, n).drained(s),
                data: without_wakers(before.data, nodes),
                room: before.room + 1,
                locked: false,
                ..before
            })
        },
        _ => {
            &&& !full
            &&& n + 1 < nodes.len()
            &&& m.pending.contains_key(nodes[n + 1])
            &&& woken.again() is Some
            &&& woken.again()->0.progress() == Progress::Draining(
                s,
                spins_at(spins, n) + if woken is Spin {
                    1nat
                } else {
                    0
                },
                grown(batch, data.take(n + 1)),
            )
            &&& stalled(
                QueueView {
                    model: if n == 0 {
                        m
                    } else {
                        m.awaiting(None).taken(s, n)
                    },
                    data: without_wakers(before.data, nodes.take(n + 1)),
                    ..before
                },
                nodes[n],
                spins_at(spins, n) < SP::SPIN_BEFORE_PARK,
                woken.outcome(),
                after,
            )
        },
    }
}

/// The waker of waiter `n` is taken: what the waiters carry, and what has been collected.
proof fn lemma_visited<W>(before: QueueView<Option<W>>, s: usize, batch: Seq<W>, n: int)
    requires
        before.model.wf(),
        before.data.dom() == before.model.nodes,
        before.model.chains.contains_key(s),
        0 <= n < before.model.chains[s].len(),
    ensures
        ({
            let nodes = before.model.chains[s];
            let data = carried(before.data, nodes);
            let carry = without_wakers(before.data, nodes.take(n));
            &&& before.data.contains_key(nodes[n])
            &&& before.model.nodes.contains(nodes[n])
            &&& carry[nodes[n]] == before.data[nodes[n]]
            &&& carry.insert(nodes[n], None) == without_wakers(before.data, nodes.take(n + 1))
            &&& grown(batch, data.take(n + 1)) == grown(batch, data.take(n)) + one(
                before.data[nodes[n]],
            )
        }),
{
    let m = before.model;
    let nodes = m.chains[s];
    let data = carried(before.data, nodes);
    assert(m.has(s, n));
    assert(!nodes.take(n).contains(nodes[n])) by {
        if nodes.take(n).contains(nodes[n]) {
            let j = nodes.take(n).index_of(nodes[n]);
            assert(m.has(s, j));
        }
    }
    assert forall|a: usize| nodes.take(n + 1).contains(a) <==> nodes.take(n).contains(a) || a
        == nodes[n] by {
        if nodes.take(n + 1).contains(a) {
            let j = nodes.take(n + 1).index_of(a);
            if j < n {
                assert(nodes.take(n)[j] == a);
            }
        }
        if nodes.take(n).contains(a) {
            let j = nodes.take(n).index_of(a);
            assert(nodes.take(n + 1)[j] == a);
        }
        if a == nodes[n] {
            assert(nodes.take(n + 1)[n] == a);
        }
    }
    assert(without_wakers(before.data, nodes.take(n)).insert(nodes[n], None)
        =~= without_wakers(before.data, nodes.take(n + 1)));
    assert(data.take(n + 1).drop_last() =~= data.take(n));
    assert(data.take(n + 1).last() == before.data[nodes[n]]);
    assert(grown(batch, data.take(n + 1)) =~= grown(batch, data.take(n)) + one(
        before.data[nodes[n]],
    ));
}

impl<W, SP: SyncPrimitives> Waking<W, SP> {
    /// Collects the wakers of the waiters in the drain, and takes the waiters out.
    #[verifier::spinoff_prover]
    #[verifier::rlimit(80)]
    fn wake(
        state: QueueState,
        drain: Drain<SP>,
        list: WakerList<W>,
        queue: &mut WaitQueue<W, SP>,
    ) -> (woken: Woken<W, SP>)
        requires
            old(queue).wf(),
            collecting(old(queue)@, drain, list@),
            state <= INTRUSIVE_QUEUE_MAX_STATE,
        ensures
            final(queue).wf(),
            wake_drained(
                old(queue)@,
                drain.sentinel(),
                drain.spins(),
                list@,
                woken,
                final(queue)@,
            ),
            woken.again() matches Some(again) ==> again.state() == state && again.in_queue(
                final(queue)@,
            ),
    {
        let ghost before = queue@;
        let ghost m = queue@.model;
        let ghost s = drain.sentinel();
        let ghost nodes = m.chains[s];
        let ghost data = carried(before.data, nodes);
        let ghost batch = list@;
        let ghost mut n: int = 0;
        let mut waiters = drain;
        let mut wakers = list;
        proof {
            queue.lemma_wf();
            m.awaiting(None).lemma_taken_none(s);
            assert(nodes.take(0) =~= Seq::empty());
            assert(without_wakers(before.data, nodes.take(0)) =~= before.data);
            assert(grown(batch, data.take(0)) =~= batch);
        }
        loop
            invariant
                queue.wf(),
                before == old(queue)@,
                s == drain.sentinel(),
                batch == list@,
                m == before.model,
                m.wf(),
                before.data.dom() == m.nodes,
                before.locked,
                m.open == Some(s),
                m.leaving is None,
                s != HEAD_MARKER,
                m.chains.contains_key(s),
                nodes == m.chains[s],
                data == carried(before.data, nodes),
                m.waiting is None || (nodes.len() > 0 && m.waiting == Some(nodes[0])),
                batch.len() <= WAKER_LIST_CAPACITY,
                batch.len() == WAKER_LIST_CAPACITY ==> nodes.len() > 0 && before.data[nodes[0]]
                    is None,
                state <= INTRUSIVE_QUEUE_MAX_STATE,
                waiters.sentinel() == s,
                waiters.is_open(),
                waiters.fits(queue@),
                n < nodes.len() ==> waiters.spins() == spins_at(drain.spins(), n),
                0 <= n <= nodes.len(),
                passed(before, s, batch, n),
                n > 0 ==> wakers@.len() < WAKER_LIST_CAPACITY,
                wakers@ == grown(batch, data.take(n)),
                grown(batch, data.take(0)) == batch,
                queue@ == (QueueView {
                    model: if n == 0 {
                        m
                    } else {
                        m.awaiting(None).taken(s, n)
                    },
                    data: without_wakers(before.data, nodes.take(n)),
                    ..before
                }),
            decreases nodes.len() - n,
        {
            let ghost view = queue@;
            proof {
                queue.lemma_wf();
                m.awaiting(None).lemma_taken_none(s);
                assert(view.model.chains[s] =~= nodes.skip(n));
            }
            let node = match waiters.next(&queue.queue) {
                None => {
                    proof {
                        assert(n == nodes.len());
                        assert(data.take(n) =~= data);
                        assert(nodes.take(n) =~= nodes);
                        view.model.awaiting(None).lemma_taken_none(s);
                        assert(view.model.awaiting(None) =~= m.awaiting(None).taken(s, n));
                        assert(passed(before, s, list@, n));
                    }
                    let _ = waiters.finish(&mut queue.queue);
                    return Woken::Done(wakers.drain());
                },
                Some(first) => first,
            };
            let mut node = node;
            proof {
                lemma_visited(before, s, batch, n);
                m.awaiting(None).lemma_taken(s, n);
                if n + 1 < nodes.len() {
                    assert(view.model.chains[s][1] == nodes[n + 1]);
                }
            }
            if let Some(waker) = node.data_mut(&mut queue.queue).take() {
                wakers.push(waker);
            }
            proof {
                assert(wakers@ =~= grown(batch, data.take(n + 1)));
            }
            match node.finish(&mut queue.queue) {
                Attempt::Done(_) => {},
                Attempt::Spin => {
                    return Woken::Spin(Waking { state, locked: None, drain: Some(waiters), list: wakers });
                },
                Attempt::Wait => {
                    return Woken::Wait(Waking { state, locked: None, drain: Some(waiters), list: wakers });
                },
            }
            proof {
                assert(view.model.awaiting(None) =~= m.awaiting(None).taken(s, n));
                n = n + 1;
            }
            if wakers.is_full() {
                waiters.unlock(&mut queue.queue);
                assert(passed(before, s, list@, n));
                let batch = wakers.drain();
                return Woken::Batch(
                    batch,
                    Waking { state, locked: None, drain: Some(waiters), list: wakers },
                );
            }
        }
    }
}

/// What a try does that holds the lock: it waits while the insertion of the first waiter has not
/// ended, and otherwise moves all waiters over to a drain and goes on. If there were any, the queue
/// is left in state `state`.
pub open spec fn wake_locked<W, SP: SyncPrimitives>(
    before: QueueView<Option<W>>,
    state: QueueState,
    spins: nat,
    woken: Woken<W, SP>,
    after: QueueView<Option<W>>,
) -> bool {
    let m = before.model;
    if m.order().len() > 0 && m.pending.contains_key(m.order()[0]) {
        &&& stalled(before, HEAD_MARKER, spins < SP::SPIN_BEFORE_PARK, woken.outcome(), after)
        &&& woken.again() matches Some(again) && again.progress() == Progress::<W>::Locked(
            if woken is Spin {
                spins + 1
            } else {
                spins
            },
        )
    } else {
        exists|s: usize| #[trigger]
            fresh(m, s) && wake_drained(
                drain_begun(before, s, state),
                s,
                0,
                Seq::empty(),
                woken,
                after,
            )
    }
}

/// There is nothing at address `s` yet.
pub open spec fn fresh(m: Model, s: usize) -> bool {
    !m.nodes.contains(s) && !m.chains.contains_key(s)
}

/// All waiters have gone over to a drain with sentinel `s`, and the queue is in state `state`.
pub open spec fn drain_begun<W>(before: QueueView<Option<W>>, s: usize, state: QueueState) -> QueueView<
    Option<W>,
> {
    QueueView {
        model: before.model.awaiting(None).draining(s, state),
        room: (before.room - 1) as nat,
        ..before
    }
}

/// What a try does that is to leave the queue in state `state` and has come as far as `progress`. On
/// an empty queue there is nobody to notify; one that is to be closed is closed.
pub open spec fn wake_done<W, SP: SyncPrimitives>(
    before: QueueView<Option<W>>,
    state: QueueState,
    progress: Progress<W>,
    woken: Woken<W, SP>,
    after: QueueView<Option<W>>,
) -> bool {
    let m = before.model;
    match progress {
        Progress::Start => if m.order().len() == 0 {
            &&& woken matches Woken::Done(wakers)
            &&& wakers@ == Seq::<W>::empty()
            &&& after == (QueueView {
                model: if state == EMPTY {
                    m
                } else {
                    m.with_state(state)
                },
                ..before
            })
        } else if before.locked {
            &&& woken matches Woken::Wait(again)
            &&& again.progress() == progress
            &&& after == before
        } else {
            wake_locked(QueueView { locked: true, ..before }, state, 0, woken, after)
        },
        Progress::Locked(spins) => wake_locked(before, state, spins, woken, after),
        Progress::Draining(s, spins, batch) => wake_drained(before, s, spins, batch, woken, after),
        Progress::Unlocked(s) => if before.locked {
            &&& woken matches Woken::Wait(again)
            &&& again.progress() == progress
            &&& after == before
        } else {
            wake_drained(
                QueueView { model: m.opened(s), locked: true, ..before },
                s,
                0,
                Seq::empty(),
                woken,
                after,
            )
        },
    }
}

impl<W, SP: SyncPrimitives> Waking<W, SP> {
    /// Tries to notify all waiters, or goes on with that. They are taken out of the queue, and their
    /// wakers are to be woken, in order.
    #[verifier::spinoff_prover]
    #[verifier::rlimit(50)]
    pub fn resume(self, queue: &mut WaitQueue<W, SP>) -> (woken: Woken<W, SP>)
        requires
            old(queue).wf(),
            self.in_queue(old(queue)@),
            self.progress() is Start || self.progress() is Locked ==> old(queue)@.room > 0,
        ensures
            final(queue).wf(),
            wake_done(old(queue)@, self.state(), self.progress(), woken, final(queue)@),
            woken.again() matches Some(again) ==> again.state() == self.state() && again.in_queue(
                final(queue)@,
            ),
    {
        proof {
            queue.lemma_wf();
        }
        let state: QueueState = self.state;
        let list = self.list;
        assert(self.is_clean() ==> list@ =~= Seq::empty());
        if let Some(drain) = self.drain {
            let mut drain = drain;
            if !drain.is_locked() {
                if let Attempt::Wait = drain.relock(&mut queue.queue) {
                    return Woken::Wait(Waking { state, locked: None, drain: Some(drain), list });
                }
            }
            return Self::wake(state, drain, list, queue);
        }
        if let Some(locked) = self.locked {
            return Self::drain_queue(state, locked, list, queue);
        }
        let close = |found: QueueState| -> (new: QueueState)
            ensures
                new == state,
        {
            state
        };
        let attempt = if state == EMPTY {
            queue.queue.is_empty_or_lock()
        } else {
            match queue.queue.fetch_update_state_or_lock(close) {
                AttemptFrom::Done(locked) => Attempt::Done(locked),
                _ => Attempt::Wait,
            }
        };
        match attempt {
            Attempt::Done(Some(locked)) => Self::drain_queue(state, locked, list, queue),
            Attempt::Done(None) => {
                let mut none = list;
                Woken::Done(none.drain())
            },
            _ => Woken::Wait(Waking { state, locked: None, drain: None, list }),
        }
    }

    /// Moves all waiters over to a drain, and collects their wakers.
    fn drain_queue(
        state: QueueState,
        locked: LockedQueue<SP>,
        list: WakerList<W>,
        queue: &mut WaitQueue<W, SP>,
    ) -> (woken: Woken<W, SP>)
        requires
            old(queue).wf(),
            locked.holds(old(queue)@),
            old(queue)@.room > 0,
            old(queue)@.model.open is None,
            old(queue)@.model.leaving is None,
            old(queue)@.model.waiting is None || old(queue)@.model.waiting == Some(HEAD_MARKER),
            list@.len() == 0,
            state <= INTRUSIVE_QUEUE_MAX_STATE,
        ensures
            final(queue).wf(),
            wake_locked(old(queue)@, state, locked.spins(), woken, final(queue)@),
            woken.again() matches Some(again) ==> again.state() == state && again.in_queue(
                final(queue)@,
            ),
    {
        proof {
            queue.lemma_wf();
            assert(list@ =~= Seq::empty());
        }
        match locked.drain_try_set_state(&mut queue.queue, state) {
            AttemptFrom::Done(drain) => {
                proof {
                    assert(fresh(old(queue)@.model, drain.sentinel()));
                    assert(queue@ == drain_begun(old(queue)@, drain.sentinel(), state));
                }
                Self::wake(state, drain, list, queue)
            },
            AttemptFrom::Spin(locked) => Woken::Spin(
                Waking { state, locked: Some(locked), drain: None, list },
            ),
            AttemptFrom::Wait(locked) => Woken::Wait(
                Waking { state, locked: Some(locked), drain: None, list },
            ),
        }
    }
}

impl<W, SP: SyncPrimitives> WaitQueue<W, SP> {
    /// Notifies all waiters, and closes the queue: it takes no waiter any more.
    pub fn close(&mut self) -> (woken: Woken<W, SP>)
        requires
            old(self).wf(),
            old(self)@.room > 0,
        ensures
            final(self).wf(),
            wake_done(old(self)@, CLOSED, Progress::Start, woken, final(self)@),
            woken.again() matches Some(again) ==> again.state() == CLOSED && again.in_queue(
                final(self)@,
            ),
    {
        Waking { state: CLOSED, locked: None, drain: None, list: WakerList::new() }.resume(self)
    }

    /// Notifies all waiters.
    pub fn notify_all(&mut self) -> (woken: Woken<W, SP>)
        requires
            old(self).wf(),
            old(self)@.room > 0,
        ensures
            final(self).wf(),
            wake_done(old(self)@, EMPTY, Progress::Start, woken, final(self)@),
            woken.again() matches Some(again) ==> again.state() == EMPTY && again.in_queue(
                final(self)@,
            ),
    {
        Waking { state: EMPTY, locked: None, drain: None, list: WakerList::new() }.resume(self)
    }
}

} // verus!
