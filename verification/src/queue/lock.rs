//! The lock, the state, and waiting for an insertion to end.

use vstd::prelude::*;

use crate::atomic::AtomicPtr;
use crate::attempt::{Attempt, AttemptFrom};
use crate::queue::model::{lemma_awaiting, lemma_followed, lemma_resumed, Model, Words, PARKED};
use crate::queue::state::{encodable, QueueState, StateOrTail, INTRUSIVE_QUEUE_MAX_STATE};
use crate::queue::{NewTail, Parking, Queue, QueueView, TailUpdate};
use crate::sync::mutex::Mutex;
use crate::sync::parker::Parker;
use crate::sync::{DefaultSyncPrimitives, SyncPrimitives};

verus! {

/// One try at updating the state of a queue.
#[derive(Debug, Clone, Copy, PartialEq, Eq, Structural)]
pub enum StateUpdate {
    /// The state was this one and has been replaced.
    Updated(QueueState),
    /// The state is this one and was kept.
    Kept(QueueState),
    /// There are nodes in the queue.
    NotEmpty,
    /// The tail is not the one that was found any more, but this one.
    Retry(StateOrTail),
}

/// The lock of a queue. Whoever holds it may remove nodes.
pub struct LockedQueue<SP: SyncPrimitives = DefaultSyncPrimitives> {
    id: usize,
    guard: <SP::Mutex as Mutex>::Guard,
    spins: usize,
    waits: Option<usize>,
}

/// What a try leaves behind that met an insertion which has not linked its node behind `cell` yet:
/// the thread looks again, or it is announced on that cell and parked. Where it goes to sleep, the
/// end of the insertion wakes it.
pub open spec fn stalled<T, R>(
    before: QueueView<T>,
    cell: usize,
    spin: bool,
    outcome: Attempt<R>,
    after: QueueView<T>,
) -> bool {
    if spin {
        outcome is Spin && after == before
    } else {
        &&& outcome is Wait
        &&& after == (QueueView {
            model: before.model.awaiting(Some(cell)),
            handshake: before.handshake.at(Parking::Parked),
            notified: false,
            asleep: before.sleeps,
            ..before
        })
    }
}

/// The state, and the lock.
impl<T, SP: SyncPrimitives> Queue<T, SP> {
    /// Asks `f` what to make of the state that was `seen`, and does it, provided that the tail is
    /// still the one that was `seen`.
    pub fn fetch_update_seen<F: FnMut(QueueState) -> Option<QueueState>>(
        &mut self,
        seen: StateOrTail,
        f: F,
    ) -> (update: StateUpdate)
        requires
            old(self).wf(),
            encodable(seen),
            seen matches StateOrTail::State(s) ==> call_requires(f, (s,)),
            forall|s: QueueState, new: QueueState| #[trigger]
                call_ensures(f, (s,), Some(new)) ==> new <= INTRUSIVE_QUEUE_MAX_STATE,
        ensures
            final(self).wf(),
            seen is Tail ==> update is NotEmpty && final(self)@ == old(self)@,
            seen matches StateOrTail::State(s) ==> exists|new: Option<QueueState>| #[trigger]
                call_ensures(f, (s,), new) && match new {
                    None => update == StateUpdate::Kept(s) && final(self)@ == old(self)@,
                    Some(n) => if old(self)@.model.tail() == seen {
                        &&& update == StateUpdate::Updated(s)
                        &&& final(self)@ == (QueueView {
                            model: old(self)@.model.with_state(n),
                            ..old(self)@
                        })
                    } else {
                        &&& update == StateUpdate::Retry(old(self)@.model.tail())
                        &&& final(self)@ == old(self)@
                    },
                },
    {
        let mut f = f;
        match seen {
            StateOrTail::Tail(_) => StateUpdate::NotEmpty,
            StateOrTail::State(state) => match f(state) {
                None => StateUpdate::Kept(state),
                Some(new) => match self.update_tail(0, seen, NewTail::State(new)) {
                    TailUpdate::Retry(found) => StateUpdate::Retry(found),
                    _ => StateUpdate::Updated(state),
                },
            },
        }
    }

    /// Asks `f` what to make of the state, and does it. `Ok` gives the state that was replaced,
    /// `Err` the one that was kept, or none if there are nodes in the queue.
    pub fn fetch_update_state<F: FnMut(QueueState) -> Option<QueueState>>(&mut self, f: F) -> (result:
        Result<QueueState, Option<QueueState>>)
        requires
            old(self).wf(),
            old(self)@.model.state matches Some(s) ==> call_requires(f, (s,)),
            forall|s: QueueState, new: QueueState| #[trigger]
                call_ensures(f, (s,), Some(new)) ==> new <= INTRUSIVE_QUEUE_MAX_STATE,
        ensures
            final(self).wf(),
            old(self)@.model.state is None ==> result == Err::<QueueState, Option<QueueState>>(None)
                && final(self)@ == old(self)@,
            old(self)@.model.state matches Some(s) ==> exists|new: Option<QueueState>| #[trigger]
                call_ensures(f, (s,), new) && match new {
                    None => {
                        &&& result == Err::<QueueState, Option<QueueState>>(Some(s))
                        &&& final(self)@ == old(self)@
                    },
                    Some(n) => {
                        &&& result == Ok::<QueueState, Option<QueueState>>(s)
                        &&& final(self)@ == (QueueView {
                            model: old(self)@.model.with_state(n),
                            ..old(self)@
                        })
                    },
                },
    {
        let seen = self.load_tail();
        match self.fetch_update_seen(seen, f) {
            StateUpdate::Updated(state) => Ok(state),
            StateUpdate::Kept(state) => Err(Some(state)),
            _ => Err(None),
        }
    }

    /// Replaces the state of an empty queue by what `f` makes of it.
    fn replace_state<F: FnMut(QueueState) -> QueueState>(&mut self, f: &mut F) -> (replaced: bool)
        requires
            old(self).wf(),
            old(self)@.model.state matches Some(s) ==> call_requires(*old(f), (s,)),
            forall|s: QueueState, new: QueueState| #[trigger]
                call_ensures(*old(f), (s,), new) ==> new <= INTRUSIVE_QUEUE_MAX_STATE,
        ensures
            final(self).wf(),
            replaced == (old(self)@.model.state is Some),
            !replaced ==> final(self)@ == old(self)@ && *final(f) == *old(f),
            old(self)@.model.state matches Some(s) ==> exists|new: QueueState| #[trigger]
                call_ensures(*old(f), (s,), new) && final(self)@ == (QueueView {
                    model: old(self)@.model.with_state(new),
                    ..old(self)@
                }),
    {
        match self.load_tail() {
            StateOrTail::Tail(_) => false,
            StateOrTail::State(state) => {
                let new = f(state);
                self.update_tail(0, StateOrTail::State(state), NewTail::State(new));
                true
            },
        }
    }

    /// Takes the lock, unless another thread holds it.
    pub fn lock(&mut self) -> (locked: Attempt<LockedQueue<SP>>)
        requires
            old(self).wf(),
        ensures
            final(self).wf(),
            locked is Done <==> !old(self)@.locked,
            locked is Wait <==> old(self)@.locked,
            locked matches Attempt::Done(lock) ==> lock.spins() == 0 && lock.holds(final(self)@),
            final(self)@ == (QueueView { locked: true, ..old(self)@ }),
    {
        match self.mutex.lock() {
            Attempt::Done(guard) => Attempt::Done(
                LockedQueue { id: self.id, guard, spins: 0, waits: None },
            ),
            _ => Attempt::Wait,
        }
    }

    /// Takes the lock if there are nodes in the queue.
    pub fn is_empty_or_lock(&mut self) -> (locked: Attempt<Option<LockedQueue<SP>>>)
        requires
            old(self).wf(),
        ensures
            final(self).wf(),
            old(self)@.model.order().len() == 0 ==> locked == Attempt::Done(
                None::<LockedQueue<SP>>,
            ) && final(self)@ == old(self)@,
            old(self)@.model.order().len() > 0 ==> {
                &&& locked is Wait <==> old(self)@.locked
                &&& locked is Done <==> !old(self)@.locked
                &&& locked matches Attempt::Done(lock) ==> lock is Some && lock->0.spins() == 0
                    && lock->0.holds(final(self)@)
                &&& final(self)@ == (QueueView { locked: true, ..old(self)@ })
            },
    {
        if self.is_empty() {
            return Attempt::Done(None);
        }
        match self.lock() {
            Attempt::Done(locked) => Attempt::Done(Some(locked)),
            _ => Attempt::Wait,
        }
    }

    /// Replaces the state by what `f` makes of it if the queue is empty, and takes the lock
    /// otherwise. If another thread holds that, this is to be continued by `StateOrLock::resume`.
    pub fn fetch_update_state_or_lock<F: FnMut(QueueState) -> QueueState>(&mut self, f: F) -> (locked:
        AttemptFrom<Option<LockedQueue<SP>>, StateOrLock<F>>)
        requires
            old(self).wf(),
            old(self)@.model.state matches Some(s) ==> call_requires(f, (s,)),
            forall|s: QueueState, new: QueueState| #[trigger]
                call_ensures(f, (s,), new) ==> new <= INTRUSIVE_QUEUE_MAX_STATE,
        ensures
            final(self).wf(),
            old(self)@.model.state matches Some(s) ==> {
                &&& locked matches AttemptFrom::Done(locked) && locked is None
                &&& exists|new: QueueState| #[trigger]
                    call_ensures(f, (s,), new) && final(self)@ == (QueueView {
                        model: old(self)@.model.with_state(new),
                        ..old(self)@
                    })
            },
            old(self)@.model.state is None ==> update_or_lock(f, old(self)@, locked, final(self)@),
    {
        let mut f = f;
        if self.replace_state(&mut f) {
            return AttemptFrom::Done(None);
        }
        StateOrLock { f }.resume(self)
    }
}

/// An update of the state of a queue that was not empty, so that the lock has to be taken.
pub struct StateOrLock<F> {
    f: F,
}

/// What a try does that is to take the lock, and to replace the state by what `f` makes of it if
/// the queue is empty then: while another thread has the lock it waits.
pub open spec fn update_or_lock<T, SP: SyncPrimitives, F: FnMut(QueueState) -> QueueState>(
    f: F,
    before: QueueView<T>,
    locked: AttemptFrom<Option<LockedQueue<SP>>, StateOrLock<F>>,
    after: QueueView<T>,
) -> bool {
    if before.locked {
        &&& locked matches AttemptFrom::Wait(again)
        &&& again.update() == f
        &&& after == before
    } else {
        match before.model.state {
            Some(state) => {
                &&& locked matches AttemptFrom::Done(lock) && lock is None
                &&& exists|new: QueueState| #[trigger]
                    call_ensures(f, (state,), new) && after == (QueueView {
                        model: before.model.with_state(new),
                        ..before
                    })
            },
            None => {
                &&& locked matches AttemptFrom::Done(Some(lock))
                &&& lock.spins() == 0
                &&& lock.holds(after)
                &&& after == (QueueView { locked: true, ..before })
            },
        }
    }
}

impl<F> StateOrLock<F> {
    /// What the state is replaced by.
    pub closed spec fn update(&self) -> F {
        self.f
    }
}

impl<F: FnMut(QueueState) -> QueueState> StateOrLock<F> {
    /// Takes the lock, and looks at the state again: the queue may have been emptied before the
    /// lock was taken. Then the state is replaced, and the lock is given back.
    pub fn resume<T, SP: SyncPrimitives>(self, queue: &mut Queue<T, SP>) -> (locked: AttemptFrom<
        Option<LockedQueue<SP>>,
        Self,
    >)
        requires
            old(queue).wf(),
            old(queue)@.model.state matches Some(s) ==> call_requires(self.update(), (s,)),
            forall|s: QueueState, new: QueueState| #[trigger]
                call_ensures(self.update(), (s,), new) ==> new <= INTRUSIVE_QUEUE_MAX_STATE,
        ensures
            final(queue).wf(),
            update_or_lock(self.update(), old(queue)@, locked, final(queue)@),
    {
        proof {
            queue.lemma_wf();
        }
        let mut f = self.f;
        assert(f == self.update());
        match queue.lock() {
            Attempt::Done(locked) => {
                if queue.replace_state(&mut f) {
                    locked.unlock(queue);
                    AttemptFrom::Done(None)
                } else {
                    AttemptFrom::Done(Some(locked))
                }
            },
            _ => {
                assert(queue@ =~= old(queue)@);
                AttemptFrom::Wait(StateOrLock { f })
            },
        }
    }
}

impl<SP: SyncPrimitives> LockedQueue<SP> {
    /// What the queue is called whose lock this is.
    pub closed spec fn queue_id(&self) -> usize {
        self.id
    }

    /// The cell that the holder waits on.
    pub closed spec fn waits(&self) -> Option<usize> {
        self.waits
    }

    /// This is the lock of a queue in state `v`: that is locked, is called as the lock says, and its
    /// holder waits where the lock says.
    ///
    /// A lock is told by what its queue is called. That nobody but its holder unlocks a queue rests on
    /// the queues of a program being called by different names.
    pub open spec fn holds<T>(&self, v: QueueView<T>) -> bool {
        &&& v.locked
        &&& v.id == self.queue_id()
        &&& v.model.waiting == self.waits()
    }

    /// The cell that the holder waits on.
    pub(super) fn waiting_cell(&self) -> (cell: Option<usize>)
        ensures
            cell == self.waits(),
    {
        self.waits
    }

    /// How often the holder has looked in vain for a node to be linked.
    pub closed spec fn spins(&self) -> nat {
        self.spins as nat
    }

    /// What the queue is called whose lock this is.
    pub fn queue(&self) -> (id: usize)
        ensures
            id == self.queue_id(),
    {
        self.id
    }

    /// The holder looks again before it parks.
    pub open spec fn may_spin(&self) -> bool {
        self.spins() < SP::SPIN_BEFORE_PARK
    }

    /// What the holder looked for is there.
    pub(super) fn stop_spinning(&mut self)
        ensures
            final(self).spins() == 0,
            final(self).queue_id() == old(self).queue_id(),
            final(self).waits() == old(self).waits(),
    {
        self.spins = 0;
    }

    /// What node `node` carries, which may be in the queue or in a drain.
    pub fn data<'q, T>(&self, queue: &'q Queue<T, SP>, node: usize) -> (data: &'q T)
        requires
            queue.wf(),
            self.holds(queue@),
            queue@.model.nodes.contains(node),
        ensures
            *data == queue@.data[node],
    {
        queue.node_data(node)
    }

    /// What node `node` carries, which may be in the queue or in a drain, to be changed.
    pub fn data_mut<'q, T>(&mut self, queue: &'q mut Queue<T, SP>, node: usize) -> (data: &'q mut T)
        requires
            old(queue).wf(),
            old(self).holds(old(queue)@),
            old(queue)@.model.nodes.contains(node),
        ensures
            *final(self) == *old(self),
            *data == old(queue)@.data[node],
            final(queue).wf(),
            final(queue)@ == (QueueView {
                data: old(queue)@.data.insert(node, *final(data)),
                ..old(queue)@
            }),
    {
        queue.node_data_mut(node)
    }

    /// Gives the lock back. If two queues are called by the same name, the lock of the one is taken
    /// for that of the other here; see [`LockedQueue::holds`].
    pub fn unlock<T>(self, queue: &mut Queue<T, SP>)
        requires
            old(queue).wf(),
            self.holds(old(queue)@),
            old(queue)@.model.leaving is None,
            old(queue)@.model.open is None,
            old(queue)@.model.waiting is None,
        ensures
            final(queue).wf(),
            final(queue)@ == (QueueView { locked: false, ..old(queue)@ }),
    {
        queue.mutex.unlock(self.guard);
    }
}

/// Waiting for an insertion to end.
impl<T, SP: SyncPrimitives> Queue<T, SP> {
    /// The word that a thread waited for is set.
    fn stop_waiting(&mut self)
        requires
            old(self).wf(),
            old(self).model@.waiting matches Some(w) ==> old(self).words().next_at(w) != PARKED,
        ensures
            final(self).wf(),
            final(self)@ == (QueueView {
                model: old(self)@.model.awaiting(None),
                ..old(self)@
            }),
    {
        let ghost m = self.model@;
        let ghost p = self.words();
        proof {
            lemma_resumed(m, p);
        }
        self.model = Ghost(m.awaiting(None));
        if self.parked_node.is_some() {
            self.parked_node = Some(AtomicPtr::new(0));
            assert(self.words() =~= Words { parked_node: Some(0), ..p });
        } else {
            assert(self.words() =~= p);
        }
    }

    /// Announces a thread on `cell`: in the word for that if the queue has one, and otherwise in the
    /// cell, provided that this is empty. If it is not, what it holds is returned.
    #[verifier::spinoff_prover]
    #[verifier::rlimit(50)]
    fn start_waiting(&mut self, cell: usize) -> (found: Option<usize>)
        requires
            old(self).wf(),
            old(self)@.locked,
            old(self)@.model.followed(cell),
            old(self)@.model.waiting is None,
        ensures
            final(self).wf(),
            old(self)@.own_word || old(self).words().next_at(cell) == 0 ==> found is None
                && final(self)@ == (QueueView {
                model: old(self)@.model.awaiting(Some(cell)),
                handshake: old(self)@.handshake.at(Parking::Announced),
                ..old(self)@
            }),
            !old(self)@.own_word && old(self).words().next_at(cell) != 0 ==> found == Some(
                old(self).words().next_at(cell),
            ) && final(self)@ == old(self)@,
    {
        let ghost m = self.model@;
        let ghost p = self.words();
        proof {
            lemma_followed(m, p, cell);
            if self.parked_node is Some || p.next_at(cell) == 0 {
                lemma_awaiting(m, p, cell);
            }
        }
        if self.parked_node.is_some() {
            self.parked_node = Some(AtomicPtr::new(cell));
            assert(self.words() =~= Words { parked_node: Some(cell), ..p });
        } else if let Some(found) = self.fill_next(cell, PARKED) {
            return Some(found);
        }
        self.model = Ghost(m.awaiting(Some(cell)));
        self.handshake = Ghost(self.handshake@.at(Parking::Announced));
        None
    }
}

/// What the holder of the lock finds behind a cell: the node that is linked there, if it is.
pub open spec fn seen(m: Model, cell: usize, found: Option<usize>) -> bool {
    forall|k: usize, i: int| #[trigger]
        m.has(k, i) && m.pred(k, i) == cell ==> found == if m.attached(m.chains[k][i]) {
            Some(m.chains[k][i])
        } else {
            None
        }
}

/// The steps of waiting for an insertion to end. The holder of the lock looks at the cell. If the node
/// is not linked yet, it announces itself, looks again, and parks; and looks again whenever it has
/// taken the token of the parker.
impl<SP: SyncPrimitives> LockedQueue<SP> {
    /// Looks at `cell`.
    pub fn look<T>(&self, queue: &Queue<T, SP>, cell: usize) -> (found: Option<usize>)
        requires
            queue.wf(),
            self.holds(queue@),
            queue@.model.followed(cell),
        ensures
            seen(queue@.model, cell, found),
    {
        let ghost m = queue.model@;
        let ghost p = queue.words();
        proof {
            lemma_followed(m, p, cell);
            assert forall|k: usize, i: int| #[trigger] m.has(k, i) implies m.chains[k][i] > PARKED by {
                assert(m.queued.contains(m.chains[k][i]));
            }
        }
        let word: usize = queue.next_of(cell);
        if word > PARKED {
            Some(word)
        } else {
            None
        }
    }

    /// Announces the holder on `cell`. In a queue without a word for that, this finds the node if it
    /// has been linked in the meantime.
    pub fn announce<T>(&mut self, queue: &mut Queue<T, SP>, cell: usize) -> (found: Option<usize>)
        requires
            old(queue).wf(),
            old(self).holds(old(queue)@),
            old(queue)@.model.followed(cell),
            old(queue)@.model.waiting is None,
        ensures
            final(queue).wf(),
            final(self).holds(final(queue)@),
            final(self).spins() == old(self).spins(),
            old(queue)@.own_word ==> found is None,
            !old(queue)@.own_word ==> seen(old(queue)@.model, cell, found),
            final(queue)@ == if found is Some {
                old(queue)@
            } else {
                QueueView {
                    model: old(queue)@.model.awaiting(Some(cell)),
                    handshake: old(queue)@.handshake.at(Parking::Announced),
                    ..old(queue)@
                }
            },
    {
        let ghost m = queue.model@;
        let ghost p = queue.words();
        proof {
            lemma_followed(m, p, cell);
            assert forall|k: usize, i: int| #[trigger] m.has(k, i) implies m.chains[k][i] > PARKED by {
                assert(m.queued.contains(m.chains[k][i]));
            }
            let (k, i) = choose|k: usize, i: int| #[trigger] m.has(k, i) && m.pred(k, i) == cell;
            assert(m.has(k, i));
        }
        let found = queue.start_waiting(cell);
        if found.is_none() {
            self.waits = Some(cell);
        }
        found
    }

    /// Looks again at the cell that the holder is announced on. If nothing is linked there, it may
    /// park.
    pub fn look_again<T>(&mut self, queue: &mut Queue<T, SP>) -> (found: Option<usize>)
        requires
            old(queue).wf(),
            old(self).holds(old(queue)@),
            old(self).waits() is Some,
        ensures
            final(queue).wf(),
            *final(self) == *old(self),
            seen(old(queue)@.model, old(self).waits()->0, found),
            final(queue)@ == if found is Some {
                old(queue)@
            } else {
                QueueView {
                    handshake: old(queue)@.handshake.at(Parking::Looked),
                    ..old(queue)@
                }
            },
    {
        let ghost m = queue.model@;
        let cell: usize = match self.waits {
            Some(cell) => cell,
            None => {
                return None;
            },
        };
        let found = self.look(queue, cell);
        proof {
            let (k, i) = choose|k: usize, i: int| #[trigger] m.has(k, i) && m.pred(k, i) == cell;
            assert(m.has(k, i));
            assert(m.queued.contains(m.chains[k][i]));
        }
        if found.is_none() {
            queue.handshake = Ghost(queue.handshake@.at(Parking::Looked));
        }
        found
    }

    /// Parks the holder, which is announced and has looked since. If the token is there, it takes that
    /// and has to look again; otherwise it has to wait.
    pub fn park<T>(&mut self, queue: &mut Queue<T, SP>) -> (taken: Attempt<()>)
        requires
            old(queue).wf(),
            old(self).holds(old(queue)@),
            old(self).waits() is Some,
            !(old(queue)@.handshake.parking is Announced),
        ensures
            final(queue).wf(),
            *final(self) == *old(self),
            old(queue)@.notified ==> taken is Done && final(queue)@ == (QueueView {
                handshake: old(queue)@.handshake.at(Parking::Announced),
                notified: false,
                asleep: false,
                ..old(queue)@
            }),
            !old(queue)@.notified ==> taken is Wait && final(queue)@ == (QueueView {
                handshake: old(queue)@.handshake.at(Parking::Parked),
                asleep: old(queue)@.sleeps,
                ..old(queue)@
            }),
    {
        match queue.parker.park() {
            Attempt::Done(_) => {
                queue.handshake = Ghost(queue.handshake@.at(Parking::Announced));
                Attempt::Done(())
            },
            _ => {
                queue.handshake = Ghost(queue.handshake@.at(Parking::Parked));
                Attempt::Wait
            },
        }
    }

    /// Takes back the announcement, if there is one: the node that the holder looked for is linked.
    pub fn retract<T>(&mut self, queue: &mut Queue<T, SP>)
        requires
            old(queue).wf(),
            old(self).holds(old(queue)@),
            old(self).waits() matches Some(cell) ==> exists|k: usize, i: int| #[trigger]
                old(queue)@.model.has(k, i) && old(queue)@.model.pred(k, i) == cell && old(
                    queue,
                )@.model.attached(old(queue)@.model.chains[k][i]),
        ensures
            final(queue).wf(),
            final(self).holds(final(queue)@),
            final(self).spins() == old(self).spins(),
            final(queue)@ == (QueueView {
                model: old(queue)@.model.awaiting(None),
                ..old(queue)@
            }),
    {
        let ghost m = queue.model@;
        proof {
            if let Some(cell) = m.waiting {
                let (k, i) = choose|k: usize, i: int| #[trigger]
                    m.has(k, i) && m.pred(k, i) == cell && m.attached(m.chains[k][i]);
                assert(m.has(k, i));
                assert(m.queued.contains(m.chains[k][i]));
            }
        }
        if self.waits.is_some() {
            queue.stop_waiting();
            self.waits = None;
        }
        assert(queue@ =~= (QueueView { model: m.awaiting(None), ..old(queue)@ }));
    }
}

impl<SP: SyncPrimitives> LockedQueue<SP> {
    /// The node behind `cell`. If it is not linked yet, the thread looks again a few times, and
    /// then has to wait.
    pub fn get_next<T>(&mut self, queue: &mut Queue<T, SP>, cell: usize) -> (next: Attempt<usize>)
        requires
            old(queue).wf(),
            old(self).holds(old(queue)@),
            old(queue)@.model.followed(cell),
            old(queue)@.model.waiting is None || old(queue)@.model.waiting == Some(cell),
        ensures
            final(queue).wf(),
            final(self).holds(final(queue)@),
            forall|k: usize, i: int| #[trigger]
                old(queue)@.model.has(k, i) && old(queue)@.model.pred(k, i) == cell ==> {
                    let node = old(queue)@.model.chains[k][i];
                    if old(queue)@.model.attached(node) {
                        &&& next == Attempt::Done(node)
                        &&& final(queue)@ == (QueueView {
                            model: old(queue)@.model.awaiting(None),
                            ..old(queue)@
                        })
                    } else {
                        stalled(old(queue)@, cell, old(self).may_spin(), next, final(queue)@)
                    }
                },
            next is Done ==> final(self).spins() == 0,
            next is Spin ==> final(self).spins() == old(self).spins() + 1,
            next is Wait ==> final(self).spins() == old(self).spins(),
    {
        let ghost m = queue@.model;
        proof {
            queue.lemma_wf();
            m.lemma_one_follower(cell);
            let (k, i) = choose|k: usize, i: int| #[trigger] m.has(k, i) && m.pred(k, i) == cell;
            assert(m.has(k, i));
        }
        match self.look(queue, cell) {
            Some(node) => {
                self.retract(queue);
                self.stop_spinning();
                Attempt::Done(node)
            },
            None => self.wait_for_next(queue, cell),
        }
    }

    /// Lets the thread look again, or announces it on `cell` and parks it.
    fn wait_for_next<T>(&mut self, queue: &mut Queue<T, SP>, cell: usize) -> (next: Attempt<usize>)
        requires
            old(queue).wf(),
            old(self).holds(old(queue)@),
            old(queue)@.model.followed(cell),
            old(queue)@.model.waiting is None || old(queue)@.model.waiting == Some(cell),
            seen(old(queue)@.model, cell, None),
        ensures
            final(queue).wf(),
            final(self).holds(final(queue)@),
            stalled(old(queue)@, cell, old(self).may_spin(), next, final(queue)@),
            next is Spin ==> final(self).spins() == old(self).spins() + 1,
            next is Wait ==> final(self).spins() == old(self).spins(),
    {
        let ghost m = queue@.model;
        let ghost (k, i) = choose|k: usize, i: int| #[trigger] m.has(k, i) && m.pred(k, i) == cell;
        if self.spins < SP::SPIN_BEFORE_PARK {
            self.spins = self.spins + 1;
            return Attempt::Spin;
        }
        assert(m.has(k, i));
        if self.waits.is_none() {
            if let Some(node) = self.announce(queue, cell) {
                return Attempt::Done(node);
            }
        }
        assert(queue@.model.has(k, i) && queue@.model.pred(k, i) == cell);
        assert(queue@.model =~= m.awaiting(Some(cell)));
        if let Some(node) = self.look_again(queue) {
            return Attempt::Done(node);
        }
        match self.park(queue) {
            Attempt::Done(_) => {
                // The token was left by an earlier insertion; there is none now.
                if let Some(node) = self.look_again(queue) {
                    return Attempt::Done(node);
                }
                let _ = self.park(queue);
                Attempt::Wait
            },
            _ => Attempt::Wait,
        }
    }
}

/// Updating the state, or going on with the lock.
impl<T, SP: SyncPrimitives> Queue<T, SP> {
    /// Replaces the state by what `f` makes of it if the queue is empty. Otherwise takes the lock
    /// and hands it to `locked_fallback`.
    pub fn fetch_update_state_with_lock<
        F: FnMut(QueueState) -> QueueState,
        L: FnOnce(&mut Self, LockedQueue<SP>) -> R,
        R,
    >(&mut self, f: F, locked_fallback: L) -> (done: Attempt<()>)
        requires
            old(self).wf(),
            old(self)@.model.state matches Some(s) ==> call_requires(f, (s,)),
            forall|s: QueueState, new: QueueState| #[trigger]
                call_ensures(f, (s,), new) ==> new <= INTRUSIVE_QUEUE_MAX_STATE,
            old(self)@.model.state is None ==> forall|queue: &mut Self, lock: LockedQueue<SP>|
                queue.wf() && queue@ == (QueueView { locked: true, ..old(self)@ }) && lock.spins()
                    == 0 && lock.holds(queue@) ==> #[trigger] call_requires(locked_fallback, (queue, lock)),
        ensures
            old(self)@.model.state matches Some(s) ==> {
                &&& done is Done
                &&& final(self).wf()
                &&& exists|new: QueueState| #[trigger]
                    call_ensures(f, (s,), new) && final(self)@ == (QueueView {
                        model: old(self)@.model.with_state(new),
                        ..old(self)@
                    })
            },
            old(self)@.model.state is None && old(self)@.locked ==> {
                &&& done is Wait
                &&& final(self).wf()
                &&& final(self)@ == old(self)@
            },
            old(self)@.model.state is None && !old(self)@.locked ==> done is Done && exists|
                queue: &mut Self,
                lock: LockedQueue<SP>,
                result: R,
            | #[trigger]
                call_ensures(locked_fallback, (queue, lock), result) && queue.wf() && queue@ == (
                QueueView { locked: true, ..old(self)@ }) && lock.spins() == 0 && lock.holds(queue@)
                    && *final(queue)
                    == *final(self),
    {
        let mut f = f;
        if self.replace_state(&mut f) {
            return Attempt::Done(());
        }
        self.fetch_update_state_locked(f, locked_fallback)
    }

    /// Takes the lock. Then replaces the state by what `f` makes of it if the queue is empty, and
    /// hands the lock to `locked_fallback` otherwise.
    pub fn fetch_update_state_locked<
        F: FnMut(QueueState) -> QueueState,
        L: FnOnce(&mut Self, LockedQueue<SP>) -> R,
        R,
    >(&mut self, f: F, locked_fallback: L) -> (done: Attempt<()>)
        requires
            old(self).wf(),
            old(self)@.model.state matches Some(s) ==> call_requires(f, (s,)),
            forall|s: QueueState, new: QueueState| #[trigger]
                call_ensures(f, (s,), new) ==> new <= INTRUSIVE_QUEUE_MAX_STATE,
            old(self)@.model.state is None ==> forall|queue: &mut Self, lock: LockedQueue<SP>|
                queue.wf() && queue@ == (QueueView { locked: true, ..old(self)@ }) && lock.spins()
                    == 0 && lock.holds(queue@) ==> #[trigger] call_requires(locked_fallback, (queue, lock)),
        ensures
            old(self)@.locked ==> done is Wait && final(self).wf() && final(self)@ == old(self)@,
            !old(self)@.locked ==> done is Done,
            old(self)@.model.state matches Some(s) ==> !old(self)@.locked ==> {
                &&& final(self).wf()
                &&& exists|new: QueueState| #[trigger]
                    call_ensures(f, (s,), new) && final(self)@ == (QueueView {
                        model: old(self)@.model.with_state(new),
                        ..old(self)@
                    })
            },
            old(self)@.model.state is None && !old(self)@.locked ==> exists|
                queue: &mut Self,
                lock: LockedQueue<SP>,
                result: R,
            | #[trigger]
                call_ensures(locked_fallback, (queue, lock), result) && queue.wf() && queue@ == (
                QueueView { locked: true, ..old(self)@ }) && lock.spins() == 0 && lock.holds(queue@)
                    && *final(queue)
                    == *final(self),
    {
        proof {
            self.lemma_wf();
        }
        let mut f = f;
        match self.lock() {
            Attempt::Done(locked) => {
                if self.replace_state(&mut f) {
                    locked.unlock(self);
                } else {
                    let _ = locked_fallback(self, locked);
                }
                Attempt::Done(())
            },
            _ => {
                assert(self@ =~= old(self)@);
                Attempt::Wait
            },
        }
    }
}

} // verus!
