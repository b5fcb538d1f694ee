//! Notifying one waiter.

use vstd::prelude::*;

use crate::attempt::{Attempt, AttemptFrom};
use crate::queue::model::HEAD_MARKER;
use crate::queue::remove::{popped_place, precedes_place};
use crate::queue::{stalled, LockedQueue, QueueView};
use crate::sync::{DefaultSyncPrimitives, SyncPrimitives};
use crate::wait_queue::{closed, WaitQueue};

verus! {

/// The notification of one waiter, under way.
pub struct Notification<W, SP: SyncPrimitives = DefaultSyncPrimitives> {
    last: bool,
    locked: Option<LockedQueue<SP>>,
    node: Option<usize>,
    waker: Option<W>,
}

/// How far the notification of one waiter has come.
pub struct Notifying<W> {
    /// With the lock: how often its holder has looked in vain for a node to be linked.
    pub spins: Option<nat>,
    /// The waiter, and the waker that has been taken from it.
    pub taken: Option<(usize, Option<W>)>,
}

impl<W, SP: SyncPrimitives> Notification<W, SP> {
    /// The waiter that came last is notified, and not the one that came first.
    pub closed spec fn last(&self) -> bool {
        self.last
    }

    /// The lock, once it has been taken.
    pub closed spec fn lock(&self) -> Option<LockedQueue<SP>> {
        self.locked
    }

    /// How far it has come.
    pub closed spec fn progress(&self) -> Notifying<W> {
        Notifying {
            spins: match self.locked {
                Some(locked) => Some(locked.spins()),
                None => None,
            },
            taken: match self.node {
                Some(node) => Some((node, self.waker)),
                None => None,
            },
        }
    }

    /// It takes place in a queue in state `v`.
    pub open spec fn in_queue(&self, v: QueueView<Option<W>>) -> bool {
        let m = v.model;
        match self.progress().spins {
            None => self.progress().taken is None,
            Some(_) => {
                &&& self.lock() is Some
                &&& self.lock()->0.holds(v)
                &&& m.open is None
                &&& match self.progress().taken {
                    None => {
                        &&& m.leaving is None
                        &&& m.waiting matches Some(w) ==> precedes_place(m, w) && (!self.last() ==> w
                            == HEAD_MARKER)
                    },
                    Some((node, _)) => {
                        &&& m.queued.contains(node)
                        &&& !m.pending.contains_key(node)
                        &&& m.leaving is None || m.leaving == Some(node)
                        &&& m.waiting is None || m.waiting == Some(node)
                    },
                }
            },
        }
    }
}

/// What a try at a notification does that has taken `waker` from the waiter `node`: it waits while
/// the insertion of the waiter behind it has not ended, and otherwise takes it out and is done.
pub open spec fn notify_taken<W, SP: SyncPrimitives>(
    before: QueueView<Option<W>>,
    last: bool,
    spins: nat,
    node: usize,
    waker: Option<W>,
    done: AttemptFrom<Option<W>, Notification<W, SP>>,
    after: QueueView<Option<W>>,
) -> bool {
    let m = before.model;
    let (k, i) = m.position(node);
    if i + 1 < m.chains[k].len() && m.pending.contains_key(m.chains[k][i + 1]) {
        &&& stalled(
            QueueView { model: m.detached(node), ..before },
            node,
            spins < SP::SPIN_BEFORE_PARK,
            done.outcome(),
            after,
        )
        &&& done.again() matches Some(again) && again.last() == last && again.progress() == (
        Notifying { spins: Some(more_spins(done, spins)), taken: Some((node, waker)) })
    } else {
        &&& done == AttemptFrom::<Option<W>, Notification<W, SP>>::Done(waker)
        &&& after == (QueueView {
            model: m.awaiting(None).removed(k, i, 0),
            locked: false,
            ..before
        })
    }
}

/// How often the holder of the lock has looked in vain after one more try.
pub open spec fn more_spins<R, S>(done: AttemptFrom<R, S>, spins: nat) -> nat {
    if done is Spin {
        spins + 1
    } else {
        spins
    }
}

/// What a try at a notification does that holds the lock: it waits while the insertion of the
/// waiter has not ended, and otherwise takes its waker and goes on.
pub open spec fn notify_locked<W, SP: SyncPrimitives>(
    before: QueueView<Option<W>>,
    last: bool,
    spins: nat,
    done: AttemptFrom<Option<W>, Notification<W, SP>>,
    after: QueueView<Option<W>>,
) -> bool {
    let m = before.model;
    let i = if last {
        popped_place(m)
    } else {
        0
    };
    if m.order().len() == 0 {
        &&& done == AttemptFrom::<Option<W>, Notification<W, SP>>::Done(None)
        &&& after == (QueueView { locked: false, ..before })
    } else if m.pending.contains_key(m.order()[i]) {
        &&& stalled(
            before,
            m.pred(HEAD_MARKER, i),
            spins < SP::SPIN_BEFORE_PARK,
            done.outcome(),
            after,
        )
        &&& done.again() matches Some(again) && again.last() == last && again.progress() == (
        Notifying { spins: Some(more_spins(done, spins)), taken: None::<(usize, Option<W>)> })
    } else {
        notify_taken(
            QueueView {
                model: m.awaiting(None),
                data: before.data.insert(m.order()[i], None),
                ..before
            },
            last,
            0,
            m.order()[i],
            before.data[m.order()[i]],
            done,
            after,
        )
    }
}

/// What a try at a notification does that has come as far as `progress`.
pub open spec fn notify_done<W, SP: SyncPrimitives>(
    before: QueueView<Option<W>>,
    last: bool,
    progress: Notifying<W>,
    done: AttemptFrom<Option<W>, Notification<W, SP>>,
    after: QueueView<Option<W>>,
) -> bool {
    match progress.spins {
        None => if before.model.order().len() == 0 {
            &&& done == AttemptFrom::<Option<W>, Notification<W, SP>>::Done(None)
            &&& after == before
        } else if before.locked {
            &&& done matches AttemptFrom::Wait(again)
            &&& again.last() == last
            &&& again.progress() == progress
            &&& after == before
        } else {
            notify_locked(QueueView { locked: true, ..before }, last, 0, done, after)
        },
        Some(spins) => match progress.taken {
            None => notify_locked(before, last, spins, done, after),
            Some((node, waker)) => notify_taken(before, last, spins, node, waker, done, after),
        },
    }
}

impl<W, SP: SyncPrimitives> Notification<W, SP> {
    /// Tries to notify the waiter. It is taken out of the queue, and its waker, if it has one, is
    /// to be woken.
    #[verifier::spinoff_prover]
    #[verifier::rlimit(50)]
    pub fn resume(self, queue: &mut WaitQueue<W, SP>) -> (done: AttemptFrom<Option<W>, Self>)
        requires
            old(queue).wf(),
            self.in_queue(old(queue)@),
        ensures
            final(queue).wf(),
            notify_done(old(queue)@, self.last(), self.progress(), done, final(queue)@),
            done.again() matches Some(again) ==> again.in_queue(final(queue)@),
    {
        proof {
            queue.lemma_wf();
        }
        let mut this = self;
        let mut locked = match this.locked.take() {
            Some(locked) => locked,
            None => match queue.queue.is_empty_or_lock() {
                Attempt::Done(Some(locked)) => locked,
                Attempt::Done(None) => {
                    return AttemptFrom::Done(None);
                },
                _ => {
                    assert(queue@ =~= old(queue)@);
                    return AttemptFrom::Wait(this);
                },
            },
        };
        let ghost m = queue@.model;
        let ghost i = if self.last() {
            popped_place(m)
        } else {
            0
        };
        proof {
            queue.lemma_wf();
            if m.order().len() > 0 {
                if self.progress().taken is None {
                    if m.waiting is None {
                        assert(m.has(HEAD_MARKER, m.order().len() - 1));
                    }
                    assert(m.has(HEAD_MARKER, i));
                    m.lemma_position(m.order()[i]);
                }
            } else {
                m.lemma_no_follower(HEAD_MARKER);
            }
        }
        let node: usize = match this.node {
            Some(node) => node,
            None => {
                let found = if this.last {
                    locked.pop(&mut queue.queue)
                } else {
                    locked.dequeue(&mut queue.queue)
                };
                match found {
                    Attempt::Done(Some(end)) => {
                        let mut end = end;
                        let node: usize = end.node;
                        this.waker = end.data_pinned(&mut queue.queue).take();
                        this.node = Some(node);
                        node
                    },
                    Attempt::Done(None) => {
                        locked.unlock(&mut queue.queue);
                        return AttemptFrom::Done(None);
                    },
                    Attempt::Spin => {
                        this.locked = Some(locked);
                        return AttemptFrom::Spin(this);
                    },
                    Attempt::Wait => {
                        this.locked = Some(locked);
                        assert(queue@.model.has(HEAD_MARKER, i));
                        return AttemptFrom::Wait(this);
                    },
                }
            },
        };
        match locked.remove(&mut queue.queue, node, 0) {
            Attempt::Done(_) => {
                locked.unlock(&mut queue.queue);
                AttemptFrom::Done(this.waker)
            },
            Attempt::Spin => {
                this.locked = Some(locked);
                AttemptFrom::Spin(this)
            },
            Attempt::Wait => {
                this.locked = Some(locked);
                AttemptFrom::Wait(this)
            },
        }
    }
}

impl<W, SP: SyncPrimitives> WaitQueue<W, SP> {
    /// Notifies the waiter that came first, if there is one.
    pub fn notify_one(&mut self) -> (done: AttemptFrom<Option<W>, Notification<W, SP>>)
        requires
            old(self).wf(),
        ensures
            final(self).wf(),
            notify_done(
                old(self)@,
                false,
                Notifying { spins: None, taken: None },
                done,
                final(self)@,
            ),
            done.again() matches Some(again) ==> again.in_queue(final(self)@),
    {
        Notification { last: false, locked: None, node: None, waker: None }.resume(self)
    }

    /// Notifies the waiter that came last, if there is one.
    pub fn notify_last(&mut self) -> (done: AttemptFrom<Option<W>, Notification<W, SP>>)
        requires
            old(self).wf(),
        ensures
            final(self).wf(),
            notify_done(
                old(self)@,
                true,
                Notifying { spins: None, taken: None },
                done,
                final(self)@,
            ),
            done.again() matches Some(again) ==> again.in_queue(final(self)@),
    {
        Notification { last: true, locked: None, node: None, waker: None }.resume(self)
    }
}

} // verus!
