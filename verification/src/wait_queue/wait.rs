//! Tasks that wait.

use std::sync::Arc;

use vstd::prelude::*;

use crate::attempt::{Attempt, AttemptFrom};
use crate::effects::{lines_without, others_carry, others_stay, same_lines};
use crate::node::{dropping, Lock, Node, NodeDropping, NodeState};
use crate::queue::state::QueueState;
use crate::queue::{QueueHandle, QueueRef, QueueView};
use crate::sync::SyncPrimitives;
use crate::wait_queue::predicate::Questioned;
use crate::wait_queue::{closed, WaitQueue, EMPTY};

verus! {

/// Going to wait.
impl<W, SP: SyncPrimitives> WaitQueue<W, SP> {
    /// A task that is going to wait.
    pub fn wait(&mut self) -> (wait: Wait<QueueHandle<Option<W>, SP>>)
        requires
            old(self).wf(),
            old(self)@.room > 0,
        ensures
            final(self).wf(),
            added(old(self)@, wait.addr(), final(self)@),
            wait.queue_id() == old(self)@.id,
    {
        let handle = self.queue.handle();
        Wait { node: Node::with_data(handle, &mut self.queue, None) }
    }

    /// A task that is going to wait, with a reference to the queue that it owns a share of.
    pub fn wait_owned(&mut self) -> (wait: Wait<Arc<QueueHandle<Option<W>, SP>>>)
        requires
            old(self).wf(),
            old(self)@.room > 0,
        ensures
            final(self).wf(),
            added(old(self)@, wait.addr(), final(self)@),
            wait.queue_id() == old(self)@.id,
    {
        let handle = Arc::new(self.queue.handle());
        Wait { node: Node::with_data(handle, &mut self.queue, None) }
    }
}

impl<W, SP: SyncPrimitives> WaitQueue<W, SP> {
    /// A task that is going to wait, and then to see whether `predicate` holds.
    pub fn wait_if<P: FnOnce(&Self) -> bool>(
        &mut self,
        predicate: P,
    ) -> (wait: WaitIf<
        QueueHandle<Option<W>, SP>,
        P,
    >)
        requires
            old(self).wf(),
            old(self)@.room > 0,
        ensures
            final(self).wf(),
            added(old(self)@, wait.wait().addr(), final(self)@),
            wait.wait().queue_id() == old(self)@.id,
            wait.predicate() == Some(predicate),
    {
        WaitIf { wait: self.wait(), predicate: Some(predicate) }
    }

    /// The same, with a reference to the queue that the task owns a share of.
    pub fn wait_if_owned<P: FnOnce(&Self) -> bool>(
        &mut self,
        predicate: P,
    ) -> (wait: WaitIf<
        Arc<QueueHandle<Option<W>, SP>>,
        P,
    >)
        requires
            old(self).wf(),
            old(self)@.room > 0,
        ensures
            final(self).wf(),
            added(old(self)@, wait.wait().addr(), final(self)@),
            wait.wait().queue_id() == old(self)@.id,
            wait.predicate() == Some(predicate),
    {
        WaitIf { wait: self.wait_owned(), predicate: Some(predicate) }
    }

    /// A task that is going to wait until `predicate` gives something.
    pub fn wait_until<P: FnMut(&Self) -> Option<T>, T>(
        &mut self,
        predicate: P,
    ) -> (wait: WaitUntil<
        QueueHandle<Option<W>, SP>,
        P,
        T,
    >)
        requires
            old(self).wf(),
            old(self)@.room > 0,
        ensures
            final(self).wf(),
            added(old(self)@, wait.wait().addr(), final(self)@),
            wait.wait().queue_id() == old(self)@.id,
            wait.predicate() == predicate,
            wait.answers() == Seq::<Option<T>>::empty(),
    {
        WaitUntil { wait: self.wait(), questioned: Questioned::new(predicate) }
    }

    /// The same, with a reference to the queue that the task owns a share of.
    pub fn wait_until_owned<P: FnMut(&Self) -> Option<T>, T>(
        &mut self,
        predicate: P,
    ) -> (wait:
        WaitUntil<Arc<QueueHandle<Option<W>, SP>>, P, T>)
        requires
            old(self).wf(),
            old(self)@.room > 0,
        ensures
            final(self).wf(),
            added(old(self)@, wait.wait().addr(), final(self)@),
            wait.wait().queue_id() == old(self)@.id,
            wait.predicate() == predicate,
            wait.answers() == Seq::<Option<T>>::empty(),
    {
        WaitUntil { wait: self.wait_owned(), questioned: Questioned::new(predicate) }
    }
}

/// A new waiter at address `a`, which does not wait yet.
pub open spec fn added<W>(
    before: QueueView<Option<W>>,
    a: usize,
    after: QueueView<Option<W>>,
) -> bool {
    &&& !before.model.nodes.contains(a)
    &&& !before.model.chains.contains_key(a)
    &&& after == (QueueView {
        model: before.model.created(a),
        data: before.data.insert(a, None),
        room: (before.room - 1) as nat,
        ..before
    })
}

/// What a poll yields.
#[derive(Debug)]
pub enum Poll<R> {
    Ready(R),
    Pending,
}

/// A task that waits to be notified once.
pub struct Wait<Q: QueueRef> {
    node: Node<Q>,
}

impl<Q: QueueRef> Wait<Q> {
    /// The address of the task's node.
    pub closed spec fn addr(&self) -> usize {
        self.node.addr()
    }

    /// What the queue is called.
    pub closed spec fn queue_id(&self) -> usize {
        self.node.queue_ref().queue_id()
    }

    /// The task belongs to a wait queue in state `v`, and is not being inserted.
    pub open spec fn waits_in(&self, v: QueueView<Q::NodeData>) -> bool {
        &&& v.id == self.queue_id()
        &&& v.model.nodes.contains(self.addr())
        &&& !v.model.pending.contains_key(self.addr())
    }
}

/// What a poll of the waiter at address `a` does, on behalf of a task with waker `waker`.
///
/// A waiter that waits already keeps its waker if that one `will_wake` the same task. One that has
/// been notified is ready, or waits again if it is to `requeue`. To wait is to be inserted at the
/// back of the queue; a queue that has been closed takes no waiter, and the poll is ready.
pub open spec fn poll_wait_done<W, F: Fn(&W, &W) -> bool>(
    before: QueueView<Option<W>>,
    a: usize,
    waker: W,
    will_wake: F,
    requeue: bool,
    polled: Attempt<Poll<()>>,
    after: QueueView<Option<W>>,
) -> bool {
    let m = before.model;
    if m.queued.contains(a) {
        if before.locked {
            polled is Wait && after == before
        } else {
            &&& polled == Attempt::Done(Poll::<()>::Pending)
            &&& exists|keep: bool| #[trigger]
                keeps_waker(before.data[a], waker, will_wake, keep) && after == (QueueView {
                    data: if keep {
                        before.data
                    } else {
                        before.data.insert(a, Some(waker))
                    },
                    ..before
                })
        }
    } else if m.dequeued.contains(a) && !requeue {
        &&& polled == Attempt::Done(Poll::Ready(()))
        &&& after == before
    } else {
        let ready = if m.dequeued.contains(a) {
            m.reset(a)
        } else {
            m
        };
        let data = before.data.insert(a, Some(waker));
        if closed(m) {
            &&& polled == Attempt::Done(Poll::Ready(()))
            &&& after == (QueueView { model: ready, data, ..before })
        } else {
            &&& polled == Attempt::Done(Poll::<()>::Pending)
            &&& after == (QueueView { model: ready.enqueued(a), data, ..before })
        }
    }
}

/// The waker `stored` wakes the task that has come with `waker`: it is that one, or one of which
/// `will_wake` says so.
pub open spec fn wakes_task<W, F: Fn(&W, &W) -> bool>(
    stored: Option<W>,
    waker: W,
    will_wake: F,
) -> bool {
    stored matches Some(stored) && (stored == waker || call_ensures(
        will_wake,
        (&stored, &waker),
        true,
    ))
}

/// A waiter that holds `stored` keeps it, as `keep` says, when its task comes with `waker`.
pub open spec fn keeps_waker<W, F: Fn(&W, &W) -> bool>(
    stored: Option<W>,
    waker: W,
    will_wake: F,
    keep: bool,
) -> bool {
    match stored {
        Some(stored) => call_ensures(will_wake, (&stored, &waker), keep),
        None => !keep,
    }
}

impl<W, Q: QueueRef<NodeData = Option<W>>> Wait<Q> {
    /// Polls the waiter, on behalf of a task with waker `waker`. One that has been notified waits
    /// again if it is to `requeue`.
    pub fn poll_wait<F: Fn(&W, &W) -> bool>(
        &mut self,
        queue: &mut WaitQueue<W, Q::SyncPrimitives>,
        waker: W,
        will_wake: F,
        requeue: bool,
    ) -> (polled: Attempt<Poll<()>>)
        requires
            old(queue).wf(),
            old(self).waits_in(old(queue)@),
            forall|stored: &W| #[trigger] call_requires(will_wake, (stored, &waker)),
        ensures
            *final(self) == *old(self),
            final(queue).wf(),
            final(self).waits_in(final(queue)@),
            poll_wait_done(
                old(queue)@,
                old(self).addr(),
                waker,
                will_wake,
                requeue,
                polled,
                final(queue)@,
            ),
            polled == Attempt::Done(Poll::<()>::Pending) ==> final(queue)@.model.queued.contains(
                old(self).addr(),
            ) && wakes_task(
                final(queue)@.data[old(self).addr()],
                waker,
                will_wake,
            ),
    {
        proof {
            queue.lemma_wf();
        }
        let mut waiter = match self.node.state(&mut queue.queue) {
            AttemptFrom::Done(NodeState::Unqueued(waiter)) => waiter,
            AttemptFrom::Done(NodeState::Queued(waiter)) => {
                let mut waiter = waiter;
                let keep = match waiter.data(&queue.queue) {
                    Some(stored) => will_wake(stored, &waker),
                    None => false,
                };
                assert(keeps_waker(old(queue)@.data[old(self).addr()], waker, will_wake, keep));
                if !keep {
                    *waiter.data_mut(&mut queue.queue) = Some(waker);
                }
                waiter.unlock(&mut queue.queue);
                return Attempt::Done(Poll::Pending);
            },
            AttemptFrom::Done(NodeState::Dequeued(waiter)) => {
                if !requeue {
                    return Attempt::Done(Poll::Ready(()));
                }
                waiter.reset(&mut queue.queue)
            },
            _ => {
                return Attempt::Wait;
            },
        };
        *waiter.data_mut(&mut queue.queue) = Some(waker);
        let is_open = |state: Option<QueueState>| -> (is_open: bool)
            ensures
                is_open == (state is None || state == Some(EMPTY)),
        {
            match state {
                Some(state) => state == EMPTY,
                None => true,
            }
        };
        match waiter.try_enqueue_if(&mut queue.queue, is_open) {
            Ok(_) => Attempt::Done(Poll::Pending),
            Err(_) => Attempt::Done(Poll::Ready(())),
        }
    }

    /// Polls the waiter, on behalf of a task with waker `waker`.
    pub fn poll<F: Fn(&W, &W) -> bool>(
        &mut self,
        queue: &mut WaitQueue<W, Q::SyncPrimitives>,
        waker: W,
        will_wake: F,
    ) -> (polled: Attempt<Poll<()>>)
        requires
            old(queue).wf(),
            old(self).waits_in(old(queue)@),
            forall|stored: &W| #[trigger] call_requires(will_wake, (stored, &waker)),
        ensures
            *final(self) == *old(self),
            final(queue).wf(),
            final(self).waits_in(final(queue)@),
            poll_wait_done(
                old(queue)@,
                old(self).addr(),
                waker,
                will_wake,
                false,
                polled,
                final(queue)@,
            ),
            polled == Attempt::Done(Poll::<()>::Pending) ==> final(queue)@.model.queued.contains(
                old(self).addr(),
            ) && wakes_task(
                final(queue)@.data[old(self).addr()],
                waker,
                will_wake,
            ),
    {
        self.poll_wait(queue, waker, will_wake, false)
    }
}


/// A task that waits to be notified, and then sees whether a predicate holds.
pub struct WaitIf<Q: QueueRef, P> {
    wait: Wait<Q>,
    predicate: Option<P>,
}

/// What a poll yields that waits first, as `waited` says, and then hands out the predicate to be
/// asked, once: `kept` is what is left of it.
pub open spec fn poll_if_waited<P>(
    waited: Attempt<Poll<()>>,
    predicate: Option<P>,
    kept: Option<P>,
    polled: Attempt<Poll<Option<P>>>,
) -> bool {
    match waited {
        Attempt::Done(Poll::Ready(_)) => {
            &&& polled == Attempt::Done(Poll::Ready(predicate))
            &&& kept is None
        },
        Attempt::Done(Poll::Pending) => {
            &&& polled == Attempt::Done(Poll::<Option<P>>::Pending)
            &&& kept == predicate
        },
        _ => polled is Wait && kept == predicate,
    }
}

/// What a poll yields that waits first, as `waited` says, and then asks `predicate`, once, of the
/// queue as it is then: `kept` is what is left of it.
pub open spec fn poll_if_done<W, SP: SyncPrimitives, P: FnOnce(&WaitQueue<W, SP>) -> bool>(
    waited: Attempt<Poll<()>>,
    predicate: Option<P>,
    queue: WaitQueue<W, SP>,
    kept: Option<P>,
    polled: Attempt<Poll<()>>,
) -> bool {
    if waited == Attempt::Done(Poll::Ready(())) {
        &&& kept is None
        &&& match predicate {
            Some(predicate) => exists|holds: bool| #[trigger]
                call_ensures(predicate, (&queue,), holds) && polled == Attempt::Done(
                    if holds {
                        Poll::Ready(())
                    } else {
                        Poll::Pending
                    },
                ),
            None => polled == Attempt::Done(Poll::<()>::Pending),
        }
    } else {
        polled == waited && kept == predicate
    }
}

impl<Q: QueueRef, P> WaitIf<Q, P> {
    /// The waiter.
    pub closed spec fn wait(&self) -> Wait<Q> {
        self.wait
    }

    /// The predicate, unless it has been asked.
    pub closed spec fn predicate(&self) -> Option<P> {
        self.predicate
    }

    /// Starts to do away with the waiter.
    pub fn release(self) -> (dropping: WaitDropping<Q>)
        ensures
            dropping.addr() == self.wait().addr(),
            dropping.queue_id() == self.wait().queue_id(),
            dropping.lock() is None,
    {
        self.wait.release()
    }
}

impl<W, Q: QueueRef<NodeData = Option<W>>, P> WaitIf<Q, P> {
    /// Polls the waiter, and hands out the predicate once that is ready, for a caller who asks it
    /// without the queue. The task is ready if the predicate holds.
    pub fn poll_wait<F: Fn(&W, &W) -> bool>(
        &mut self,
        queue: &mut WaitQueue<W, Q::SyncPrimitives>,
        waker: W,
        will_wake: F,
    ) -> (polled: Attempt<Poll<Option<P>>>)
        requires
            old(queue).wf(),
            old(self).wait().waits_in(old(queue)@),
            forall|stored: &W| #[trigger] call_requires(will_wake, (stored, &waker)),
        ensures
            final(self).wait() == old(self).wait(),
            final(queue).wf(),
            final(self).wait().waits_in(final(queue)@),
            exists|waited: Attempt<Poll<()>>| #[trigger]
                poll_wait_done(
                    old(queue)@,
                    old(self).wait().addr(),
                    waker,
                    will_wake,
                    false,
                    waited,
                    final(queue)@,
                ) && poll_if_waited(waited, old(self).predicate(), final(self).predicate(), polled),
    {
        match self.wait.poll_wait(queue, waker, will_wake, false) {
            Attempt::Done(Poll::Ready(_)) => Attempt::Done(Poll::Ready(self.predicate.take())),
            Attempt::Done(Poll::Pending) => Attempt::Done(Poll::Pending),
            _ => Attempt::Wait,
        }
    }

    /// Polls the waiter, and asks the predicate once that is ready.
    pub fn poll<F: Fn(&W, &W) -> bool>(
        &mut self,
        queue: &mut WaitQueue<W, Q::SyncPrimitives>,
        waker: W,
        will_wake: F,
    ) -> (polled: Attempt<Poll<()>>) where P: FnOnce(&WaitQueue<W, Q::SyncPrimitives>) -> bool
        requires
            old(queue).wf(),
            old(self).wait().waits_in(old(queue)@),
            forall|stored: &W| #[trigger] call_requires(will_wake, (stored, &waker)),
            old(self).predicate() matches Some(predicate) ==> forall|
                asked: &WaitQueue<W, Q::SyncPrimitives>,
            |
                asked.wf() ==> #[trigger] call_requires(predicate, (asked,)),
        ensures
            final(self).wait() == old(self).wait(),
            final(queue).wf(),
            final(self).wait().waits_in(final(queue)@),
            exists|waited: Attempt<Poll<()>>| #[trigger]
                poll_wait_done(
                    old(queue)@,
                    old(self).wait().addr(),
                    waker,
                    will_wake,
                    false,
                    waited,
                    final(queue)@,
                ) && poll_if_done(
                    waited,
                    old(self).predicate(),
                    *final(queue),
                    final(self).predicate(),
                    polled,
                ),
            polled == Attempt::Done(Poll::Ready(())) ==> {
                &&& !old(queue)@.model.queued.contains(old(self).wait().addr())
                &&& old(queue)@.model.dequeued.contains(old(self).wait().addr()) || closed(
                    old(queue)@.model,
                )
                &&& old(self).predicate() matches Some(predicate) && call_ensures(
                    predicate,
                    (&*final(queue),),
                    true,
                )
            },
            old(queue)@.model.dequeued.contains(old(self).wait().addr()) && polled
                != Attempt::Done(Poll::Ready(())) ==> {
                &&& polled == Attempt::Done(Poll::<()>::Pending)
                &&& old(self).predicate() matches Some(predicate) ==> call_ensures(
                    predicate,
                    (&*final(queue),),
                    false,
                )
            },
    {
        proof {
            queue.lemma_wf();
        }
        match self.poll_wait(queue, waker, will_wake) {
            Attempt::Done(Poll::Ready(Some(predicate))) => if predicate(&*queue) {
                Attempt::Done(Poll::Ready(()))
            } else {
                Attempt::Done(Poll::Pending)
            },
            Attempt::Done(_) => Attempt::Done(Poll::Pending),
            _ => Attempt::Wait,
        }
    }
}

/// A task that waits until a predicate gives something.
pub struct WaitUntil<Q: QueueRef, P, T> {
    wait: Wait<Q>,
    questioned: Questioned<P, T>,
}

/// What a poll yields for a task that waits until a predicate gives something.
#[derive(Debug)]
pub enum PollUntil<T> {
    /// The predicate gave this.
    Ready(T),
    /// The predicate gave nothing, and the task waits.
    Pending,
    /// The predicate gave nothing, and the queue has been closed, so that nobody will notify.
    Closed,
}

/// What a poll yields that has waited, as `waited` says, when the predicate then gave `found`.
pub open spec fn until<T>(waited: Poll<()>, found: Option<T>) -> PollUntil<T> {
    match found {
        Some(found) => PollUntil::Ready(found),
        None => if waited is Ready {
            PollUntil::Closed
        } else {
            PollUntil::Pending
        },
    }
}

impl<T> PollUntil<T> {
    /// What a poll yields that has waited, as `waited` says, when the predicate then gave `found`.
    pub fn new(waited: Poll<()>, found: Option<T>) -> (polled: Self)
        ensures
            polled == until(waited, found),
    {
        match (found, waited) {
            (Some(found), _) => PollUntil::Ready(found),
            (None, Poll::Ready(_)) => PollUntil::Closed,
            (None, Poll::Pending) => PollUntil::Pending,
        }
    }
}

/// What a poll does that waits first, as `waited` says, and then asks `predicate` of the queue as it
/// is then. `asked` are the answers before it, and `answers` those after it.
pub open spec fn poll_cold_done<
    W,
    SP: SyncPrimitives,
    P: FnMut(&WaitQueue<W, SP>) -> Option<T>,
    T,
>(
    waited: Attempt<Poll<()>>,
    predicate: P,
    queue: WaitQueue<W, SP>,
    asked: Seq<Option<T>>,
    answers: Seq<Option<T>>,
    polled: Attempt<PollUntil<T>>,
) -> bool {
    match waited {
        Attempt::Done(waited) => exists|found: Option<T>| #[trigger]
            call_ensures(predicate, (&queue,), found) && polled == Attempt::Done(
                until(waited, found),
            ) && answers == asked.push(found),
        _ => polled is Wait && answers == asked,
    }
}

/// What a poll does that asks `predicate` first, and goes on to wait if that gives nothing.
pub open spec fn try_poll_done<
    W,
    SP: SyncPrimitives,
    F: Fn(&W, &W) -> bool,
    P: FnMut(&WaitQueue<W, SP>) -> Option<T>,
    T,
>(
    before: WaitQueue<W, SP>,
    a: usize,
    waker: W,
    will_wake: F,
    predicate: P,
    asked: Seq<Option<T>>,
    answers: Seq<Option<T>>,
    polled: Attempt<PollUntil<T>>,
    after: WaitQueue<W, SP>,
) -> bool {
    exists|found: Option<T>| #[trigger]
        call_ensures(predicate, (&before,), found) && match found {
            Some(found) => {
                &&& polled == Attempt::Done(PollUntil::Ready(found))
                &&& answers == asked.push(Some(found))
                &&& after == before
            },
            None => exists|waited: Attempt<Poll<()>>| #[trigger]
                poll_wait_done(before@, a, waker, will_wake, true, waited, after@)
                    && poll_cold_done(
                    waited,
                    predicate,
                    after,
                    asked.push(None),
                    answers,
                    polled,
                ),
        }
}

/// What a poll yields that ends as `polled` says. One that finds the queue closed, and nothing given,
/// is left out.
pub open spec fn poll_of<T>(polled: Attempt<PollUntil<T>>) -> Attempt<Poll<T>> {
    match polled {
        Attempt::Done(PollUntil::Ready(found)) => Attempt::Done(Poll::Ready(found)),
        Attempt::Done(_) => Attempt::Done(Poll::Pending),
        _ => Attempt::Wait,
    }
}

/// The answers that a poll gets, which had `asked` before it and `answers` after it: `polled` is what the
/// predicate gave last, if it gave something, and it gave nothing before.
pub open spec fn handed_on<T>(
    asked: Seq<Option<T>>,
    answers: Seq<Option<T>>,
    polled: Option<T>,
) -> bool {
    &&& asked.len() < answers.len()
    &&& asked.is_prefix_of(answers)
    &&& answers.last() == polled
    &&& forall|i: int| asked.len() <= i < answers.len() - 1 ==> #[trigger] answers[i] is None
}

impl<Q: QueueRef, P, T> WaitUntil<Q, P, T> {
    /// The waiter.
    pub closed spec fn wait(&self) -> Wait<Q> {
        self.wait
    }

    /// The predicate.
    pub closed spec fn predicate(&self) -> P {
        self.questioned.predicate()
    }

    /// The answers that the predicate has given, in order.
    pub closed spec fn answers(&self) -> Seq<Option<T>> {
        self.questioned.answers()
    }

    /// Starts to do away with the waiter.
    pub fn release(self) -> (dropping: WaitDropping<Q>)
        ensures
            dropping.addr() == self.wait().addr(),
            dropping.queue_id() == self.wait().queue_id(),
            dropping.lock() is None,
    {
        self.wait.release()
    }
}

impl<W, Q: QueueRef<NodeData = Option<W>>, P, T> WaitUntil<Q, P, T> {
    /// Makes sure that the task waits, and then asks the predicate, so that no notification is
    /// missed in between.
    pub fn poll_cold<F: Fn(&W, &W) -> bool>(
        &mut self,
        queue: &mut WaitQueue<W, Q::SyncPrimitives>,
        waker: W,
        will_wake: F,
    ) -> (polled: Attempt<PollUntil<T>>) where
        P: FnMut(&WaitQueue<W, Q::SyncPrimitives>) -> Option<T>,

        requires
            old(queue).wf(),
            old(self).wait().waits_in(old(queue)@),
            forall|stored: &W| #[trigger] call_requires(will_wake, (stored, &waker)),
            forall|asked: &WaitQueue<W, Q::SyncPrimitives>|
                asked.wf() ==> #[trigger] call_requires(old(self).predicate(), (asked,)),
        ensures
            final(self).wait() == old(self).wait(),
            final(self).predicate() == old(self).predicate(),
            final(queue).wf(),
            final(self).wait().waits_in(final(queue)@),
            exists|waited: Attempt<Poll<()>>| #[trigger]
                poll_wait_done(
                    old(queue)@,
                    old(self).wait().addr(),
                    waker,
                    will_wake,
                    true,
                    waited,
                    final(queue)@,
                ) && poll_cold_done(
                    waited,
                    old(self).predicate(),
                    *final(queue),
                    old(self).answers(),
                    final(self).answers(),
                    polled,
                ),
            polled is Wait ==> final(self).answers() == old(self).answers(),
            polled matches Attempt::Done(until) ==> final(self).answers() == old(
                self,
            ).answers().push(
                match until {
                    PollUntil::Ready(found) => Some(found),
                    _ => None,
                },
            ),
    {
        let waited = match self.wait.poll_wait(queue, waker, will_wake, true) {
            Attempt::Done(waited) => waited,
            _ => {
                return Attempt::Wait;
            },
        };
        assert(call_requires(self.predicate(), (&*queue,)));
        let found = self.questioned.ask(&*queue);
        Attempt::Done(PollUntil::new(waited, found))
    }

    /// Asks the predicate, and makes sure that the task waits if it gives nothing. If the lock has
    /// to be waited for, the poll is to be continued by `poll_cold`.
    pub fn try_poll<F: Fn(&W, &W) -> bool>(
        &mut self,
        queue: &mut WaitQueue<W, Q::SyncPrimitives>,
        waker: W,
        will_wake: F,
    ) -> (polled: Attempt<PollUntil<T>>) where
        P: FnMut(&WaitQueue<W, Q::SyncPrimitives>) -> Option<T>,

        requires
            old(queue).wf(),
            old(self).wait().waits_in(old(queue)@),
            forall|stored: &W| #[trigger] call_requires(will_wake, (stored, &waker)),
            forall|asked: &WaitQueue<W, Q::SyncPrimitives>|
                asked.wf() ==> #[trigger] call_requires(old(self).predicate(), (asked,)),
        ensures
            final(self).wait() == old(self).wait(),
            final(self).predicate() == old(self).predicate(),
            final(queue).wf(),
            final(self).wait().waits_in(final(queue)@),
            try_poll_done(
                *old(queue),
                old(self).wait().addr(),
                waker,
                will_wake,
                old(self).predicate(),
                old(self).answers(),
                final(self).answers(),
                polled,
                *final(queue),
            ),
            handed_on(
                old(self).answers(),
                final(self).answers(),
                match polled {
                    Attempt::Done(PollUntil::Ready(found)) => Some(found),
                    _ => None,
                },
            ),
            final(self).answers().len() - old(self).answers().len() == if polled is Wait
                || final(self).answers()[old(self).answers().len() as int] is Some {
                1int
            } else {
                2
            },
            final(self).answers()[old(self).answers().len() as int] is Some ==> *final(queue)
                == *old(queue),
    {
        assert(call_requires(self.predicate(), (&*queue,)));
        let ghost asked = self.answers();
        let ghost found;
        let answer = self.questioned.ask(&*queue);
        proof {
            found = answer;
            assert(call_ensures(old(self).predicate(), (&*old(queue),), found));
            assert(asked.push(found).subrange(0, asked.len() as int) =~= asked);
        }
        match answer {
            Some(found) => Attempt::Done(PollUntil::Ready(found)),
            None => {
                let polled = self.poll_cold(queue, waker, will_wake);
                proof {
                    assert(self.answers().subrange(0, asked.len() as int) =~= asked);
                }
                polled
            },
        }
    }

    /// Asks the predicate, and makes sure that the task waits if it gives nothing. The predicate
    /// has to give something once the queue has been closed.
    pub fn poll<F: Fn(&W, &W) -> bool>(
        &mut self,
        queue: &mut WaitQueue<W, Q::SyncPrimitives>,
        waker: W,
        will_wake: F,
    ) -> (polled: Attempt<Poll<T>>) where P: FnMut(&WaitQueue<W, Q::SyncPrimitives>) -> Option<T>
        requires
            old(queue).wf(),
            old(self).wait().waits_in(old(queue)@),
            forall|stored: &W| #[trigger] call_requires(will_wake, (stored, &waker)),
            forall|asked: &WaitQueue<W, Q::SyncPrimitives>|
                asked.wf() ==> #[trigger] call_requires(old(self).predicate(), (asked,)),
            closed(old(queue)@.model) ==> forall|
                asked: &WaitQueue<W, Q::SyncPrimitives>,
                found: Option<T>,
            | #[trigger]
                call_ensures(old(self).predicate(), (asked,), found) && closed(asked@.model)
                    && !asked@.model.queued.contains(old(self).wait().addr()) ==> found is Some,
        ensures
            final(self).wait() == old(self).wait(),
            final(self).predicate() == old(self).predicate(),
            final(queue).wf(),
            final(self).wait().waits_in(final(queue)@),
            exists|tried: Attempt<PollUntil<T>>| #[trigger]
                try_poll_done(
                    *old(queue),
                    old(self).wait().addr(),
                    waker,
                    will_wake,
                    old(self).predicate(),
                    old(self).answers(),
                    final(self).answers(),
                    tried,
                    *final(queue),
                ) && polled == poll_of(tried) && !(tried matches Attempt::Done(PollUntil::Closed)),
            exists|found: Option<T>| #[trigger]
                call_ensures(old(self).predicate(), (&*old(queue),), found) && match found {
                    Some(found) => polled == Attempt::Done(Poll::Ready(found)) && *final(queue)
                        == *old(queue),
                    None => exists|waited: Attempt<Poll<()>>| #[trigger]
                        poll_wait_done(
                            old(queue)@,
                            old(self).wait().addr(),
                            waker,
                            will_wake,
                            true,
                            waited,
                            final(queue)@,
                        ) && match waited {
                            Attempt::Done(waited) => waited is Pending && exists|found: Option<T>|
                                #[trigger]
                                call_ensures(old(self).predicate(), (&*final(queue),), found)
                                    && polled == Attempt::Done(
                                    match found {
                                        Some(found) => Poll::Ready(found),
                                        None => Poll::Pending,
                                    },
                                ),
                            _ => polled is Wait,
                        },
                },
            handed_on(
                old(self).answers(),
                final(self).answers(),
                match polled {
                    Attempt::Done(Poll::Ready(found)) => Some(found),
                    _ => None,
                },
            ),
            final(self).answers().len() - old(self).answers().len() == if polled is Wait
                || final(self).answers()[old(self).answers().len() as int] is Some {
                1int
            } else {
                2
            },
            final(self).answers()[old(self).answers().len() as int] is Some ==> *final(queue)
                == *old(queue),
    {
        proof {
            queue.lemma_wf();
        }
        match self.try_poll(queue, waker, will_wake) {
            Attempt::Done(PollUntil::Ready(found)) => Attempt::Done(Poll::Ready(found)),
            Attempt::Done(_) => Attempt::Done(Poll::Pending),
            _ => Attempt::Wait,
        }
    }
}

/// A task that ceases to wait.
pub struct WaitDropping<Q: QueueRef> {
    node: NodeDropping<Q>,
}

impl<Q: QueueRef> Wait<Q> {
    /// Starts to do away with the waiter.
    pub fn release(self) -> (dropping: WaitDropping<Q>)
        ensures
            dropping.addr() == self.addr(),
            dropping.queue_id() == self.queue_id(),
            dropping.lock() is None,
    {
        WaitDropping { node: self.node.release() }
    }
}

impl<Q: QueueRef> WaitDropping<Q> {
    /// The address of the task's node.
    pub closed spec fn addr(&self) -> usize {
        self.node.addr()
    }

    /// What the queue is called.
    pub closed spec fn queue_id(&self) -> usize {
        self.node.queue_ref().queue_id()
    }

    /// The queue's lock, if it has been taken.
    pub closed spec fn lock(&self) -> Option<Lock<Q>> {
        self.node.lock()
    }

    /// The waiter belongs to a wait queue in state `v`, and the thread holds the lock if it has
    /// taken it.
    pub open spec fn waits_in(&self, v: QueueView<Q::NodeData>) -> bool {
        &&& v.id == self.queue_id()
        &&& v.model.nodes.contains(self.addr())
        &&& !v.model.pending.contains_key(self.addr())
        &&& self.lock() matches Some(lock) ==> {
            &&& lock.holds(v)
            &&& v.model.open is None
            &&& v.model.queued.contains(self.addr())
            &&& v.model.leaving is None || v.model.leaving == Some(self.addr())
            &&& v.model.waiting is None || v.model.waiting == Some(self.addr())
        }
    }
}

impl<W, Q: QueueRef<NodeData = Option<W>>> WaitDropping<Q> {
    /// Takes the waiter out of the queue if it is there, does away with it, and returns its waker. All
    /// others stay where they are, with their wakers.
    pub fn finish(&mut self, queue: &mut WaitQueue<W, Q::SyncPrimitives>) -> (waker: Attempt<
        Option<W>,
    >)
        requires
            old(queue).wf(),
            old(self).waits_in(old(queue)@),
        ensures
            final(self).addr() == old(self).addr(),
            final(self).queue_id() == old(self).queue_id(),
            final(queue).wf(),
            dropping(
                old(queue)@,
                old(self).addr(),
                old(self).lock(),
                waker,
                final(self).lock(),
                final(queue)@,
            ),
            others_stay(old(queue)@.model, final(queue)@.model, old(self).addr()),
            others_carry(old(queue)@, final(queue)@, old(self).addr()),
            waker is Done ==> lines_without(
                old(queue)@.model,
                final(queue)@.model,
                old(self).addr(),
            ),
            !(waker is Done) ==> same_lines(old(queue)@.model, final(queue)@.model),
    {
        self.node.finish(&mut queue.queue)
    }
}

} // verus!
