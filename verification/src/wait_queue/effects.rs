//! What each operation does to the waiter that it is about, and that it leaves all others alone.

use vstd::prelude::*;

use crate::attempt::{Attempt, AttemptFrom};
use crate::effects::{
    all_stay, held_up, lemma_not_waiting, lines_without, others_carry, others_stay, popping, removing,
    same_holder, same_lines, same_rest,
};
use crate::queue::drain::carried;
use crate::queue::model::{Model, HEAD_MARKER};
use crate::queue::remove::{popped_place, precedes_place, removal};
use crate::queue::QueueView;
use crate::sync::SyncPrimitives;
use crate::wait_queue::notify::{notify_done, notify_taken, Notification, Notifying};
use crate::wait_queue::predicate::given;
use crate::wait_queue::wait::{
    added, keeps_waker, poll_cold_done, poll_if_done, poll_if_waited, poll_of, poll_wait_done, try_poll_done,
    until, Poll, PollUntil,
};
use crate::wait_queue::wake::{
    drain_begun, fresh, grown, passed, wake_done, wake_drained, wake_stopped, wakers_of, Progress,
    Waking, Woken, WAKER_LIST_CAPACITY,
};
use crate::wait_queue::{closed, WaitQueue, CLOSED, EMPTY};

verus! {

// Polling.

/// What a poll does, for every queue, also one in which others wait.
///
/// It has to wait if and only if its waiter is in line and another thread holds the lock. After a poll that
/// is pending, the waiter is in line, and the waker that is stored for it wakes the task that has polled:
/// it is the waker of this poll, or the one from before, of which `will_wake` has said so. A poll is ready
/// if and only if the waiter is not in line, and has been notified and is not to wait again, or the queue
/// has been closed. A waiter that goes to wait goes to the back of the line. One that is in line stays where
/// it is. All others stay where they are, with their wakers.
pub proof fn polling<W, F: Fn(&W, &W) -> bool>(
    before: QueueView<Option<W>>,
    a: usize,
    waker: W,
    will_wake: F,
    requeue: bool,
    polled: Attempt<Poll<()>>,
    after: QueueView<Option<W>>,
)
    requires
        before.model.wf(),
        before.model.nodes.contains(a),
        poll_wait_done(before, a, waker, will_wake, requeue, polled, after),
    ensures
        ({
            let m = before.model;
            let shut = m.state is Some && m.state != Some(EMPTY);
            let stays = m.dequeued.contains(a) && !requeue;
            &&& polled is Wait <==> m.queued.contains(a) && before.locked
            &&& !(polled is Spin)
            &&& polled == Attempt::Done(Poll::Ready(())) <==> !m.queued.contains(a) && (stays || shut)
            &&& polled == Attempt::Done(Poll::<()>::Pending) ==> {
                &&& after.model.queued.contains(a) && !after.model.dequeued.contains(a)
                &&& after.data[a] matches Some(stored)
                &&& stored == waker || (before.data[a] == Some(stored) && m.queued.contains(a)
                    && call_ensures(will_wake, (&stored, &waker), true))
            }
            &&& polled == Attempt::Done(Poll::<()>::Pending) && (forall|stored: W| #[trigger]
                call_ensures(will_wake, (&stored, &waker), true) ==> false) ==> after.data[a] == Some(
                waker,
            )
            &&& m.queued.contains(a) && before.data[a] is Some && (forall|stored: W| #[trigger]
                call_ensures(will_wake, (&stored, &waker), false) ==> false) ==> after.data[a]
                == before.data[a]
            &&& m.queued.contains(a) ==> after.model == m
            &&& polled is Wait ==> after == before
            &&& polled == Attempt::Done(Poll::Ready(())) ==> {
                &&& !after.model.queued.contains(a)
                &&& after.model.order() == m.order()
                &&& after.model.state == m.state
                &&& stays ==> after == before
                &&& !stays ==> !after.model.dequeued.contains(a) && after.data[a] == Some(waker)
            }
            &&& !m.queued.contains(a) && !stays && !shut ==> {
                &&& polled == Attempt::Done(Poll::<()>::Pending)
                &&& after.model.order() == m.order().push(a)
                &&& after.model.state is None
                &&& after.data[a] == Some(waker)
            }
            &&& forall|k: usize| #![auto]
                k != HEAD_MARKER ==> after.model.chains.contains_key(k) == m.chains.contains_key(k)
                    && (m.chains.contains_key(k) ==> after.model.chains[k] == m.chains[k])
            &&& after.model.nodes.contains(a)
            &&& others_stay(m, after.model, a)
            &&& others_carry(before, after, a)
            &&& same_holder(m, after.model)
            &&& after.locked == before.locked
            &&& after.room == before.room
            &&& same_rest(before, after)
        }),
{
    if before.model.queued.contains(a) && !before.locked {
        let keep = choose|keep: bool| #[trigger]
            keeps_waker(before.data[a], waker, will_wake, keep) && after == (QueueView {
                data: if keep {
                    before.data
                } else {
                    before.data.insert(a, Some(waker))
                },
                ..before
            });
        assert(keeps_waker(before.data[a], waker, will_wake, keep));
    }
}

/// A wait queue is closed if and only if it is empty, in another state than at first.
pub proof fn being_closed(m: Model)
    requires
        m.wf(),
    ensures
        closed(m) ==> m.order().len() == 0,
        closed(m) <==> m.order().len() == 0 && m.state != Some(EMPTY),
        !closed(Model::empty(EMPTY)),
        m.order().len() == 0 ==> closed(m.with_state(CLOSED)) && !closed(m.with_state(EMPTY)),
{
}

/// A task that is going to wait has a new waiter, which is not in line and has no waker. All others stay
/// where they are, with their wakers.
pub proof fn adding<W>(before: QueueView<Option<W>>, a: usize, after: QueueView<Option<W>>)
    requires
        before.model.wf(),
        before.room > 0,
        added(before, a, after),
    ensures
        after.room == before.room - 1,
        !before.model.nodes.contains(a),
        after.model.nodes.contains(a),
        !after.model.queued.contains(a),
        !after.model.dequeued.contains(a),
        after.data.contains_key(a) && after.data[a] is None,
        same_lines(before.model, after.model),
        after.model.state == before.model.state,
        others_stay(before.model, after.model, a),
        others_carry(before, after, a),
        same_holder(before.model, after.model),
        after.locked == before.locked,
        same_rest(before, after),
{
}

/// A task that waits to be notified, and then sees whether a predicate holds, for every queue, also one in
/// which others wait. If the poll is ready, the task is not in line, it has been notified or the queue
/// has been closed, and the predicate, asked of the queue as it is then, has answered true. If the task
/// has been notified, or the queue closed, and the predicate has answered false, the poll is pending.
/// The predicate is asked once at most, and not before.
pub proof fn polling_if<W, SP: SyncPrimitives, F: Fn(&W, &W) -> bool, P: FnOnce(
    &WaitQueue<W, SP>,
) -> bool>(
    before: QueueView<Option<W>>,
    a: usize,
    waker: W,
    will_wake: F,
    waited: Attempt<Poll<()>>,
    predicate: Option<P>,
    queue: WaitQueue<W, SP>,
    kept: Option<P>,
    polled: Attempt<Poll<()>>,
)
    requires
        before.model.wf(),
        before.model.nodes.contains(a),
        poll_wait_done(before, a, waker, will_wake, false, waited, queue@),
        poll_if_done(waited, predicate, queue, kept, polled),
    ensures
        ({
            let m = before.model;
            let shut = m.state is Some && m.state != Some(EMPTY);
            let free = !m.queued.contains(a) && (m.dequeued.contains(a) || shut);
            &&& polled == Attempt::Done(Poll::Ready(())) ==> {
                &&& free
                &&& !queue@.model.queued.contains(a)
                &&& predicate matches Some(predicate) && call_ensures(predicate, (&queue,), true)
            }
            &&& free ==> {
                &&& kept is None
                &&& polled is Done
                &&& polled == Attempt::Done(Poll::<()>::Pending) ==> predicate is None || call_ensures(
                    predicate->0,
                    (&queue,),
                    false,
                )
                &&& queue@.model.order() == m.order()
            }
            &&& free && predicate is Some && !call_ensures(predicate->0, (&queue,), true) ==> polled
                == Attempt::Done(Poll::<()>::Pending)
            &&& free && predicate is Some && !call_ensures(predicate->0, (&queue,), false) ==> polled
                == Attempt::Done(Poll::Ready(()))
            &&& predicate is None ==> polled != Attempt::Done(Poll::Ready(()))
            &&& !free ==> {
                &&& kept == predicate
                &&& polled is Wait <==> m.queued.contains(a) && before.locked
                &&& polled is Wait || polled == Attempt::Done(Poll::<()>::Pending)
                &&& queue@.model.queued.contains(a)
            }
            &&& !(polled is Spin)
        }),
{
    polling(before, a, waker, will_wake, false, waited, queue@);
}

/// The same, for a caller who asks the predicate: it is handed out, once, if and only if the task is not in
/// line, and has been notified or the queue has been closed.
pub proof fn polling_before_asking<W, F: Fn(&W, &W) -> bool, P>(
    before: QueueView<Option<W>>,
    a: usize,
    waker: W,
    will_wake: F,
    waited: Attempt<Poll<()>>,
    after: QueueView<Option<W>>,
    predicate: Option<P>,
    kept: Option<P>,
    polled: Attempt<Poll<Option<P>>>,
)
    requires
        before.model.wf(),
        before.model.nodes.contains(a),
        poll_wait_done(before, a, waker, will_wake, false, waited, after),
        poll_if_waited(waited, predicate, kept, polled),
    ensures
        ({
            let m = before.model;
            let shut = m.state is Some && m.state != Some(EMPTY);
            let free = !m.queued.contains(a) && (m.dequeued.contains(a) || shut);
            &&& free ==> polled == Attempt::Done(Poll::Ready(predicate)) && kept is None
            &&& !free ==> {
                &&& kept == predicate
                &&& polled is Wait <==> m.queued.contains(a) && before.locked
                &&& polled is Wait || polled == Attempt::Done(Poll::<Option<P>>::Pending)
                &&& after.model.queued.contains(a)
            }
        }),
{
    polling(before, a, waker, will_wake, false, waited, after);
}

// Predicates that give something.

/// What a predicate gave is what its answers hold, in order: an answer that gives nothing adds nothing, and
/// if all give something, these are all.
pub proof fn given_in_order<T>(answers: Seq<Option<T>>, more: Seq<Option<T>>, value: T)
    ensures
        given(Seq::<Option<T>>::empty()) == Seq::<T>::empty(),
        given(answers.push(Some(value))) == given(answers).push(value),
        given(answers.push(None)) == given(answers),
        given(answers + more) == given(answers) + given(more),
        (forall|i: int| 0 <= i < answers.len() ==> (#[trigger] answers[i]) is Some) ==> given(
            answers,
        ) == answers.map_values(|answer: Option<T>| answer->0),
    decreases answers.len() + more.len(),
{
    assert(answers.push(Some(value)).drop_last() =~= answers);
    assert(answers.push(None).drop_last() =~= answers);
    if more.len() > 0 {
        given_in_order(answers, more.drop_last(), value);
        assert((answers + more).drop_last() =~= answers + more.drop_last());
        assert((answers + more).last() == more.last());
        assert(given(answers + more) =~= given(answers) + given(more));
    } else {
        assert(answers + more =~= answers);
        assert(given(answers) + given(more) =~= given(answers));
        if answers.len() > 0 {
            given_in_order(answers.drop_last(), more, value);
            if forall|i: int| 0 <= i < answers.len() ==> (#[trigger] answers[i]) is Some {
                assert(answers[answers.len() - 1] is Some);
                assert forall|i: int| 0 <= i < answers.drop_last().len() implies (
                #[trigger] answers.drop_last()[i]) is Some by {
                    assert(answers[i] is Some);
                }
                assert(given(answers) =~= answers.map_values(|answer: Option<T>| answer->0));
            }
        } else {
            assert(given(answers) =~= answers.map_values(|answer: Option<T>| answer->0));
        }
    }
}

/// A poll of a task that waits until a predicate gives something asks the predicate once if that gives
/// something, of the queue as it is, which is left as it was. Otherwise it goes on to wait, and if it has
/// not to wait for the lock, asks once more, of the queue as it is then. Whatever the predicate gives is
/// handed to the caller, and nothing else is. If the poll is pending, the predicate has given nothing since
/// the task was in line, with a waker that wakes it. If it says that the queue is closed, the queue is.
pub proof fn polling_until<
    W,
    SP: SyncPrimitives,
    F: Fn(&W, &W) -> bool,
    P: FnMut(&WaitQueue<W, SP>) -> Option<T>,
    T,
>(
    before: WaitQueue<W, SP>,
    a: usize,
    waker: W,
    will_wake: F,
    predicate: P,
    asked: Seq<Option<T>>,
    answers: Seq<Option<T>>,
    polled: Attempt<PollUntil<T>>,
    after: WaitQueue<W, SP>,
)
    requires
        before@.model.wf(),
        before@.model.nodes.contains(a),
        try_poll_done(before, a, waker, will_wake, predicate, asked, answers, polled, after),
    ensures
        ({
            let n = asked.len() as int;
            &&& answers.len() > n && answers.take(n) == asked
            &&& call_ensures(predicate, (&before,), answers[n])
            &&& answers.len() - n == if answers[n] is Some || polled is Wait {
                1int
            } else {
                2
            }
            &&& answers.len() - n == 2 ==> call_ensures(predicate, (&after,), answers[n + 1])
            &&& answers[n] is Some ==> polled is Done && after == before
            &&& given(answers) == given(asked) + (match polled {
                Attempt::Done(PollUntil::Ready(found)) => seq![found],
                _ => Seq::empty(),
            })
            &&& polled is Done && polled->Done_0 is Ready <==> answers.last() is Some
            &&& polled matches Attempt::Done(PollUntil::Ready(found)) ==> answers.last() == Some(found)
            &&& polled is Wait <==> answers[n] is None && before@.model.queued.contains(a)
                && before@.locked
            &&& polled is Wait ==> after@ == before@
            &&& !(polled is Spin)
            &&& polled matches Attempt::Done(PollUntil::Pending) ==> {
                &&& after@.model.queued.contains(a)
                &&& after@.data[a] matches Some(stored)
                &&& stored == waker || call_ensures(will_wake, (&stored, &waker), true)
            }
            &&& polled matches Attempt::Done(PollUntil::Closed) ==> {
                &&& !after@.model.queued.contains(a)
                &&& after@.model.state is Some && after@.model.state != Some(EMPTY)
                &&& before@.model.state is Some && before@.model.state != Some(EMPTY)
            }
            &&& before@.model.queued.contains(a) ==> after@.model == before@.model
            &&& others_stay(before@.model, after@.model, a)
            &&& others_carry(before@, after@, a)
            &&& after@.locked == before@.locked
        }),
{
    let n = asked.len() as int;
    let found = choose|found: Option<T>| #[trigger]
        call_ensures(predicate, (&before,), found) && match found {
            Some(found) => {
                &&& polled == Attempt::Done(PollUntil::Ready(found))
                &&& answers == asked.push(Some(found))
                &&& after == before
            },
            None => exists|waited: Attempt<Poll<()>>| #[trigger]
                poll_wait_done(before@, a, waker, will_wake, true, waited, after@)
                    && poll_cold_done(
                    waited,
                    predicate,
                    after,
                    asked.push(None),
                    answers,
                    polled,
                ),
        };
    assert(call_ensures(predicate, (&before,), found));
    match found {
        Some(found) => {
            given_in_order(asked, Seq::empty(), found);
            assert(answers.take(n) =~= asked);
            assert(given(answers) =~= given(asked) + seq![found]);
        },
        None => {
            let waited = choose|waited: Attempt<Poll<()>>| #[trigger]
                poll_wait_done(before@, a, waker, will_wake, true, waited, after@)
                    && poll_cold_done(
                    waited,
                    predicate,
                    after,
                    asked.push(None),
                    answers,
                    polled,
                );
            polling(before@, a, waker, will_wake, true, waited, after@);
            polling_on(waited, predicate, after, asked.push(None), answers, polled);
            assert(asked.push(None).drop_last() =~= asked);
            assert(answers.take(n) =~= asked);
            if !(polled matches Attempt::Done(PollUntil::Ready(_))) {
                assert(given(asked) + Seq::<T>::empty() =~= given(asked));
            }
        },
    }
}

/// A poll that goes on to wait asks the predicate once when it has waited, of the queue as it is then, and
/// not at all if it has to wait for the lock. What the predicate gives is handed to the caller.
pub proof fn polling_on<
    W,
    SP: SyncPrimitives,
    P: FnMut(&WaitQueue<W, SP>) -> Option<T>,
    T,
>(
    waited: Attempt<Poll<()>>,
    predicate: P,
    queue: WaitQueue<W, SP>,
    asked: Seq<Option<T>>,
    answers: Seq<Option<T>>,
    polled: Attempt<PollUntil<T>>,
)
    requires
        poll_cold_done(waited, predicate, queue, asked, answers, polled),
    ensures
        polled is Done <==> waited is Done,
        !(polled is Spin),
        polled is Wait ==> answers == asked,
        polled is Done ==> {
            &&& answers.len() == asked.len() + 1
            &&& answers.take(asked.len() as int) == asked
            &&& call_ensures(predicate, (&queue,), answers.last())
        },
        polled matches Attempt::Done(PollUntil::Ready(found)) ==> answers.last() == Some(found),
        polled matches Attempt::Done(PollUntil::Pending) ==> answers.last() is None && waited
            == Attempt::Done(Poll::<()>::Pending),
        polled matches Attempt::Done(PollUntil::Closed) ==> answers.last() is None && waited is Done
            && waited->Done_0 is Ready,
        given(answers) == given(asked) + (match polled {
            Attempt::Done(PollUntil::Ready(found)) => seq![found],
            _ => Seq::empty(),
        }),
{
    if let Attempt::Done(waited) = waited {
        let found = choose|found: Option<T>| #[trigger]
            call_ensures(predicate, (&queue,), found) && polled == Attempt::Done(
                until(waited, found),
            ) && answers == asked.push(found);
        assert(call_ensures(predicate, (&queue,), found));
        assert(answers.drop_last() =~= asked);
        assert(answers.take(asked.len() as int) =~= asked);
        match found {
            Some(found) => {
                assert(given(answers) =~= given(asked) + seq![found]);
            },
            None => {
                assert(given(answers) =~= given(asked) + Seq::<T>::empty());
            },
        }
    } else {
        assert(given(answers) =~= given(asked) + Seq::<T>::empty());
    }
}

/// The values that polls hand to the caller.
pub open spec fn handed<T>(polls: Seq<Attempt<PollUntil<T>>>) -> Seq<T>
    decreases polls.len(),
{
    if polls.len() == 0 {
        Seq::empty()
    } else {
        handed(polls.drop_last()) + (match polls.last() {
            Attempt::Done(PollUntil::Ready(found)) => seq![found],
            _ => Seq::empty(),
        })
    }
}

/// A poll, from its beginning or from where it goes on to wait.
pub open spec fn poll_made<
    W,
    SP: SyncPrimitives,
    F: Fn(&W, &W) -> bool,
    P: FnMut(&WaitQueue<W, SP>) -> Option<T>,
    T,
>(
    before: WaitQueue<W, SP>,
    a: usize,
    waker: W,
    will_wake: F,
    predicate: P,
    asked: Seq<Option<T>>,
    answers: Seq<Option<T>>,
    polled: Attempt<PollUntil<T>>,
    after: WaitQueue<W, SP>,
) -> bool {
    ||| try_poll_done(before, a, waker, will_wake, predicate, asked, answers, polled, after)
    ||| exists|waited: Attempt<Poll<()>>| #[trigger]
        poll_wait_done(before@, a, waker, will_wake, true, waited, after@) && poll_cold_done(
            waited,
            predicate,
            after,
            asked,
            answers,
            polled,
        )
}

/// However often a task polls, in whatever state it finds the queue, and however each poll goes on: the
/// values that the predicate gives are the values that the polls hand to the caller, each once, in
/// order. Before the poll at place `i` there are the answers `log[i]`, and after it those at the next place.
pub proof fn no_value_is_lost<
    W,
    SP: SyncPrimitives,
    F: Fn(&W, &W) -> bool,
    P: FnMut(&WaitQueue<W, SP>) -> Option<T>,
    T,
>(
    found: Seq<WaitQueue<W, SP>>,
    a: usize,
    wakers: Seq<W>,
    will_wake: F,
    predicate: P,
    log: Seq<Seq<Option<T>>>,
    polls: Seq<Attempt<PollUntil<T>>>,
    left: Seq<WaitQueue<W, SP>>,
)
    requires
        found.len() == polls.len(),
        wakers.len() == polls.len(),
        left.len() == polls.len(),
        log.len() == polls.len() + 1,
        log[0] == Seq::<Option<T>>::empty(),
        forall|i: int| #![trigger found[i]]
            0 <= i < polls.len() ==> found[i]@.model.wf() && found[i]@.model.nodes.contains(a)
                && poll_made(
                found[i],
                a,
                wakers[i],
                will_wake,
                predicate,
                log[i],
                log[i + 1],
                polls[i],
                left[i],
            ),
    ensures
        given(log.last()) == handed(polls),
    decreases polls.len(),
{
    if polls.len() > 0 {
        let n = polls.len() - 1;
        let (found1, wakers1, left1) = (found.take(n), wakers.take(n), left.take(n));
        let (log1, polls1) = (log.take(n + 1), polls.take(n));
        assert forall|i: int| #![trigger found1[i]] 0 <= i < polls1.len() implies found1[i]@.model.wf()
            && found1[i]@.model.nodes.contains(a) && poll_made(
            found1[i],
            a,
            wakers1[i],
            will_wake,
            predicate,
            log1[i],
            log1[i + 1],
            polls1[i],
            left1[i],
        ) by {
            assert(found1[i] == found[i]);
            assert(log1[i + 1] == log[i + 1]);
        }
        no_value_is_lost(found1, a, wakers1, will_wake, predicate, log1, polls1, left1);
        assert(polls1 =~= polls.drop_last());
        assert(log1.last() == log[n]);
        assert(found[n]@.model.wf());
        if try_poll_done(
            found[n],
            a,
            wakers[n],
            will_wake,
            predicate,
            log[n],
            log[n + 1],
            polls[n],
            left[n],
        ) {
            polling_until(
                found[n],
                a,
                wakers[n],
                will_wake,
                predicate,
                log[n],
                log[n + 1],
                polls[n],
                left[n],
            );
        } else {
            let waited = choose|waited: Attempt<Poll<()>>| #[trigger]
                poll_wait_done(found[n]@, a, wakers[n], will_wake, true, waited, left[n]@)
                    && poll_cold_done(
                    waited,
                    predicate,
                    left[n],
                    log[n],
                    log[n + 1],
                    polls[n],
                );
            polling_on(waited, predicate, left[n], log[n], log[n + 1], polls[n]);
        }
    }
}

/// A poll that does not say whether the queue is closed hands over what was given, and nothing else.
pub proof fn handing_over<T>(polled: Attempt<PollUntil<T>>)
    ensures
        forall|found: T|
            polled == Attempt::Done(PollUntil::Ready(found)) <==> #[trigger] poll_of(polled)
                == Attempt::Done(Poll::Ready(found)),
        poll_of(polled) is Done <==> polled is Done,
        !(polled is Done) ==> poll_of(polled) is Wait,
{
}

// Notifying.

/// The notification of one waiter is about that one, `node`: the one that came first, or the one that came
/// last, or the one that it has been about before. When it is done, that waiter and no other has been
/// taken out, and its waker is handed to the caller; if nobody waits, nothing is changed. Until then
/// everybody stays in line. All others keep their wakers.
pub proof fn notifying<W, SP: SyncPrimitives>(
    before: QueueView<Option<W>>,
    notification: Notification<W, SP>,
    done: AttemptFrom<Option<W>, Notification<W, SP>>,
    after: QueueView<Option<W>>,
) -> (node: Option<usize>)
    requires
        before.model.wf(),
        before.locked || before.model.waiting is None,
        notification.in_queue(before),
        notify_done(before, notification.last(), notification.progress(), done, after),
    ensures
        ({
            let m = before.model;
            let taken = notification.progress().taken;
            let last = notification.last();
            &&& node matches Some(a) ==> m.queued.contains(a) && (match taken {
                Some((b, _)) => a == b,
                None => {
                    &&& m.order().contains(a)
                    &&& !last ==> a == m.order()[0]
                    &&& last && m.waiting is None ==> a == m.order().last()
                    &&& last ==> forall|i: int|
                        0 < i < m.order().len() && m.waiting == Some(#[trigger] m.order()[i - 1])
                            ==> a == m.order()[i]
                },
            })
            &&& node is None && done is Done <==> taken is None && m.order().len() == 0
            &&& node matches Some(a) ==> (done is Done <==> !held_up(m, a) && (taken is Some
                || !m.pending.contains_key(a)))
            &&& node is None && !(done is Done) ==> before.locked && notification.progress().spins is None
            &&& done matches AttemptFrom::Done(waker) ==> match node {
                None => {
                    &&& waker is None
                    &&& after.model == m && after.data == before.data
                },
                Some(a) => {
                    &&& after.model.dequeued.contains(a) && !after.model.queued.contains(a)
                    &&& others_stay(m, after.model, a)
                    &&& lines_without(m, after.model, a)
                    &&& after.model.state == if m.order() == seq![a] {
                        Some(0)
                    } else {
                        m.state
                    }
                    &&& after.model.open == m.open
                    &&& !after.locked
                    &&& others_carry(before, after, a)
                    &&& taken matches Some((_, kept)) ==> waker == kept && after.data == before.data
                    &&& taken is None ==> waker == before.data[a] && after.data[a] is None
                },
            }
            &&& !(done is Done) ==> {
                &&& all_stay(m, after.model)
                &&& same_lines(m, after.model)
                &&& after.model.state == m.state
                &&& after.locked
                &&& done.again() matches Some(again)
                &&& again.last() == last
                &&& match again.progress().taken {
                    None => taken is None && after.data == before.data,
                    Some((a, kept)) => {
                        &&& node == Some(a)
                        &&& others_carry(before, after, a)
                        &&& taken matches Some((_, earlier)) ==> kept == earlier && after.data
                            == before.data
                        &&& taken is None ==> kept == before.data[a] && after.data[a] is None
                    },
                }
            }
            &&& after.room == before.room
            &&& after.id == before.id
        }),
{
    let m = before.model;
    let last = notification.last();
    let progress = notification.progress();
    lemma_not_waiting(m);
    match progress.taken {
        Some((a, waker)) => {
            lemma_taken_waiter(before, last, progress.spins->0, a, waker, done, after);
            Some(a)
        },
        None => if m.order().len() == 0 {
            m.lemma_no_follower(HEAD_MARKER);
            None
        } else {
            let i = if last {
                popped_place(m)
            } else {
                0
            };
            let a = m.order()[i];
            if progress.spins is None && before.locked {
                None
            } else if !m.pending.contains_key(a) {
                lemma_notified_place(m, last);
                popping(m);
                let mid = QueueView {
                    model: m.awaiting(None),
                    data: before.data.insert(a, None),
                    locked: true,
                    ..before
                };
                assert(notify_taken(mid, last, 0, a, before.data[a], done, after));
                lemma_taken_waiter(mid, last, 0, a, before.data[a], done, after);
                assert(same_lines(m, mid.model));
                Some(a)
            } else {
                lemma_notified_place(m, last);
                popping(m);
                Some(a)
            }
        },
    }
}

/// The waiter that is notified is in line.
proof fn lemma_notified_place(m: Model, last: bool)
    requires
        m.wf(),
        m.order().len() > 0,
        m.waiting matches Some(w) ==> precedes_place(m, w),
    ensures
        last ==> m.has(HEAD_MARKER, popped_place(m)),
        m.has(HEAD_MARKER, 0),
{
    if m.waiting is None {
        assert(m.has(HEAD_MARKER, m.order().len() - 1));
    }
}

/// What becomes of a waiter whose waker has been taken.
proof fn lemma_taken_waiter<W, SP: SyncPrimitives>(
    before: QueueView<Option<W>>,
    last: bool,
    spins: nat,
    a: usize,
    waker: Option<W>,
    done: AttemptFrom<Option<W>, Notification<W, SP>>,
    after: QueueView<Option<W>>,
)
    requires
        before.model.wf(),
        before.locked,
        before.model.queued.contains(a),
        notify_taken(before, last, spins, a, waker, done, after),
    ensures
        done is Done <==> !held_up(before.model, a),
        done matches AttemptFrom::Done(handed) ==> {
            &&& handed == waker
            &&& after.model.dequeued.contains(a) && !after.model.queued.contains(a)
            &&& others_stay(before.model, after.model, a)
            &&& lines_without(before.model, after.model, a)
            &&& after.model.state == if before.model.order() == seq![a] {
                Some(0)
            } else {
                before.model.state
            }
            &&& after.model.open == before.model.open
            &&& !after.locked
        },
        !(done is Done) ==> {
            &&& all_stay(before.model, after.model)
            &&& same_lines(before.model, after.model)
            &&& after.model.state == before.model.state
            &&& after.locked
            &&& done.again() matches Some(again)
            &&& again.last() == last
            &&& again.progress().taken == Some((a, waker))
        },
        after.data == before.data,
        after.room == before.room,
        after.id == before.id,
{
    let m = before.model;
    m.lemma_position(a);
    let (k, i) = m.position(a);
    if done is Done {
        let out = QueueView { model: m.awaiting(None).removed(k, i, 0), ..before };
        let emptied = Attempt::Done(k == HEAD_MARKER && m.order().len() == 1);
        assert(removal(before, a, 0, false, emptied, out));
        removing(before, a, 0, false, emptied, out);
        assert(after.model == out.model);
    }
}

// Notifying all.

/// The wakers that waiters carry are handed out as they stand in line: a waiter without one adds none, and
/// if all have one, these are all.
pub proof fn wakers_in_line<W>(data: Seq<Option<W>>, more: Seq<Option<W>>, waker: W)
    ensures
        wakers_of(Seq::<Option<W>>::empty()) == Seq::<W>::empty(),
        wakers_of(data.push(Some(waker))) == wakers_of(data).push(waker),
        wakers_of(data.push(None)) == wakers_of(data),
        wakers_of(data + more) == wakers_of(data) + wakers_of(more),
        (forall|i: int| 0 <= i < data.len() ==> (#[trigger] data[i]) is Some) ==> wakers_of(data)
            == data.map_values(|waker: Option<W>| waker->0),
    decreases data.len() + more.len(),
{
    assert(data.push(Some(waker)).drop_last() =~= data);
    assert(data.push(None).drop_last() =~= data);
    assert(wakers_of(data.push(Some(waker))) =~= wakers_of(data).push(waker));
    assert(wakers_of(data.push(None)) =~= wakers_of(data));
    if more.len() > 0 {
        wakers_in_line(data, more.drop_last(), waker);
        assert((data + more).drop_last() =~= data + more.drop_last());
        assert((data + more).last() == more.last());
        assert(wakers_of(data + more) =~= wakers_of(data) + wakers_of(more));
    } else {
        assert(data + more =~= data);
        assert(wakers_of(data) + wakers_of(more) =~= wakers_of(data));
        if data.len() > 0 {
            wakers_in_line(data.drop_last(), more, waker);
            if forall|i: int| 0 <= i < data.len() ==> (#[trigger] data[i]) is Some {
                assert(data[data.len() - 1] is Some);
                assert forall|i: int| 0 <= i < data.drop_last().len() implies (
                #[trigger] data.drop_last()[i]) is Some by {
                    assert(data[i] is Some);
                }
                assert(wakers_of(data) =~= data.map_values(|waker: Option<W>| waker->0));
            }
        } else {
            assert(wakers_of(data) =~= data.map_values(|waker: Option<W>| waker->0));
        }
    }
}

/// A try at notifying the waiters in a drain notifies the first `n` of them, and nobody else: they are taken
/// out, and their wakers are taken, in line, behind those that had been collected. If it has to stop for an
/// insertion, the waker of the next waiter has been taken as well, and that waiter stays. All others, in the
/// drain or not, stay where they are, with their wakers. The queue stays as it is.
pub proof fn waking_in_a_drain<W, SP: SyncPrimitives>(
    before: QueueView<Option<W>>,
    s: usize,
    spins: nat,
    batch: Seq<W>,
    woken: Woken<W, SP>,
    after: QueueView<Option<W>>,
) -> (n: int)
    requires
        before.model.chains.contains_key(s),
        s != HEAD_MARKER,
        before.model.chains[s].no_duplicates(),
        forall|j: int| #![trigger before.model.chains[s][j]]
            0 <= j < before.model.chains[s].len() ==> {
                let a = before.model.chains[s][j];
                before.model.queued.contains(a) && !before.model.dequeued.contains(a)
                    && before.data.contains_key(a)
            },
        wake_drained(before, s, spins, batch, woken, after),
    ensures
        ({
            let m = before.model;
            let line = m.chains[s];
            let seen = if woken is Spin || woken is Wait {
                n + 1
            } else {
                n
            };
            let wakers = wakers_of(line.take(seen).map_values(|a: usize| before.data[a]));
            &&& 0 <= n <= seen <= line.len()
            &&& forall|j: int| #![trigger line[j]]
                0 <= j < n ==> after.model.dequeued.contains(line[j]) && !after.model.queued.contains(
                    line[j],
                )
            &&& forall|j: int| #![trigger line[j]]
                n <= j < line.len() ==> after.model.queued.contains(line[j])
                    && !after.model.dequeued.contains(line[j])
            &&& forall|j: int| #![trigger line[j]]
                0 <= j < line.len() ==> after.data[line[j]] == if j < seen {
                    None
                } else {
                    before.data[line[j]]
                }
            &&& forall|b: usize| #![auto]
                !line.contains(b) ==> {
                    &&& after.model.queued.contains(b) == m.queued.contains(b)
                    &&& after.model.dequeued.contains(b) == m.dequeued.contains(b)
                    &&& after.data.contains_key(b) ==> after.data[b] == before.data[b]
                }
            &&& after.model.nodes == m.nodes
            &&& after.model.pending == m.pending
            &&& after.data.dom() == before.data.dom()
            &&& forall|k: usize| #![auto]
                k != s ==> after.model.chains.contains_key(k) == m.chains.contains_key(k) && (
                m.chains.contains_key(k) ==> after.model.chains[k] == m.chains[k])
            &&& after.model.state == m.state
            &&& after.id == before.id
            &&& match woken {
                Woken::Done(handed) => {
                    &&& n == line.len()
                    &&& handed@ == batch + wakers
                    &&& !after.model.chains.contains_key(s)
                    &&& !after.locked && after.model.open is None
                    &&& after.room == before.room + 1
                },
                Woken::Batch(handed, again) => {
                    &&& n > 0
                    &&& handed@ == batch + wakers
                    &&& handed@.len() >= WAKER_LIST_CAPACITY
                    &&& after.model.chains.contains_key(s) && after.model.chains[s] == line.skip(n)
                    &&& !after.locked && after.model.open is None
                    &&& again.progress() == Progress::<W>::Unlocked(s)
                },
                _ => {
                    &&& after.model.chains.contains_key(s) && after.model.chains[s] == line.skip(n)
                    &&& after.locked == before.locked && after.model.open == m.open
                    &&& n + 1 < line.len() && m.pending.contains_key(line[n + 1])
                    &&& woken.again() matches Some(again)
                    &&& again.progress() matches Progress::Draining(t, _, collected)
                    &&& t == s && collected == batch + wakers
                },
            }
        }),
{
    let m = before.model;
    let line = m.chains[s];
    let data = carried(before.data, line);
    let n = choose|n: int| #[trigger]
        passed(before, s, batch, n) && wake_stopped(before, s, spins, batch, n, woken, after);
    let seen = if woken is Spin || woken is Wait {
        n + 1
    } else {
        n
    };
    assert forall|i: int, j: int| 0 <= i < line.len() && 0 <= j < line.len() && line[i]
        == line[j] implies i == j by {}
    assert forall|c: int, j: int|
        0 <= c <= line.len() && 0 <= j < line.len() implies #[trigger] line.take(c).contains(line[j])
        == (j < c) by {
        if j < c {
            assert(line.take(c)[j] == line[j]);
        } else if line.take(c).contains(line[j]) {
            let i = line.take(c).index_of(line[j]);
            assert(line[i] == line[j]);
        }
    }
    assert forall|c: int, b: usize| 0 <= c <= line.len() && #[trigger] line.take(c).contains(
        b,
    ) implies line.contains(b) by {
        let i = line.take(c).index_of(b);
        assert(line[i] == b);
    }
    assert(line.take(line.len() as int) =~= line);
    assert(data.take(data.len() as int) =~= data);
    let carry = line.take(seen).map_values(|a: usize| before.data[a]);
    assert(data.take(seen) =~= carry);
    assert(grown(batch, data.take(seen)) == batch + wakers_of(carry));
    n
}

/// A try at notifying all waiters, or at closing the queue, is about those that are in line, or in its
/// drain: each of them stays, or is taken out, and keeps its waker or has it taken; when the try is done
/// all have been taken out. Everybody else stays where they are, with their wakers. Once the waiters have
/// been moved to the drain, the queue has nobody in line, and carries the state that it is to be left in;
/// from then on the queue is left alone.
pub proof fn waking_all<W, SP: SyncPrimitives>(
    before: QueueView<Option<W>>,
    waking: Waking<W, SP>,
    woken: Woken<W, SP>,
    after: QueueView<Option<W>>,
)
    requires
        before.model.wf(),
        before.data.dom() == before.model.nodes,
        before.locked || before.model.open is None,
        waking.in_queue(before),
        wake_done(before, waking.state(), waking.progress(), woken, after),
    ensures
        ({
            let m = before.model;
            let own = match waking.progress() {
                Progress::Draining(s, _, _) => s,
                Progress::Unlocked(s) => s,
                _ => HEAD_MARKER,
            };
            let line = m.chains[own];
            &&& forall|b: usize| #![auto]
                !line.contains(b) ==> {
                    &&& after.model.queued.contains(b) == m.queued.contains(b)
                    &&& after.model.dequeued.contains(b) == m.dequeued.contains(b)
                    &&& after.data.contains_key(b) ==> after.data[b] == before.data[b]
                }
            &&& forall|j: int| #![trigger line[j]]
                0 <= j < line.len() ==> {
                    &&& after.model.queued.contains(line[j]) != after.model.dequeued.contains(line[j])
                    &&& after.data[line[j]] is None || after.data[line[j]] == before.data[line[j]]
                    &&& woken is Done ==> after.model.dequeued.contains(line[j])
                        && after.data[line[j]] is None
                    &&& after.model.dequeued.contains(line[j]) ==> after.data[line[j]] is None
                }
            &&& after.model.nodes == m.nodes
            &&& after.data.dom() == before.data.dom()
            &&& forall|k: usize| #![auto]
                k != own && m.chains.contains_key(k) ==> after.model.chains.contains_key(k)
                    && after.model.chains[k] == m.chains[k]
            &&& own != HEAD_MARKER ==> after.model.order() == m.order() && after.model.state == m.state
            &&& own == HEAD_MARKER && m.order().len() == 0 ==> {
                &&& woken matches Woken::Done(wakers) && wakers@.len() == 0
                &&& after.model.state == if waking.state() == EMPTY {
                    m.state
                } else {
                    Some(waking.state())
                }
                &&& after.model.order() == m.order()
            }
            &&& own == HEAD_MARKER && m.order().len() > 0 ==> {
                let moved = woken is Done || woken is Batch || woken.again()->0.progress() is Draining;
                &&& moved ==> after.model.order().len() == 0 && after.model.state == Some(
                    waking.state(),
                )
                &&& !moved ==> {
                    &&& after.model.order() == m.order() && after.model.state == m.state
                    &&& after.data == before.data
                    &&& before.locked && waking.progress() is Start || m.pending.contains_key(
                        m.order()[0],
                    )
                }
            }
            &&& woken is Done || woken is Batch ==> line.len() > 0 ==> !after.locked
            &&& after.id == before.id
        }),
{
    let m = before.model;
    waking.lemma_progress();
    let own = match waking.progress() {
        Progress::Draining(s, _, _) => s,
        Progress::Unlocked(s) => s,
        _ => HEAD_MARKER,
    };
    let line = m.chains[own];
    assert forall|j: int| 0 <= j < line.len() implies m.queued.contains(#[trigger] line[j])
        && !m.dequeued.contains(line[j]) && before.data.contains_key(line[j]) by {
        assert(m.has(own, j));
    }
    assert forall|i: int, j: int| 0 <= i < line.len() && 0 <= j < line.len() && i != j implies line[i]
        != line[j] by {
        assert(m.has(own, i) && m.has(own, j));
    }
    match waking.progress() {
        Progress::Draining(s, spins, batch) => {
            let n = waking_in_a_drain(before, s, spins, batch, woken, after);
        },
        Progress::Unlocked(s) => if !before.locked {
            let begun = QueueView { model: m.opened(s), locked: true, ..before };
            let n = waking_in_a_drain(begun, s, 0, Seq::empty(), woken, after);
        },
        _ => {
            let held = if waking.progress() is Start {
                QueueView { locked: true, ..before }
            } else {
                before
            };
            if m.order().len() > 0 && (waking.progress() is Locked || !before.locked)
                && !m.pending.contains_key(m.order()[0]) {
                let s = choose|s: usize| #[trigger]
                    fresh(m, s) && wake_drained(
                        drain_begun(held, s, waking.state()),
                        s,
                        0,
                        Seq::empty(),
                        woken,
                        after,
                    );
                assert(fresh(m, s));
                assert(s != HEAD_MARKER);
                let moved = drain_begun(held, s, waking.state());
                assert(moved.model.chains[s] == line);
                let n = waking_in_a_drain(moved, s, 0, Seq::empty(), woken, after);
            }
        },
    }
}

} // verus!
