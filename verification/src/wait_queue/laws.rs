//! What holds of wait queues as a whole.

use vstd::prelude::*;

use crate::attempt::{Attempt, AttemptFrom};
use crate::node::dropping;
use crate::queue::drain::carried;
use crate::queue::model::{Model, HEAD_MARKER};
use crate::queue::state::QueueState;
use crate::queue::{LockedQueue, QueueView};
use crate::runs::{
    lemma_without_both, lemma_without_in, lemma_without_none, lemma_without_others,
    lemma_without_twice, without,
};
use crate::sync::SyncPrimitives;
use crate::wait_queue::wake::{
    drain_begun, fresh, grown, one, passed, wake_done, wake_drained, wake_stopped, wakers_of,
    without_wakers, Progress, Waking, Woken, WAKER_LIST_CAPACITY,
};
use crate::wait_queue::{closed, CLOSED, EMPTY};
use crate::wait_queue::notify::{notify_done, Notification, Notifying};
use crate::wait_queue::wait::{added, poll_wait_done, Poll};

verus! {

/// A poll that is pending leaves its waiter in the queue, with a waker that wakes the task which has
/// polled, so that a notification cannot miss it: the waker of this poll, or the one from before, of which
/// `will_wake` has said so.
pub proof fn pending_means_waiting<W, F: Fn(&W, &W) -> bool>(
    before: QueueView<Option<W>>,
    a: usize,
    waker: W,
    will_wake: F,
    requeue: bool,
    after: QueueView<Option<W>>,
)
    requires
        poll_wait_done(
            before,
            a,
            waker,
            will_wake,
            requeue,
            Attempt::Done(Poll::<()>::Pending),
            after,
        ),
    ensures
        after.model.queued.contains(a),
        after.data[a] is Some,
        after.data[a] == Some(waker) || (after.data[a] == before.data[a] && call_ensures(
            will_wake,
            (&after.data[a]->0, &waker),
            true,
        )),
{
}

/// A waiter that polls for the first time goes to the back of the line.
pub proof fn first_poll_waits<W, F: Fn(&W, &W) -> bool>(
    before: QueueView<Option<W>>,
    a: usize,
    waker: W,
    will_wake: F,
    requeue: bool,
    polled: Attempt<Poll<()>>,
    after: QueueView<Option<W>>,
)
    requires
        before.model.wf(),
        before.model.unqueued(a),
        !closed(before.model),
        poll_wait_done(before, a, waker, will_wake, requeue, polled, after),
    ensures
        polled == Attempt::Done(Poll::<()>::Pending),
        after.model.order() == before.model.order().push(a),
        after.data[a] == Some(waker),
{
}

/// A waiter that is in line keeps its place when it is polled.
pub proof fn polling_keeps_the_place<W, F: Fn(&W, &W) -> bool>(
    before: QueueView<Option<W>>,
    a: usize,
    waker: W,
    will_wake: F,
    requeue: bool,
    polled: Attempt<Poll<()>>,
    after: QueueView<Option<W>>,
)
    requires
        before.model.queued.contains(a),
        poll_wait_done(before, a, waker, will_wake, requeue, polled, after),
    ensures
        !(polled matches Attempt::Done(Poll::Ready(_))),
        after.model == before.model,
        after.locked == before.locked,
        forall|b: usize| b != a ==> #[trigger] after.data[b] == before.data[b],
{
}

/// The place in line of the waiter that is notified.
pub open spec fn notified_place(m: Model, last: bool) -> int {
    if last {
        m.order().len() - 1
    } else {
        0
    }
}

/// When nobody holds the lock, and no insertion is under way next to the waiter at the front, or at
/// the back, then one call notifies that waiter: its waker is handed out, it leaves the queue, and
/// its next poll is ready. The others stay in line.
pub proof fn notified_waiter_is_ready<W, SP: SyncPrimitives, F: Fn(&W, &W) -> bool>(
    before: QueueView<Option<W>>,
    last: bool,
    done: AttemptFrom<Option<W>, Notification<W, SP>>,
    after: QueueView<Option<W>>,
    waker: W,
    will_wake: F,
    polled: Attempt<Poll<()>>,
    later: QueueView<Option<W>>,
)
    requires
        before.model.wf(),
        !before.locked,
        before.model.waiting is None,
        before.model.order().len() > 0,
        ({
            let order = before.model.order();
            let i = notified_place(before.model, last);
            &&& !before.model.pending.contains_key(order[i])
            &&& i + 1 < order.len() ==> !before.model.pending.contains_key(order[i + 1])
        }),
        notify_done(before, last, Notifying { spins: None, taken: None }, done, after),
        poll_wait_done(
            after,
            before.model.order()[notified_place(before.model, last)],
            waker,
            will_wake,
            false,
            polled,
            later,
        ),
    ensures
        ({
            let order = before.model.order();
            let i = notified_place(before.model, last);
            &&& done == AttemptFrom::<Option<W>, Notification<W, SP>>::Done(before.data[order[i]])
            &&& after.model.dequeued.contains(order[i])
            &&& after.model.order() == order.remove(i)
            &&& !after.locked
            &&& polled == Attempt::Done(Poll::Ready(()))
            &&& later == after
        }),
{
    let m = before.model;
    let i = notified_place(m, last);
    let a = m.order()[i];
    assert(m.has(HEAD_MARKER, i));
    let n = m.awaiting(None);
    assert forall|k: usize, j: int| #[trigger] n.has(k, j) && n.chains[k][j] == a implies k
        == HEAD_MARKER && j == i by {
        assert(m.has(k, j));
    }
    assert(n.has(HEAD_MARKER, i));
    assert(n.position(a) == (HEAD_MARKER, i));
}

/// The wakers of the waiters in the drain with sentinel `s`, in order.
pub open spec fn still_to_wake<W>(v: QueueView<Option<W>>, s: usize) -> Seq<W> {
    wakers_of(carried(v.data, v.model.chains[s]))
}

/// The drain with sentinel `s` has waiters that exist, each of them once.
pub open spec fn orderly<W>(v: QueueView<Option<W>>, s: usize) -> bool {
    let nodes = v.model.chains[s];
    &&& v.model.chains.contains_key(s)
    &&& nodes.no_duplicates()
    &&& forall|j: int| 0 <= j < nodes.len() ==> v.data.contains_key(#[trigger] nodes[j])
}

/// A batch of wakers is never larger than the list of wakers, and if it is full, the waiter is still
/// in front that its last waker was taken from.
pub open spec fn bounded<W>(v: QueueView<Option<W>>, s: usize, batch: Seq<W>) -> bool {
    &&& batch.len() <= WAKER_LIST_CAPACITY
    &&& batch.len() == WAKER_LIST_CAPACITY ==> v.model.chains[s].len() > 0
        && v.data[v.model.chains[s][0]] is None
}

/// The wakers of two groups of waiters.
proof fn lemma_wakers_split<W>(data: Seq<Option<W>>, n: int)
    requires
        0 <= n <= data.len(),
    ensures
        wakers_of(data) == wakers_of(data.take(n)) + wakers_of(data.skip(n)),
    decreases data.len(),
{
    if n == data.len() {
        assert(data.take(n) =~= data);
        assert(data.skip(n) =~= Seq::empty());
        assert(wakers_of(data) =~= wakers_of(data.take(n)) + wakers_of(data.skip(n)));
    } else {
        lemma_wakers_split(data.drop_last(), n);
        assert(data.drop_last().take(n) =~= data.take(n));
        assert(data.drop_last().skip(n) =~= data.skip(n).drop_last());
        assert(data.skip(n).last() == data.last());
        assert(wakers_of(data) =~= wakers_of(data.take(n)) + wakers_of(data.skip(n)));
    }
}

/// There are no more wakers than waiters.
proof fn lemma_wakers_len<W>(data: Seq<Option<W>>)
    ensures
        wakers_of(data).len() <= data.len(),
    decreases data.len(),
{
    if data.len() > 0 {
        lemma_wakers_len(data.drop_last());
    }
}

/// The waiters behind the first `n` of a drain keep their wakers when those of the first ones are
/// taken.
proof fn lemma_wakers_kept<W>(before: QueueView<Option<W>>, s: usize, n: int, taken: int)
    requires
        orderly(before, s),
        0 <= n <= taken <= n + 1,
        taken <= before.model.chains[s].len(),
    ensures
        wakers_of(
            carried(
                without_wakers(before.data, before.model.chains[s].take(taken)),
                before.model.chains[s].skip(n),
            ),
        ) == wakers_of(carried(before.data, before.model.chains[s]).skip(taken)),
{
    let nodes = before.model.chains[s];
    let rest = carried(without_wakers(before.data, nodes.take(taken)), nodes.skip(n));
    let data = carried(before.data, nodes);
    assert forall|j: int| taken <= j < nodes.len() implies #[trigger] rest[j - n] == data[j] by {
        assert(before.data.contains_key(nodes[j]));
        if nodes.take(taken).contains(nodes[j]) {
            let i = nodes.take(taken).index_of(nodes[j]);
            assert(nodes[i] == nodes[j]);
        }
    }
    if n == taken {
        assert forall|j: int| 0 <= j < rest.len() implies rest[j] == data.skip(taken)[j] by {
            assert(rest[(j + n) - n] == data[j + n]);
        }
        assert(rest =~= data.skip(taken));
    } else {
        assert(before.data.contains_key(nodes[n]));
        assert(nodes.take(taken)[n] == nodes[n]);
        assert(rest[0] is None);
        assert forall|j: int| 0 <= j < rest.skip(1).len() implies rest.skip(1)[j] == data.skip(
            taken,
        )[j] by {
            assert(rest[(j + taken) - n] == data[j + taken]);
        }
        assert(rest.skip(1) =~= data.skip(taken));
        lemma_wakers_split(rest, 1);
        assert(rest.take(1).drop_last() =~= Seq::empty());
        assert(wakers_of(rest.take(1).drop_last()) =~= Seq::<W>::empty());
        assert(wakers_of(rest.take(1)) =~= Seq::<W>::empty());
        assert(wakers_of(rest) =~= wakers_of(rest.skip(1)));
    }
}

/// When all waiters are notified, no waker is forgotten, doubled or put out of line: what a try hands
/// out or keeps, and what is still to come, is what there was before. A batch that is handed out
/// before the last one is as large as the list of wakers.
pub proof fn no_waker_is_forgotten<W, SP: SyncPrimitives>(
    before: QueueView<Option<W>>,
    s: usize,
    spins: nat,
    batch: Seq<W>,
    woken: Woken<W, SP>,
    after: QueueView<Option<W>>,
)
    requires
        orderly(before, s),
        bounded(before, s, batch),
        wake_drained(before, s, spins, batch, woken, after),
    ensures
        match woken {
            Woken::Done(wakers) => wakers@ == batch + still_to_wake(before, s),
            Woken::Batch(wakers, _) => {
                &&& wakers@ + still_to_wake(after, s) == batch + still_to_wake(before, s)
                &&& wakers@.len() == WAKER_LIST_CAPACITY
            },
            _ => {
                &&& woken.again() matches Some(again)
                &&& again.progress() matches Progress::Draining(t, _, collected)
                &&& t == s
                &&& collected + still_to_wake(after, s) == batch + still_to_wake(before, s)
            },
        },
{
    let n = choose|n: int| #[trigger]
        passed(before, s, batch, n) && wake_stopped(before, s, spins, batch, n, woken, after);
    let nodes = before.model.chains[s];
    let data = carried(before.data, nodes);
    let seen = if woken is Spin || woken is Wait {
        n + 1
    } else {
        n
    };
    lemma_wakers_split(data, seen);
    lemma_wakers_kept(before, s, n, seen);
    if woken is Batch {
        assert(data.take(n).drop_last() =~= data.take(n - 1));
        assert(grown(batch, data.take(n)) =~= grown(batch, data.take(n - 1)) + one(data[n - 1]));
        if n == 1 {
            assert(data.take(0) =~= Seq::empty());
            assert(grown(batch, data.take(0)) =~= batch);
        } else {
            assert(grown(batch, data.take(n - 1)).len() < WAKER_LIST_CAPACITY);
        }
    }
    if !(woken is Done) {
        assert(after.model.chains[s] =~= nodes.skip(n));
        assert(grown(batch, data.take(seen)) + wakers_of(data.skip(seen)) =~= batch + wakers_of(
            data,
        ));
    }
}

/// A waiter that was in the drain is still there after a try, or it has been taken out, and its next
/// poll is ready. When the try has come to the end, all of them have been taken out.
pub proof fn drained_waiters_are_ready<W, SP: SyncPrimitives>(
    before: QueueView<Option<W>>,
    s: usize,
    spins: nat,
    batch: Seq<W>,
    woken: Woken<W, SP>,
    after: QueueView<Option<W>>,
    j: int,
)
    requires
        before.model.has(s, j),
        wake_drained(before, s, spins, batch, woken, after),
    ensures
        ({
            let a = before.model.chains[s][j];
            ||| after.model.dequeued.contains(a) && !after.model.queued.contains(a)
            ||| !(woken is Done) && after.model.chains[s].contains(a)
        }),
{
    let n = choose|n: int| #[trigger]
        passed(before, s, batch, n) && wake_stopped(before, s, spins, batch, n, woken, after);
    let nodes = before.model.chains[s];
    if j < n {
        assert(nodes.take(n)[j] == nodes[j]);
        assert(nodes.take(n).contains(nodes[j]));
    } else {
        assert(after.model.chains[s] =~= nodes.skip(n));
        assert(nodes.skip(n)[j - n] == nodes[j]);
    }
}

/// What may happen between two tries while the drain with sentinel `s` holds the lock: anything but to
/// its waiters, which cannot leave and cannot change their wakers then. A queue that has been closed
/// stays closed.
pub open spec fn meanwhile_locked<W>(
    before: QueueView<Option<W>>,
    s: usize,
    after: QueueView<Option<W>>,
) -> bool {
    let nodes = before.model.chains[s];
    &&& after.model.chains.contains_key(s)
    &&& after.model.chains[s] == nodes
    &&& forall|j: int|
        0 <= j < nodes.len() ==> after.data.contains_key(#[trigger] nodes[j]) && after.data[nodes[j]]
            == before.data[nodes[j]]
    &&& closed(before.model) ==> closed(after.model)
}

/// The waiters that are among `before` and not among `after`.
pub open spec fn departed(before: Seq<usize>, after: Seq<usize>) -> Set<usize> {
    Set::new(|a: usize| before.contains(a) && !after.contains(a))
}

/// What may happen between two tries while the drain with sentinel `s` has given the lock back:
/// waiters may leave it, and may change their wakers. None joins it. Then the drain takes the lock
/// again. A queue that has been closed stays closed.
pub open spec fn meanwhile_unlocked<W>(
    before: QueueView<Option<W>>,
    s: usize,
    after: QueueView<Option<W>>,
) -> bool {
    let nodes = before.model.chains[s];
    let left = after.model.chains[s];
    &&& after.locked
    &&& after.model.open == Some(s)
    &&& after.model.chains.contains_key(s)
    &&& left == without(nodes, departed(nodes, left))
    &&& forall|j: int| 0 <= j < left.len() ==> after.data.contains_key(#[trigger] left[j])
    &&& closed(before.model) ==> closed(after.model)
}

/// One try at notifying the waiters in a drain: what it found, how often its thread had looked in vain
/// for a node to be linked, what had been collected, what it yielded and what it left.
pub struct Try<W, SP: SyncPrimitives> {
    pub before: QueueView<Option<W>>,
    pub spins: nat,
    pub batch: Seq<W>,
    pub woken: Woken<W, SP>,
    pub after: QueueView<Option<W>>,
}

impl<W, SP: SyncPrimitives> Try<W, SP> {
    /// The wakers that the try hands out.
    pub open spec fn handed(self) -> Seq<W> {
        match self.woken {
            Woken::Done(wakers) => wakers@,
            Woken::Batch(wakers, _) => wakers@,
            _ => Seq::empty(),
        }
    }

    /// The try had to stop, with the lock, and the try `next` goes on there, on the drain with sentinel
    /// `s`.
    pub open spec fn goes_on(self, s: usize, next: Self) -> bool {
        &&& meanwhile_locked(self.after, s, next.before)
        &&& self.woken is Spin || self.woken is Wait
        &&& self.woken.again() is Some
        &&& self.woken.again()->0.progress() == Progress::Draining(s, next.spins, next.batch)
    }
}

/// Tries that follow one another, on the drain with sentinel `s`, while it holds the lock: until a batch
/// is handed out and the lock is given back, or until all waiters have been notified.
pub open spec fn round<W, SP: SyncPrimitives>(s: usize, tries: Seq<Try<W, SP>>) -> bool {
    &&& tries.len() > 0
    &&& forall|i: int|
        0 <= i < tries.len() ==> wake_drained(
            (#[trigger] tries[i]).before,
            s,
            tries[i].spins,
            tries[i].batch,
            tries[i].woken,
            tries[i].after,
        )
    &&& forall|i: int, j: int|
        0 <= i && j == i + 1 && j < tries.len() ==> (#[trigger] tries[i]).goes_on(
            s,
            #[trigger] tries[j],
        )
    &&& tries.last().woken is Done || tries.last().woken is Batch
}

/// How many waiters a round notifies.
pub open spec fn count<W, SP: SyncPrimitives>(s: usize, tries: Seq<Try<W, SP>>) -> int {
    tries[0].before.model.chains[s].len() - if tries.last().woken is Done {
        0
    } else {
        tries.last().after.model.chains[s].len()
    }
}

/// The waiters that a round notifies.
pub open spec fn notified_in<W, SP: SyncPrimitives>(s: usize, tries: Seq<Try<W, SP>>) -> Seq<usize> {
    tries[0].before.model.chains[s].take(count(s, tries))
}

/// One of the tries takes waiter `a` out, so that its next poll is ready.
pub open spec fn took_out<W, SP: SyncPrimitives>(tries: Seq<Try<W, SP>>, a: usize) -> bool {
    exists|i: int|
        0 <= i < tries.len() && (#[trigger] tries[i]).after.model.dequeued.contains(a)
            && !tries[i].after.model.queued.contains(a)
}

/// A list of waiters the first of which has no waker.
proof fn lemma_no_first_waker<W>(data: Seq<Option<W>>)
    requires
        data.len() > 0,
        data[0] is None,
    ensures
        wakers_of(data) == wakers_of(data.skip(1)),
{
    lemma_wakers_split(data, 1);
    assert(data.take(1).drop_last() =~= Seq::empty());
    assert(wakers_of(data.take(1).drop_last()) =~= Seq::<W>::empty());
    assert(wakers_of(data.take(1)) =~= Seq::<W>::empty());
    assert(wakers_of(data) =~= wakers_of(data.skip(1)));
}

/// A round notifies the first waiters of the drain, and hands out the wakers that they had when it
/// began, in line, behind those that had been collected. They are taken out. The others are left, with
/// their wakers.
#[verifier::spinoff_prover]
#[verifier::rlimit(50)]
pub proof fn round_wakes_the_first<W, SP: SyncPrimitives>(s: usize, tries: Seq<Try<W, SP>>)
    requires
        round(s, tries),
        orderly(tries[0].before, s),
        s != HEAD_MARKER,
    ensures
        0 <= count(s, tries) <= tries[0].before.model.chains[s].len(),
        tries.last().handed() == tries[0].batch + wakers_of(
            carried(tries[0].before.data, notified_in(s, tries)),
        ),
        forall|j: int|
            0 <= j < count(s, tries) ==> took_out(
                tries,
                #[trigger] tries[0].before.model.chains[s][j],
            ),
        tries.last().woken is Done ==> count(s, tries) == tries[0].before.model.chains[s].len(),
        tries.last().woken is Batch ==> {
            &&& count(s, tries) > 0
            &&& tries.last().after.model.chains.contains_key(s)
            &&& tries.last().after.model.chains[s] == tries[0].before.model.chains[s].skip(
                count(s, tries),
            )
            &&& forall|j: int|
                count(s, tries) <= j < tries[0].before.model.chains[s].len()
                    ==> tries.last().after.data.contains_key(
                    #[trigger] tries[0].before.model.chains[s][j],
                ) && tries.last().after.data[tries[0].before.model.chains[s][j]]
                    == tries[0].before.data[tries[0].before.model.chains[s][j]]
        },
        closed(tries[0].before.model) ==> closed(tries.last().after.model),
    decreases tries.len(),
{
    let first = tries[0];
    let nodes = first.before.model.chains[s];
    let data = carried(first.before.data, nodes);
    let n = choose|n: int| #[trigger]
        passed(first.before, s, first.batch, n) && wake_stopped(
            first.before,
            s,
            first.spins,
            first.batch,
            n,
            first.woken,
            first.after,
        );
    assert(wake_drained(first.before, s, first.spins, first.batch, first.woken, first.after));
    assert forall|j: int, m: int|
        0 <= m <= j < nodes.len() implies !#[trigger] nodes.take(m).contains(nodes[j]) by {
        if nodes.take(m).contains(nodes[j]) {
            let i = nodes.take(m).index_of(nodes[j]);
            assert(nodes[i] == nodes[j]);
        }
    }
    assert forall|j: int| 0 <= j < n implies nodes.take(n).contains(#[trigger] nodes[j]) by {
        assert(nodes.take(n)[j] == nodes[j]);
    }
    assert(closed(first.before.model) ==> closed(first.after.model));
    assert(carried(first.before.data, nodes.take(n)) =~= data.take(n));
    if tries.len() == 1 {
        if first.woken is Done {
            assert(nodes.take(n) =~= nodes);
            assert(data.take(n) =~= data);
        } else {
            assert(first.after.model.chains[s] =~= nodes.skip(n));
        }
        assert forall|j: int| 0 <= j < count(s, tries) implies took_out(
            tries,
            #[trigger] nodes[j],
        ) by {
            assert(tries[0].after.model.dequeued.contains(nodes[j]));
        }
    } else {
        let next = tries[1];
        assert(first.goes_on(s, next));
        let others = tries.drop_first();
        assert(others[0] == next);
        assert forall|i: int| 0 <= i < others.len() implies wake_drained(
            (#[trigger] others[i]).before,
            s,
            others[i].spins,
            others[i].batch,
            others[i].woken,
            others[i].after,
        ) by {
            assert(others[i] == tries[i + 1]);
        }
        assert forall|i: int, j: int| 0 <= i && j == i + 1 && j < others.len() implies (
        #[trigger] others[i]).goes_on(s, #[trigger] others[j]) by {
            assert(others[i] == tries[i + 1]);
            assert(others[j] == tries[j + 1]);
        }
        assert(others.last() == tries.last());
        let left = nodes.skip(n);
        assert(first.after.model.chains[s] =~= left);
        assert(next.before.model.chains[s] == left);
        assert forall|j: int| 0 <= j < left.len() implies next.before.data.contains_key(
            #[trigger] left[j],
        ) by {}
        round_wakes_the_first(s, others);
        let m = count(s, others);
        assert(m >= 1);
        assert(count(s, tries) == n + m);
        // What the waiters carry that are notified by the tries that follow.
        let then = carried(next.before.data, left.take(m));
        assert(nodes.take(n + 1).contains(nodes[n])) by {
            assert(nodes.take(n + 1)[n] == nodes[n]);
        }
        assert(left[0] == nodes[n]);
        assert(first.before.data.contains_key(nodes[n]));
        assert(then[0] is None);
        let all = carried(first.before.data, nodes.take(n + m));
        assert forall|j: int| 1 <= j < m implies then[j] == all[n + j] by {
            assert(left[j] == nodes[n + j]);
            assert(!nodes.take(n + 1).contains(nodes[n + j]));
            assert(first.before.data.contains_key(nodes[n + j]));
        }
        lemma_no_first_waker(then);
        lemma_wakers_split(all, n + 1);
        assert(all.take(n + 1) =~= data.take(n + 1));
        assert(all.skip(n + 1) =~= then.skip(1));
        assert(tries.last().handed() =~= first.batch + wakers_of(all));
        assert forall|j: int| 0 <= j < n + m implies took_out(tries, #[trigger] nodes[j]) by {
            if j < n {
                assert(tries[0].after.model.dequeued.contains(nodes[j]));
            } else {
                assert(next.before.model.chains[s][j - n] == nodes[j]);
                let i = choose|i: int|
                    0 <= i < others.len() && (#[trigger] others[i]).after.model.dequeued.contains(
                        nodes[j],
                    ) && !others[i].after.model.queued.contains(nodes[j]);
                assert(tries[i + 1] == others[i]);
            }
        }
        if tries.last().woken is Batch {
            let end = tries.last().after;
            assert(end.model.chains[s] =~= nodes.skip(n + m));
            assert forall|j: int| n + m <= j < nodes.len() implies end.data.contains_key(
                #[trigger] nodes[j],
            ) && end.data[nodes[j]] == first.before.data[nodes[j]] by {
                assert(left[j - n] == nodes[j]);
                assert(!nodes.take(n + 1).contains(nodes[j]));
                assert(first.before.data.contains_key(nodes[j]));
            }
        }
    }
}

/// Rounds that follow one another, on the drain with sentinel `s`, until all waiters have been notified.
/// Between two of them the lock is given back, and waiters may leave or change their wakers.
pub open spec fn rounds_follow<W, SP: SyncPrimitives>(s: usize, rounds: Seq<Seq<Try<W, SP>>>) -> bool {
    &&& rounds.len() > 0
    &&& forall|i: int|
        0 <= i < rounds.len() ==> round(s, #[trigger] rounds[i]) && rounds[i][0].batch == Seq::<
            W,
        >::empty()
    &&& forall|i: int, j: int|
        0 <= i && j == i + 1 && j < rounds.len() ==> (#[trigger] rounds[i]).last().woken is Batch
            && meanwhile_unlocked(rounds[i].last().after, s, (#[trigger] rounds[j])[0].before)
    &&& rounds.last().last().woken is Done
}

/// All wakers that the rounds hand out.
pub open spec fn all_handed<W, SP: SyncPrimitives>(rounds: Seq<Seq<Try<W, SP>>>) -> Seq<W>
    decreases rounds.len(),
{
    if rounds.len() == 0 {
        Seq::empty()
    } else {
        rounds[0].last().handed() + all_handed(rounds.drop_first())
    }
}

/// All waiters that the rounds notify.
pub open spec fn all_notified<W, SP: SyncPrimitives>(
    s: usize,
    rounds: Seq<Seq<Try<W, SP>>>,
) -> Seq<usize>
    decreases rounds.len(),
{
    if rounds.len() == 0 {
        Seq::empty()
    } else {
        notified_in(s, rounds[0]) + all_notified(s, rounds.drop_first())
    }
}

/// What those waiters carried when the round began in which they were notified.
pub open spec fn all_carried<W, SP: SyncPrimitives>(
    s: usize,
    rounds: Seq<Seq<Try<W, SP>>>,
) -> Seq<Option<W>>
    decreases rounds.len(),
{
    if rounds.len() == 0 {
        Seq::empty()
    } else {
        carried(rounds[0][0].before.data, notified_in(s, rounds[0])) + all_carried(
            s,
            rounds.drop_first(),
        )
    }
}

/// The waiters that leave between the rounds.
pub open spec fn all_departed<W, SP: SyncPrimitives>(
    s: usize,
    rounds: Seq<Seq<Try<W, SP>>>,
) -> Set<usize>
    decreases rounds.len(),
{
    if rounds.len() <= 1 {
        Set::empty()
    } else {
        departed(
            rounds[0].last().after.model.chains[s],
            rounds[1][0].before.model.chains[s],
        ).union(all_departed(s, rounds.drop_first()))
    }
}

/// However many waiters there are, however often the notification has to be tried, and whatever the
/// waiters do between the rounds: those that do not leave are all notified, in line, each once, and the
/// wakers that are handed out are those that they have then.
#[verifier::spinoff_prover]
#[verifier::rlimit(50)]
pub proof fn every_waiter_is_woken<W, SP: SyncPrimitives>(s: usize, rounds: Seq<Seq<Try<W, SP>>>)
    requires
        rounds_follow(s, rounds),
        orderly(rounds[0][0].before, s),
        s != HEAD_MARKER,
    ensures
        all_handed(rounds) == wakers_of(all_carried(s, rounds)),
        all_notified(s, rounds) == without(
            rounds[0][0].before.model.chains[s],
            all_departed(s, rounds),
        ),
        forall|j: int|
            0 <= j < all_notified(s, rounds).len() ==> exists|i: int|
                0 <= i < rounds.len() && took_out(
                    #[trigger] rounds[i],
                    #[trigger] all_notified(s, rounds)[j],
                ),
        forall|a: usize| #[trigger]
            all_departed(s, rounds).contains(a) ==> rounds[0][0].before.model.chains[s].contains(a),
        closed(rounds[0][0].before.model) ==> closed(rounds.last().last().after.model),
    decreases rounds.len(),
{
    let first = rounds[0];
    let nodes = first[0].before.model.chains[s];
    let n = count(s, first);
    round_wakes_the_first(s, first);
    let others = rounds.drop_first();
    let notified = all_notified(s, rounds);
    let front = notified_in(s, first);
    let data = carried(first[0].before.data, front);
    assert(first.last().handed() =~= wakers_of(data));
    if rounds.len() == 1 {
        assert(all_handed(others) =~= Seq::empty());
        assert(all_notified(s, others) =~= Seq::empty());
        assert(all_carried(s, others) =~= Seq::empty());
        assert(all_handed(rounds) =~= first.last().handed());
        assert(all_carried(s, rounds) =~= data);
        assert(notified =~= nodes);
        lemma_without_none(nodes);
        assert forall|j: int| 0 <= j < notified.len() implies exists|i: int|
            0 <= i < rounds.len() && took_out(#[trigger] rounds[i], #[trigger] notified[j]) by {
            assert(took_out(first, nodes[j]));
            assert(rounds[0] == first);
        }
    } else {
        let next = rounds[1];
        assert(others[0] == next);
        assert forall|i: int| 0 <= i < others.len() implies round(s, #[trigger] others[i])
            && others[i][0].batch == Seq::<W>::empty() by {
            assert(others[i] == rounds[i + 1]);
        }
        assert forall|i: int, j: int| 0 <= i && j == i + 1 && j < others.len() implies (
        #[trigger] others[i]).last().woken is Batch && meanwhile_unlocked(
            others[i].last().after,
            s,
            (#[trigger] others[j])[0].before,
        ) by {
            assert(others[i] == rounds[i + 1]);
            assert(others[j] == rounds[j + 1]);
        }
        assert(others.last() == rounds.last());
        assert(first.last().woken is Batch && meanwhile_unlocked(
            first.last().after,
            s,
            next[0].before,
        ));
        let rest = nodes.skip(n);
        let left = next[0].before.model.chains[s];
        let gone = departed(rest, left);
        assert forall|i: int, j: int|
            0 <= i < rest.len() && 0 <= j < rest.len() && i != j implies rest[i] != rest[j] by {}
        lemma_without_distinct(rest, gone);
        every_waiter_is_woken(s, others);
        let later = all_departed(s, others);
        // Wakers.
        assert(all_handed(rounds) =~= first.last().handed() + all_handed(others));
        let all = all_carried(s, rounds);
        lemma_wakers_split(all, n);
        assert(all.take(n) =~= data);
        assert(all.skip(n) =~= all_carried(s, others));
        // Waiters.
        assert(front + rest =~= nodes);
        lemma_without_in(rest, gone);
        assert forall|a: usize| #[trigger] gone.union(later).contains(a) implies rest.contains(
            a,
        ) by {
            if later.contains(a) {
                let i = left.index_of(a);
                assert(rest.contains(left[i]));
            }
        }
        assert forall|i: int| 0 <= i < front.len() implies !gone.union(later).contains(
            #[trigger] front[i],
        ) by {
            if rest.contains(front[i]) {
                let j = rest.index_of(front[i]);
                assert(nodes[n + j] == nodes[i]);
            }
        }
        lemma_without_others(front, gone.union(later));
        lemma_without_both(front, rest, gone.union(later));
        lemma_without_twice(rest, gone, later);
        assert forall|a: usize| #[trigger] all_departed(s, rounds).contains(
            a,
        ) implies nodes.contains(a) by {
            assert(gone.union(later).contains(a));
            let i = rest.index_of(a);
            assert(nodes[n + i] == a);
        }
        assert forall|j: int| 0 <= j < notified.len() implies exists|i: int|
            0 <= i < rounds.len() && took_out(#[trigger] rounds[i], #[trigger] notified[j]) by {
            if j < n {
                assert(notified[j] == nodes[j]);
                assert(took_out(rounds[0], nodes[j]));
            } else {
                let b = all_notified(s, others)[j - n];
                assert(notified[j] == b);
                let i = choose|i: int|
                    0 <= i < others.len() && took_out(#[trigger] others[i], b);
                assert(rounds[i + 1] == others[i]);
            }
        }
    }
}

/// What is left of a sequence without repetition has none.
proof fn lemma_without_distinct(seq: Seq<usize>, gone: Set<usize>)
    requires
        seq.no_duplicates(),
    ensures
        without(seq, gone).no_duplicates(),
    decreases seq.len(),
{
    if seq.len() > 0 {
        let before = seq.drop_last();
        assert(before.no_duplicates());
        lemma_without_distinct(before, gone);
        lemma_without_in(before, gone);
        assert forall|i: int| 0 <= i < without(before, gone).len() implies without(before, gone)[i]
            != seq.last() by {
            let j = before.index_of(without(before, gone)[i]);
            assert(seq[j] != seq[seq.len() - 1]);
        }
    }
}

/// `notify_all` and `close` on a queue with waiters, however many: from the try on that moves the
/// waiters to a drain with sentinel `s`, to the end. All waiters that were in line, and do not leave
/// before it is their turn, are notified, oldest first, each once: they are taken out, so that their
/// polls are ready, and the wakers that they have then are handed out. A queue that is closed in this
/// way is closed.
pub proof fn remaining_waiters_are_notified<W, SP: SyncPrimitives>(
    before: QueueView<Option<W>>,
    state: QueueState,
    s: usize,
    rounds: Seq<Seq<Try<W, SP>>>,
)
    requires
        before.model.wf(),
        before.data.dom() == before.model.nodes,
        before.model.order().len() > 0,
        fresh(before.model, s),
        rounds_follow(s, rounds),
        rounds[0][0].before == drain_begun(before, s, state),
    ensures
        all_handed(rounds) == wakers_of(all_carried(s, rounds)),
        all_notified(s, rounds) == without(before.model.order(), all_departed(s, rounds)),
        forall|j: int|
            0 <= j < all_notified(s, rounds).len() ==> exists|i: int|
                0 <= i < rounds.len() && took_out(
                    #[trigger] rounds[i],
                    #[trigger] all_notified(s, rounds)[j],
                ),
        state == CLOSED ==> closed(rounds.last().last().after.model),
{
    let m = before.model;
    let order = m.order();
    let begun = drain_begun(before, s, state);
    assert(s != HEAD_MARKER);
    assert(begun.model.chains[s] == order);
    assert forall|j: int| 0 <= j < order.len() implies begun.data.contains_key(
        #[trigger] order[j],
    ) by {
        assert(m.has(HEAD_MARKER, j));
    }
    assert forall|i: int, j: int|
        0 <= i < order.len() && 0 <= j < order.len() && i != j implies order[i] != order[j] by {
        assert(m.has(HEAD_MARKER, i) && m.has(HEAD_MARKER, j));
    }
    every_waiter_is_woken(s, rounds);
}

/// Between the rounds nobody leaves the drain with sentinel `s`, and nobody changes a waker.
pub open spec fn all_stay<W, SP: SyncPrimitives>(s: usize, rounds: Seq<Seq<Try<W, SP>>>) -> bool {
    forall|i: int, j: int|
        0 <= i && j == i + 1 && j < rounds.len() ==> meanwhile_locked(
            (#[trigger] rounds[i]).last().after,
            s,
            (#[trigger] rounds[j])[0].before,
        )
}

/// When nobody leaves and nobody changes a waker, the waiters that are notified are those that were
/// there, with the wakers that they had.
proof fn lemma_all_stay<W, SP: SyncPrimitives>(s: usize, rounds: Seq<Seq<Try<W, SP>>>)
    requires
        rounds_follow(s, rounds),
        all_stay(s, rounds),
        orderly(rounds[0][0].before, s),
        s != HEAD_MARKER,
    ensures
        all_notified(s, rounds) == rounds[0][0].before.model.chains[s],
        all_carried(s, rounds) == carried(
            rounds[0][0].before.data,
            rounds[0][0].before.model.chains[s],
        ),
    decreases rounds.len(),
{
    let first = rounds[0];
    let nodes = first[0].before.model.chains[s];
    let n = count(s, first);
    round_wakes_the_first(s, first);
    let others = rounds.drop_first();
    if rounds.len() == 1 {
        assert(all_notified(s, others) =~= Seq::empty());
        assert(all_carried(s, others) =~= Seq::empty());
        assert(all_notified(s, rounds) =~= nodes);
        assert(all_carried(s, rounds) =~= carried(first[0].before.data, nodes));
    } else {
        let next = rounds[1];
        assert(others[0] == next);
        assert forall|i: int| 0 <= i < others.len() implies round(s, #[trigger] others[i])
            && others[i][0].batch == Seq::<W>::empty() by {
            assert(others[i] == rounds[i + 1]);
        }
        assert forall|i: int, j: int| 0 <= i && j == i + 1 && j < others.len() implies (
        #[trigger] others[i]).last().woken is Batch && meanwhile_unlocked(
            others[i].last().after,
            s,
            (#[trigger] others[j])[0].before,
        ) && meanwhile_locked(others[i].last().after, s, others[j][0].before) by {
            assert(others[i] == rounds[i + 1]);
            assert(others[j] == rounds[j + 1]);
        }
        assert(others.last() == rounds.last());
        assert(meanwhile_locked(first.last().after, s, next[0].before));
        let rest = nodes.skip(n);
        assert(next[0].before.model.chains[s] == rest);
        lemma_all_stay(s, others);
        assert(all_notified(s, rounds) =~= nodes);
        assert forall|j: int| n <= j < nodes.len() implies next[0].before.data[#[trigger] nodes[j]]
            == first[0].before.data[nodes[j]] by {
            assert(rest[j - n] == nodes[j]);
        }
        assert(all_carried(s, rounds) =~= carried(first[0].before.data, nodes));
    }
}

/// `notify_all` and `close`, as before, when nobody leaves and nobody changes a waker before it is their
/// turn: the wakers that are handed out are those of all waiters that were in line, oldest first.
pub proof fn everybody_is_notified<W, SP: SyncPrimitives>(
    before: QueueView<Option<W>>,
    state: QueueState,
    s: usize,
    rounds: Seq<Seq<Try<W, SP>>>,
)
    requires
        before.model.wf(),
        before.data.dom() == before.model.nodes,
        before.model.order().len() > 0,
        fresh(before.model, s),
        rounds_follow(s, rounds),
        all_stay(s, rounds),
        rounds[0][0].before == drain_begun(before, s, state),
    ensures
        all_handed(rounds) == wakers_of(carried(before.data, before.model.order())),
        all_notified(s, rounds) == before.model.order(),
        forall|j: int|
            0 <= j < before.model.order().len() ==> exists|i: int|
                0 <= i < rounds.len() && took_out(
                    #[trigger] rounds[i],
                    #[trigger] before.model.order()[j],
                ),
        state == CLOSED ==> closed(rounds.last().last().after.model),
{
    let m = before.model;
    let order = m.order();
    let begun = drain_begun(before, s, state);
    assert(s != HEAD_MARKER);
    assert(begun.model.chains[s] == order);
    assert forall|j: int| 0 <= j < order.len() implies begun.data.contains_key(
        #[trigger] order[j],
    ) by {
        assert(m.has(HEAD_MARKER, j));
    }
    assert forall|i: int, j: int|
        0 <= i < order.len() && 0 <= j < order.len() && i != j implies order[i] != order[j] by {
        assert(m.has(HEAD_MARKER, i) && m.has(HEAD_MARKER, j));
    }
    remaining_waiters_are_notified(before, state, s, rounds);
    lemma_all_stay(s, rounds);
}

/// The notification gets on: where no insertion is under way in the drain, a try comes to the end or
/// hands out a batch and leaves fewer waiters.
pub proof fn every_try_gets_on<W, SP: SyncPrimitives>(
    before: QueueView<Option<W>>,
    s: usize,
    spins: nat,
    batch: Seq<W>,
    woken: Woken<W, SP>,
    after: QueueView<Option<W>>,
)
    requires
        before.model.chains.contains_key(s),
        forall|j: int|
            0 <= j < before.model.chains[s].len() ==> !before.model.pending.contains_key(
                #[trigger] before.model.chains[s][j],
            ),
        wake_drained(before, s, spins, batch, woken, after),
    ensures
        woken is Done || (woken is Batch && after.model.chains[s].len()
            < before.model.chains[s].len()),
{
    let n = choose|n: int| #[trigger]
        passed(before, s, batch, n) && wake_stopped(before, s, spins, batch, n, woken, after);
    let nodes = before.model.chains[s];
    if woken is Batch {
        assert(after.model.chains[s] =~= nodes.skip(n));
    }
}

/// When nobody holds the lock, no insertion is under way, and there are fewer waiters than fit in the
/// list of wakers, then one call notifies all of them: their wakers are handed out, in line, nobody
/// is left, and the next poll of each of them is ready. The queue is left in state `state`.
pub proof fn all_waiters_are_ready<W, SP: SyncPrimitives>(
    before: QueueView<Option<W>>,
    state: QueueState,
    woken: Woken<W, SP>,
    after: QueueView<Option<W>>,
)
    requires
        before.model.wf(),
        !before.locked,
        0 < before.model.order().len() < WAKER_LIST_CAPACITY,
        forall|j: int|
            0 <= j < before.model.order().len() ==> !before.model.pending.contains_key(
                #[trigger] before.model.order()[j],
            ),
        wake_done(before, state, Progress::Start, woken, after),
    ensures
        woken matches Woken::Done(wakers) && wakers@ == wakers_of(
            carried(before.data, before.model.order()),
        ),
        after.model.order().len() == 0,
        after.model.state == Some(state),
        !after.locked,
        forall|j: int|
            0 <= j < before.model.order().len() ==> after.model.dequeued.contains(
                #[trigger] before.model.order()[j],
            ) && !after.model.queued.contains(before.model.order()[j]),
{
    let m = before.model;
    let order = m.order();
    let locked = QueueView { locked: true, ..before };
    let s = choose|s: usize| #[trigger]
        fresh(m, s) && wake_drained(
            drain_begun(locked, s, state),
            s,
            0,
            Seq::empty(),
            woken,
            after,
        );
    assert(fresh(m, s));
    assert(s != HEAD_MARKER);
    let begun = drain_begun(locked, s, state);
    let data = carried(before.data, order);
    assert(begun.model.chains[s] == order);
    let n = choose|n: int| #[trigger]
        passed(begun, s, Seq::<W>::empty(), n) && wake_stopped(
            begun,
            s,
            0,
            Seq::<W>::empty(),
            n,
            woken,
            after,
        );
    lemma_wakers_len(data.take(n));
    assert(grown(Seq::<W>::empty(), data.take(n)) =~= wakers_of(data.take(n)));
    assert(grown(Seq::<W>::empty(), data) =~= wakers_of(data));
    assert forall|j: int| 0 <= j < order.len() implies after.model.dequeued.contains(
        #[trigger] order[j],
    ) && !after.model.queued.contains(order[j]) by {
        assert(order.take(order.len() as int)[j] == order[j]);
        assert(order.take(order.len() as int).contains(order[j]));
    }
}

/// A waiter that has been notified is ready, until it is told to wait again.
pub proof fn dequeued_waiter_is_ready<W, F: Fn(&W, &W) -> bool>(
    before: QueueView<Option<W>>,
    a: usize,
    waker: W,
    will_wake: F,
    polled: Attempt<Poll<()>>,
    after: QueueView<Option<W>>,
)
    requires
        before.model.wf(),
        before.model.dequeued.contains(a),
        poll_wait_done(before, a, waker, will_wake, false, polled, after),
    ensures
        polled == Attempt::Done(Poll::Ready(())),
        after == before,
{
}

// Closing.

/// Once `close` has handed out wakers, or has come to its end, the queue is closed, and nobody waits
/// in it. That is so for the first try, and for one that had to wait with the lock before.
pub proof fn close_closes<W, SP: SyncPrimitives>(
    before: QueueView<Option<W>>,
    waking: Waking<W, SP>,
    woken: Woken<W, SP>,
    after: QueueView<Option<W>>,
)
    requires
        before.model.wf(),
        waking.in_queue(before),
        waking.progress() is Start || waking.progress() is Locked,
        wake_done(before, CLOSED, waking.progress(), woken, after),
        woken is Done || woken is Batch,
    ensures
        closed(after.model),
        after.model.order().len() == 0,
{
    let m = before.model;
    if m.order().len() > 0 {
        let locked = QueueView { locked: true, ..before };
        let begun = if waking.progress() is Start {
            locked
        } else {
            before
        };
        let s = choose|s: usize| #[trigger]
            fresh(m, s) && wake_drained(
                drain_begun(begun, s, CLOSED),
                s,
                0,
                Seq::empty(),
                woken,
                after,
            );
        assert(fresh(m, s));
        assert(s != HEAD_MARKER);
    }
}

/// In a queue that has been closed nobody waits: a poll is ready, and inserts nobody.
pub proof fn nobody_waits_in_a_closed_queue<W, F: Fn(&W, &W) -> bool>(
    before: QueueView<Option<W>>,
    a: usize,
    waker: W,
    will_wake: F,
    requeue: bool,
    polled: Attempt<Poll<()>>,
    after: QueueView<Option<W>>,
)
    requires
        before.model.wf(),
        closed(before.model),
        !before.model.queued.contains(a),
        poll_wait_done(before, a, waker, will_wake, requeue, polled, after),
    ensures
        polled == Attempt::Done(Poll::Ready(())),
        after.model.order() == before.model.order(),
        !after.model.queued.contains(a),
{
}

/// A queue that has been closed stays closed when a waiter is polled.
pub proof fn closed_after_poll<W, F: Fn(&W, &W) -> bool>(
    before: QueueView<Option<W>>,
    a: usize,
    waker: W,
    will_wake: F,
    requeue: bool,
    polled: Attempt<Poll<()>>,
    after: QueueView<Option<W>>,
)
    requires
        closed(before.model),
        poll_wait_done(before, a, waker, will_wake, requeue, polled, after),
    ensures
        closed(after.model),
{
}

/// A queue that has been closed stays closed when another task is going to wait.
pub proof fn closed_after_wait<W>(
    before: QueueView<Option<W>>,
    a: usize,
    after: QueueView<Option<W>>,
)
    requires
        closed(before.model),
        added(before, a, after),
    ensures
        closed(after.model),
{
}

/// A queue that has been closed stays closed when one waiter is notified.
pub proof fn closed_after_notify<W, SP: SyncPrimitives>(
    before: QueueView<Option<W>>,
    notification: Notification<W, SP>,
    done: AttemptFrom<Option<W>, Notification<W, SP>>,
    after: QueueView<Option<W>>,
)
    requires
        before.model.wf(),
        closed(before.model),
        notification.in_queue(before),
        notify_done(before, notification.last(), notification.progress(), done, after),
    ensures
        closed(after.model),
{
}

/// A queue that has been closed stays closed when all waiters are notified, and when it is closed
/// again.
pub proof fn closed_after_wake<W, SP: SyncPrimitives>(
    before: QueueView<Option<W>>,
    waking: Waking<W, SP>,
    woken: Woken<W, SP>,
    after: QueueView<Option<W>>,
)
    requires
        before.model.wf(),
        closed(before.model),
        waking.in_queue(before),
        wake_done(before, waking.state(), waking.progress(), woken, after),
    ensures
        closed(after.model),
{
}

/// A queue that has been closed stays closed when a waiter is done away with.
pub proof fn closed_after_drop<W, SP: SyncPrimitives>(
    before: QueueView<Option<W>>,
    a: usize,
    lock: Option<LockedQueue<SP>>,
    waker: Attempt<Option<W>>,
    kept: Option<LockedQueue<SP>>,
    after: QueueView<Option<W>>,
)
    requires
        before.model.wf(),
        closed(before.model),
        before.model.nodes.contains(a),
        dropping(before, a, lock, waker, kept, after),
    ensures
        closed(after.model),
{
    let m = before.model;
    if m.queued.contains(a) {
        m.lemma_position(a);
    }
}

/// To close a queue again changes nothing, and wakes nobody.
pub proof fn closing_again<W, SP: SyncPrimitives>(
    before: QueueView<Option<W>>,
    woken: Woken<W, SP>,
    after: QueueView<Option<W>>,
)
    requires
        before.model.wf(),
        before.model.state == Some(CLOSED),
        wake_done(before, CLOSED, Progress::Start, woken, after),
    ensures
        woken matches Woken::Done(wakers) && wakers@.len() == 0,
        after == before,
{
    assert(before.model.with_state(CLOSED) =~= before.model);
}

// Staying open: only `close` closes a queue.

/// A queue that is open stays open when a waiter is polled.
pub proof fn open_after_poll<W, F: Fn(&W, &W) -> bool>(
    before: QueueView<Option<W>>,
    a: usize,
    waker: W,
    will_wake: F,
    requeue: bool,
    polled: Attempt<Poll<()>>,
    after: QueueView<Option<W>>,
)
    requires
        !closed(before.model),
        poll_wait_done(before, a, waker, will_wake, requeue, polled, after),
    ensures
        !closed(after.model),
{
}

/// A queue that is open stays open when another task is going to wait.
pub proof fn open_after_wait<W>(
    before: QueueView<Option<W>>,
    a: usize,
    after: QueueView<Option<W>>,
)
    requires
        !closed(before.model),
        added(before, a, after),
    ensures
        !closed(after.model),
{
}

/// A queue that is open stays open when one waiter is notified.
pub proof fn open_after_notify<W, SP: SyncPrimitives>(
    before: QueueView<Option<W>>,
    notification: Notification<W, SP>,
    done: AttemptFrom<Option<W>, Notification<W, SP>>,
    after: QueueView<Option<W>>,
)
    requires
        before.model.wf(),
        !closed(before.model),
        notification.in_queue(before),
        notify_done(before, notification.last(), notification.progress(), done, after),
    ensures
        !closed(after.model),
{
}

/// A queue that is open stays open when all waiters are notified.
pub proof fn open_after_notify_all<W, SP: SyncPrimitives>(
    before: QueueView<Option<W>>,
    waking: Waking<W, SP>,
    woken: Woken<W, SP>,
    after: QueueView<Option<W>>,
)
    requires
        before.model.wf(),
        !closed(before.model),
        waking.in_queue(before),
        waking.state() == EMPTY,
        wake_done(before, waking.state(), waking.progress(), woken, after),
    ensures
        !closed(after.model),
{
}

/// A queue that is open stays open when a waiter is done away with.
pub proof fn open_after_drop<W, SP: SyncPrimitives>(
    before: QueueView<Option<W>>,
    a: usize,
    lock: Option<LockedQueue<SP>>,
    waker: Attempt<Option<W>>,
    kept: Option<LockedQueue<SP>>,
    after: QueueView<Option<W>>,
)
    requires
        before.model.wf(),
        !closed(before.model),
        before.model.nodes.contains(a),
        dropping(before, a, lock, waker, kept, after),
    ensures
        !closed(after.model),
{
    let m = before.model;
    if m.queued.contains(a) {
        m.lemma_position(a);
    }
}

} // verus!
