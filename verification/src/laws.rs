//! What holds of queues as a whole.
//!
//! The contracts say what each step does to a [`Model`]; here is what follows for sequences of
//! steps, also of several threads.

use vstd::prelude::*;

use crate::attempt::Attempt;
use crate::node::dropping;
use crate::queue::drain::{
    blocked, finished, for_each_done, for_each_stopped, handed_over, left_behind, ran_unlocked, relocked, shown,
    spins_at, taken_out, unlocked, visit, visits,
};
use crate::queue::insert::wakes;
use crate::queue::model::{Model, HEAD_MARKER};
use crate::queue::state::QueueState;
use crate::queue::{reached, stalled, LockedQueue, NodeDequeuing, Queue, QueueView};
use crate::runs::{others_only_append, run, runnable, sound, without_lock, Step};
use crate::sync::SyncPrimitives;

verus! {

// Order.

/// The nodes `nodes` are inserted one after the other.
pub open spec fn enqueued_all(m: Model, nodes: Seq<usize>) -> Model
    decreases nodes.len(),
{
    if nodes.len() == 0 {
        m
    } else {
        enqueued_all(m, nodes.drop_last()).enqueued(nodes.last())
    }
}

/// The oldest node is taken out, `n` times. A queue that this leaves empty carries `state`.
pub open spec fn dequeued_times(m: Model, n: nat, state: QueueState) -> Model
    decreases n,
{
    if n == 0 {
        m
    } else {
        dequeued_times(m, (n - 1) as nat, state).removed(HEAD_MARKER, 0, state)
    }
}

/// Nodes are in the queue in the order in which they were inserted.
pub proof fn insertion_order(m: Model, nodes: Seq<usize>)
    requires
        m.wf(),
        nodes.no_duplicates(),
        forall|j: int| 0 <= j < nodes.len() ==> m.unqueued(#[trigger] nodes[j]),
    ensures
        enqueued_all(m, nodes).order() == m.order() + nodes,
        enqueued_all(m, nodes).state is None <==> m.state is None || nodes.len() > 0,
    decreases nodes.len(),
{
    if nodes.len() > 0 {
        let before = nodes.drop_last();
        assert forall|j: int| 0 <= j < before.len() implies m.unqueued(#[trigger] before[j]) by {
            assert(before[j] == nodes[j]);
        }
        insertion_order(m, before);
        assert((m.order() + before).push(nodes.last()) =~= m.order() + nodes);
    } else {
        assert(m.order() + nodes =~= m.order());
    }
}

/// Taking out the oldest node, time and again, takes the nodes out from front to back.
pub proof fn removal_order(m: Model, n: nat, state: QueueState)
    requires
        m.wf(),
        n <= m.order().len(),
    ensures
        dequeued_times(m, n, state).order() == m.order().skip(n as int),
    decreases n,
{
    if n > 0 {
        removal_order(m, (n - 1) as nat, state);
        assert(m.order().skip(n - 1).remove(0) =~= m.order().skip(n as int));
    } else {
        assert(m.order().skip(0) =~= m.order());
    }
}

/// First in, first out: of nodes inserted in an empty queue, the first `n` are the first `n` that
/// `dequeue` yields, and the next one that it yields is the next that was inserted.
pub proof fn first_in_first_out(m: Model, nodes: Seq<usize>, n: nat, state: QueueState)
    requires
        m.wf(),
        m.order().len() == 0,
        nodes.no_duplicates(),
        forall|j: int| 0 <= j < nodes.len() ==> m.unqueued(#[trigger] nodes[j]),
        n < nodes.len(),
    ensures
        dequeued_times(enqueued_all(m, nodes), n, state).order()[0] == nodes[n as int],
{
    insertion_order(m, nodes);
    assert(m.order() + nodes =~= nodes);
    enqueued_all_wf(m, nodes);
    removal_order(enqueued_all(m, nodes), n, state);
}

/// Insertions leave a queue in order.
pub proof fn enqueued_all_wf(m: Model, nodes: Seq<usize>)
    requires
        m.wf(),
        nodes.no_duplicates(),
        forall|j: int| 0 <= j < nodes.len() ==> m.unqueued(#[trigger] nodes[j]),
    ensures
        enqueued_all(m, nodes).wf(),
        forall|a: usize|
            m.unqueued(a) && !nodes.contains(a) ==> #[trigger] enqueued_all(m, nodes).unqueued(a),
    decreases nodes.len(),
{
    if nodes.len() > 0 {
        let before = nodes.drop_last();
        assert forall|j: int| 0 <= j < before.len() implies m.unqueued(#[trigger] before[j]) by {
            assert(before[j] == nodes[j]);
        }
        enqueued_all_wf(m, before);
        let last = nodes.last();
        assert(!before.contains(last)) by {
            if before.contains(last) {
                let j = before.index_of(last);
                assert(nodes[j] == nodes[nodes.len() - 1]);
            }
        }
        assert(m.unqueued(nodes[nodes.len() - 1]));
        insertion_keeps_wf(enqueued_all(m, before), last);
        assert forall|a: usize| m.unqueued(a) && !nodes.contains(a) implies #[trigger] enqueued_all(
            m,
            nodes,
        ).unqueued(a) by {
            assert(nodes[nodes.len() - 1] == last);
            assert(a != last);
            if before.contains(a) {
                let j = before.index_of(a);
                assert(nodes[j] == a);
            }
            assert(enqueued_all(m, before).unqueued(a));
        }
    }
}

/// Every insertion leads from a proper model to a proper model, whatever else is under way.
pub proof fn insertion_keeps_wf(m: Model, a: usize)
    requires
        m.wf(),
        m.unqueued(a),
    ensures
        m.published(a).wf(),
        m.enqueued(a).wf(),
{
    let e = m.enqueued(a);
    let p = m.published(a);
    let n = m.order().len() as int;
    assert forall|k: usize, i: int| #[trigger] e.has(k, i) implies {
        ||| m.has(k, i) && e.chains[k][i] == m.chains[k][i] && e.pred(k, i) == m.pred(k, i)
        ||| k == HEAD_MARKER && i == n && e.chains[k][i] == a && e.pred(k, i) == m.pred(
            HEAD_MARKER,
            n,
        )
    } by {
        if !(k == HEAD_MARKER && i == n) {
            assert(m.has(k, i));
        }
    }
    assert(!m.pending.contains_key(a));
    assert forall|b: usize| #[trigger] e.queued.contains(b) implies exists|k: usize, i: int|
        #[trigger]
        e.has(k, i) && e.chains[k][i] == b by {
        if b == a {
            assert(e.has(HEAD_MARKER, n) && e.chains[HEAD_MARKER][n] == a);
        } else {
            m.lemma_position(b);
            let (k, i) = m.position(b);
            assert(e.has(k, i) && e.chains[k][i] == b);
        }
    }
    assert forall|k: usize, i: int| #[trigger] p.has(k, i) implies e.has(k, i) && p.pred(k, i)
        == e.pred(k, i) by {}
    assert forall|b: usize| #[trigger] p.queued.contains(b) implies exists|k: usize, i: int|
        #[trigger]
        p.has(k, i) && p.chains[k][i] == b by {
        assert(e.queued.contains(b));
        let (k, i) = choose|k: usize, i: int| #[trigger] e.has(k, i) && e.chains[k][i] == b;
        assert(p.has(k, i));
    }
    if let Some(w) = m.waiting {
        let (k, i) = choose|k: usize, i: int| #[trigger] m.has(k, i) && m.pred(k, i) == w;
        assert(e.has(k, i) && e.pred(k, i) == w);
        assert(p.has(k, i) && p.pred(k, i) == w);
    }
    assert forall|k: usize| #[trigger]
        p.chains.contains_key(k) && k != HEAD_MARKER && p.chains[k].len() > 0 implies p.chains[k][0]
        != a by {
        assert(m.has(k, 0));
    }
    assert forall|k: usize, i: int| #[trigger]
        p.has(k, i) && p.pending.contains_key(p.chains[k][i]) implies p.pending[p.chains[k][i]]
        == p.pred(k, i) by {
        assert(e.has(k, i));
        if m.has(k, i) && e.chains[k][i] == m.chains[k][i] {
            assert(m.queued.contains(m.chains[k][i]));
        }
    }
}

/// Last in, first out: `pop` yields the node that was inserted last, and taking that out leaves
/// what was there before.
pub proof fn last_in_first_out(m: Model, a: usize, state: QueueState)
    requires
        m.wf(),
        m.unqueued(a),
    ensures
        m.enqueued(a).order().last() == a,
        m.enqueued(a).removed(HEAD_MARKER, m.order().len() as int, state).order() == m.order(),
        m.enqueued(a).removed(HEAD_MARKER, m.order().len() as int, state).state == (
        if m.order().len() == 0 {
            Some(state)
        } else {
            None
        }),
{
    assert(m.order().push(a).remove(m.order().len() as int) =~= m.order());
}

/// Taking out one node leaves all others in their chains, and none overtakes another.
pub proof fn removal_keeps_the_others(
    m: Model,
    k: usize,
    i: int,
    state: QueueState,
    p: int,
    q: int,
)
    requires
        m.wf(),
        m.has(k, i),
        m.has(k, p),
        m.has(k, q),
        p < q,
        p != i,
        q != i,
    ensures
        ({
            let after = m.removed(k, i, state).chains[k];
            let at = |j: int|
                if j < i {
                    j
                } else {
                    j - 1
                };
            &&& at(p) < at(q)
            &&& after[at(p)] == m.chains[k][p]
            &&& after[at(q)] == m.chains[k][q]
            &&& after.len() == m.chains[k].len() - 1
            &&& m.removed(k, i, state).queued.contains(m.chains[k][p])
            &&& forall|l: usize| l != k ==> #[trigger] m.removed(k, i, state).chains[l]
                == m.chains[l]
        }),
{
}

/// A node at an end of the queue that is left where it is, is what is found there the next time.
pub proof fn left_in_place<'a, 'b, T, SP: SyncPrimitives>(
    before: QueueView<T>,
    i: int,
    spin: bool,
    first: NodeDequeuing<'a, SP>,
    between: QueueView<T>,
    spin_again: bool,
    second: Attempt<Option<NodeDequeuing<'b, SP>>>,
    after: QueueView<T>,
)
    requires
        before.model.wf(),
        reached(before, i, spin, Attempt::Done(Some(first)), between),
        reached(between, i, spin_again, second, after),
    ensures
        second matches Attempt::Done(Some(second)) && second.node == first.node,
{
}

// Insertions that overlap with each other and with a removal.

/// Threads can insert at the same time: the nodes are in the queue in the order in which they
/// became the tail, whichever of them is linked first.
pub proof fn concurrent_insertions(m: Model, a: usize, b: usize)
    requires
        m.wf(),
        m.unqueued(a),
        m.unqueued(b),
        a != b,
    ensures
        m.published(a).published(b).linked(a).linked(b) == m.enqueued(a).enqueued(b),
        m.published(a).published(b).linked(b).linked(a) == m.enqueued(a).enqueued(b),
{
    let first = m.published(a).published(b).linked(a).linked(b);
    let second = m.published(a).published(b).linked(b).linked(a);
    assert(!m.pending.contains_key(a) && !m.pending.contains_key(b));
    assert(first.pending =~= m.pending);
    assert(second.pending =~= m.pending);
    assert(first =~= m.enqueued(a).enqueued(b));
    assert(second =~= m.enqueued(a).enqueued(b));
}

/// A thread can insert while another removes a node further to the front: it makes no difference
/// whether the removal happens in the middle of the insertion or before it.
pub proof fn insertion_during_removal(m: Model, a: usize, i: int, state: QueueState)
    requires
        m.wf(),
        m.unqueued(a),
        0 <= i,
        i + 1 < m.order().len(),
    ensures
        m.published(a).removed(HEAD_MARKER, i, state).linked(a) == m.removed(
            HEAD_MARKER,
            i,
            state,
        ).enqueued(a),
{
    let during = m.published(a).removed(HEAD_MARKER, i, state).linked(a);
    let after = m.removed(HEAD_MARKER, i, state).enqueued(a);
    assert(m.has(HEAD_MARKER, i));
    assert(!m.pending.contains_key(a));
    assert(m.order().push(a).remove(i) =~= m.order().remove(i).push(a));
    assert(during.chains =~= after.chains);
    assert(during.queued =~= after.queued);
    assert(during.pending =~= after.pending);
}

/// To insert a node takes nothing from anybody: all nodes stay where they are, and the operation
/// that holds the lock goes on as if nothing had happened.
pub proof fn insertion_disturbs_nobody(m: Model, a: usize)
    requires
        m.wf(),
        m.unqueued(a),
    ensures
        forall|k: usize, i: int| #[trigger]
            m.has(k, i) ==> m.published(a).has(k, i) && m.published(a).chains[k][i]
                == m.chains[k][i],
        m.published(a).leaving == m.leaving,
        m.published(a).open == m.open,
        m.published(a).waiting == m.waiting,
        m.published(a).dequeued == m.dequeued,
        m.published(a).nodes == m.nodes,
{
    assert forall|k: usize, i: int| #[trigger] m.has(k, i) implies m.published(a).has(k, i)
        && m.published(a).chains[k][i] == m.chains[k][i] by {}
}

/// When the insertion ends that a thread waits for, what it waits for is there.
pub proof fn linking_ends_the_wait(m: Model, a: usize)
    requires
        m.wf(),
        m.pending.contains_key(a),
        m.waiting == Some(m.pending[a]),
    ensures
        forall|k: usize, i: int| #[trigger]
            m.linked(a).has(k, i) && m.linked(a).pred(k, i) == m.pending[a] ==> {
                &&& m.linked(a).chains[k][i] == a
                &&& m.linked(a).attached(a)
            },
{
    m.lemma_position(a);
    let (l, j) = m.position(a);
    assert(m.has(l, j) && m.pred(l, j) == m.pending[a]);
    m.lemma_one_follower(m.pending[a]);
    assert forall|k: usize, i: int| #[trigger]
        m.linked(a).has(k, i) && m.linked(a).pred(k, i) == m.pending[a] implies {
        &&& m.linked(a).chains[k][i] == a
        &&& m.linked(a).attached(a)
    } by {
        assert(m.has(k, i) && m.pred(k, i) == m.pending[a]);
    }
}

/// A thread that has to wait on a cell is woken: it goes to sleep if its parker sleeps at all. Whatever
/// other threads do in the meantime, as long as it is parked there, the one that links node `a` behind
/// the cell is told to wake it, if it sleeps and has not been woken already.
pub proof fn waiting_thread_is_woken<T, R, SP: SyncPrimitives>(
    before: QueueView<T>,
    cell: usize,
    outcome: Attempt<R>,
    after: QueueView<T>,
    others: Seq<Step>,
    found: Queue<T, SP>,
    a: usize,
)
    requires
        stalled(before, cell, false, outcome, after),
        sound(after.model),
        runnable(after.model, others),
        without_lock(others),
        found.wf(),
        found@.model == run(after.model, others),
        found@.handshake.parking == after.handshake.parking,
        found@.model.pending.contains_key(a),
        found@.model.pending[a] == cell,
    ensures
        outcome is Wait,
        after.asleep == after.sleeps,
        !after.notified,
        wakes(found@, cell) == found@.sleeps || found@.notified,
{
    others_only_append(after.model, others);
    found.no_forgotten_sleeper(a);
}

// States.

/// The queue's state is there if and only if the queue is empty.
pub proof fn state_while_empty<T, SP: SyncPrimitives>(queue: Queue<T, SP>)
    requires
        queue.wf(),
    ensures
        queue@.model.state is Some <==> queue@.model.order().len() == 0,
{
    queue.lemma_wf();
}

/// The queue holds no node that does not exist any more.
pub proof fn no_dangling_node<T, SP: SyncPrimitives>(queue: Queue<T, SP>, k: usize, i: int)
    requires
        queue.wf(),
        queue@.model.has(k, i),
    ensures
        queue@.model.nodes.contains(queue@.model.chains[k][i]),
        queue@.data.contains_key(queue@.model.chains[k][i]),
{
    queue.lemma_wf();
}

/// A node is in one of three states, and goes through them in turn.
pub proof fn life_of_a_node(m: Model, a: usize, state: QueueState)
    requires
        m.wf(),
        m.unqueued(a),
    ensures
        ({
            let queued = m.enqueued(a);
            let (k, i) = queued.position(a);
            let dequeued = queued.removed(k, i, state);
            &&& queued.queued.contains(a) && !queued.dequeued.contains(a)
            &&& (k, i) == (HEAD_MARKER, m.order().len() as int)
            &&& dequeued.dequeued.contains(a) && !dequeued.queued.contains(a)
            &&& dequeued.reset(a).unqueued(a)
        }),
{
    let queued = m.enqueued(a);
    insertion_keeps_wf(m, a);
    queued.lemma_position(a);
    assert(queued.has(HEAD_MARKER, m.order().len() as int));
}

/// A node that is done away with is gone: it exists no more, and nothing in the queue or in a drain
/// leads to it. What it carried is handed out.
pub proof fn dropped_node_is_gone<T, SP: SyncPrimitives>(
    before: QueueView<T>,
    node: usize,
    lock: Option<LockedQueue<SP>>,
    data: T,
    kept: Option<LockedQueue<SP>>,
    after: QueueView<T>,
)
    requires
        before.model.wf(),
        before.model.nodes.contains(node),
        dropping(before, node, lock, Attempt::Done(data), kept, after),
    ensures
        data == before.data[node],
        !after.model.nodes.contains(node),
        forall|k: usize, i: int| #[trigger]
            after.model.has(k, i) ==> after.model.chains[k][i] != node,
{
    let m = before.model;
    if m.queued.contains(node) {
        m.lemma_position(node);
        let (k0, i0) = m.position(node);
        assert forall|k: usize, i: int| #[trigger] after.model.has(k, i) implies after.model.chains[k][i]
            != node by {
            if k == k0 {
                if i < i0 {
                    assert(m.has(k, i));
                } else {
                    assert(m.has(k, i + 1));
                }
            } else {
                assert(m.has(k, i));
            }
        }
    } else {
        assert forall|k: usize, i: int| #[trigger] after.model.has(k, i) implies after.model.chains[k][i]
            != node by {
            assert(m.has(k, i));
        }
    }
}

// Drains.

/// A drain is atomic: it has exactly the nodes that were in the queue, oldest first, and a node
/// inserted later goes to the queue.
pub proof fn drain_is_atomic(m: Model, s: usize, state: QueueState, a: usize)
    requires
        m.wf(),
        !m.nodes.contains(s),
        !m.chains.contains_key(s),
        m.unqueued(a),
    ensures
        m.draining(s, state).chains[s] == m.order(),
        m.draining(s, state).order().len() == 0,
        m.draining(s, state).enqueued(a).chains[s] == m.order(),
        m.draining(s, state).enqueued(a).order() == seq![a],
{
    assert(Seq::<usize>::empty().push(a) =~= seq![a]);
}

/// A drain hands its nodes out in order, and leaves the queue alone.
pub proof fn drain_in_order(m: Model, s: usize, n: int)
    requires
        m.wf(),
        m.chains.contains_key(s),
        s != HEAD_MARKER,
        0 <= n <= m.chains[s].len(),
    ensures
        m.taken(s, n).chains[s] == m.chains[s].skip(n),
        n < m.chains[s].len() ==> m.taken(s, n).chains[s][0] == m.chains[s][n],
        m.taken(s, n).order() == m.order(),
        m.taken(s, n).state == m.state,
        forall|j: int|
            0 <= j < n ==> m.taken(s, n).dequeued.contains(#[trigger] m.chains[s][j])
                && !m.taken(s, n).queued.contains(m.chains[s][j]),
{
    assert forall|j: int| 0 <= j < n implies m.taken(s, n).dequeued.contains(
        #[trigger] m.chains[s][j],
    ) && !m.taken(s, n).queued.contains(m.chains[s][j]) by {
        assert(m.chains[s].take(n)[j] == m.chains[s][j]);
        assert(m.chains[s].take(n).contains(m.chains[s][j]));
    }
}

/// A node that leaves a drain on its own account, while the drain has given the lock back, meets
/// neither the head nor the tail of the queue.
pub proof fn leaving_a_drain(m: Model, s: usize, i: int, state: QueueState)
    requires
        m.wf(),
        s != HEAD_MARKER,
        m.has(s, i),
    ensures
        m.removed(s, i, state).order() == m.order(),
        m.removed(s, i, state).state == m.state,
        m.removed(s, i, state).tail() == m.tail(),
        m.removed(s, i, state).chains[s] == m.chains[s].remove(i),
{
}

/// When nothing has happened in the meantime, a drain that gave the lock back and took it again is
/// where it was.
pub proof fn unlocked_and_back(m: Model, s: usize)
    requires
        m.open == Some(s),
    ensures
        m.closed().opened(s) == m,
{
    assert(m.closed().opened(s) =~= m);
}

/// From `v` to `w` the drain with sentinel `s`, which has given the lock back, and the nodes `nodes`,
/// which it has or had, are left alone. Nodes may have been inserted.
pub open spec fn spared<T>(v: QueueView<T>, s: usize, nodes: Seq<usize>, w: QueueView<T>) -> bool {
    &&& !w.locked
    &&& w.model.waiting is None
    &&& w.model.chains.contains_key(s)
    &&& w.model.chains[s] == v.model.chains[s]
    &&& v.model.order().is_prefix_of(w.model.order())
    &&& forall|j: int| #![trigger nodes[j]]
        0 <= j < nodes.len() ==> {
            let a = nodes[j];
            &&& w.data.contains_key(a) == v.data.contains_key(a)
            &&& w.data[a] == v.data[a]
            &&& w.model.queued.contains(a) == v.model.queued.contains(a)
            &&& w.model.dequeued.contains(a) == v.model.dequeued.contains(a)
            &&& w.model.pending.contains_key(a) ==> v.model.pending.contains_key(a)
        }
}

/// `on_unlock` leaves the drain with sentinel `s` and the nodes `nodes` alone, and may insert others.
pub open spec fn spares<T, SP: SyncPrimitives, H, U: FnMut(H, Queue<T, SP>) -> (H, Queue<T, SP>)>(
    on_unlock: U,
    s: usize,
    nodes: Seq<usize>,
) -> bool {
    forall|h: H, q: Queue<T, SP>, h2: H, q2: Queue<T, SP>| #[trigger]
        call_ensures(on_unlock, (h, q), (h2, q2)) && q.wf() && handed_over(q@, q@.id, s) ==> spared(
            q@,
            s,
            nodes,
            q2@,
        )
}

/// What follows a prefix of a prefix.
proof fn lemma_prefix(a: Seq<usize>, b: Seq<usize>, c: Seq<usize>)
    requires
        a.is_prefix_of(b),
        b.is_prefix_of(c),
    ensures
        a.is_prefix_of(c),
{
    assert(c.subrange(0, a.len() as int) =~= b.subrange(0, a.len() as int));
}

/// The drain with sentinel `s` holds the lock, and has nodes that are queued, each of them once.
pub open spec fn drainable<T>(v: QueueView<T>, s: usize) -> bool {
    let nodes = v.model.chains[s];
    &&& s != HEAD_MARKER
    &&& v.model.chains.contains_key(s)
    &&& v.locked
    &&& v.model.open == Some(s)
    &&& v.model.waiting is None
    &&& nodes.no_duplicates()
    &&& forall|j: int| 0 <= j < nodes.len() ==> v.data.contains_key(#[trigger] nodes[j])
}

/// When nobody takes nodes out of the drain while the lock is given back, whatever is inserted then, `n`
/// visits show the first `n` nodes of the drain, oldest first, each of them once: what they leave is
/// the drain without those nodes, which are taken out. The others carry what they carried, so that the
/// next visit shows the next node as it was. The nodes in the queue stay there.
#[verifier::spinoff_prover]
#[verifier::rlimit(50)]
pub proof fn visits_in_order<
    T,
    SP: SyncPrimitives,
    H,
    N: FnMut(H, T, &LockedQueue<SP>) -> (H, T, bool),
    U: FnMut(H, Queue<T, SP>) -> (H, Queue<T, SP>),
>(on_next: N, on_unlock: U, s: usize, n: nat, h: H, v: QueueView<T>, h2: H, v2: QueueView<T>)
    requires
        drainable(v, s),
        spares(on_unlock, s, v.model.chains[s]),
        visits::<T, SP, H, N, U>(on_next, on_unlock, s, n, h, v, h2, v2),
    ensures
        n <= v.model.chains[s].len(),
        drainable(v2, s),
        v2.model.chains[s] == v.model.chains[s].skip(n as int),
        v.model.order().is_prefix_of(v2.model.order()),
        forall|j: int|
            0 <= j < n ==> v2.model.dequeued.contains(#[trigger] v.model.chains[s][j])
                && !v2.model.queued.contains(v.model.chains[s][j]),
        forall|j: int|
            n <= j < v.model.chains[s].len() ==> v2.data[#[trigger] v.model.chains[s][j]]
                == v.data[v.model.chains[s][j]] && (v2.model.pending.contains_key(
                v.model.chains[s][j],
            ) ==> v.model.pending.contains_key(v.model.chains[s][j])),
    decreases n,
{
    let nodes = v.model.chains[s];
    if n == 0 {
        assert(nodes.skip(0) =~= nodes);
        assert(v.model.order().subrange(0, v.model.order().len() as int) =~= v.model.order());
    } else {
        let (h1, v1) = choose|h1: H, v1: QueueView<T>|
            visits::<T, SP, H, N, U>(on_next, on_unlock, s, (n - 1) as nat, h, v, h1, v1)
                && #[trigger] visit::<T, SP, H, N, U>(on_next, on_unlock, s, h1, v1, h2, v2);
        visits_in_order::<T, SP, H, N, U>(on_next, on_unlock, s, (n - 1) as nat, h, v, h1, v1);
        let (lock, seen, left, unlock) = choose|
            lock: LockedQueue<SP>,
            seen: H,
            left: T,
            unlock: bool,
        |
            #[trigger] shown(on_next, s, v1, h1, lock, seen, left, unlock) && if unlock {
                exists|q: Queue<T, SP>, q2: Queue<T, SP>| #[trigger]
                    ran_unlocked(
                        on_unlock,
                        unlocked(taken_out(left_behind(v1, s, left), s)),
                        seen,
                        q,
                        h2,
                        q2,
                    ) && !q2@.locked && v2 == relocked(q2@, s)
            } else {
                h2 == seen && v2 == taken_out(left_behind(v1, s, left), s)
            };
        assert(shown(on_next, s, v1, h1, lock, seen, left, unlock));
        let out = taken_out(left_behind(v1, s, left), s);
        let first = nodes[n - 1];
        assert(v1.model.chains[s][0] == first);
        assert(out.model.chains[s] =~= nodes.skip(n as int));
        assert(v1.model.order() =~= out.model.order());
        assert forall|j: int| n <= j < nodes.len() implies #[trigger] nodes[j] != first
            && out.data.contains_key(nodes[j]) by {
            assert(v1.model.chains[s][j - n + 1] == nodes[j]);
            assert(v1.data.contains_key(v1.model.chains[s][j - n + 1]));
        }
        if unlock {
            let (q, q2) = choose|q: Queue<T, SP>, q2: Queue<T, SP>| #[trigger]
                ran_unlocked(on_unlock, unlocked(out), seen, q, h2, q2) && !q2@.locked && v2
                    == relocked(q2@, s);
            assert(spared(q@, s, nodes, q2@));
            lemma_prefix(v.model.order(), v1.model.order(), v2.model.order());
        }
        assert forall|j: int| 0 <= j < nodes.skip(n as int).len() implies v2.data.contains_key(
            #[trigger] nodes.skip(n as int)[j],
        ) by {
            assert(nodes.skip(n as int)[j] == nodes[n + j]);
        }
    }
}

/// The visit that follows on `n` others shows the node at place `n` of the drain, as it was at first.
pub proof fn visit_shows_the_next<
    T,
    SP: SyncPrimitives,
    H,
    N: FnMut(H, T, &LockedQueue<SP>) -> (H, T, bool),
    U: FnMut(H, Queue<T, SP>) -> (H, Queue<T, SP>),
>(on_next: N, on_unlock: U, s: usize, n: nat, h: H, v: QueueView<T>, h2: H, v2: QueueView<T>)
    requires
        drainable(v, s),
        spares(on_unlock, s, v.model.chains[s]),
        visits::<T, SP, H, N, U>(on_next, on_unlock, s, n + 1, h, v, h2, v2),
    ensures
        n < v.model.chains[s].len(),
        exists|h1: H, v1: QueueView<T>| #[trigger]
            visit::<T, SP, H, N, U>(on_next, on_unlock, s, h1, v1, h2, v2) && visits::<T, SP, H, N, U>(
                on_next,
                on_unlock,
                s,
                n,
                h,
                v,
                h1,
                v1,
            ) && v1.model.chains[s][0] == v.model.chains[s][n as int]
                && v1.data[v1.model.chains[s][0]] == v.data[v.model.chains[s][n as int]],
{
    visits_in_order::<T, SP, H, N, U>(on_next, on_unlock, s, n + 1, h, v, h2, v2);
    let (h1, v1) = choose|h1: H, v1: QueueView<T>|
        visits::<T, SP, H, N, U>(on_next, on_unlock, s, n, h, v, h1, v1) && #[trigger] visit::<
            T,
            SP,
            H,
            N,
            U,
        >(on_next, on_unlock, s, h1, v1, h2, v2);
    visits_in_order::<T, SP, H, N, U>(on_next, on_unlock, s, n, h, v, h1, v1);
    assert(v1.model.chains[s][0] == v.model.chains[s][n as int]);
    assert(visit::<T, SP, H, N, U>(on_next, on_unlock, s, h1, v1, h2, v2));
}

/// `for_each`, when nobody takes nodes out of the drain while the lock is given back, whatever is
/// inserted then, and no insertion is under way in the drain: it comes to its end, and then every node has been shown, oldest first, and taken out.
pub proof fn for_each_shows_every_node<
    T,
    SP: SyncPrimitives,
    H,
    N: FnMut(H, T, &LockedQueue<SP>) -> (H, T, bool),
    U: FnMut(H, Queue<T, SP>) -> (H, Queue<T, SP>),
>(
    on_next: N,
    on_unlock: U,
    s: usize,
    spins: nat,
    h: H,
    v: QueueView<T>,
    outcome: Attempt<()>,
    visited: Option<bool>,
    open: bool,
    h2: H,
    v2: QueueView<T>,
)
    requires
        drainable(v, s),
        forall|j: int|
            0 <= j < v.model.chains[s].len() ==> !v.model.pending.contains_key(
                #[trigger] v.model.chains[s][j],
            ),
        spares(on_unlock, s, v.model.chains[s]),
        for_each_done::<T, SP, H, N, U>(
            on_next,
            on_unlock,
            s,
            spins,
            h,
            v,
            outcome,
            visited,
            open,
            h2,
            v2,
        ),
    ensures
        outcome is Done,
        visits::<T, SP, H, N, U>(on_next, on_unlock, s, v.model.chains[s].len(), h, v, h2, v2),
        v2.model.chains[s].len() == 0,
        v.model.order().is_prefix_of(v2.model.order()),
        forall|j: int|
            0 <= j < v.model.chains[s].len() ==> v2.model.dequeued.contains(
                #[trigger] v.model.chains[s][j],
            ) && !v2.model.queued.contains(v.model.chains[s][j]),
{
    let nodes = v.model.chains[s];
    let (n, h1, v1) = choose|n: nat, h1: H, v1: QueueView<T>| #[trigger]
        visits::<T, SP, H, N, U>(on_next, on_unlock, s, n, h, v, h1, v1) && for_each_stopped::<
            T,
            SP,
            H,
            N,
            U,
        >(
            on_next,
            on_unlock,
            s,
            spins_at(spins, n as int) < SP::SPIN_BEFORE_PARK,
            h1,
            v1,
            outcome,
            visited,
            open,
            h2,
            v2,
        );
    visits_in_order::<T, SP, H, N, U>(on_next, on_unlock, s, n, h, v, h1, v1);
    if n < nodes.len() {
        if n + 1 < nodes.len() {
            assert(v1.model.chains[s][1] == nodes[n as int + 1]);
        }
        assert(!blocked(v1, s));
        let spin = spins_at(spins, n as int) < SP::SPIN_BEFORE_PARK;
        let (lock, seen, left, unlock) = choose|
            lock: LockedQueue<SP>,
            seen: H,
            left: T,
            unlock: bool,
        |
            #[trigger] shown(on_next, s, v1, h1, lock, seen, left, unlock) && finished::<T, SP, H, U>(
                on_unlock,
                s,
                unlock,
                spin,
                seen,
                left_behind(v1, s, left),
                outcome,
                open,
                h2,
                v2,
            ) && visited == if blocked(v1, s) {
                Some(unlock)
            } else {
                None
            };
        let w = left_behind(v1, s, left);
        assert(!blocked(w, s));
        if unlock {
            let (q, q2) = choose|q: Queue<T, SP>, q2: Queue<T, SP>| #[trigger]
                ran_unlocked(on_unlock, unlocked(taken_out(w, s)), seen, q, h2, q2) && open
                    == !q2@.locked && if q2@.locked {
                    outcome is Wait && v2 == q2@
                } else {
                    outcome is Done && v2 == relocked(q2@, s)
                };
            assert(spared(q@, s, nodes, q2@));
        }
    }
}

} // verus!
