//! What each operation does to the node that it is about, and that it leaves all others alone.

use vstd::prelude::*;

use crate::attempt::{Attempt, AttemptFrom};
use crate::node::{dropping, emptying, locking, state_of, Node, NodeLocking, NodeState};
use crate::queue::drain::{
    advance, blocked, draining, ending, finished, for_each_done, for_each_stopped, left_behind, looked,
    ran_unlocked, relocked, shown, spins_at, stopped_at, taken_out, unlocked, visit, visits, Drain,
};
use crate::queue::lock::{seen, stalled, update_or_lock, StateOrLock};
use crate::queue::model::{Model, HEAD_MARKER};
use crate::queue::remove::{popped_place, reached, removal, NodeDequeuing};
use crate::queue::state::QueueState;
use crate::queue::{LockedQueue, Queue, QueueRef, QueueView};
use crate::runs::{lemma_without_none, lemma_without_one_more, lemma_without_others, without};
use crate::sync::SyncPrimitives;

verus! {

/// Every node but `a` exists, waits in a chain, has been taken out, and is being inserted, in `n` as in
/// `m`.
pub open spec fn others_stay(m: Model, n: Model, a: usize) -> bool {
    forall|b: usize| #![auto]
        b != a ==> {
            &&& n.nodes.contains(b) == m.nodes.contains(b)
            &&& n.queued.contains(b) == m.queued.contains(b)
            &&& n.dequeued.contains(b) == m.dequeued.contains(b)
            &&& n.pending.contains_key(b) == m.pending.contains_key(b)
            &&& n.pending[b] == m.pending[b]
        }
}

/// Every node exists, waits in a chain, has been taken out, and is being inserted, in `n` as in `m`.
pub open spec fn all_stay(m: Model, n: Model) -> bool {
    forall|b: usize| others_stay(m, n, b)
}

/// The queue and the drains have the same nodes in the same order.
pub open spec fn same_lines(m: Model, n: Model) -> bool {
    forall|k: usize| #![auto]
        n.chains.contains_key(k) == m.chains.contains_key(k) && (m.chains.contains_key(k)
            ==> n.chains[k] == m.chains[k])
}

/// The queue and the drains have the same nodes in the same order, without node `a`.
pub open spec fn lines_without(m: Model, n: Model, a: usize) -> bool {
    forall|k: usize| #![auto]
        n.chains.contains_key(k) == m.chains.contains_key(k) && (m.chains.contains_key(k)
            ==> n.chains[k] == without(m.chains[k], set![a]))
}

/// What the holder of the lock has under way is the same.
pub open spec fn same_holder(m: Model, n: Model) -> bool {
    n.leaving == m.leaving && n.open == m.open && n.waiting == m.waiting
}

/// Every node but `a` carries what it carried.
pub open spec fn others_carry<T>(v: QueueView<T>, w: QueueView<T>, a: usize) -> bool {
    forall|b: usize| #![auto]
        b != a ==> w.data.contains_key(b) == v.data.contains_key(b) && w.data[b] == v.data[b]
}

/// Behind node `a`, in its line, an insertion is under way.
pub open spec fn held_up(m: Model, a: usize) -> bool {
    exists|k: usize, i: int| #[trigger]
        m.has(k, i) && m.chains[k][i] == a && i + 1 < m.chains[k].len() && m.pending.contains_key(
            m.chains[k][i + 1],
        )
}

/// What is neither a node nor a chain nor what nodes carry is the same, but for the lock.
pub open spec fn same_rest<T>(v: QueueView<T>, w: QueueView<T>) -> bool {
    &&& w.id == v.id
    &&& w.sleeps == v.sleeps
    &&& w.own_word == v.own_word
    &&& w.notified == v.notified
    &&& w.asleep == v.asleep
    &&& w.handshake == v.handshake
}

/// A line that has `a` in place `i`, and one that does not have it.
proof fn lemma_line_without(line: Seq<usize>, a: usize)
    requires
        line.no_duplicates(),
    ensures
        !line.contains(a) ==> without(line, set![a]) == line,
        forall|i: int|
            0 <= i < line.len() && #[trigger] line[i] == a ==> without(line, set![a])
                == line.remove(i),
{
    if !line.contains(a) {
        assert forall|i: int| 0 <= i < line.len() implies !set![a].contains(
            #[trigger] line[i],
        ) by {
            assert(line.contains(line[i]));
        }
        lemma_without_others(line, set![a]);
    }
    lemma_without_none(line);
    assert forall|i: int| 0 <= i < line.len() && #[trigger] line[i] == a implies without(
        line,
        set![a],
    ) == line.remove(i) by {
        lemma_without_one_more(line, Set::empty(), i);
        assert(Set::<usize>::empty().insert(a) =~= set![a]);
    }
}

/// The lines of a well-formed model have no node twice, and no node is in two of them.
proof fn lemma_lines(m: Model, k: usize)
    requires
        m.wf(),
        m.chains.contains_key(k),
    ensures
        m.chains[k].no_duplicates(),
        forall|a: usize| #[trigger] m.chains[k].contains(a) ==> m.queued.contains(a),
{
    assert forall|i: int, j: int|
        0 <= i < m.chains[k].len() && 0 <= j < m.chains[k].len() && i != j implies m.chains[k][i]
        != m.chains[k][j] by {
        assert(m.has(k, i) && m.has(k, j));
    }
    assert forall|a: usize| #[trigger] m.chains[k].contains(a) implies m.queued.contains(a) by {
        let i = m.chains[k].index_of(a);
        assert(m.has(k, i));
    }
}

/// A model is as well-formed when nobody waits.
pub proof fn lemma_not_waiting(m: Model)
    requires
        m.wf(),
    ensures
        m.awaiting(None).wf(),
        forall|a: usize| #[trigger] held_up(m.awaiting(None), a) == held_up(m, a),
{
    let w = m.awaiting(None);
    assert forall|a: usize| #[trigger] held_up(w, a) == held_up(m, a) by {
        if held_up(w, a) {
            let (k, i) = choose|k: usize, i: int| #[trigger]
                w.has(k, i) && w.chains[k][i] == a && i + 1 < w.chains[k].len()
                    && w.pending.contains_key(w.chains[k][i + 1]);
            assert(m.has(k, i));
        }
        if held_up(m, a) {
            let (k, i) = choose|k: usize, i: int| #[trigger]
                m.has(k, i) && m.chains[k][i] == a && i + 1 < m.chains[k].len()
                    && m.pending.contains_key(m.chains[k][i + 1]);
            assert(w.has(k, i));
        }
    }
    assert forall|l: usize, j: int| #[trigger] w.has(l, j) implies m.has(l, j) by {}
    assert forall|a: usize| #[trigger] w.queued.contains(a) implies exists|l: usize, j: int|
        #[trigger]
        w.has(l, j) && w.chains[l][j] == a by {
        m.lemma_position(a);
        assert(w.has(m.position(a).0, m.position(a).1));
    }
}

// Steps.

/// A queue starts empty, in its state, without nodes and drains.
pub proof fn starting(state: QueueState)
    ensures
        Model::empty(state).state == Some(state),
        Model::empty(state).order() == Seq::<usize>::empty(),
        forall|k: usize| Model::empty(state).chains.contains_key(k) <==> k == HEAD_MARKER,
        forall|a: usize| #![auto]
            !Model::empty(state).nodes.contains(a) && !Model::empty(state).queued.contains(a)
                && !Model::empty(state).dequeued.contains(a) && !Model::empty(
                state,
            ).pending.contains_key(a),
        Model::empty(state).leaving is None,
        Model::empty(state).open is None,
        Model::empty(state).waiting is None,
{
}

/// To make a node, to do away with one that is in no chain, and to make one ready for another insertion
/// concerns that node alone.
pub proof fn making_and_unmaking(m: Model, a: usize)
    ensures
        !m.nodes.contains(a) && !m.queued.contains(a) && !m.dequeued.contains(a) ==> {
            let n = m.created(a);
            &&& n.unqueued(a)
            &&& others_stay(m, n, a)
            &&& same_lines(m, n)
            &&& same_holder(m, n)
            &&& n.state == m.state
        },
        m.nodes.contains(a) && !m.queued.contains(a) ==> {
            let n = m.destroyed(a);
            &&& !n.nodes.contains(a) && !n.queued.contains(a) && !n.dequeued.contains(a)
            &&& others_stay(m, n, a)
            &&& same_lines(m, n)
            &&& same_holder(m, n)
            &&& n.state == m.state
        },
        m.nodes.contains(a) && !m.queued.contains(a) ==> {
            let n = m.reset(a);
            &&& n.unqueued(a)
            &&& others_stay(m, n, a)
            &&& same_lines(m, n)
            &&& same_holder(m, n)
            &&& n.state == m.state
        },
{
}

/// To insert a node puts it behind all others in the queue, and concerns nothing else. The queue has no
/// state then.
pub proof fn inserting(m: Model, a: usize)
    requires
        m.wf(),
        m.unqueued(a),
    ensures
        forall|n: Model| n == m.published(a) || n == m.enqueued(a) ==> {
            &&& #[trigger] n.order() == m.order().push(a)
            &&& forall|k: usize| #![auto]
                k != HEAD_MARKER ==> n.chains.contains_key(k) == m.chains.contains_key(k) && (
                m.chains.contains_key(k) ==> n.chains[k] == m.chains[k])
            &&& n.nodes.contains(a) && n.queued.contains(a) && !n.dequeued.contains(a)
            &&& others_stay(m, n, a)
            &&& same_holder(m, n)
            &&& n.state is None
        },
        m.published(a).pending.contains_key(a),
        !m.enqueued(a).pending.contains_key(a),
        m.published(a).pending[a] == if m.order().len() == 0 {
            HEAD_MARKER
        } else {
            m.order().last()
        },
        !m.published(a).linked(a).pending.contains_key(a),
        others_stay(m.published(a), m.published(a).linked(a), a),
        same_lines(m.published(a), m.published(a).linked(a)),
        m.published(a).linked(a).queued.contains(a),
        !m.published(a).linked(a).dequeued.contains(a),
{
    assert(!m.pending.contains_key(a));
}

/// The state of an empty queue is replaced, and nothing else.
pub proof fn replacing_the_state(m: Model, state: QueueState)
    ensures
        m.with_state(state).state == Some(state),
        all_stay(m, m.with_state(state)),
        same_lines(m, m.with_state(state)),
        same_holder(m, m.with_state(state)),
{
}

/// To take out the node at place `i` of chain `k` takes out that node alone.
pub proof fn taking_out(m: Model, k: usize, i: int, state: QueueState)
    requires
        m.wf(),
        m.has(k, i),
    ensures
        ({
            let a = m.chains[k][i];
            let n = m.removed(k, i, state);
            &&& n.dequeued.contains(a) && !n.queued.contains(a) && n.nodes.contains(a)
            &&& others_stay(m, n, a)
            &&& lines_without(m, n, a)
            &&& n.chains[k] == m.chains[k].remove(i)
            &&& forall|l: usize| #![auto]
                l != k ==> n.chains.contains_key(l) == m.chains.contains_key(l) && n.chains[l]
                    == m.chains[l]
            &&& n.leaving is None && n.open == m.open && n.waiting == m.waiting
            &&& n.order().len() == 0 && m.order().len() > 0 ==> n.state == Some(state)
            &&& n.order().len() > 0 || m.order().len() == 0 ==> n.state == m.state
        }),
{
    let a = m.chains[k][i];
    let n = m.removed(k, i, state);
    assert forall|l: usize| m.chains.contains_key(l) implies n.chains[l] == without(
        #[trigger] m.chains[l],
        set![a],
    ) by {
        lemma_lines(m, l);
        lemma_line_without(m.chains[l], a);
        if l != k && m.chains[l].contains(a) {
            let j = m.chains[l].index_of(a);
            assert(m.has(l, j));
        }
    }
}

/// All nodes of the queue go over to a drain, in order, and nothing else changes.
pub proof fn moving_to_a_drain(m: Model, s: usize, state: QueueState)
    requires
        m.wf(),
        !m.chains.contains_key(s),
    ensures
        ({
            let n = m.draining(s, state);
            &&& n.chains.contains_key(s) && n.chains[s] == m.order()
            &&& n.order() == Seq::<usize>::empty()
            &&& forall|k: usize| #![auto]
                k != s && k != HEAD_MARKER ==> n.chains.contains_key(k) == m.chains.contains_key(k)
                    && (m.chains.contains_key(k) ==> n.chains[k] == m.chains[k])
            &&& all_stay(m, n)
            &&& n.open == Some(s) && n.leaving == m.leaving && n.waiting == m.waiting
            &&& n.state == if m.order().len() > 0 {
                Some(state)
            } else {
                m.state
            }
        }),
{
    assert(s != HEAD_MARKER);
}

/// The first `n` nodes of a drain are taken out, and nothing else.
pub proof fn taking_out_of_a_drain(m: Model, s: usize, n: int)
    requires
        m.wf(),
        m.chains.contains_key(s),
        s != HEAD_MARKER,
        0 <= n <= m.chains[s].len(),
    ensures
        ({
            let w = m.taken(s, n);
            let out = m.chains[s].take(n);
            &&& w.chains.contains_key(s) && out + w.chains[s] == m.chains[s]
            &&& forall|k: usize| #![auto]
                k != s ==> w.chains.contains_key(k) == m.chains.contains_key(k) && (
                m.chains.contains_key(k) ==> w.chains[k] == m.chains[k])
            &&& forall|b: usize| #![auto]
                {
                    &&& w.nodes.contains(b) == m.nodes.contains(b)
                    &&& w.queued.contains(b) == (m.queued.contains(b) && !out.contains(b))
                    &&& w.dequeued.contains(b) == (m.dequeued.contains(b) || out.contains(b))
                    &&& w.pending.contains_key(b) == m.pending.contains_key(b)
                }
            &&& same_holder(m, w)
            &&& w.state == m.state
        }),
{
    assert(m.chains[s].take(n) + m.taken(s, n).chains[s] =~= m.chains[s]);
}

/// What the holder of the lock does to what it has under way concerns no node and no line.
pub proof fn holding(m: Model, s: usize, a: usize, w: Option<usize>)
    ensures
        forall|n: Model|
            n == m.opened(s) || n == m.closed() || n == m.detached(a) || n == m.awaiting(w) ==> {
                &&& #[trigger] all_stay(m, n)
                &&& same_lines(m, n)
                &&& n.state == m.state
            },
        all_stay(m, m.drained(s)),
        m.drained(s).state == m.state,
        forall|k: usize| #![auto]
            m.drained(s).chains.contains_key(k) == (m.chains.contains_key(k) && k != s) && (k != s
                ==> m.drained(s).chains[k] == m.chains[k]),
        m.opened(s).open == Some(s),
        m.closed().open is None,
        m.drained(s).open is None,
        m.detached(a).leaving == Some(a),
        m.awaiting(w).waiting == w,
        m.opened(s).leaving == m.leaving && m.opened(s).waiting == m.waiting,
        m.closed().leaving == m.leaving && m.closed().waiting == m.waiting,
        m.drained(s).leaving == m.leaving && m.drained(s).waiting == m.waiting,
        m.detached(a).open == m.open && m.detached(a).waiting == m.waiting,
        m.awaiting(w).open == m.open && m.awaiting(w).leaving == m.leaving,
{
}

// Waiting.

/// A try that has to stop changes no line, no node and no state: it says `Spin` and leaves all as it
/// was, or says `Wait` and leaves its thread announced where it has to wait.
pub proof fn stopping<T, R>(
    before: QueueView<T>,
    cell: usize,
    spin: bool,
    outcome: Attempt<R>,
    after: QueueView<T>,
)
    requires
        stalled(before, cell, spin, outcome, after),
    ensures
        !(outcome is Done),
        outcome is Spin <==> spin,
        all_stay(before.model, after.model),
        same_lines(before.model, after.model),
        after.model.state == before.model.state,
        after.model.leaving == before.model.leaving,
        after.model.open == before.model.open,
        after.data == before.data,
        after.room == before.room,
        after.locked == before.locked,
        after.id == before.id,
        outcome is Spin ==> after.model.waiting == before.model.waiting && same_rest(before, after),
        outcome is Wait ==> after.model.waiting == Some(cell) && after.asleep == before.sleeps,
{
}

/// Whoever looks behind a cell finds the node that follows it, if that has been linked and is not about to
/// leave, and nothing otherwise.
pub proof fn looking(m: Model, k: usize, i: int, found: Option<usize>)
    requires
        m.has(k, i),
        seen(
            m,
            if i == 0 {
                k
            } else {
                m.chains[k][i - 1]
            },
            found,
        ),
    ensures
        found == if m.pending.contains_key(m.chains[k][i]) || m.leaving == Some(m.chains[k][i]) {
            None
        } else {
            Some(m.chains[k][i])
        },
{
    assert(m.has(k, i));
}

// Removal.

/// To remove a node takes out that node and no other: the lines are as before without it, all others
/// are queued or not as before, and all nodes carry what they carried. It is done at once unless the
/// insertion of the node behind it is under way. It says whether the node was the last one in the queue,
/// and then the queue is left with `state`.
pub proof fn removing<T>(
    before: QueueView<T>,
    node: usize,
    state: QueueState,
    spin: bool,
    emptied: Attempt<bool>,
    after: QueueView<T>,
)
    requires
        before.model.wf(),
        before.model.queued.contains(node),
        removal(before, node, state, spin, emptied, after),
    ensures
        emptied is Done <==> !held_up(before.model, node),
        after.data == before.data,
        after.room == before.room,
        after.locked == before.locked,
        after.id == before.id,
        emptied matches Attempt::Done(emptied) ==> {
            &&& after.model.dequeued.contains(node) && !after.model.queued.contains(node)
            &&& after.model.nodes.contains(node)
            &&& others_stay(before.model, after.model, node)
            &&& lines_without(before.model, after.model, node)
            &&& after.model.leaving is None && after.model.waiting is None
            &&& after.model.open == before.model.open
            &&& emptied == (before.model.order() == seq![node])
            &&& after.model.state == if emptied {
                Some(state)
            } else {
                before.model.state
            }
            &&& same_rest(before, after)
        },
        !(emptied is Done) ==> {
            &&& emptied is Spin <==> spin
            &&& emptied is Wait <==> !spin
            &&& emptied is Wait ==> after.model.waiting == Some(node)
            &&& all_stay(before.model, after.model)
            &&& same_lines(before.model, after.model)
            &&& after.model.state == before.model.state
            &&& after.model.leaving == Some(node)
            &&& after.model.open == before.model.open
        },
{
    let m = before.model;
    m.lemma_position(node);
    let (k, i) = m.position(node);
    assert(m.has(k, i));
    if emptied is Done {
        let w = m.awaiting(None);
        lemma_not_waiting(m);
        assert(w.has(k, i));
        taking_out(w, k, i, state);
        if m.order() == seq![node] {
            assert(m.has(HEAD_MARKER, 0) && m.chains[HEAD_MARKER][0] == node);
        } else if k == HEAD_MARKER && m.order().len() == 1 {
            assert(m.order() =~= seq![node]);
        }
    }
}

/// To take out a node empties the queue if and only if that is the only one in it.
pub proof fn taking_out_the_last<T>(v: QueueView<T>, node: usize)
    requires
        v.model.wf(),
        v.model.queued.contains(node),
    ensures
        emptying(v, node) <==> v.model.order() == seq![node],
{
    let m = v.model;
    m.lemma_position(node);
    if m.order() == seq![node] {
        assert(m.has(HEAD_MARKER, 0) && m.chains[HEAD_MARKER][0] == node);
    } else if emptying(v, node) {
        assert(m.order() =~= seq![node]);
    }
}

/// The end of a queue is reached: `dequeue` yields the oldest node, and `pop` the newest, or the one
/// that was newest when its thread began to wait. Nothing is taken out. It is done at once unless the
/// insertion of that node is under way.
pub proof fn reaching<'a, T, SP: SyncPrimitives>(
    before: QueueView<T>,
    i: int,
    spin: bool,
    found: Attempt<Option<NodeDequeuing<'a, SP>>>,
    after: QueueView<T>,
)
    requires
        reached(before, i, spin, found, after),
        before.model.order().len() > 0 ==> before.model.has(HEAD_MARKER, i),
    ensures
        found is Done <==> before.model.order().len() == 0 || !before.model.pending.contains_key(
            before.model.order()[i],
        ),
        found matches Attempt::Done(end) ==> (end is None <==> before.model.order().len() == 0),
        found matches Attempt::Done(Some(end)) ==> end.node == before.model.order()[i]
            && after.model.waiting is None && same_rest(before, after),
        found matches Attempt::Done(None) ==> after == before,
        !(found is Done) ==> (found is Spin <==> spin) && (found is Wait <==> !spin),
        found is Wait ==> after.model.waiting == Some(
            if i == 0 {
                HEAD_MARKER
            } else {
                before.model.order()[i - 1]
            },
        ),
        all_stay(before.model, after.model),
        same_lines(before.model, after.model),
        after.model.state == before.model.state,
        after.model.leaving == before.model.leaving,
        after.model.open == before.model.open,
        after.data == before.data,
        after.room == before.room,
        after.locked == before.locked,
        after.id == before.id,
{
}

/// `pop` is about the node behind all others. If its thread waits, it is about the node that it waits for,
/// which is the one behind the cell that it waits on.
pub proof fn popping(m: Model)
    requires
        m.wf(),
        m.order().len() > 0,
    ensures
        m.waiting is None ==> m.has(HEAD_MARKER, popped_place(m)) && m.order()[popped_place(m)]
            == m.order().last(),
        forall|i: int|
            0 < i < m.order().len() && m.waiting == Some(#[trigger] m.order()[i - 1])
                ==> popped_place(m) == i,
        m.waiting == Some(HEAD_MARKER) ==> popped_place(m) == 0,
{
    if m.waiting is Some {
        m.lemma_one_follower(m.waiting->0);
        let w = m.waiting->0;
        assert forall|i: int| m.has(HEAD_MARKER, i) && m.pred(HEAD_MARKER, i) == w implies popped_place(
            m,
        ) == i by {
            let p = popped_place(m);
            assert(m.has(HEAD_MARKER, p) && m.pred(HEAD_MARKER, p) == w);
        }
        assert forall|i: int|
            0 < i < m.order().len() && w == #[trigger] m.order()[i - 1] implies popped_place(m)
            == i by {
            assert(m.has(HEAD_MARKER, i) && m.pred(HEAD_MARKER, i) == w);
        }
        if w == HEAD_MARKER {
            assert(m.has(HEAD_MARKER, 0) && m.pred(HEAD_MARKER, 0) == w);
        }
    }
}

/// Doing away with a node takes it out of its line if it is in one, and leaves all others where they
/// are: the queue and the drains have the nodes that they had, in order, without it; the others are
/// queued or dequeued as before, and carry what they carried. What it carried is handed out.
pub proof fn doing_away<T, SP: SyncPrimitives>(
    before: QueueView<T>,
    node: usize,
    lock: Option<LockedQueue<SP>>,
    data: Attempt<T>,
    kept: Option<LockedQueue<SP>>,
    after: QueueView<T>,
)
    requires
        before.model.wf(),
        before.model.nodes.contains(node),
        dropping(before, node, lock, data, kept, after),
    ensures
        data matches Attempt::Done(data) ==> {
            &&& data == before.data[node]
            &&& !after.model.nodes.contains(node)
            &&& !after.model.queued.contains(node)
            &&& !after.model.dequeued.contains(node)
            &&& !after.data.contains_key(node)
            &&& others_stay(before.model, after.model, node)
            &&& lines_without(before.model, after.model, node)
            &&& others_carry(before, after, node)
            &&& after.room == before.room + 1
            &&& after.model.state == if before.model.order() == seq![node] {
                Some(0)
            } else {
                before.model.state
            }
            &&& before.model.queued.contains(node) ==> !after.locked && kept is None
            &&& !before.model.queued.contains(node) ==> after.locked == before.locked && kept == lock
        },
        !(data is Done) ==> {
            &&& before.model.queued.contains(node)
            &&& kept is None <==> lock is None && before.locked
            &&& kept matches Some(kept) ==> kept.holds(after)
            &&& all_stay(before.model, after.model)
            &&& same_lines(before.model, after.model)
            &&& after.model.state == before.model.state
            &&& after.data == before.data
            &&& after.room == before.room
            &&& after.locked
        },
        data is Done <==> !before.model.queued.contains(node) || ((lock is Some || !before.locked)
            && !held_up(before.model, node)),
        after.id == before.id,
{
    let m = before.model;
    if !m.queued.contains(node) {
        assert forall|l: usize| m.chains.contains_key(l) implies #[trigger] m.chains[l] == without(
            m.chains[l],
            set![node],
        ) by {
            lemma_lines(m, l);
            lemma_line_without(m.chains[l], node);
        }
        if m.order() == seq![node] {
            lemma_lines(m, HEAD_MARKER);
            assert(m.order()[0] == node);
            assert(m.order().contains(node));
        }
    } else {
        m.lemma_position(node);
        let (k, i) = m.position(node);
        assert(m.has(k, i));
        if data is Done {
            let out = QueueView { model: m.awaiting(None).removed(k, i, 0), ..before };
            assert(removal(before, node, 0, false, Attempt::Done(
                k == HEAD_MARKER && m.order().len() == 1,
            ), out));
            removing(before, node, 0, false, Attempt::Done(
                k == HEAD_MARKER && m.order().len() == 1,
            ), out);
            assert(same_lines(out.model, after.model));
        }
    }
}

// Drains.

/// A drain begins with all nodes of the queue, oldest first, and changes nothing else.
pub proof fn beginning_a_drain<T, SP: SyncPrimitives>(
    before: QueueView<T>,
    state: QueueState,
    spin: bool,
    drain: AttemptFrom<Drain<SP>, LockedQueue<SP>>,
    after: QueueView<T>,
)
    requires
        before.model.wf(),
        before.room > 0,
        draining(before, state, spin, drain, after),
    ensures
        drain is Done <==> before.model.order().len() == 0 || !before.model.pending.contains_key(
            before.model.order()[0],
        ),
        drain matches AttemptFrom::Done(drain) ==> {
            &&& drain.rest(after) == before.model.order()
            &&& drain.in_queue(after) && drain.is_open() && drain.visited() is None
            &&& after.room == before.room - 1
            &&& same_rest(before, after)
            &&& after.model.order() == Seq::<usize>::empty()
            &&& after.model.state == if before.model.order().len() > 0 {
                Some(state)
            } else {
                before.model.state
            }
            &&& forall|k: usize| #![auto]
                k != HEAD_MARKER && before.model.chains.contains_key(k)
                    ==> after.model.chains.contains_key(k) && after.model.chains[k]
                    == before.model.chains[k]
        },
        !(drain is Done) ==> {
            &&& drain is Spin <==> spin
            &&& drain is Wait ==> after.model.waiting == Some(HEAD_MARKER)
            &&& same_lines(before.model, after.model)
            &&& after.model.state == before.model.state
            &&& after.room == before.room
        },
        all_stay(before.model, after.model),
        after.data == before.data,
        after.locked == before.locked,
        after.id == before.id,
{
    if let AttemptFrom::Done(drain) = drain {
        assert(drain.sentinel() != HEAD_MARKER);
    }
}

/// To take out the first node of a drain takes out that node alone.
pub proof fn advancing<T>(
    before: QueueView<T>,
    s: usize,
    spin: bool,
    outcome: Attempt<()>,
    after: QueueView<T>,
)
    requires
        before.model.wf(),
        s != HEAD_MARKER,
        before.model.has(s, 0),
        advance(before, s, spin, outcome, after),
    ensures
        outcome is Done <==> !(before.model.has(s, 1) && before.model.pending.contains_key(
            before.model.chains[s][1],
        )),
        outcome is Done ==> {
            let a = before.model.chains[s][0];
            &&& after.model.dequeued.contains(a) && !after.model.queued.contains(a)
            &&& others_stay(before.model, after.model, a)
            &&& after.model.chains[s] == before.model.chains[s].skip(1)
            &&& after.model.order() == before.model.order()
            &&& lines_without(before.model, after.model, a)
        },
        !(outcome is Done) ==> {
            &&& outcome is Spin <==> spin
            &&& outcome is Wait ==> after.model.waiting == Some(before.model.chains[s][0])
            &&& all_stay(before.model, after.model)
            &&& same_lines(before.model, after.model)
        },
        after.model.state == before.model.state,
        after.data == before.data,
        after.locked == before.locked,
        after.room == before.room,
        after.id == before.id,
{
    let m = before.model;
    let a = m.chains[s][0];
    m.lemma_position(a);
    if outcome is Done {
        assert(m.position(a) == (s, 0int));
        removing(before, a, 0, spin, Attempt::Done(false), after);
        assert(m.chains[s].remove(0) =~= m.chains[s].skip(1));
    }
}

/// When a drain has ended, all its nodes have been taken out, and only they. The queue is as it was, and
/// the lock is free.
pub proof fn ending_a_drain<T>(
    before: QueueView<T>,
    s: usize,
    spins: nat,
    limit: usize,
    outcome: Attempt<()>,
    spins_after: nat,
    after: QueueView<T>,
)
    requires
        before.model.wf(),
        s != HEAD_MARKER,
        before.model.chains.contains_key(s),
        ending(before, s, spins, limit, outcome, spins_after, after),
    ensures
        outcome is Done <==> forall|j: int|
            1 <= j < before.model.chains[s].len() ==> !before.model.pending.contains_key(
                #[trigger] before.model.chains[s][j],
            ),
        forall|b: usize| #![auto]
            {
                &&& after.model.nodes.contains(b) == before.model.nodes.contains(b)
                &&& !before.model.chains[s].contains(b) ==> after.model.queued.contains(b)
                    == before.model.queued.contains(b) && after.model.dequeued.contains(b)
                    == before.model.dequeued.contains(b)
                &&& outcome is Done && before.model.chains[s].contains(b)
                    ==> !after.model.queued.contains(b) && after.model.dequeued.contains(b)
            },
        outcome is Done ==> !after.locked && after.model.open is None
            && !after.model.chains.contains_key(s) && after.room == before.room + 1,
        !(outcome is Done) ==> after.locked == before.locked && after.model.chains.contains_key(s)
            && exists|n: int|
            0 <= n < before.model.chains[s].len() && after.model.chains[s]
                == #[trigger] before.model.chains[s].skip(n),
        forall|k: usize| #![auto]
            k != s ==> after.model.chains.contains_key(k) == before.model.chains.contains_key(k) && (
            before.model.chains.contains_key(k) ==> after.model.chains[k] == before.model.chains[k]),
        !(outcome is Done) ==> after.room == before.room,
        after.model.state == before.model.state,
        after.data == before.data,
        after.id == before.id,
{
    let m = before.model;
    let nodes = m.chains[s];
    if outcome is Done {
        assert(nodes.take(nodes.len() as int) =~= nodes);
    } else {
        let n = choose|n: int| #[trigger]
            stopped_at(m, s, n) && stalled(
                QueueView {
                    model: if n == 0 {
                        m
                    } else {
                        m.awaiting(None).taken(s, n)
                    },
                    ..before
                },
                nodes[n],
                spins_at(spins, n) < limit,
                outcome,
                after,
            ) && looked(
                outcome,
                2,
                spins_at(spins, n),
                spins_after,
            );
        assert(nodes.skip(0) =~= nodes);
        assert(after.model.chains[s] =~= nodes.skip(n));
        assert forall|b: usize| nodes.take(n).contains(b) implies #[trigger] nodes.contains(b) by {
            let j = nodes.take(n).index_of(b);
            assert(nodes[j] == b);
        }
    }
}

/// A drain gives the lock back and takes it again, and that is all: no node and no line is concerned.
pub proof fn unlocking_and_relocking<T>(v: QueueView<T>, s: usize)
    ensures
        forall|w: QueueView<T>| w == unlocked(v) || w == relocked(v, s) ==> {
            &&& #[trigger] all_stay(v.model, w.model)
            &&& same_lines(v.model, w.model)
            &&& w.model.state == v.model.state
            &&& w.model.leaving == v.model.leaving && w.model.waiting == v.model.waiting
            &&& w.data == v.data
            &&& w.room == v.room
            &&& same_rest(v, w)
        },
        !unlocked(v).locked,
        unlocked(v).model.open is None,
        relocked(v, s).locked,
        relocked(v, s).model.open == Some(s),
{
}

/// One visit as the closures see it. `on_next` is called with `helper`, what the node carries in `found`,
/// and the lock, and gives `seen`, `left` and `unlock`. If `unlock` says so, `on_unlock` is called with
/// `seen` and the queue as `given`, and hands back `done` and `back`. The visit leaves the queue as `end`.
pub struct Visit<T, SP: SyncPrimitives, H> {
    pub found: QueueView<T>,
    pub helper: H,
    pub lock: LockedQueue<SP>,
    pub seen: H,
    pub left: T,
    pub unlock: bool,
    pub given: Queue<T, SP>,
    pub done: H,
    pub back: Queue<T, SP>,
    pub end: QueueView<T>,
}

/// When `finish_visit` has taken out the node, then `on_unlock` has been called if and only if `on_next`
/// had asked for that, also if that was the last node: with the helper as `on_next` had left it, and
/// with the queue in which the node is out and that is not locked. What it hands back, helper and queue,
/// is what is left. If it has not taken out the node, it has called nothing.
pub proof fn unlocking_where_asked<
    T,
    SP: SyncPrimitives,
    H,
    U: FnMut(H, Queue<T, SP>) -> (H, Queue<T, SP>),
>(
    on_unlock: U,
    s: usize,
    unlock: bool,
    spin: bool,
    h: H,
    v: QueueView<T>,
    outcome: Attempt<()>,
    open: bool,
    h2: H,
    v2: QueueView<T>,
) -> (called: Option<(Queue<T, SP>, Queue<T, SP>)>)
    requires
        s != HEAD_MARKER,
        v.model.chains[s].len() > 0,
        finished::<T, SP, H, U>(on_unlock, s, unlock, spin, h, v, outcome, open, h2, v2),
    ensures
        called is Some <==> unlock && !(v.model.chains[s].len() > 1 && v.model.pending.contains_key(
            v.model.chains[s][1],
        )),
        called matches Some((given, back)) ==> {
            let a = v.model.chains[s][0];
            &&& call_ensures(on_unlock, (h, given), (h2, back))
            &&& given.wf()
            &&& !given@.locked && given@.model.open is None
            &&& given@.model.dequeued.contains(a) && !given@.model.queued.contains(a)
            &&& others_stay(v.model, given@.model, a)
            &&& given@.model.chains[s] == v.model.chains[s].skip(1)
            &&& given@.model.order() == v.model.order()
            &&& given@.model.state == v.model.state
            &&& given@.data == v.data
            &&& given@.id == v.id
            &&& all_stay(back@.model, v2.model) && same_lines(back@.model, v2.model)
            &&& v2.data == back@.data && v2.model.state == back@.model.state
            &&& v2.locked
            &&& open == !back@.locked
            &&& outcome is Done == open
            &&& !open ==> outcome is Wait && v2 == back@
            &&& open ==> v2.model.open == Some(s)
        },
        called is None ==> h2 == h && v2.data == v.data && v2.locked == v.locked && v2.model.order()
            == v.model.order(),
        called is None && outcome is Done ==> {
            let a = v.model.chains[s][0];
            &&& !unlock && open
            &&& v2.model.dequeued.contains(a) && !v2.model.queued.contains(a)
            &&& others_stay(v.model, v2.model, a)
            &&& v2.model.chains[s] == v.model.chains[s].skip(1)
        },
        called is None && !(outcome is Done) ==> open && all_stay(v.model, v2.model) && same_lines(
            v.model,
            v2.model,
        ),
{
    assert(v.model.chains[s].remove(0) =~= v.model.chains[s].skip(1));
    if !blocked(v, s) && unlock {
        let (q, q2) = choose|q: Queue<T, SP>, q2: Queue<T, SP>| #[trigger]
            ran_unlocked(on_unlock, unlocked(taken_out(v, s)), h, q, h2, q2) && open == !q2@.locked
                && if q2@.locked {
                outcome is Wait && v2 == q2@
            } else {
                outcome is Done && v2 == relocked(q2@, s)
            };
        Some((q, q2))
    } else {
        None
    }
}

/// `n` visits call the closures as follows. Each of them calls `on_next` once, with what the helper has
/// become, and with what the first node of the drain carries then. Where `on_next` answers true, and only
/// there, `on_unlock` is called once, with the helper as `on_next` has left it and with the queue in which
/// the node is out and carries what `on_next` has left, before the next visit and before the end.
pub proof fn visits_as_called<
    T,
    SP: SyncPrimitives,
    H,
    N: FnMut(H, T, &LockedQueue<SP>) -> (H, T, bool),
    U: FnMut(H, Queue<T, SP>) -> (H, Queue<T, SP>),
>(
    on_next: N,
    on_unlock: U,
    s: usize,
    n: nat,
    h: H,
    v: QueueView<T>,
    h2: H,
    v2: QueueView<T>,
) -> (calls: Seq<Visit<T, SP, H>>)
    requires
        s != HEAD_MARKER,
        visits::<T, SP, H, N, U>(on_next, on_unlock, s, n, h, v, h2, v2),
    ensures
        calls.len() == n,
        n == 0 ==> h2 == h && v2 == v,
        n > 0 ==> calls[0].helper == h && calls[0].found == v && calls[n - 1].done == h2
            && calls[n - 1].end == v2,
        forall|i: int, j: int| #![trigger calls[i], calls[j]]
            0 <= i && j == i + 1 && j < n ==> calls[j].helper == calls[i].done && calls[j].found
                == calls[i].end,
        forall|i: int| #![trigger calls[i]]
            0 <= i < n ==> {
                let c = calls[i];
                let a = c.found.model.chains[s][0];
                &&& c.found.model.chains[s].len() > 0
                &&& c.lock.holds(c.found)
                &&& call_ensures(
                    on_next,
                    (c.helper, c.found.data[a], &c.lock),
                    (c.seen, c.left, c.unlock),
                )
                &&& c.unlock ==> {
                    &&& call_ensures(on_unlock, (c.seen, c.given), (c.done, c.back))
                    &&& c.given.wf()
                    &&& !c.given@.locked && c.given@.model.open is None
                    &&& c.given@.model.dequeued.contains(a) && !c.given@.model.queued.contains(a)
                    &&& others_stay(c.found.model, c.given@.model, a)
                    &&& c.given@.model.chains[s] == c.found.model.chains[s].skip(1)
                    &&& c.given@.model.order() == c.found.model.order()
                    &&& c.given@.data == c.found.data.insert(a, c.left)
                    &&& !c.back@.locked
                    &&& all_stay(c.back@.model, c.end.model) && same_lines(
                        c.back@.model,
                        c.end.model,
                    )
                    &&& c.end.data == c.back@.data
                    &&& c.end.locked && c.end.model.open == Some(s)
                }
                &&& !c.unlock ==> {
                    &&& c.done == c.seen
                    &&& c.end.model.dequeued.contains(a) && !c.end.model.queued.contains(a)
                    &&& others_stay(c.found.model, c.end.model, a)
                    &&& c.end.model.chains[s] == c.found.model.chains[s].skip(1)
                    &&& c.end.model.order() == c.found.model.order()
                    &&& c.end.data == c.found.data.insert(a, c.left)
                    &&& c.end.locked == c.found.locked && c.end.model.open == c.found.model.open
                }
            },
    decreases n,
{
    if n == 0 {
        Seq::empty()
    } else {
        let (h1, v1) = choose|h1: H, v1: QueueView<T>|
            visits::<T, SP, H, N, U>(on_next, on_unlock, s, (n - 1) as nat, h, v, h1, v1)
                && #[trigger] visit::<T, SP, H, N, U>(on_next, on_unlock, s, h1, v1, h2, v2);
        let before = visits_as_called::<T, SP, H, N, U>(
            on_next,
            on_unlock,
            s,
            (n - 1) as nat,
            h,
            v,
            h1,
            v1,
        );
        let (lock, seen, left, unlock) = choose|
            lock: LockedQueue<SP>,
            seen: H,
            left: T,
            unlock: bool,
        |
            #[trigger] shown(on_next, s, v1, h1, lock, seen, left, unlock) && if unlock {
                exists|q: Queue<T, SP>, q2: Queue<T, SP>| #[trigger]
                    ran_unlocked(
                        on_unlock,
                        unlocked(taken_out(left_behind(v1, s, left), s)),
                        seen,
                        q,
                        h2,
                        q2,
                    ) && !q2@.locked && v2 == relocked(q2@, s)
            } else {
                h2 == seen && v2 == taken_out(left_behind(v1, s, left), s)
            };
        assert(shown(on_next, s, v1, h1, lock, seen, left, unlock));
        let out = taken_out(left_behind(v1, s, left), s);
        let (given, back) = choose|q: Queue<T, SP>, q2: Queue<T, SP>| #[trigger]
            ran_unlocked(on_unlock, unlocked(out), seen, q, h2, q2) && !q2@.locked && v2 == relocked(
                q2@,
                s,
            );
        let last = Visit {
            found: v1,
            helper: h1,
            lock,
            seen,
            left,
            unlock,
            given,
            done: h2,
            back,
            end: v2,
        };
        assert(v1.model.chains[s].remove(0) =~= v1.model.chains[s].skip(1));
        before.push(last)
    }
}

/// `for_each` calls the closures as visits do, one after the other. When it is done, the drain has no node
/// left. Where it stops because another thread has the lock, that is after a call of `on_unlock`. Where it
/// stops because an insertion is under way behind a node, `on_next` has been shown that node, in the
/// visit `begun`: its answer is kept, and `on_unlock` has not been called since.
pub proof fn for_each_as_called<
    T,
    SP: SyncPrimitives,
    H,
    N: FnMut(H, T, &LockedQueue<SP>) -> (H, T, bool),
    U: FnMut(H, Queue<T, SP>) -> (H, Queue<T, SP>),
>(
    on_next: N,
    on_unlock: U,
    s: usize,
    spins: nat,
    h: H,
    v: QueueView<T>,
    outcome: Attempt<()>,
    visited: Option<bool>,
    open: bool,
    h2: H,
    v2: QueueView<T>,
) -> (called: (Seq<Visit<T, SP, H>>, Option<Visit<T, SP, H>>))
    requires
        s != HEAD_MARKER,
        for_each_done::<T, SP, H, N, U>(
            on_next,
            on_unlock,
            s,
            spins,
            h,
            v,
            outcome,
            visited,
            open,
            h2,
            v2,
        ),
    ensures
        ({
            let calls = called.0;
            let n = calls.len() as int;
            &&& n == 0 ==> (match called.1 {
                None => h2 == h && v2 == v,
                Some(c) => c.helper == h && c.found == v,
            })
            &&& n > 0 ==> calls[0].helper == h && calls[0].found == v && (match called.1 {
                None => calls[n - 1].done == h2,
                Some(c) => calls[n - 1].done == c.helper && calls[n - 1].end == c.found,
            })
            &&& forall|i: int, j: int| #![trigger calls[i], calls[j]]
                0 <= i && j == i + 1 && j < n ==> calls[j].helper == calls[i].done && calls[j].found
                    == calls[i].end
            &&& forall|i: int| #![trigger calls[i]]
                0 <= i < n ==> {
                    let c = calls[i];
                    let a = c.found.model.chains[s][0];
                    &&& c.found.model.chains[s].len() > 0
                    &&& c.lock.holds(c.found)
                    &&& call_ensures(
                        on_next,
                        (c.helper, c.found.data[a], &c.lock),
                        (c.seen, c.left, c.unlock),
                    )
                    &&& c.unlock ==> {
                        &&& call_ensures(on_unlock, (c.seen, c.given), (c.done, c.back))
                        &&& c.given.wf()
                        &&& !c.given@.locked && c.given@.model.open is None
                        &&& c.given@.model.dequeued.contains(a) && !c.given@.model.queued.contains(a)
                        &&& c.given@.model.chains[s] == c.found.model.chains[s].skip(1)
                        &&& c.given@.data == c.found.data.insert(a, c.left)
                        &&& c.back@.locked ==> i == n - 1 && !open && v2 == c.back@
                    }
                    &&& !c.unlock ==> c.done == c.seen
                }
            &&& called.1 is Some <==> visited is Some
            &&& called.1 matches Some(c) ==> {
                let a = c.found.model.chains[s][0];
                &&& visited == Some(c.unlock)
                &&& h2 == c.seen
                &&& !(outcome is Done) && open
                &&& c.found.model.chains[s].len() > 1 && c.found.model.pending.contains_key(
                    c.found.model.chains[s][1],
                )
                &&& call_ensures(
                    on_next,
                    (c.helper, c.found.data[a], &c.lock),
                    (c.seen, c.left, c.unlock),
                )
                &&& v2.data == c.found.data.insert(a, c.left)
                &&& all_stay(c.found.model, v2.model) && same_lines(c.found.model, v2.model)
            }
            &&& outcome is Done ==> v2.model.chains[s].len() == 0 && open
            &&& !open ==> outcome is Wait && n > 0 && calls[n - 1].unlock && calls[n
                - 1].back@.locked
        }),
{
    let (n, h1, v1) = choose|n: nat, h1: H, v1: QueueView<T>| #[trigger]
        visits::<T, SP, H, N, U>(on_next, on_unlock, s, n, h, v, h1, v1) && for_each_stopped::<
            T,
            SP,
            H,
            N,
            U,
        >(
            on_next,
            on_unlock,
            s,
            spins_at(spins, n as int) < SP::SPIN_BEFORE_PARK,
            h1,
            v1,
            outcome,
            visited,
            open,
            h2,
            v2,
        );
    let before = visits_as_called::<T, SP, H, N, U>(on_next, on_unlock, s, n, h, v, h1, v1);
    if v1.model.chains[s].len() == 0 {
        (before, None)
    } else {
        let spin = spins_at(spins, n as int) < SP::SPIN_BEFORE_PARK;
        let (lock, seen, left, unlock) = choose|
            lock: LockedQueue<SP>,
            seen: H,
            left: T,
            unlock: bool,
        |
            #[trigger] shown(on_next, s, v1, h1, lock, seen, left, unlock) && finished::<T, SP, H, U>(
                on_unlock,
                s,
                unlock,
                spin,
                seen,
                left_behind(v1, s, left),
                outcome,
                open,
                h2,
                v2,
            ) && visited == if blocked(v1, s) {
                Some(unlock)
            } else {
                None
            };
        assert(shown(on_next, s, v1, h1, lock, seen, left, unlock));
        let w = left_behind(v1, s, left);
        let ended = unlocking_where_asked::<T, SP, H, U>(
            on_unlock,
            s,
            unlock,
            spin,
            seen,
            w,
            outcome,
            open,
            h2,
            v2,
        );
        let (given, back) = ended->0;
        let last = Visit {
            found: v1,
            helper: h1,
            lock,
            seen,
            left,
            unlock,
            given,
            done: h2,
            back,
            end: v2,
        };
        if ended is Some {
            (before.push(last), None)
        } else {
            (before, Some(last))
        }
    }
}

// The state of a node, and of the queue.

/// Asking for the state of a node tells it: a node is handed out as queued, with the lock, if and only if
/// it is queued and nobody has the lock, and as unqueued or dequeued, without the lock, if and only if it
/// is that. Nothing else changes.
pub proof fn asking_for_the_state<'a, Q: QueueRef>(
    node: Node<Q>,
    before: QueueView<Q::NodeData>,
    state: AttemptFrom<NodeState<'a, Q>, NodeLocking<'a, Q>>,
    after: QueueView<Q::NodeData>,
)
    requires
        before.model.wf(),
        before.model.nodes.contains(node.addr()),
        state_of(node, before, state, after),
    ensures
        match state {
            AttemptFrom::Done(NodeState::Unqueued(n)) => {
                &&& before.model.unqueued(node.addr())
                &&& n.addr() == node.addr() && n.queue_ref() == node.queue_ref()
                &&& after.locked == before.locked
            },
            AttemptFrom::Done(NodeState::Dequeued(n)) => {
                &&& before.model.dequeued.contains(node.addr())
                &&& n.addr() == node.addr() && n.queue_ref() == node.queue_ref()
                &&& after.locked == before.locked
            },
            AttemptFrom::Done(NodeState::Queued(n)) => {
                &&& before.model.queued.contains(node.addr())
                &&& n.addr() == node.addr() && n.queue_ref() == node.queue_ref()
                &&& !before.locked && after.locked
                &&& n.lock().holds(after)
            },
            AttemptFrom::Wait(n) => {
                &&& before.model.queued.contains(node.addr())
                &&& n.addr() == node.addr() && n.queue_ref() == node.queue_ref()
                &&& before.locked && after.locked
            },
            AttemptFrom::Spin(_) => false,
        },
        after.model == before.model,
        after.data == before.data,
        after.room == before.room,
        same_rest(before, after),
{
}

/// Once the lock is free, a node whose state was asked for is handed out as what it is then: queued,
/// with the lock, or dequeued, without it.
pub proof fn asking_again<'a, Q: QueueRef>(
    a: usize,
    queue: Q,
    before: QueueView<Q::NodeData>,
    state: AttemptFrom<NodeState<'a, Q>, NodeLocking<'a, Q>>,
    after: QueueView<Q::NodeData>,
)
    requires
        before.model.queued.contains(a) || before.model.dequeued.contains(a),
        locking(a, queue, before, state, after),
    ensures
        match state {
            AttemptFrom::Done(NodeState::Queued(n)) => {
                &&& before.model.queued.contains(a) && !before.locked && after.locked
                &&& n.addr() == a && n.queue_ref() == queue && n.lock().holds(after)
            },
            AttemptFrom::Done(NodeState::Dequeued(n)) => {
                &&& !before.model.queued.contains(a) && !before.locked && !after.locked
                &&& n.addr() == a && n.queue_ref() == queue
            },
            AttemptFrom::Wait(n) => before.locked && after.locked && n.addr() == a && n.queue_ref()
                == queue,
            _ => false,
        },
        after.model == before.model,
        after.data == before.data,
        after.room == before.room,
        same_rest(before, after),
{
}

/// With the lock free, the state of an empty queue is replaced by what `f` makes of it, and the lock is
/// not taken; a queue with nodes is locked, and that is all.
pub proof fn updating_or_locking<T, SP: SyncPrimitives, F: FnMut(QueueState) -> QueueState>(
    f: F,
    before: QueueView<T>,
    locked: AttemptFrom<Option<LockedQueue<SP>>, StateOrLock<F>>,
    after: QueueView<T>,
)
    requires
        before.model.wf(),
        update_or_lock(f, before, locked, after),
    ensures
        before.locked ==> locked is Wait && after == before,
        !before.locked && before.model.order().len() == 0 ==> {
            &&& locked matches AttemptFrom::Done(lock) && lock is None
            &&& !after.locked
            &&& after.model.state matches Some(new) && call_ensures(
                f,
                (before.model.state->0,),
                new,
            )
        },
        !before.locked && before.model.order().len() > 0 ==> {
            &&& locked matches AttemptFrom::Done(Some(lock)) && lock.holds(after)
            &&& after.locked
            &&& after.model.state is None
        },
        all_stay(before.model, after.model),
        same_lines(before.model, after.model),
        same_holder(before.model, after.model),
        after.data == before.data,
        after.room == before.room,
        same_rest(before, after),
{
    if !before.locked && before.model.order().len() == 0 {
        let new = choose|new: QueueState| #[trigger]
            call_ensures(f, (before.model.state->0,), new) && after == (QueueView {
                model: before.model.with_state(new),
                ..before
            });
        assert(call_ensures(f, (before.model.state->0,), new));
    }
}

} // verus!
