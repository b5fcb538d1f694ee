//! What holds of every sequence of steps, of whatever threads.
//!
//! A [`Step`] is one change of a [`Model`], as the contracts of the queue's operations speak of them.
//! An operation is one step, or several.

use vstd::multiset::Multiset;
use vstd::prelude::*;

use crate::queue::model::{Model, HEAD_MARKER};
use crate::queue::state::QueueState;

verus! {

/// One change of a model.
pub enum Step {
    /// A node is made.
    Created(usize),
    /// A node is done away with.
    Destroyed(usize),
    /// A node that was taken out is made ready for another insertion.
    Reset(usize),
    /// The state of an empty queue is replaced.
    State(QueueState),
    /// A node becomes the tail.
    Published(usize),
    /// The insertion of a node ends.
    Linked(usize),
    /// The removal of a node begins.
    Detached(usize),
    /// The node at this place of this chain is taken out. If that leaves the queue empty, it carries
    /// this state.
    Removed(usize, int, QueueState),
    /// All nodes of the queue go over to a drain with this sentinel. If there were any, the queue
    /// carries this state.
    Draining(usize, QueueState),
    /// A drain takes the lock.
    Opened(usize),
    /// A drain gives the lock back.
    Closed,
    /// A drain without nodes ends.
    Drained(usize),
    /// The holder of the lock waits on a cell, or on none.
    Awaiting(Option<usize>),
}

/// The step can be taken.
pub open spec fn allowed(m: Model, step: Step) -> bool {
    match step {
        Step::Created(a) => !m.nodes.contains(a) && !m.chains.contains_key(a),
        Step::Destroyed(a) => m.nodes.contains(a) && !m.queued.contains(a),
        Step::Reset(a) => m.dequeued.contains(a),
        Step::State(_) => m.order().len() == 0,
        Step::Published(a) => m.unqueued(a),
        Step::Linked(a) => m.pending.contains_key(a),
        Step::Detached(a) => m.queued.contains(a),
        Step::Removed(k, i, _) => m.has(k, i),
        Step::Draining(s, _) => !m.nodes.contains(s) && !m.chains.contains_key(s),
        Step::Opened(s) => m.chains.contains_key(s),
        Step::Closed => true,
        Step::Drained(s) => s != HEAD_MARKER && m.chains.contains_key(s) && m.chains[s].len() == 0,
        Step::Awaiting(_) => true,
    }
}

/// The model after the step.
pub open spec fn stepped(m: Model, step: Step) -> Model {
    match step {
        Step::Created(a) => m.created(a),
        Step::Destroyed(a) => m.destroyed(a),
        Step::Reset(a) => m.reset(a),
        Step::State(state) => m.with_state(state),
        Step::Published(a) => m.published(a),
        Step::Linked(a) => m.linked(a),
        Step::Detached(a) => m.detached(a),
        Step::Removed(k, i, state) => m.removed(k, i, state),
        Step::Draining(s, state) => m.draining(s, state),
        Step::Opened(s) => m.opened(s),
        Step::Closed => m.closed(),
        Step::Drained(s) => m.drained(s),
        Step::Awaiting(w) => m.awaiting(w),
    }
}

/// Only the holder of the lock can take the step.
pub open spec fn needs_lock(step: Step) -> bool {
    match step {
        Step::Detached(_) => true,
        Step::Removed(_, _, _) => true,
        Step::Draining(_, _) => true,
        Step::Opened(_) => true,
        Step::Closed => true,
        Step::Drained(_) => true,
        Step::Awaiting(_) => true,
        _ => false,
    }
}

/// The model after all steps.
pub open spec fn run(m: Model, steps: Seq<Step>) -> Model
    decreases steps.len(),
{
    if steps.len() == 0 {
        m
    } else {
        stepped(run(m, steps.drop_last()), steps.last())
    }
}

/// Each step can be taken when it is its turn.
pub open spec fn runnable(m: Model, steps: Seq<Step>) -> bool {
    forall|i: int| 0 <= i < steps.len() ==> allowed(run(m, #[trigger] steps.take(i)), steps[i])
}

/// A run, but for its last step.
proof fn lemma_runnable(m: Model, steps: Seq<Step>)
    requires
        runnable(m, steps),
        steps.len() > 0,
    ensures
        runnable(m, steps.drop_last()),
        allowed(run(m, steps.drop_last()), steps.last()),
{
    let before = steps.drop_last();
    assert forall|i: int| 0 <= i < before.len() implies allowed(
        run(m, #[trigger] before.take(i)),
        before[i],
    ) by {
        assert(before.take(i) =~= steps.take(i));
    }
    assert(steps.take(steps.len() - 1) =~= before);
}

/// The part of a well-formed model that runs speak of.
pub open spec fn sound(m: Model) -> bool {
    &&& m.chains.contains_key(HEAD_MARKER)
    &&& m.state is Some <==> m.order().len() == 0
    &&& forall|k: usize, i: int| #[trigger]
        m.has(k, i) ==> m.queued.contains(m.chains[k][i])
    &&& forall|k1: usize, i1: int, k2: usize, i2: int|
        #![trigger m.has(k1, i1), m.has(k2, i2)]
        m.has(k1, i1) && m.has(k2, i2) && m.chains[k1][i1] == m.chains[k2][i2] ==> k1 == k2 && i1
            == i2
    &&& forall|a: usize| #[trigger]
        m.queued.contains(a) ==> m.nodes.contains(a) && !m.dequeued.contains(a)
    &&& forall|a: usize| #[trigger] m.dequeued.contains(a) ==> m.nodes.contains(a)
}

/// A well-formed model is sound.
pub proof fn well_formed_is_sound(m: Model)
    requires
        m.wf(),
    ensures
        sound(m),
{
}

/// A step leads from a sound model to a sound model.
#[verifier::spinoff_prover]
#[verifier::rlimit(50)]
proof fn lemma_step_sound(m: Model, step: Step)
    requires
        sound(m),
        allowed(m, step),
    ensures
        sound(stepped(m, step)),
{
    let m2 = stepped(m, step);
    match step {
        Step::Published(a) => {
            assert forall|k: usize, i: int| #[trigger] m2.has(k, i) implies (m.has(k, i)
                && m2.chains[k][i] == m.chains[k][i]) || (k == HEAD_MARKER && i == m.order().len()
                && m2.chains[k][i] == a) by {
                if !(k == HEAD_MARKER && i == m.order().len()) {
                    assert(m.has(k, i));
                }
            }
        },
        Step::Removed(k0, i0, _) => {
            assert forall|k: usize, i: int| #[trigger] m2.has(k, i) implies {
                let j = if k == k0 && i >= i0 {
                    i + 1
                } else {
                    i
                };
                m.has(k, j) && m2.chains[k][i] == m.chains[k][j] && m.chains[k][j]
                    != m.chains[k0][i0]
            } by {
                let j = if k == k0 && i >= i0 {
                    i + 1
                } else {
                    i
                };
                assert(m.has(k, j));
                assert(m.has(k0, i0));
            }
        },
        Step::Draining(s, _) => {
            assert forall|k: usize, i: int| #[trigger] m2.has(k, i) implies {
                let l = if k == s {
                    HEAD_MARKER
                } else {
                    k
                };
                k != HEAD_MARKER && l != s && m.has(l, i) && m2.chains[k][i] == m.chains[l][i]
            } by {
                let l = if k == s {
                    HEAD_MARKER
                } else {
                    k
                };
                assert(m.has(l, i));
            }
        },
        _ => {
            assert forall|k: usize, i: int| #[trigger] m2.has(k, i) implies m.has(k, i)
                && m2.chains[k][i] == m.chains[k][i] by {}
        },
    }
}

/// A run leads from a sound model to a sound model.
pub proof fn run_sound(m: Model, steps: Seq<Step>)
    requires
        sound(m),
        runnable(m, steps),
    ensures
        sound(run(m, steps)),
    decreases steps.len(),
{
    if steps.len() > 0 {
        lemma_runnable(m, steps);
        run_sound(m, steps.drop_last());
        lemma_step_sound(run(m, steps.drop_last()), steps.last());
    }
}

// What is done in several steps.

/// An insertion is two steps: the node becomes the tail, and then the node before it, or the head, is
/// made to point at it.
pub proof fn insertion_is_a_run(m: Model, a: usize)
    requires
        m.wf(),
        m.unqueued(a),
    ensures
        runnable(m, seq![Step::Published(a), Step::Linked(a)]),
        run(m, seq![Step::Published(a), Step::Linked(a)]) == m.enqueued(a),
{
    let steps = seq![Step::Published(a), Step::Linked(a)];
    m.lemma_enqueued(a);
    assert(steps.take(0) =~= Seq::empty());
    assert(steps.take(1) =~= seq![Step::Published(a)]);
    assert(seq![Step::Published(a)].drop_last() =~= Seq::empty());
    assert(steps.drop_last() =~= seq![Step::Published(a)]);
    reveal_with_fuel(run, 3);
    assert forall|i: int| 0 <= i < steps.len() implies allowed(
        run(m, #[trigger] steps.take(i)),
        steps[i],
    ) by {
        assert(i == 0 || i == 1);
    }
}

/// The first node of a drain is taken out, `n` times.
pub open spec fn removals(s: usize, n: nat) -> Seq<Step> {
    Seq::new(n, |i: int| Step::Removed(s, 0, 0))
}

/// To take `n` nodes out of a drain is `n` steps.
pub proof fn draining_is_a_run(m: Model, s: usize, n: nat)
    requires
        s != HEAD_MARKER,
        m.chains.contains_key(s),
        m.leaving is None,
        n <= m.chains[s].len(),
    ensures
        runnable(m, removals(s, n)),
        run(m, removals(s, n)) == m.taken(s, n as int),
    decreases n,
{
    let steps = removals(s, n);
    if n == 0 {
        m.lemma_taken_none(s);
    } else {
        let before = removals(s, (n - 1) as nat);
        draining_is_a_run(m, s, (n - 1) as nat);
        m.lemma_taken(s, n - 1);
        assert(steps.drop_last() =~= before);
        assert forall|i: int| 0 <= i < steps.len() implies allowed(
            run(m, #[trigger] steps.take(i)),
            steps[i],
        ) by {
            if i < n - 1 {
                assert(steps.take(i) =~= before.take(i));
                assert(before[i] == steps[i]);
            } else {
                assert(steps.take(i) =~= before);
                assert(m.taken(s, n - 1).chains[s] =~= m.chains[s].skip(n - 1));
            }
        }
    }
}

// The state of a node.

/// How far node `a` has come: it has not been inserted, it is in a chain, or it has been taken out.
pub open spec fn stage(m: Model, a: usize) -> nat {
    if m.queued.contains(a) {
        1
    } else if m.dequeued.contains(a) {
        2
    } else {
        0
    }
}

/// The step makes node `a`, does away with it, or makes it ready for another insertion.
pub open spec fn renews(step: Step, a: usize) -> bool {
    step == Step::Created(a) || step == Step::Destroyed(a) || step == Step::Reset(a)
}

/// The step takes node `a` out of its chain.
pub open spec fn takes_out(m: Model, step: Step, a: usize) -> bool {
    step matches Step::Removed(k, i, _) && m.chains[k][i] == a
}

/// One step takes a node at most one stage further: to a chain by its own insertion alone, and out by
/// its removal alone.
pub proof fn one_stage_at_a_time(m: Model, step: Step, a: usize)
    requires
        sound(m),
        allowed(m, step),
        !renews(step, a),
    ensures
        stage(stepped(m, step), a) == stage(m, a) || (stage(m, a) == 0 && step == Step::Published(a)
            && stage(stepped(m, step), a) == 1) || (stage(m, a) == 1 && takes_out(m, step, a)
            && stage(stepped(m, step), a) == 2),
{
    if let Step::Removed(k, i, _) = step {
        assert(m.has(k, i));
    }
}

/// No step renews node `a`.
pub open spec fn never_renewed(steps: Seq<Step>, a: usize) -> bool {
    forall|i: int| 0 <= i < steps.len() ==> !renews(#[trigger] steps[i], a)
}

/// The state of a node goes one way: from unqueued to queued to dequeued, whatever steps are taken,
/// until it is made ready for another insertion.
pub proof fn node_state_goes_one_way(m: Model, steps: Seq<Step>, a: usize, i: int)
    requires
        sound(m),
        runnable(m, steps),
        never_renewed(steps, a),
        0 <= i <= steps.len(),
    ensures
        stage(m, a) <= stage(run(m, steps.take(i)), a) <= stage(run(m, steps), a),
    decreases steps.len(),
{
    if steps.len() == 0 {
        assert(steps.take(i) =~= steps);
    } else {
        let before = steps.drop_last();
        lemma_runnable(m, steps);
        run_sound(m, before);
        assert forall|j: int| 0 <= j < before.len() implies !renews(#[trigger] before[j], a) by {
            assert(before[j] == steps[j]);
        }
        assert(!renews(steps[steps.len() - 1], a));
        one_stage_at_a_time(run(m, before), steps.last(), a);
        if i < steps.len() {
            node_state_goes_one_way(m, before, a, i);
            assert(before.take(i) =~= steps.take(i));
        } else {
            node_state_goes_one_way(m, before, a, before.len() as int);
            assert(steps.take(i) =~= steps);
        }
    }
}

// The state of the queue.

/// The state that was given last: the one that the queue began with, or the one of the last update,
/// or the one that the last removal or drain left behind that emptied the queue.
pub open spec fn last_state(m: Model, steps: Seq<Step>) -> QueueState
    decreases steps.len(),
{
    if steps.len() == 0 {
        m.state->0
    } else {
        let before = run(m, steps.drop_last());
        match steps.last() {
            Step::State(state) => state,
            Step::Removed(k, _, state) if k == HEAD_MARKER && before.order().len() == 1 => state,
            Step::Draining(_, state) if before.order().len() > 0 => state,
            _ => last_state(m, steps.drop_last()),
        }
    }
}

/// The queue's state is there if and only if the queue is empty, and it is the one that was given
/// last.
pub proof fn state_over_a_run(m: Model, steps: Seq<Step>)
    requires
        sound(m),
        runnable(m, steps),
    ensures
        run(m, steps).state == if run(m, steps).order().len() == 0 {
            Some(last_state(m, steps))
        } else {
            None
        },
    decreases steps.len(),
{
    run_sound(m, steps);
    if steps.len() > 0 {
        lemma_runnable(m, steps);
        run_sound(m, steps.drop_last());
        state_over_a_run(m, steps.drop_last());
    }
}

// The lock.

/// A lock is taken or given back, of the queue that is called so.
pub enum Turn {
    Taken(usize),
    GivenBack(usize),
}

/// The queues that are locked, and the locks that threads have, by what the queues are called.
#[verifier::ext_equal]
pub struct Locks {
    pub locked: Set<usize>,
    pub held: Multiset<usize>,
}

impl Locks {
    /// No queue is locked.
    pub open spec fn none() -> Locks {
        Locks { locked: Set::empty(), held: Multiset::empty() }
    }

    /// The turn can be taken: `lock` yields a lock only where the queue is not locked, and to give one
    /// back takes a lock that fits, which is used up.
    pub open spec fn allowed(self, turn: Turn) -> bool {
        match turn {
            Turn::Taken(id) => !self.locked.contains(id),
            Turn::GivenBack(id) => self.locked.contains(id) && self.held.count(id) > 0,
        }
    }

    /// The locks after the turn.
    pub open spec fn after(self, turn: Turn) -> Locks {
        match turn {
            Turn::Taken(id) => Locks {
                locked: self.locked.insert(id),
                held: self.held.insert(id),
            },
            Turn::GivenBack(id) => Locks {
                locked: self.locked.remove(id),
                held: self.held.remove(id),
            },
        }
    }
}

/// The locks after all turns, of whatever threads, on whatever queues, where at first none was locked.
pub open spec fn locks_after(turns: Seq<Turn>) -> Locks
    decreases turns.len(),
{
    if turns.len() == 0 {
        Locks::none()
    } else {
        locks_after(turns.drop_last()).after(turns.last())
    }
}

/// Each turn can be taken when it comes.
pub open spec fn orderly_turns(turns: Seq<Turn>) -> bool {
    forall|i: int|
        0 <= i < turns.len() ==> locks_after(#[trigger] turns.take(i)).allowed(turns[i])
}

/// A queue that is locked has one lock, and one that is not has none. So whoever else uses the queue
/// meanwhile has no lock that fits, and takes none of the steps that need one. This is of queues that
/// are called by different names.
pub proof fn one_lock_at_a_time(turns: Seq<Turn>, id: usize)
    requires
        orderly_turns(turns),
    ensures
        locks_after(turns).held.count(id) == if locks_after(turns).locked.contains(id) {
            1nat
        } else {
            0
        },
    decreases turns.len(),
{
    if turns.len() > 0 {
        let before = turns.drop_last();
        assert forall|i: int| 0 <= i < before.len() implies locks_after(
            #[trigger] before.take(i),
        ).allowed(before[i]) by {
            assert(before.take(i) =~= turns.take(i));
            assert(before[i] == turns[i]);
        }
        one_lock_at_a_time(before, id);
        assert(turns.take(turns.len() - 1) =~= before);
    }
}

/// A queue is locked from the turn on that takes its lock until one gives it back.
proof fn lemma_still_locked(turns: Seq<Turn>, i: int, id: usize)
    requires
        0 <= i < turns.len(),
        turns[i] == Turn::Taken(id),
        forall|k: int| i < k < turns.len() ==> #[trigger] turns[k] != Turn::GivenBack(id),
    ensures
        locks_after(turns).locked.contains(id),
    decreases turns.len(),
{
    if i < turns.len() - 1 {
        let before = turns.drop_last();
        assert forall|k: int| i < k < before.len() implies #[trigger] before[k]
            != Turn::GivenBack(id) by {
            assert(before[k] == turns[k]);
        }
        lemma_still_locked(before, i, id);
        assert(turns[turns.len() - 1] != Turn::GivenBack(id));
    }
}

/// While a lock lives, no other `lock` of that queue returns: between two turns that take the lock of a
/// queue there is one that gives it back.
pub proof fn lock_excludes(turns: Seq<Turn>, i: int, j: int, id: usize)
    requires
        orderly_turns(turns),
        0 <= i < j < turns.len(),
        turns[i] == Turn::Taken(id),
        turns[j] == Turn::Taken(id),
    ensures
        exists|k: int| i < k < j && #[trigger] turns[k] == Turn::GivenBack(id),
{
    if forall|k: int| i < k < j ==> #[trigger] turns[k] != Turn::GivenBack(id) {
        let before = turns.take(j);
        assert forall|k: int| i < k < before.len() implies #[trigger] before[k]
            != Turn::GivenBack(id) by {
            assert(before[k] == turns[k]);
        }
        assert(before[i] == turns[i]);
        lemma_still_locked(before, i, id);
    }
}

/// Once a lock has been given back, the next `lock` returns.
pub proof fn unlock_lets_the_next_lock(turns: Seq<Turn>, id: usize)
    requires
        turns.len() > 0,
        turns.last() == Turn::GivenBack(id),
    ensures
        locks_after(turns).allowed(Turn::Taken(id)),
{
}

/// No step needs the lock.
pub open spec fn without_lock(steps: Seq<Step>) -> bool {
    forall|i: int| 0 <= i < steps.len() ==> !needs_lock(#[trigger] steps[i])
}

/// While one thread holds the lock, the others only append: all nodes stay where they are, in the
/// queue and in the drains, and what the holder has under way stays as it is.
pub proof fn others_only_append(m: Model, steps: Seq<Step>)
    requires
        sound(m),
        runnable(m, steps),
        without_lock(steps),
    ensures
        m.order().is_prefix_of(run(m, steps).order()),
        forall|k: usize|
            k != HEAD_MARKER ==> (#[trigger] run(m, steps).chains.contains_key(k)
                <==> m.chains.contains_key(k)) && run(m, steps).chains[k] == m.chains[k],
        forall|a: usize| #[trigger] m.queued.contains(a) ==> run(m, steps).queued.contains(a),
        run(m, steps).leaving == m.leaving,
        run(m, steps).open == m.open,
        run(m, steps).waiting == m.waiting,
    decreases steps.len(),
{
    if steps.len() > 0 {
        let before = steps.drop_last();
        lemma_runnable(m, steps);
        assert forall|i: int| 0 <= i < before.len() implies !needs_lock(#[trigger] before[i]) by {
            assert(before[i] == steps[i]);
        }
        assert(!needs_lock(steps[steps.len() - 1]));
        others_only_append(m, before);
        if let Step::Published(a) = steps.last() {
            let order = run(m, before).order();
            assert(order.push(a).subrange(0, m.order().len() as int) =~= order.subrange(
                0,
                m.order().len() as int,
            ));
        }
    } else {
        assert(m.order().subrange(0, m.order().len() as int) =~= m.order());
    }
}

// A drain that has given the lock back.

/// The elements of `seq` that are not in `gone`, in order.
pub open spec fn without(seq: Seq<usize>, gone: Set<usize>) -> Seq<usize>
    decreases seq.len(),
{
    if seq.len() == 0 {
        seq
    } else if gone.contains(seq.last()) {
        without(seq.drop_last(), gone)
    } else {
        without(seq.drop_last(), gone).push(seq.last())
    }
}

/// What is left of a sequence is part of it, and is not gone.
pub proof fn lemma_without_in(seq: Seq<usize>, gone: Set<usize>)
    ensures
        forall|i: int|
            0 <= i < without(seq, gone).len() ==> seq.contains(#[trigger] without(seq, gone)[i])
                && !gone.contains(without(seq, gone)[i]),
    decreases seq.len(),
{
    if seq.len() > 0 {
        let before = seq.drop_last();
        lemma_without_in(before, gone);
        assert forall|i: int| 0 <= i < without(seq, gone).len() implies seq.contains(
            #[trigger] without(seq, gone)[i],
        ) && !gone.contains(without(seq, gone)[i]) by {
            if i < without(before, gone).len() {
                let a = without(before, gone)[i];
                let j = before.index_of(a);
                assert(seq[j] == a);
            } else {
                assert(seq[seq.len() - 1] == seq.last());
            }
        }
    }
}

proof fn lemma_without_absent(seq: Seq<usize>, gone: Set<usize>, a: usize)
    requires
        !seq.contains(a),
    ensures
        without(seq, gone.insert(a)) == without(seq, gone),
    decreases seq.len(),
{
    if seq.len() > 0 {
        let before = seq.drop_last();
        assert(seq[seq.len() - 1] != a);
        if before.contains(a) {
            let j = before.index_of(a);
            assert(seq[j] == a);
        }
        lemma_without_absent(before, gone, a);
    }
}

/// What is left when one more is gone.
pub proof fn lemma_without_one_more(seq: Seq<usize>, gone: Set<usize>, i: int)
    requires
        seq.no_duplicates(),
        0 <= i < without(seq, gone).len(),
    ensures
        without(seq, gone.insert(without(seq, gone)[i])) == without(seq, gone).remove(i),
    decreases seq.len(),
{
    let a = without(seq, gone)[i];
    let before = seq.drop_last();
    let last = seq.last();
    assert(before.no_duplicates());
    lemma_without_in(before, gone);
    if gone.contains(last) {
        lemma_without_one_more(before, gone, i);
    } else if i == without(before, gone).len() {
        assert(!before.contains(a)) by {
            if before.contains(a) {
                let j = before.index_of(a);
                assert(seq[j] == seq[seq.len() - 1]);
            }
        }
        lemma_without_absent(before, gone, a);
        assert(without(before, gone).push(last).remove(i) =~= without(before, gone));
    } else {
        lemma_without_one_more(before, gone, i);
        assert(a != last) by {
            let j = before.index_of(a);
            assert(seq[j] == a);
        }
        assert(without(before, gone).push(last).remove(i) =~= without(before, gone).remove(i).push(
            last,
        ));
    }
}

/// Where nothing is gone, all is left.
pub proof fn lemma_without_none(seq: Seq<usize>)
    ensures
        without(seq, Set::empty()) == seq,
    decreases seq.len(),
{
    if seq.len() > 0 {
        lemma_without_none(seq.drop_last());
        assert(seq.drop_last().push(seq.last()) =~= seq);
    }
}

/// What is left of two sequences, one after the other.
pub proof fn lemma_without_both(a: Seq<usize>, b: Seq<usize>, gone: Set<usize>)
    ensures
        without(a + b, gone) == without(a, gone) + without(b, gone),
    decreases b.len(),
{
    if b.len() == 0 {
        assert(a + b =~= a);
        assert(without(a, gone) + without(b, gone) =~= without(a, gone));
    } else {
        lemma_without_both(a, b.drop_last(), gone);
        assert((a + b).drop_last() =~= a + b.drop_last());
        assert((a + b).last() == b.last());
        if !gone.contains(b.last()) {
            assert(without(a, gone) + without(b, gone) =~= (without(a, gone) + without(
                b.drop_last(),
                gone,
            )).push(b.last()));
        }
    }
}

/// What is left when more and more is gone.
pub proof fn lemma_without_twice(seq: Seq<usize>, first: Set<usize>, second: Set<usize>)
    ensures
        without(without(seq, first), second) == without(seq, first.union(second)),
    decreases seq.len(),
{
    if seq.len() > 0 {
        lemma_without_twice(seq.drop_last(), first, second);
        let before = without(seq.drop_last(), first);
        if !first.contains(seq.last()) {
            assert(before.push(seq.last()).drop_last() =~= before);
        }
    }
}

/// Where nothing of a sequence is gone, all of it is left.
pub proof fn lemma_without_others(seq: Seq<usize>, gone: Set<usize>)
    requires
        forall|i: int| 0 <= i < seq.len() ==> !gone.contains(#[trigger] seq[i]),
    ensures
        without(seq, gone) == seq,
    decreases seq.len(),
{
    if seq.len() > 0 {
        assert(!gone.contains(seq[seq.len() - 1]));
        assert forall|i: int| 0 <= i < seq.drop_last().len() implies !gone.contains(
            #[trigger] seq.drop_last()[i],
        ) by {
            assert(seq.drop_last()[i] == seq[i]);
        }
        lemma_without_others(seq.drop_last(), gone);
        assert(seq.drop_last().push(seq.last()) =~= seq);
    }
}

/// What others may do while the drain with sentinel `s` has given the lock back: insert nodes in the
/// queue, and take nodes out of the drain on their own account.
pub open spec fn in_the_window(step: Step, s: usize) -> bool {
    match step {
        Step::State(_) => false,
        Step::Removed(k, _, _) => k == s,
        Step::Draining(_, _) => false,
        Step::Opened(_) => false,
        Step::Closed => false,
        Step::Drained(_) => false,
        _ => true,
    }
}

/// The nodes that leave the chain with key `s`.
pub open spec fn leaving(m: Model, steps: Seq<Step>, s: usize) -> Set<usize>
    decreases steps.len(),
{
    if steps.len() == 0 {
        Set::empty()
    } else {
        let before = leaving(m, steps.drop_last(), s);
        match steps.last() {
            Step::Removed(k, i, _) if k == s => before.insert(
                run(m, steps.drop_last()).chains[s][i],
            ),
            _ => before,
        }
    }
}

/// The nodes that are inserted, in order.
pub open spec fn inserted(steps: Seq<Step>) -> Seq<usize>
    decreases steps.len(),
{
    if steps.len() == 0 {
        Seq::empty()
    } else {
        match steps.last() {
            Step::Published(a) => inserted(steps.drop_last()).push(a),
            _ => inserted(steps.drop_last()),
        }
    }
}

/// When a drain takes the lock again, it has the nodes that it had, in order, without those that
/// have left. Those that were inserted are in the queue, in order, and not in the drain. Leaving the
/// drain has changed neither the queue's nodes nor its state.
pub proof fn drain_after_the_window(m: Model, steps: Seq<Step>, s: usize)
    requires
        sound(m),
        runnable(m, steps),
        s != HEAD_MARKER,
        m.chains.contains_key(s),
        forall|i: int| 0 <= i < steps.len() ==> in_the_window(#[trigger] steps[i], s),
    ensures
        run(m, steps).chains.contains_key(s),
        run(m, steps).chains[s] == without(m.chains[s], leaving(m, steps, s)),
        run(m, steps).order() == m.order() + inserted(steps),
        inserted(steps).len() == 0 ==> run(m, steps).state == m.state,
        run(m, steps).open == m.open,
    decreases steps.len(),
{
    if steps.len() == 0 {
        lemma_without_none(m.chains[s]);
        assert(m.order() + inserted(steps) =~= m.order());
    } else {
        let before = steps.drop_last();
        lemma_runnable(m, steps);
        assert forall|i: int| 0 <= i < before.len() implies in_the_window(
            #[trigger] before[i],
            s,
        ) by {
            assert(before[i] == steps[i]);
        }
        assert(in_the_window(steps[steps.len() - 1], s));
        drain_after_the_window(m, before, s);
        let order = run(m, before).order();
        match steps.last() {
            Step::Published(a) => {
                assert((m.order() + inserted(before)).push(a) =~= m.order() + inserted(steps));
            },
            Step::Removed(k, i, _) => {
                assert forall|p: int, q: int|
                    0 <= p < m.chains[s].len() && 0 <= q < m.chains[s].len() && p
                        != q implies m.chains[s][p] != m.chains[s][q] by {
                    assert(m.has(s, p) && m.has(s, q));
                }
                lemma_without_one_more(m.chains[s], leaving(m, before, s), i);
            },
            _ => {},
        }
    }
}

// Order.

/// No nodes go over to a drain, and no node is done away with or made ready for another insertion.
pub open spec fn orderly(step: Step) -> bool {
    match step {
        Step::Destroyed(_) => false,
        Step::Reset(_) => false,
        Step::Draining(_, _) => false,
        Step::Drained(_) => false,
        _ => true,
    }
}

/// The nodes that were in the queue, and those inserted since, in order.
pub open spec fn arrivals(m: Model, steps: Seq<Step>) -> Seq<usize> {
    m.order() + inserted(steps)
}

/// What holds in the middle of an orderly run of the nodes that have arrived and those that have left.
proof fn lemma_orderly_run(m: Model, steps: Seq<Step>)
    requires
        sound(m),
        runnable(m, steps),
        forall|i: int| 0 <= i < steps.len() ==> orderly(#[trigger] steps[i]),
    ensures
        run(m, steps).order() == without(
            arrivals(m, steps),
            leaving(m, steps, HEAD_MARKER),
        ),
        arrivals(m, steps).no_duplicates(),
        forall|i: int|
            0 <= i < arrivals(m, steps).len() ==> stage(
                run(m, steps),
                #[trigger] arrivals(m, steps)[i],
            ) > 0,
        forall|a: usize| #[trigger]
            leaving(m, steps, HEAD_MARKER).contains(a) ==> run(m, steps).dequeued.contains(a),
    decreases steps.len(),
{
    run_sound(m, steps);
    let now = arrivals(m, steps);
    if steps.len() == 0 {
        assert(now =~= m.order());
        lemma_without_none(m.order());
        assert forall|i: int, j: int|
            0 <= i < now.len() && 0 <= j < now.len() && i != j implies now[i] != now[j] by {
            assert(m.has(HEAD_MARKER, i) && m.has(HEAD_MARKER, j));
        }
        assert forall|i: int| 0 <= i < now.len() implies stage(m, #[trigger] now[i]) > 0 by {
            assert(m.has(HEAD_MARKER, i));
        }
    } else {
        let before = steps.drop_last();
        let last = steps.last();
        let mid = run(m, before);
        let then = arrivals(m, before);
        lemma_runnable(m, steps);
        run_sound(m, before);
        assert forall|i: int| 0 <= i < before.len() implies orderly(#[trigger] before[i]) by {
            assert(before[i] == steps[i]);
        }
        assert(orderly(steps[steps.len() - 1]));
        lemma_orderly_run(m, before);
        let gone = leaving(m, before, HEAD_MARKER);
        match last {
            Step::Published(a) => {
                assert(now =~= then.push(a));
                assert forall|i: int| 0 <= i < then.len() implies then[i] != a by {
                    assert(stage(mid, then[i]) > 0);
                }
                assert(!gone.contains(a));
                assert(now.drop_last() =~= then);
                assert(now.last() == a);
                assert forall|i: int| 0 <= i < now.len() implies stage(
                    run(m, steps),
                    #[trigger] now[i],
                ) > 0 by {
                    if i < then.len() {
                        assert(now[i] == then[i]);
                    }
                }
            },
            Step::Removed(k, i, _) => {
                assert(mid.has(k, i));
                if k == HEAD_MARKER {
                    lemma_without_one_more(then, gone, i);
                }
                assert forall|j: int| 0 <= j < now.len() implies stage(
                    run(m, steps),
                    #[trigger] now[j],
                ) > 0 by {
                    assert(stage(mid, then[j]) > 0);
                }
            },
            _ => {
                assert forall|j: int| 0 <= j < now.len() implies stage(
                    run(m, steps),
                    #[trigger] now[j],
                ) > 0 by {
                    assert(stage(mid, then[j]) > 0);
                }
            },
        }
    }
}

/// Nodes stay in the order of their insertion, whichever of them are taken out, from the front, from
/// the back or from the middle, and whoever inserts and removes in between: the queue holds the nodes
/// that were there and those inserted since, in order, without those that have been taken out.
pub proof fn order_over_a_run(m: Model, steps: Seq<Step>)
    requires
        sound(m),
        runnable(m, steps),
        forall|i: int| 0 <= i < steps.len() ==> orderly(#[trigger] steps[i]),
    ensures
        run(m, steps).order() == without(
            m.order() + inserted(steps),
            leaving(m, steps, HEAD_MARKER),
        ),
{
    lemma_orderly_run(m, steps);
}

} // verus!
