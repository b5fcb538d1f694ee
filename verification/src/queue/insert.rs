//! Insertion, which takes no lock.
//!
//! A node becomes the tail first, and is linked behind the tail before it then.

use vstd::prelude::*;

use crate::queue::model::{lemma_linked, lemma_published, lemma_with_state, HEAD_MARKER, UNQUEUED};
use crate::queue::state::{
    encodable, state_to_ptr, tail_word, tail_word_is_injective, QueueState, StateOrTail,
    INTRUSIVE_QUEUE_MAX_STATE,
};
use crate::queue::{Handshake, Queue, QueueView};
use crate::sync::parker::Parker;
use crate::sync::SyncPrimitives;

verus! {

/// What an insertion makes of the tail that it found.
#[derive(Debug, Clone, Copy, PartialEq, Eq, Structural)]
pub enum NewTail {
    /// Nothing: the insertion is given up.
    Keep,
    /// The queue's state is replaced, and the node is not inserted.
    State(QueueState),
    /// The node becomes the tail.
    Node,
}

/// One try at replacing the tail that was found.
#[derive(Debug, Clone, Copy, PartialEq, Eq, Structural)]
pub enum TailUpdate {
    /// The tail was left alone.
    Kept,
    /// The state was replaced.
    Updated,
    /// The node is the tail, and has to be linked behind this cell.
    Published(usize),
    /// The tail is not the one that was found any more, but this one.
    Retry(StateOrTail),
}

/// The state, and insertion.
impl<T, SP: SyncPrimitives> Queue<T, SP> {
    /// What the tail word says.
    pub fn load_tail(&self) -> (tail: StateOrTail)
        requires
            self.wf(),
        ensures
            tail == self@.model.tail(),
            encodable(tail),
    {
        let tail = StateOrTail::from_word(self.tail.load());
        proof {
            self.lemma_tail();
            tail_word_is_injective(tail, self@.model.tail());
        }
        tail
    }

    /// The tail word is that of the tail.
    pub(super) proof fn lemma_tail(&self)
        requires
            self.wf(),
        ensures
            encodable(self@.model.tail()),
            self.words().tail == tail_word(self@.model.tail()),
    {
        let m = self.model@;
        if m.order().len() > 0 {
            assert(m.has(HEAD_MARKER, m.order().len() - 1));
        }
    }

    /// The state that an empty queue carries.
    pub fn state(&self) -> (state: Option<QueueState>)
        requires
            self.wf(),
        ensures
            state == self@.model.state,
    {
        match self.load_tail() {
            StateOrTail::State(state) => Some(state),
            StateOrTail::Tail(_) => None,
        }
    }

    /// No node is in the queue.
    pub fn is_empty(&self) -> (empty: bool)
        requires
            self.wf(),
        ensures
            empty == (self@.model.order().len() == 0),
    {
        self.state().is_some()
    }

    /// Replaces the tail by what `new_tail` says, provided that it is still the one that was
    /// `seen`.
    #[verifier::spinoff_prover]
    #[verifier::rlimit(50)]
    pub fn update_tail(&mut self, node: usize, seen: StateOrTail, new_tail: NewTail) -> (update:
        TailUpdate)
        requires
            old(self).wf(),
            encodable(seen),
            new_tail is Node ==> old(self)@.model.unqueued(node),
            new_tail matches NewTail::State(state) ==> seen is State && state
                <= INTRUSIVE_QUEUE_MAX_STATE,
        ensures
            final(self).wf(),
            new_tail is Keep ==> update is Kept && final(self)@ == old(self)@,
            !(new_tail is Keep) && old(self)@.model.tail() != seen ==> update == TailUpdate::Retry(
                old(self)@.model.tail(),
            ) && final(self)@ == old(self)@,
            new_tail matches NewTail::State(state) ==> old(self)@.model.tail() == seen ==> update
                is Updated && final(self)@ == (QueueView {
                model: old(self)@.model.with_state(state),
                ..old(self)@
            }),
            new_tail is Node && old(self)@.model.tail() == seen ==> update == TailUpdate::Published(
                old(self)@.model.pred(HEAD_MARKER, old(self)@.model.order().len() as int),
            ) && final(self)@ == (QueueView {
                model: old(self)@.model.published(node),
                ..old(self)@
            }),
    {
        let ghost m = self.model@;
        let ghost p = self.words();
        proof {
            self.lemma_tail();
            if tail_word(seen) == tail_word(m.tail()) {
                tail_word_is_injective(seen, m.tail());
            }
        }
        match new_tail {
            NewTail::Keep => TailUpdate::Kept,
            NewTail::State(state) => {
                let word = state_to_ptr(state);
                match self.tail.compare_exchange(seen.into_word(), word) {
                    Ok(_) => {
                        self.model = Ghost(m.with_state(state));
                        proof {
                            lemma_with_state(m, p, state, word);
                            assert(self.words() =~= p.set_tail(word));
                        }
                        TailUpdate::Updated
                    },
                    Err(found) => {
                        assert(self.words() =~= p);
                        TailUpdate::Retry(self.load_tail())
                    },
                }
            },
            NewTail::Node => {
                let prev: usize = match seen {
                    StateOrTail::State(_) => HEAD_MARKER,
                    StateOrTail::Tail(tail) => tail,
                };
                let word = StateOrTail::Tail(node).into_word();
                // Whoever finds the node at the tail reads its predecessor, so that goes first.
                self.set_prev(node, prev);
                let ghost q = self.words();
                if self.tail.compare_exchange(seen.into_word(), word).is_err() {
                    assert(self.words() =~= q);
                    self.set_prev(node, UNQUEUED);
                    assert(self.words() =~= p);
                    return TailUpdate::Retry(self.load_tail());
                }
                assert(self.words() =~= q.set_tail(word));
                self.model = Ghost(m.published(node));
                proof {
                    lemma_published(m, p, node, word);
                    assert(self.words() =~= p.set_prev(node, prev).set_tail(word));
                    if let Some(w) = m.waiting {
                        let (k, i) = choose|k: usize, i: int| #[trigger]
                            m.has(k, i) && m.pred(k, i) == w;
                        if i > 0 {
                            assert(m.has(k, i - 1));
                        }
                    }
                }
                TailUpdate::Published(prev)
            },
        }
    }

    /// Makes `prev` point at `node`, whose insertion ends with that. Says what is left to do for a
    /// thread that may wait for it.
    #[verifier::spinoff_prover]
    #[verifier::rlimit(50)]
    pub fn link_next(&mut self, node: usize, prev: usize) -> (linked: Linked)
        requires
            old(self).wf(),
            old(self)@.model.pending.contains_key(node),
            old(self)@.model.pending[node] == prev,
        ensures
            final(self).wf(),
            linked == if old(self)@.own_word {
                Linked::Look(prev)
            } else if old(self)@.model.waiting == Some(prev) {
                Linked::Wake
            } else {
                Linked::Quiet
            },
            final(self)@ == (QueueView {
                model: old(self)@.model.linked(node),
                handshake: old(self)@.handshake.after(linked),
                ..old(self)@
            }),
    {
        let ghost m = self.model@;
        let ghost p = self.words();
        proof {
            lemma_linked(m, p, node);
        }
        let previous: usize = self.swap_next(prev, node);
        self.model = Ghost(m.linked(node));
        let linked = if self.parked_node.is_some() {
            Linked::Look(prev)
        } else if previous != 0 {
            Linked::Wake
        } else {
            Linked::Quiet
        };
        self.handshake = Ghost(self.handshake@.after(linked));
        assert(self.words() =~= p.set_next(prev, node));
        linked
    }

    /// Looks whether a thread is announced on `prev`, behind which the calling thread has linked a
    /// node. Then it has to be unparked.
    pub fn look_parked(&mut self, prev: usize) -> (parked: bool)
        requires
            old(self).wf(),
            old(self)@.own_word,
            old(self)@.handshake.looking.count(prev) > 0,
        ensures
            final(self).wf(),
            parked == (old(self)@.model.waiting == Some(prev)),
            final(self)@ == (QueueView {
                handshake: old(self)@.handshake.looked(prev, parked),
                ..old(self)@
            }),
    {
        let parked = match &self.parked_node {
            Some(word) => word.load() == prev,
            None => false,
        };
        self.handshake = Ghost(self.handshake@.looked(prev, parked));
        parked
    }

    /// Puts the token of the parker there, for a thread that was found announced. Says whether the
    /// thread has to be woken.
    pub fn unpark(&mut self) -> (wake: bool)
        requires
            old(self).wf(),
            old(self)@.handshake.waking > 0,
        ensures
            final(self).wf(),
            wake == old(self)@.asleep,
            final(self)@ == (QueueView {
                handshake: old(self)@.handshake.unparked(),
                notified: true,
                asleep: false,
                ..old(self)@
            }),
    {
        self.handshake = Ghost(self.handshake@.unparked());
        self.parker.unpark()
    }

    /// Ends the insertion of `node`, and unparks the thread that waits for that, if there is one. Says
    /// whether that thread has to be woken.
    pub fn link_node(&mut self, node: usize, prev: usize) -> (wake: bool)
        requires
            old(self).wf(),
            old(self)@.model.pending.contains_key(node),
            old(self)@.model.pending[node] == prev,
        ensures
            final(self).wf(),
            wake == wakes(old(self)@, prev),
            final(self)@ == (QueueView {
                model: old(self)@.model.linked(node),
                notified: old(self)@.notified || old(self)@.model.waiting == Some(prev),
                asleep: old(self)@.asleep && old(self)@.model.waiting != Some(prev),
                ..old(self)@
            }),
    {
        let ghost handshake = self@.handshake;
        proof {
            assert(handshake.after(Linked::Look(prev)).looked(prev, false) =~= handshake);
            assert(handshake.after(Linked::Look(prev)).looked(prev, true).unparked() =~= handshake);
            assert(handshake.after(Linked::Wake).unparked() =~= handshake);
        }
        match self.link_next(node, prev) {
            Linked::Quiet => false,
            Linked::Wake => self.unpark(),
            Linked::Look(cell) => if self.look_parked(cell) {
                self.unpark()
            } else {
                false
            },
        }
    }
}

/// What is left to do for a thread that has linked a node.
#[derive(Debug, Clone, Copy, PartialEq, Eq, Structural)]
pub enum Linked {
    /// Nothing: nobody waits.
    Quiet,
    /// The thread that waits has to be unparked.
    Wake,
    /// It has to be looked whether a thread is announced on this cell.
    Look(usize),
}

impl Handshake {
    /// A node has been linked, and this is left to do.
    pub open spec fn after(self, linked: Linked) -> Handshake {
        match linked {
            Linked::Quiet => self,
            Linked::Wake => Handshake { waking: self.waking + 1, ..self },
            Linked::Look(cell) => Handshake { looking: self.looking.insert(cell), ..self },
        }
    }

    /// A thread has looked at cell `prev`, and has found that another is announced there, or not.
    pub open spec fn looked(self, prev: usize, parked: bool) -> Handshake {
        Handshake {
            looking: self.looking.remove(prev),
            waking: if parked {
                self.waking + 1
            } else {
                self.waking
            },
            ..self
        }
    }

    /// A thread has unparked another.
    pub open spec fn unparked(self) -> Handshake {
        Handshake { waking: (self.waking - 1) as nat, ..self }
    }
}

/// To link a node behind `prev` wakes a thread: one waits on that cell, and sleeps.
pub open spec fn wakes<T>(v: QueueView<T>, prev: usize) -> bool {
    v.model.waiting == Some(prev) && v.asleep
}

/// What became of an insertion.
#[derive(Debug, Clone, Copy, PartialEq, Eq, Structural)]
pub enum Enqueued {
    /// It was given up, on this tail.
    Kept(StateOrTail),
    /// Instead, this state of the queue was replaced.
    Updated(StateOrTail),
    /// The node is in the queue, behind this tail.
    Node(StateOrTail),
}

/// Insertion as a whole.
impl<T, SP: SyncPrimitives> Queue<T, SP> {
    /// Asks `new_tail` what to make of the tail, and does it: replaces the state, inserts `node`,
    /// or neither.
    pub fn enqueue<F: FnMut(StateOrTail) -> NewTail>(&mut self, node: usize, new_tail: F) -> (done:
        Enqueued)
        requires
            old(self).wf(),
            old(self)@.model.unqueued(node),
            call_requires(new_tail, (old(self)@.model.tail(),)),
            forall|tail: StateOrTail, state: QueueState| #[trigger]
                call_ensures(new_tail, (tail,), NewTail::State(state)) ==> tail is State && state
                    <= INTRUSIVE_QUEUE_MAX_STATE,
        ensures
            final(self).wf(),
            exists|decision: NewTail| #[trigger]
                call_ensures(new_tail, (old(self)@.model.tail(),), decision) && match decision {
                    NewTail::Keep => {
                        &&& done == Enqueued::Kept(old(self)@.model.tail())
                        &&& final(self)@ == old(self)@
                    },
                    NewTail::State(state) => {
                        &&& done == Enqueued::Updated(old(self)@.model.tail())
                        &&& final(self)@ == (QueueView {
                            model: old(self)@.model.with_state(state),
                            ..old(self)@
                        })
                    },
                    NewTail::Node => {
                        &&& done == Enqueued::Node(old(self)@.model.tail())
                        &&& final(self)@ == (QueueView {
                            model: old(self)@.model.enqueued(node),
                            ..old(self)@
                        })
                    },
                },
    {
        proof {
            self.lemma_wf();
            let m = self@.model;
            m.lemma_enqueued(node);
            if m.order().len() == 0 {
                m.lemma_no_follower(HEAD_MARKER);
            } else {
                m.lemma_last_not_followed(HEAD_MARKER);
            }
        }
        let mut decide = new_tail;
        let tail = self.load_tail();
        let decision = decide(tail);
        proof {
            if let NewTail::State(state) = decision {
                assert(call_ensures(new_tail, (tail,), NewTail::State(state)));
            }
        }
        match self.update_tail(node, tail, decision) {
            TailUpdate::Published(prev) => {
                let _ = self.link_node(node, prev);
                Enqueued::Node(tail)
            },
            TailUpdate::Updated => Enqueued::Updated(tail),
            _ => Enqueued::Kept(tail),
        }
    }
}

} // verus!
