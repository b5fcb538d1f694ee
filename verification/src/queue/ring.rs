//! The steps of a drain.

use vstd::prelude::*;

use crate::node::{NodeInner, NodeLink};
use crate::queue::model::{
    is_addr, lemma_advanced, lemma_closed, lemma_drained, lemma_draining, lemma_opened, Words,
    DEQUEUED, HEAD_MARKER,
};
use crate::queue::state::{
    state_to_ptr, tail_word_is_injective, QueueState, StateOrTail, INTRUSIVE_QUEUE_MAX_STATE,
};
use crate::queue::{data_of, Queue, QueueView};
use crate::sync::SyncPrimitives;

verus! {

/// The steps of a drain.
impl<T, SP: SyncPrimitives> Queue<T, SP> {
    /// Moves all nodes to the chain of a new drain, which holds the lock, and returns the address
    /// of its sentinel. If there were any, the queue's state is `state` from then on.
    pub(super) fn move_to_drain(&mut self, state: QueueState) -> (sentinel: usize)
        requires
            old(self).wf(),
            old(self)@.locked,
            old(self)@.room > 0,
            old(self)@.model.open is None,
            old(self)@.model.leaving is None,
            old(self)@.model.waiting is None,
            old(self)@.model.order().len() > 0 ==> !old(self)@.model.pending.contains_key(
                old(self)@.model.order()[0],
            ),
            state <= INTRUSIVE_QUEUE_MAX_STATE,
        ensures
            final(self).wf(),
            is_addr(sentinel),
            !old(self)@.model.nodes.contains(sentinel),
            !old(self)@.model.chains.contains_key(sentinel),
            final(self)@ == (QueueView {
                model: old(self)@.model.draining(sentinel, state),
                room: (old(self)@.room - 1) as nat,
                ..old(self)@
            }),
    {
        let ghost m = self.model@;
        let ghost p = self.words();
        proof {
            if m.order().len() > 0 {
                assert(m.has(HEAD_MARKER, 0));
            }
        }
        let mut link = NodeLink::new();
        let word = state_to_ptr(state);
        if !self.is_empty() {
            proof {
                self.lemma_tail();
            }
            link.next.store(self.head.swap(0));
            let found = StateOrTail::from_word(self.tail.swap(word));
            proof {
                tail_word_is_injective(found, m.tail());
            }
            if let StateOrTail::Tail(tail) = found {
                link.prev.store(tail);
            }
        }
        let sentinel = self.pin(NodeInner { link, data: None, sentinel: true });
        self.model = Ghost(m.draining(sentinel, state));
        proof {
            lemma_draining(m, p, sentinel, state, word);
        }
        sentinel
    }

    /// The first node of the drain with this sentinel.
    pub(super) fn drain_head(&self, sentinel: usize) -> (head: Option<usize>)
        requires
            self.wf(),
            self@.model.open == Some(sentinel),
        ensures
            self@.model.chains[sentinel].len() == 0 ==> head is None,
            self@.model.chains[sentinel].len() > 0 ==> head == Some(
                self@.model.chains[sentinel][0],
            ),
    {
        proof {
            let m = self.model@;
            assert(self.words().links.contains_key(sentinel));
            if m.chains[sentinel].len() > 0 {
                assert(m.has(sentinel, 0));
            }
        }
        let head: usize = self.next_of(sentinel);
        if head == 0 {
            None
        } else {
            Some(head)
        }
    }

    /// Node `node` is the last one of the drain with this sentinel.
    pub(super) fn is_drain_tail(&self, sentinel: usize, node: usize) -> (last: bool)
        requires
            self.wf(),
            self@.model.open == Some(sentinel),
            self@.model.chains[sentinel].len() > 0,
        ensures
            last == (node == self@.model.chains[sentinel].last()),
    {
        assert(self.words().links.contains_key(sentinel));
        self.prev_of(sentinel) == node
    }

    /// Takes the first node out of the drain with this sentinel.
    pub(super) fn drain_advance(&mut self, sentinel: usize)
        requires
            old(self).wf(),
            old(self)@.model.open == Some(sentinel),
            old(self)@.model.chains[sentinel].len() > 0,
            old(self)@.model.chains[sentinel].len() > 1 ==> !old(self)@.model.pending.contains_key(
                old(self)@.model.chains[sentinel][1],
            ),
            old(self)@.model.waiting is None,
        ensures
            final(self).wf(),
            final(self)@ == (QueueView {
                model: old(self)@.model.removed(sentinel, 0, 0),
                ..old(self)@
            }),
    {
        let ghost m = self.model@;
        let ghost p = self.words();
        proof {
            assert(m.has(sentinel, 0));
            assert(p.links.contains_key(sentinel));
            assert(p.links.contains_key(m.chains[sentinel][0]));
            lemma_advanced(m, p, sentinel, 0);
            if m.chains[sentinel].len() > 1 {
                assert(m.has(sentinel, 1));
                assert(m.has(sentinel, m.chains[sentinel].len() - 1));
            }
        }
        let node: usize = self.next_of(sentinel);
        let next: usize = if self.is_drain_tail(sentinel, node) {
            0
        } else {
            self.next_of(node)
        };
        self.set_next(sentinel, next);
        self.set_prev(node, DEQUEUED);
        self.model = Ghost(m.removed(sentinel, 0, 0));
        proof {
            assert(self.words() =~= p.set_next(sentinel, next).set_prev(node, DEQUEUED));
        }
    }

    /// Closes the chain of the drain that holds the lock to a ring.
    pub(super) fn drain_close(&mut self, sentinel: usize)
        requires
            old(self).wf(),
            old(self)@.model.open == Some(sentinel),
            old(self)@.model.waiting is None,
        ensures
            final(self).wf(),
            final(self)@ == (QueueView { model: old(self)@.model.closed(), ..old(self)@ }),
    {
        let ghost m = self.model@;
        let ghost p = self.words();
        proof {
            assert(p.links.contains_key(sentinel));
            lemma_closed(m, p, sentinel);
            if m.chains[sentinel].len() > 0 {
                assert(m.has(sentinel, 0));
                assert(m.has(sentinel, m.chains[sentinel].len() - 1));
            }
        }
        if let Some(head) = self.drain_head(sentinel) {
            let tail: usize = self.prev_of(sentinel);
            self.set_prev(head, sentinel);
            self.set_next(tail, sentinel);
            assert(self.words() =~= p.set_prev(head, sentinel).set_next(tail, sentinel));
        }
        let ghost p2 = self.words();
        self.model = Ghost(m.closed());
        assert(self.words() =~= p2);
    }

    /// Opens the ring of a drain whose thread has taken the lock.
    pub(super) fn drain_open(&mut self, sentinel: usize)
        requires
            old(self).wf(),
            old(self)@.locked,
            sentinel != HEAD_MARKER,
            old(self)@.model.chains.contains_key(sentinel),
            old(self)@.model.open is None,
            old(self)@.model.leaving is None,
            old(self)@.model.waiting is None,
        ensures
            final(self).wf(),
            final(self)@ == (QueueView { model: old(self)@.model.opened(sentinel), ..old(self)@ }),
    {
        let ghost m = self.model@;
        let ghost p = self.words();
        proof {
            assert(p.links.contains_key(sentinel));
            lemma_opened(m, p, sentinel);
        }
        if self.next_of(sentinel) == sentinel {
            self.set_next(sentinel, 0);
            assert(self.words() =~= p.set_next(sentinel, 0));
        }
        let ghost p2 = self.words();
        self.model = Ghost(m.opened(sentinel));
        assert(self.words() =~= p2);
    }

    /// Ends a drain that has no node left.
    pub(super) fn drain_end(&mut self, sentinel: usize)
        requires
            old(self).wf(),
            old(self)@.model.open == Some(sentinel),
            old(self)@.model.chains[sentinel].len() == 0,
            old(self)@.model.waiting is None,
        ensures
            final(self).wf(),
            final(self)@ == (QueueView {
                model: old(self)@.model.drained(sentinel),
                room: old(self)@.room + 1,
                ..old(self)@
            }),
    {
        let ghost m = self.model@;
        let ghost p = self.words();
        proof {
            assert(p.links.contains_key(sentinel));
            assert(!m.nodes.contains(sentinel));
            assert(!data_of(self.slots@).contains_key(sentinel));
            lemma_drained(m, p, sentinel);
        }
        let _ = self.unpin(sentinel);
        self.model = Ghost(m.drained(sentinel));
        proof {
            assert(self.words() =~= Words { links: p.links.remove(sentinel), ..p });
            assert(data_of(self.slots@) =~= data_of(old(self).slots@));
        }
    }
}

} // verus!
