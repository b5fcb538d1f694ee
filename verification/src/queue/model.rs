//! What a queue and its nodes are, and how the words in memory stand for them.
//!
//! A [`Model`] is the mathematical content: the order of the nodes and the operations that threads
//! have under way. A [`Words`] is the content of the memory cells. [`Words::represents`] ties them.

use vstd::prelude::*;

use crate::queue::state::{
    encodable, tail_word, QueueState, StateOrTail, INTRUSIVE_QUEUE_MAX_STATE,
};

verus! {

/// In a `prev` word: the node is in no queue.
pub const UNQUEUED: usize = 0;

/// In a `prev` word: the node has been taken out of the queue.
pub const DEQUEUED: usize = 1;

/// In a `prev` word: the node is the queue's head. It also names the cell that precedes the head.
pub const HEAD_MARKER: usize = 2;

/// In a `next` word: the thread that holds the lock is parked until the word is overwritten.
pub const PARKED: usize = 1;

/// Addresses are multiples of four, so that the markers and the tail flag cannot be taken for one.
pub open spec fn is_addr(a: usize) -> bool {
    a >= 4 && a % 4 == 0
}

/// The two words that link a node.
pub struct Link {
    pub prev: usize,
    pub next: usize,
}

/// The state of a queue as its users see it.
///
/// The nodes that are in the queue stand in `chains[HEAD_MARKER]`, oldest first. Each drain under
/// way has a chain of its own, keyed by the address of its sentinel.
#[verifier::ext_equal]
pub struct Model {
    /// The queue's state, while the queue is empty.
    pub state: Option<QueueState>,
    /// The nodes of the queue and of each drain, in order.
    pub chains: Map<usize, Seq<usize>>,
    /// All nodes.
    pub nodes: Set<usize>,
    /// The nodes that stand in a chain.
    pub queued: Set<usize>,
    /// The nodes that were taken out of their chain.
    pub dequeued: Set<usize>,
    /// The nodes whose insertion is under way: they are in the chain, but their predecessor, given
    /// here, does not point at them yet.
    pub pending: Map<usize, usize>,
    /// The node whose removal is under way: its predecessor does not point at it any more.
    pub leaving: Option<usize>,
    /// The sentinel of the drain that holds the lock.
    pub open: Option<usize>,
    /// The cell that the thread holding the lock is parked on.
    pub waiting: Option<usize>,
}

impl Model {
    /// Chain `k` has a position `i`.
    pub open spec fn has(self, k: usize, i: int) -> bool {
        self.chains.contains_key(k) && 0 <= i < self.chains[k].len()
    }

    /// The cell that precedes position `i` of chain `k`.
    pub open spec fn pred(self, k: usize, i: int) -> usize {
        if i == 0 {
            k
        } else {
            self.chains[k][i - 1]
        }
    }

    /// The predecessor of node `a` points at it.
    pub open spec fn attached(self, a: usize) -> bool {
        !self.pending.contains_key(a) && self.leaving != Some(a)
    }

    /// The nodes in the queue, oldest first.
    pub open spec fn order(self) -> Seq<usize> {
        self.chains[HEAD_MARKER]
    }

    /// What the tail word says.
    pub open spec fn tail(self) -> StateOrTail {
        match self.state {
            Some(state) => StateOrTail::State(state),
            None => StateOrTail::Tail(self.order().last()),
        }
    }

    /// Node `a` has never been inserted since it was made or reset.
    pub open spec fn unqueued(self, a: usize) -> bool {
        self.nodes.contains(a) && !self.queued.contains(a) && !self.dequeued.contains(a)
    }

    /// The chain that node `a` stands in, and its place there.
    pub open spec fn position(self, a: usize) -> (usize, int) {
        choose|k: usize, i: int| #[trigger] self.has(k, i) && self.chains[k][i] == a
    }

    /// A node stands in one place.
    pub proof fn lemma_position(self, a: usize)
        requires
            self.wf(),
            self.queued.contains(a),
        ensures
            self.has(self.position(a).0, self.position(a).1),
            self.chains[self.position(a).0][self.position(a).1] == a,
            forall|k: usize, i: int| #[trigger]
                self.has(k, i) && self.chains[k][i] == a ==> self.position(a) == (k, i),
    {
        let (k, i) = choose|k: usize, i: int| #[trigger] self.has(k, i) && self.chains[k][i] == a;
        assert(self.has(k, i));
    }

    /// Some node stands right behind cell `w`.
    pub open spec fn followed(self, w: usize) -> bool {
        exists|k: usize, i: int| #[trigger] self.has(k, i) && self.pred(k, i) == w
    }

    /// At most one node stands right behind a cell.
    pub proof fn lemma_one_follower(self, w: usize)
        requires
            self.wf(),
        ensures
            forall|k1: usize, i1: int, k2: usize, i2: int|
                #![trigger self.has(k1, i1), self.has(k2, i2)]
                self.has(k1, i1) && self.has(k2, i2) && self.pred(k1, i1) == w && self.pred(k2, i2)
                    == w ==> k1 == k2 && i1 == i2,
    {
        assert forall|k1: usize, i1: int, k2: usize, i2: int|
            #![trigger self.has(k1, i1), self.has(k2, i2)]
            self.has(k1, i1) && self.has(k2, i2) && self.pred(k1, i1) == w && self.pred(k2, i2)
                == w implies k1 == k2 && i1 == i2 by {
            if i1 > 0 {
                assert(self.has(k1, i1 - 1));
            }
            if i2 > 0 {
                assert(self.has(k2, i2 - 1));
            }
        }
    }

    /// Nothing stands behind the head cell of an empty queue.
    pub proof fn lemma_no_follower(self, k0: usize)
        requires
            self.wf(),
            self.chains.contains_key(k0),
            self.chains[k0].len() == 0,
        ensures
            !self.followed(k0),
    {
        assert forall|k: usize, i: int| #[trigger] self.has(k, i) implies self.pred(k, i)
            != k0 by {
            if i > 0 {
                assert(self.has(k, i - 1));
            }
        }
    }

    /// Nothing stands behind the last node of a chain.
    pub proof fn lemma_last_not_followed(self, k0: usize)
        requires
            self.wf(),
            self.chains.contains_key(k0),
            self.chains[k0].len() > 0,
        ensures
            !self.followed(self.chains[k0].last()),
    {
        assert(self.has(k0, self.chains[k0].len() - 1));
        assert forall|k: usize, i: int| #[trigger] self.has(k, i) implies self.pred(k, i)
            != self.chains[k0].last() by {
            if i > 0 {
                assert(self.has(k, i - 1));
            }
        }
    }

    pub open spec fn sets_wf(self) -> bool {
        &&& self.chains.contains_key(HEAD_MARKER)
        &&& forall|k: usize| #[trigger]
            self.chains.contains_key(k) && k != HEAD_MARKER ==> is_addr(k) && !self.nodes.contains(
                k,
            )
        &&& forall|a: usize| #[trigger] self.nodes.contains(a) ==> is_addr(a)
        &&& forall|a: usize| #[trigger] self.dequeued.contains(a) ==> self.nodes.contains(a)
        &&& forall|a: usize| #[trigger]
            self.queued.contains(a) ==> self.nodes.contains(a) && !self.dequeued.contains(a)
        &&& forall|a: usize| #[trigger]
            self.pending.contains_key(a) ==> self.queued.contains(a) && self.leaving != Some(a)
    }

    pub open spec fn chains_wf(self) -> bool {
        &&& forall|k: usize, i: int| #[trigger]
            self.has(k, i) ==> self.queued.contains(self.chains[k][i])
        &&& forall|a: usize| #[trigger]
            self.queued.contains(a) ==> exists|k: usize, i: int| #[trigger]
                self.has(k, i) && self.chains[k][i] == a
        &&& forall|k1: usize, i1: int, k2: usize, i2: int|
            #![trigger self.has(k1, i1), self.has(k2, i2)]
            self.has(k1, i1) && self.has(k2, i2) && self.chains[k1][i1] == self.chains[k2][i2]
                ==> k1 == k2 && i1 == i2
        &&& forall|k: usize, i: int| #[trigger]
            self.has(k, i) && self.pending.contains_key(self.chains[k][i])
                ==> self.pending[self.chains[k][i]] == self.pred(k, i)
    }

    pub open spec fn lock_wf(self) -> bool {
        &&& self.leaving matches Some(a) ==> self.queued.contains(a) && self.open is None
        &&& self.open matches Some(s) ==> {
            &&& s != HEAD_MARKER
            &&& self.chains.contains_key(s)
        }
        &&& forall|k: usize| #[trigger]
            self.chains.contains_key(k) && k != HEAD_MARKER && self.chains[k].len() > 0
                ==> !self.pending.contains_key(self.chains[k][0])
        &&& self.waiting matches Some(w) ==> self.followed(w)
    }

    pub open spec fn state_wf(self) -> bool {
        &&& self.state is Some <==> self.order().len() == 0
        &&& self.state matches Some(s) ==> s <= INTRUSIVE_QUEUE_MAX_STATE
    }

    /// The model is one that a queue can be in.
    pub open spec fn wf(self) -> bool {
        &&& self.sets_wf()
        &&& self.chains_wf()
        &&& self.lock_wf()
        &&& self.state_wf()
    }

    /// Taking out one more node.
    pub proof fn lemma_taken(self, s: usize, n: int)
        requires
            self.chains.contains_key(s),
            s != HEAD_MARKER,
            0 <= n < self.chains[s].len(),
            self.leaving is None,
        ensures
            self.taken(s, n).chains[s][0] == self.chains[s][n],
            self.taken(s, n).removed(s, 0, 0) == self.taken(s, n + 1),
    {
        let before = self.taken(s, n);
        let after = self.taken(s, n + 1);
        assert(before.chains[s][0] == self.chains[s][n]);
        assert(before.chains[s].remove(0) =~= self.chains[s].skip(n + 1));
        assert(before.removed(s, 0, 0).chains =~= after.chains);
        assert(self.chains[s].take(n + 1) =~= self.chains[s].take(n).push(self.chains[s][n]));
        assert forall|a: usize|
            self.chains[s].take(n + 1).contains(a) <==> self.chains[s].take(n).contains(a) || a
                == self.chains[s][n] by {
            if self.chains[s].take(n).contains(a) {
                let j = self.chains[s].take(n).index_of(a);
                assert(self.chains[s].take(n + 1)[j] == a);
            }
            if a == self.chains[s][n] {
                assert(self.chains[s].take(n + 1)[n] == a);
            }
        }
        assert(before.removed(s, 0, 0).queued =~= after.queued);
        assert forall|a: usize|
            before.removed(s, 0, 0).dequeued.contains(a) <==> after.dequeued.contains(a) by {
            assert(self.chains[s].take(n + 1).contains(a) <==> self.chains[s].take(n).contains(a)
                || a == self.chains[s][n]);
            if a != self.chains[s][n] {
                assert(before.removed(s, 0, 0).dequeued.contains(a) <==> before.dequeued.contains(
                    a,
                ));
            }
        }
        assert(before.removed(s, 0, 0).dequeued =~= after.dequeued);
    }

    /// Taking out no node.
    pub proof fn lemma_taken_none(self, s: usize)
        requires
            self.chains.contains_key(s),
        ensures
            self.taken(s, 0) == self,
    {
        assert(self.taken(s, 0).chains =~= self.chains) by {
            assert(self.chains[s].skip(0) =~= self.chains[s]);
        }
        assert(self.taken(s, 0).queued =~= self.queued);
        assert(self.taken(s, 0).dequeued =~= self.dequeued);
    }

    /// An insertion is a publication followed by a linking.
    pub proof fn lemma_enqueued(self, a: usize)
        requires
            self.wf(),
            self.unqueued(a),
        ensures
            self.published(a).linked(a) == self.enqueued(a),
    {
        assert(self.published(a).linked(a).pending =~= self.pending);
    }

    // What each atomic step does.

    /// An empty queue that carries `state`.
    pub open spec fn empty(state: QueueState) -> Model {
        Model {
            state: Some(state),
            chains: Map::empty().insert(HEAD_MARKER, Seq::empty()),
            nodes: Set::empty(),
            queued: Set::empty(),
            dequeued: Set::empty(),
            pending: Map::empty(),
            leaving: None,
            open: None,
            waiting: None,
        }
    }

    /// A node is made at address `a`.
    pub open spec fn created(self, a: usize) -> Model {
        Model { nodes: self.nodes.insert(a), ..self }
    }

    /// Node `a` ceases to exist.
    pub open spec fn destroyed(self, a: usize) -> Model {
        Model { nodes: self.nodes.remove(a), dequeued: self.dequeued.remove(a), ..self }
    }

    /// A dequeued node may be inserted again.
    pub open spec fn reset(self, a: usize) -> Model {
        Model { dequeued: self.dequeued.remove(a), ..self }
    }

    /// An empty queue changes its state.
    pub open spec fn with_state(self, state: QueueState) -> Model {
        Model { state: Some(state), ..self }
    }

    /// Node `a` becomes the queue's tail; its predecessor does not point at it yet.
    pub open spec fn published(self, a: usize) -> Model {
        Model {
            state: None,
            chains: self.chains.insert(HEAD_MARKER, self.order().push(a)),
            queued: self.queued.insert(a),
            pending: self.pending.insert(a, self.pred(HEAD_MARKER, self.order().len() as int)),
            ..self
        }
    }

    /// The predecessor of node `a` points at it.
    pub open spec fn linked(self, a: usize) -> Model {
        Model { pending: self.pending.remove(a), ..self }
    }

    /// Node `a` goes to the back of the queue, insertion complete.
    pub open spec fn enqueued(self, a: usize) -> Model {
        Model {
            state: None,
            chains: self.chains.insert(HEAD_MARKER, self.order().push(a)),
            queued: self.queued.insert(a),
            ..self
        }
    }

    /// The predecessor of node `a` ceases to point at it.
    pub open spec fn detached(self, a: usize) -> Model {
        Model { leaving: Some(a), ..self }
    }

    /// The node at position `i` of chain `k` is taken out; a queue that this leaves empty carries
    /// `state`.
    pub open spec fn removed(self, k: usize, i: int, state: QueueState) -> Model {
        Model {
            state: if k == HEAD_MARKER && self.order().len() == 1 {
                Some(state)
            } else {
                self.state
            },
            chains: self.chains.insert(k, self.chains[k].remove(i)),
            queued: self.queued.remove(self.chains[k][i]),
            dequeued: self.dequeued.insert(self.chains[k][i]),
            leaving: None,
            ..self
        }
    }

    /// All nodes of the queue go over to a drain whose sentinel is `s`, which holds the lock. If
    /// there were any, the queue, empty now, carries `state`.
    pub open spec fn draining(self, s: usize, state: QueueState) -> Model {
        Model {
            state: if self.order().len() == 0 {
                self.state
            } else {
                Some(state)
            },
            chains: self.chains.insert(HEAD_MARKER, Seq::empty()).insert(s, self.order()),
            open: Some(s),
            ..self
        }
    }

    /// The first `n` nodes of chain `s` are taken out.
    pub open spec fn taken(self, s: usize, n: int) -> Model {
        let out = self.chains[s].take(n);
        Model {
            chains: self.chains.insert(s, self.chains[s].skip(n)),
            queued: Set::new(|a: usize| self.queued.contains(a) && !out.contains(a)),
            dequeued: Set::new(|a: usize| self.dequeued.contains(a) || out.contains(a)),
            ..self
        }
    }

    /// The drain with sentinel `s` takes the lock.
    pub open spec fn opened(self, s: usize) -> Model {
        Model { open: Some(s), ..self }
    }

    /// The drain that holds the lock gives it back.
    pub open spec fn closed(self) -> Model {
        Model { open: None, ..self }
    }

    /// The drain with sentinel `s` ends.
    pub open spec fn drained(self, s: usize) -> Model {
        Model { chains: self.chains.remove(s), open: None, ..self }
    }

    /// The thread that holds the lock waits on `w`, or on nothing.
    pub open spec fn awaiting(self, w: Option<usize>) -> Model {
        Model { waiting: w, ..self }
    }
}

/// The content of the memory cells.
#[verifier::ext_equal]
pub struct Words {
    pub tail: usize,
    pub head: usize,
    pub links: Map<usize, Link>,
    /// The cell that a parked thread has announced, where the queue has a word for that.
    pub parked_node: Option<usize>,
}

impl Words {
    /// The `next` word of cell `c`.
    pub open spec fn next_at(self, c: usize) -> usize {
        if c == HEAD_MARKER {
            self.head
        } else {
            self.links[c].next
        }
    }

    /// These words with `w` in the `next` word of cell `c`.
    pub open spec fn set_next(self, c: usize, w: usize) -> Words {
        if c == HEAD_MARKER {
            Words { head: w, ..self }
        } else {
            Words { links: self.links.insert(c, Link { next: w, ..self.links[c] }), ..self }
        }
    }

    /// These words with `w` in the `prev` word of `a`.
    pub open spec fn set_prev(self, a: usize, w: usize) -> Words {
        Words { links: self.links.insert(a, Link { prev: w, ..self.links[a] }), ..self }
    }

    pub open spec fn set_tail(self, w: usize) -> Words {
        Words { tail: w, ..self }
    }

    /// There are links for the nodes and for the sentinels of drains, and for nothing else.
    pub open spec fn links_domain(self, m: Model) -> bool {
        forall|a: usize| #[trigger]
            self.links.contains_key(a) <==> m.nodes.contains(a) || (m.chains.contains_key(a) && a
                != HEAD_MARKER)
    }

    pub open spec fn prev_words(self, m: Model) -> bool {
        &&& forall|a: usize| #[trigger]
            m.nodes.contains(a) && !m.queued.contains(a) ==> self.links[a].prev
                == if m.dequeued.contains(a) {
                DEQUEUED
            } else {
                UNQUEUED
            }
        &&& forall|a: usize| #[trigger]
            m.nodes.contains(a) && !m.queued.contains(a) && !m.dequeued.contains(a)
                ==> self.links[a].next == 0
        &&& forall|k: usize, i: int| #[trigger]
            m.has(k, i) ==> self.links[m.chains[k][i]].prev >= 2
        &&& forall|k: usize, i: int| #[trigger]
            m.has(k, i) && (i > 0 || m.open != Some(k)) ==> self.links[m.chains[k][i]].prev
                == m.pred(k, i)
    }

    /// A word that no node is linked in yet.
    pub open spec fn unset(self, m: Model, c: usize) -> bool {
        self.next_at(c) == 0 || (self.next_at(c) == PARKED && m.waiting == Some(c)
            && self.parked_node is None)
    }

    pub open spec fn next_words(self, m: Model) -> bool {
        forall|k: usize, i: int| #[trigger]
            m.has(k, i) ==> if m.attached(m.chains[k][i]) {
                self.next_at(m.pred(k, i)) == m.chains[k][i]
            } else {
                self.unset(m, m.pred(k, i))
            }
    }

    pub open spec fn ends(self, m: Model) -> bool {
        &&& m.state matches Some(s) ==> self.tail == tail_word(StateOrTail::State(s)) && self.head
            == 0
        &&& m.order().len() > 0 ==> {
            &&& self.tail == tail_word(StateOrTail::Tail(m.order().last()))
            &&& self.links[m.order().last()].next == 0
        }
        &&& forall|k: usize| #[trigger]
            m.chains.contains_key(k) && k != HEAD_MARKER ==> if m.chains[k].len() == 0 {
                self.links[k].next == 0 || (self.links[k].next == k && m.open != Some(k))
            } else {
                &&& self.links[k].prev == m.chains[k].last()
                &&& m.open != Some(k) ==> self.links[m.chains[k].last()].next == k
            }
    }

    /// A parked thread is announced in the cell that it waits on, or in the queue's word for that.
    pub open spec fn parking(self, m: Model) -> bool {
        match self.parked_node {
            Some(c) => c == match m.waiting {
                Some(w) => w,
                None => 0,
            },
            None => m.waiting matches Some(w) ==> self.next_at(w) != 0,
        }
    }

    /// These words stand for `m`.
    pub open spec fn represents(self, m: Model) -> bool {
        &&& self.links_domain(m)
        &&& self.prev_words(m)
        &&& self.next_words(m)
        &&& self.ends(m)
        &&& self.parking(m)
    }
}

/// A cell that a node follows is in memory.
pub proof fn lemma_followed(m: Model, p: Words, w: usize)
    requires
        m.wf(),
        p.represents(m),
        m.followed(w),
    ensures
        w == HEAD_MARKER || p.links.contains_key(w),
{
    let (k, i) = choose|k: usize, i: int| #[trigger] m.has(k, i) && m.pred(k, i) == w;
    if i > 0 {
        assert(m.has(k, i - 1));
    }
}

/// A node is made.
pub proof fn lemma_created(m: Model, p: Words, a: usize)
    requires
        m.wf(),
        p.represents(m),
        is_addr(a),
        !p.links.contains_key(a),
    ensures
        m.created(a).wf(),
        (Words { links: p.links.insert(a, Link { prev: 0, next: 0 }), ..p }).represents(
            m.created(a),
        ),
{
    let m2 = m.created(a);
    assert forall|k: usize, i: int| m2.has(k, i) <==> m.has(k, i) by {}
    assert forall|k: usize, i: int| #[trigger] m2.has(k, i) implies m.has(k, i) && m2.pred(k, i)
        != a && m2.chains[k][i] != a by {
        if i > 0 {
            assert(m.has(k, i - 1));
        }
    }
    if let Some(w) = m.waiting {
        let (k, i) = choose|k: usize, i: int| #[trigger] m.has(k, i) && m.pred(k, i) == w;
        assert(m2.has(k, i));
    }
    if m.order().len() > 0 {
        assert(m.has(HEAD_MARKER, m.order().len() - 1));
    }
    assert forall|k: usize| #[trigger] m2.chains.contains_key(k) && m2.chains[k].len()
        > 0 implies m2.chains[k].last() != a by {
        assert(m.has(k, m.chains[k].len() - 1));
    }
}

/// A node that is in no chain is done away with.
pub proof fn lemma_destroyed(m: Model, p: Words, a: usize)
    requires
        m.wf(),
        p.represents(m),
        m.nodes.contains(a),
        !m.queued.contains(a),
    ensures
        m.destroyed(a).wf(),
        (Words { links: p.links.remove(a), ..p }).represents(m.destroyed(a)),
{
    let m2 = m.destroyed(a);
    assert forall|k: usize, i: int| m2.has(k, i) <==> m.has(k, i) by {}
    assert forall|k: usize, i: int| #[trigger] m2.has(k, i) implies m.has(k, i) && m2.pred(k, i)
        != a && m2.chains[k][i] != a by {
        if i > 0 {
            assert(m.has(k, i - 1));
        }
    }
    if let Some(w) = m.waiting {
        let (k, i) = choose|k: usize, i: int| #[trigger] m.has(k, i) && m.pred(k, i) == w;
        assert(m2.has(k, i));
    }
    assert forall|k: usize| #[trigger] m2.chains.contains_key(k) && m2.chains[k].len()
        > 0 implies m2.chains[k].last() != a by {
        assert(m.has(k, m.chains[k].len() - 1));
    }
}

/// A dequeued node is made ready for another insertion.
pub proof fn lemma_reset(m: Model, p: Words, a: usize)
    requires
        m.wf(),
        p.represents(m),
        m.dequeued.contains(a),
    ensures
        m.reset(a).wf(),
        p.set_prev(a, UNQUEUED).set_next(a, 0).represents(m.reset(a)),
{
    let m2 = m.reset(a);
    assert forall|k: usize, i: int| m2.has(k, i) <==> m.has(k, i) by {}
    assert forall|k: usize, i: int| #[trigger] m2.has(k, i) implies m.has(k, i) && m2.pred(k, i)
        != a && m2.chains[k][i] != a by {
        if i > 0 {
            assert(m.has(k, i - 1));
        }
    }
    if let Some(w) = m.waiting {
        let (k, i) = choose|k: usize, i: int| #[trigger] m.has(k, i) && m.pred(k, i) == w;
        assert(m2.has(k, i));
    }
    assert forall|k: usize| #[trigger] m2.chains.contains_key(k) && m2.chains[k].len()
        > 0 implies m2.chains[k].last() != a by {
        assert(m.has(k, m.chains[k].len() - 1));
    }
}

/// The state of an empty queue is replaced.
pub proof fn lemma_with_state(m: Model, p: Words, state: QueueState, word: usize)
    requires
        m.wf(),
        p.represents(m),
        m.order().len() == 0,
        encodable(StateOrTail::State(state)),
        word == tail_word(StateOrTail::State(state)),
    ensures
        m.with_state(state).wf(),
        p.set_tail(word).represents(m.with_state(state)),
{
    let m2 = m.with_state(state);
    assert forall|k: usize, i: int| m2.has(k, i) <==> m.has(k, i) by {}
    if let Some(w) = m.waiting {
        let (k, i) = choose|k: usize, i: int| #[trigger] m.has(k, i) && m.pred(k, i) == w;
        assert(m2.has(k, i));
    }
}

/// A node becomes the tail.
pub proof fn lemma_published(m: Model, p: Words, a: usize, word: usize)
    requires
        m.wf(),
        p.represents(m),
        m.unqueued(a),
        word == tail_word(StateOrTail::Tail(a)),
    ensures
        m.published(a).wf(),
        p.set_prev(a, m.pred(HEAD_MARKER, m.order().len() as int)).set_tail(word).represents(
            m.published(a),
        ),
{
    let m2 = m.published(a);
    let n = m.order().len() as int;
    let p2 = p.set_prev(a, m.pred(HEAD_MARKER, n)).set_tail(word);
    assert forall|k: usize, i: int|
        m2.has(k, i) <==> m.has(k, i) || (k == HEAD_MARKER && i == n) by {}
    assert forall|k: usize, i: int| #[trigger] m.has(k, i) implies m2.has(k, i) && m2.chains[k][i]
        == m.chains[k][i] && m2.pred(k, i) == m.pred(k, i) && m.chains[k][i] != a && m.pred(k, i)
        != a by {
        if i > 0 {
            assert(m.has(k, i - 1));
        }
    }
    assert(m2.has(HEAD_MARKER, n) && m2.chains[HEAD_MARKER][n] == a);
    if n > 0 {
        assert(m.has(HEAD_MARKER, n - 1));
    }
    assert(m2.pred(HEAD_MARKER, n) == m.pred(HEAD_MARKER, n));
    assert forall|b: usize| #[trigger] m2.queued.contains(b) implies exists|k: usize, i: int|
        #[trigger] m2.has(k, i) && m2.chains[k][i] == b by {
        if b == a {
            assert(m2.has(HEAD_MARKER, n));
        } else {
            let (k, i) = choose|k: usize, i: int| #[trigger] m.has(k, i) && m.chains[k][i] == b;
            assert(m2.has(k, i));
        }
    }
    if let Some(w) = m.waiting {
        let (k, i) = choose|k: usize, i: int| #[trigger] m.has(k, i) && m.pred(k, i) == w;
        assert(m2.has(k, i));
    }
    assert forall|k: usize, i: int| #[trigger] m2.has(k, i) implies p2.next_at(m2.pred(k, i))
        == p.next_at(m2.pred(k, i)) by {}
    assert forall|k: usize| #[trigger] m2.chains.contains_key(k) && k != HEAD_MARKER
        && m2.chains[k].len() > 0 implies m2.chains[k].last() != a by {
        assert(m.has(k, m.chains[k].len() - 1));
    }
    assert forall|k: usize| #[trigger] m2.chains.contains_key(k) && m2.chains[k].len()
        > 0 implies m2.has(k, 0) by {}
}

/// The predecessor of a node in insertion points at it.
pub proof fn lemma_linked(m: Model, p: Words, a: usize)
    requires
        m.wf(),
        p.represents(m),
        m.pending.contains_key(a),
    ensures
        m.linked(a).wf(),
        p.set_next(m.pending[a], a).represents(m.linked(a)),
        p.unset(m, m.pending[a]),
        m.pending[a] == p.links[a].prev,
        m.pending[a] == HEAD_MARKER || p.links.contains_key(m.pending[a]),
{
    let m2 = m.linked(a);
    let c = m.pending[a];
    let p2 = p.set_next(c, a);
    let (k0, i0) = choose|k: usize, i: int| #[trigger] m.has(k, i) && m.chains[k][i] == a;
    assert(m.has(k0, i0) && m.pred(k0, i0) == c);
    assert forall|k: usize, i: int| m2.has(k, i) <==> m.has(k, i) by {}
    assert forall|k: usize, i: int| #[trigger] m.has(k, i) implies m2.pred(k, i) == m.pred(k, i)
        && (m.chains[k][i] == a <==> (k == k0 && i == i0)) && (m.pred(k, i) == c <==> (k == k0 && i
        == i0)) by {
        if i > 0 {
            assert(m.has(k, i - 1));
        }
        if i0 > 0 {
            assert(m.has(k0, i0 - 1));
        }
    }
    if let Some(w) = m.waiting {
        let (k, i) = choose|k: usize, i: int| #[trigger] m.has(k, i) && m.pred(k, i) == w;
        assert(m2.has(k, i));
    }
    if i0 > 0 {
        assert(m.has(k0, i0 - 1));
    }
    assert forall|b: usize| #[trigger] m2.queued.contains(b) implies exists|k: usize, i: int|
        #[trigger] m2.has(k, i) && m2.chains[k][i] == b by {
        let (k, i) = choose|k: usize, i: int| #[trigger] m.has(k, i) && m.chains[k][i] == b;
        assert(m2.has(k, i));
    }
    assert forall|k: usize| #[trigger] m2.chains.contains_key(k) && m2.chains[k].len()
        > 0 implies m2.chains[k].last() != c by {
        assert(m.has(k, m.chains[k].len() - 1));
        if i0 > 0 {
            assert(m.has(k0, i0 - 1));
        }
    }
    assert forall|k: usize| #[trigger] m2.chains.contains_key(k) && m2.chains[k].len()
        > 0 implies m2.has(k, 0) by {}
}

/// The predecessor of a node in removal ceases to point at it.
pub proof fn lemma_detached(m: Model, p: Words, k0: usize, i0: int)
    requires
        m.wf(),
        p.represents(m),
        m.has(k0, i0),
        m.open is None,
        !m.pending.contains_key(m.chains[k0][i0]),
        m.leaving is None || m.leaving == Some(m.chains[k0][i0]),
        m.waiting != Some(m.pred(k0, i0)),
    ensures
        m.detached(m.chains[k0][i0]).wf(),
        p.set_next(m.pred(k0, i0), 0).represents(m.detached(m.chains[k0][i0])),
{
    let a = m.chains[k0][i0];
    let m2 = m.detached(a);
    let c = m.pred(k0, i0);
    let p2 = p.set_next(c, 0);
    assert forall|k: usize, i: int| m2.has(k, i) <==> m.has(k, i) by {}
    assert forall|k: usize, i: int| #[trigger] m.has(k, i) implies m2.pred(k, i) == m.pred(k, i)
        && (m.chains[k][i] == a <==> (k == k0 && i == i0)) && (m.pred(k, i) == c <==> (k == k0 && i
        == i0)) by {
        if i > 0 {
            assert(m.has(k, i - 1));
        }
        if i0 > 0 {
            assert(m.has(k0, i0 - 1));
        }
    }
    if let Some(w) = m.waiting {
        let (k, i) = choose|k: usize, i: int| #[trigger] m.has(k, i) && m.pred(k, i) == w;
        assert(m2.has(k, i));
    }
    if i0 > 0 {
        assert(m.has(k0, i0 - 1));
    }
    assert forall|b: usize| #[trigger] m2.queued.contains(b) implies exists|k: usize, i: int|
        #[trigger] m2.has(k, i) && m2.chains[k][i] == b by {
        let (k, i) = choose|k: usize, i: int| #[trigger] m.has(k, i) && m.chains[k][i] == b;
        assert(m2.has(k, i));
    }
    assert forall|k: usize| #[trigger] m2.chains.contains_key(k) && m2.chains[k].len()
        > 0 implies m2.chains[k].last() != c by {
        assert(m.has(k, m.chains[k].len() - 1));
        if i0 > 0 {
            assert(m.has(k0, i0 - 1));
        }
    }
}

/// Taking a node out of its chain leaves a proper model.
proof fn lemma_removed(m: Model, k0: usize, i0: int, state: QueueState)
    requires
        m.wf(),
        m.has(k0, i0),
        !m.pending.contains_key(m.chains[k0][i0]),
        m.leaving is None || m.leaving == Some(m.chains[k0][i0]),
        i0 + 1 < m.chains[k0].len() ==> !m.pending.contains_key(m.chains[k0][i0 + 1]),
        m.waiting is None,
        state <= INTRUSIVE_QUEUE_MAX_STATE,
    ensures
        m.removed(k0, i0, state).wf(),
        forall|k: usize, i: int|
            m.removed(k0, i0, state).has(k, i) <==> m.has(
                k,
                if k == k0 && i >= i0 {
                    i + 1
                } else {
                    i
                },
            ) && i >= 0,
        forall|k: usize, i: int| #[trigger]
            m.removed(k0, i0, state).has(k, i) ==> {
                let m2 = m.removed(k0, i0, state);
                let j = if k == k0 && i >= i0 {
                    i + 1
                } else {
                    i
                };
                &&& m.has(k, j)
                &&& m2.chains[k][i] == m.chains[k][j]
                &&& m2.chains[k][i] != m.chains[k0][i0]
                &&& m2.pred(k, i) == if k == k0 && i == i0 {
                    m.pred(k0, i0)
                } else {
                    m.pred(k, j)
                }
                &&& m2.pred(k, i) != m.chains[k0][i0]
                &&& m2.pred(k, i) == m.pred(k0, i0) <==> k == k0 && i == i0
            },
{
    let a = m.chains[k0][i0];
    let m2 = m.removed(k0, i0, state);
    assert forall|k: usize, i: int|
        m2.has(k, i) <==> m.has(
            k,
            if k == k0 && i >= i0 {
                i + 1
            } else {
                i
            },
        ) && i >= 0 by {}
    assert forall|k: usize, i: int| #[trigger] m2.has(k, i) implies {
        let j = if k == k0 && i >= i0 {
            i + 1
        } else {
            i
        };
        &&& m.has(k, j)
        &&& m2.chains[k][i] == m.chains[k][j]
        &&& m2.chains[k][i] != a
        &&& m2.pred(k, i) == if k == k0 && i == i0 {
            m.pred(k0, i0)
        } else {
            m.pred(k, j)
        }
        &&& m2.pred(k, i) != a
        &&& m2.pred(k, i) == m.pred(k0, i0) <==> k == k0 && i == i0
    } by {
        let j = if k == k0 && i >= i0 {
            i + 1
        } else {
            i
        };
        assert(m.has(k, j));
        if j > 0 {
            assert(m.has(k, j - 1));
        }
        if i > 0 {
            assert(m2.has(k, i - 1));
        }
        if i0 > 0 {
            assert(m.has(k0, i0 - 1));
        }
    }
    assert forall|b: usize| #[trigger] m2.queued.contains(b) implies exists|k: usize, i: int|
        #[trigger] m2.has(k, i) && m2.chains[k][i] == b by {
        let (k, j) = choose|k: usize, i: int| #[trigger] m.has(k, i) && m.chains[k][i] == b;
        let i = if k == k0 && j > i0 {
            j - 1
        } else {
            j
        };
        assert(m2.has(k, i) && m2.chains[k][i] == b);
    }
}

/// A node is taken out of the middle of its chain: its neighbours are linked to each other.
#[verifier::rlimit(40)]
pub proof fn lemma_unlinked(m: Model, p: Words, k0: usize, i0: int, state: QueueState)
    requires
        m.wf(),
        p.represents(m),
        m.has(k0, i0),
        m.open is None,
        !m.pending.contains_key(m.chains[k0][i0]),
        m.leaving is None || m.leaving == Some(m.chains[k0][i0]),
        i0 + 1 < m.chains[k0].len() ==> !m.pending.contains_key(m.chains[k0][i0 + 1]),
        i0 + 1 == m.chains[k0].len() ==> k0 != HEAD_MARKER,
        m.waiting is None,
        state <= INTRUSIVE_QUEUE_MAX_STATE,
    ensures
        m.removed(k0, i0, state).wf(),
        ({
            let a = m.chains[k0][i0];
            let next = if i0 + 1 < m.chains[k0].len() {
                m.chains[k0][i0 + 1]
            } else {
                k0
            };
            &&& p.links[a].next == next
            &&& p.links[a].prev == m.pred(k0, i0)
            &&& p.set_prev(next, m.pred(k0, i0)).set_next(m.pred(k0, i0), next).set_prev(
                a,
                DEQUEUED,
            ).represents(m.removed(k0, i0, state))
        }),
{
    let a = m.chains[k0][i0];
    let c = m.pred(k0, i0);
    let len = m.chains[k0].len() as int;
    let next = if i0 + 1 < len {
        m.chains[k0][i0 + 1]
    } else {
        k0
    };
    let m2 = m.removed(k0, i0, state);
    let p2 = p.set_prev(next, c).set_next(c, next).set_prev(a, DEQUEUED);
    lemma_removed(m, k0, i0, state);
    if i0 + 1 < len {
        assert(m.has(k0, i0 + 1));
        assert(m.pred(k0, i0 + 1) == a);
        assert(m2.has(k0, i0));
    }
    if i0 > 0 {
        assert(m.has(k0, i0 - 1));
    }
    assert forall|k: usize| #[trigger] m2.chains.contains_key(k) && m2.chains[k].len()
        > 0 implies m2.has(k, m2.chains[k].len() - 1) && m2.chains[k].last() == if k == k0 && i0
        == len - 1 {
        c
    } else {
        m.chains[k].last()
    } by {
        assert(m.has(k, m.chains[k].len() - 1));
    }
    assert forall|k: usize| #[trigger] m2.chains.contains_key(k) && m2.chains[k].len()
        > 0 && !(k == k0 && i0 == len - 1) implies m2.chains[k].last() != c by {
        assert(m.has(k, m.chains[k].len() - 1));
    }
    assert(p2.next_words(m2));
    assert(p2.prev_words(m2));
    assert(p2.ends(m2));
}

/// The last node of the queue is taken out: its predecessor becomes the tail.
#[verifier::rlimit(40)]
pub proof fn lemma_committed(m: Model, p: Words, state: QueueState, word: usize)
    requires
        m.wf(),
        p.represents(m),
        m.order().len() > 0,
        m.leaving == Some(m.order().last()),
        m.waiting is None,
        state <= INTRUSIVE_QUEUE_MAX_STATE,
        word == if m.order().len() == 1 {
            tail_word(StateOrTail::State(state))
        } else {
            tail_word(StateOrTail::Tail(m.pred(HEAD_MARKER, m.order().len() - 1)))
        },
    ensures
        m.removed(HEAD_MARKER, m.order().len() - 1, state).wf(),
        p.set_tail(word).set_prev(m.order().last(), DEQUEUED).represents(
            m.removed(HEAD_MARKER, m.order().len() - 1, state),
        ),
{
    let k0 = HEAD_MARKER;
    let len = m.order().len() as int;
    let i0 = len - 1;
    let a = m.chains[k0][i0];
    let c = m.pred(k0, i0);
    let m2 = m.removed(k0, i0, state);
    let p2 = p.set_tail(word).set_prev(a, DEQUEUED);
    assert(m.has(k0, i0));
    lemma_removed(m, k0, i0, state);
    if i0 > 0 {
        assert(m.has(k0, i0 - 1));
        assert(m2.has(k0, i0 - 1));
    }
    assert(p.next_at(c) == 0);
    assert forall|k: usize| #[trigger] m2.chains.contains_key(k) && m2.chains[k].len()
        > 0 implies m2.has(k, m2.chains[k].len() - 1) && m2.chains[k].last() != a by {
        assert(m.has(k, m.chains[k].len() - 1));
    }
    assert(p2.next_words(m2));
    assert(p2.prev_words(m2));
    assert(p2.ends(m2));
}

/// The drain that holds the lock takes out its first node.
#[verifier::rlimit(40)]
pub proof fn lemma_advanced(m: Model, p: Words, s: usize, state: QueueState)
    requires
        m.wf(),
        p.represents(m),
        m.open == Some(s),
        m.chains[s].len() > 0,
        m.chains[s].len() > 1 ==> !m.pending.contains_key(m.chains[s][1]),
        m.waiting is None,
        state <= INTRUSIVE_QUEUE_MAX_STATE,
    ensures
        m.removed(s, 0, state).wf(),
        ({
            let a = m.chains[s][0];
            let next = if m.chains[s].len() > 1 {
                m.chains[s][1]
            } else {
                0
            };
            &&& p.links[s].next == a
            &&& m.chains[s].len() > 1 ==> p.links[a].next == next
            &&& p.set_next(s, next).set_prev(a, DEQUEUED).represents(m.removed(s, 0, state))
        }),
{
    let a = m.chains[s][0];
    let len = m.chains[s].len() as int;
    let next = if len > 1 {
        m.chains[s][1]
    } else {
        0
    };
    let m2 = m.removed(s, 0, state);
    let p2 = p.set_next(s, next).set_prev(a, DEQUEUED);
    assert(m.has(s, 0));
    lemma_removed(m, s, 0, state);
    if len > 1 {
        assert(m.has(s, 1));
        assert(m.pred(s, 1) == a);
        assert(m2.has(s, 0));
    }
    assert forall|k: usize| #[trigger] m2.chains.contains_key(k) && m2.chains[k].len()
        > 0 implies m2.has(k, m2.chains[k].len() - 1) && m2.chains[k].last() == m.chains[k].last()
        && m2.chains[k].last() != a by {
        assert(m.has(k, m.chains[k].len() - 1));
    }
    assert(p2.next_words(m2));
    assert(p2.prev_words(m2));
    assert(p2.ends(m2));
}

/// All nodes of the queue go over to a new drain.
#[verifier::rlimit(40)]
pub proof fn lemma_draining(m: Model, p: Words, s: usize, state: QueueState, word: usize)
    requires
        m.wf(),
        p.represents(m),
        is_addr(s),
        !p.links.contains_key(s),
        m.open is None,
        m.leaving is None,
        m.waiting is None,
        m.order().len() > 0 ==> !m.pending.contains_key(m.order()[0]),
        encodable(StateOrTail::State(state)),
        word == tail_word(StateOrTail::State(state)),
    ensures
        m.draining(s, state).wf(),
        ({
            let empty = m.order().len() == 0;
            let link = if empty {
                Link { prev: 0, next: 0 }
            } else {
                Link { prev: m.order().last(), next: m.order()[0] }
            };
            &&& (Words {
                tail: if empty {
                    p.tail
                } else {
                    word
                },
                head: if empty {
                    p.head
                } else {
                    0
                },
                links: p.links.insert(s, link),
                parked_node: p.parked_node,
            }).represents(m.draining(s, state))
        }),
{
    let empty = m.order().len() == 0;
    let len = m.order().len() as int;
    let link = if empty {
        Link { prev: 0, next: 0 }
    } else {
        Link { prev: m.order().last(), next: m.order()[0] }
    };
    let m2 = m.draining(s, state);
    let p2 = Words {
        tail: if empty {
            p.tail
        } else {
            word
        },
        head: if empty {
            p.head
        } else {
            0
        },
        links: p.links.insert(s, link),
        parked_node: p.parked_node,
    };
    assert forall|k: usize, i: int|
        m2.has(k, i) <==> (k == s && m.has(HEAD_MARKER, i)) || (k != HEAD_MARKER && m.has(k, i)) by {}
    assert forall|k: usize, i: int| #[trigger] m2.has(k, i) implies {
        let l = if k == s {
            HEAD_MARKER
        } else {
            k
        };
        &&& k != HEAD_MARKER
        &&& m.has(l, i)
        &&& m2.chains[k][i] == m.chains[l][i]
        &&& m2.chains[k][i] != s
        &&& m2.pred(k, i) == if k == s && i == 0 {
            s
        } else {
            m.pred(l, i)
        }
        &&& m2.pred(k, i) == s <==> k == s && i == 0
        &&& m2.pred(k, i) != HEAD_MARKER
    } by {
        let l = if k == s {
            HEAD_MARKER
        } else {
            k
        };
        assert(m.has(l, i));
        if i > 0 {
            assert(m.has(l, i - 1));
        }
    }
    assert forall|b: usize| #[trigger] m2.queued.contains(b) implies exists|k: usize, i: int|
        #[trigger] m2.has(k, i) && m2.chains[k][i] == b by {
        let (l, i) = choose|k: usize, i: int| #[trigger] m.has(k, i) && m.chains[k][i] == b;
        let k = if l == HEAD_MARKER {
            s
        } else {
            l
        };
        assert(m2.has(k, i) && m2.chains[k][i] == b);
    }
    assert forall|k: usize| #[trigger] m2.chains.contains_key(k) && m2.chains[k].len()
        > 0 implies m2.has(k, m2.chains[k].len() - 1) && m2.has(k, 0) by {}
    assert(p2.next_words(m2));
    assert(p2.prev_words(m2));
    assert(p2.ends(m2));
}

/// The drain that holds the lock closes its chain to a ring and gives the lock back.
#[verifier::rlimit(40)]
pub proof fn lemma_closed(m: Model, p: Words, s: usize)
    requires
        m.wf(),
        p.represents(m),
        m.open == Some(s),
    ensures
        m.closed().wf(),
        m.chains[s].len() == 0 ==> p.represents(m.closed()),
        m.chains[s].len() > 0 ==> p.set_prev(m.chains[s][0], s).set_next(
            m.chains[s].last(),
            s,
        ).represents(m.closed()),
{
    let m2 = m.closed();
    let len = m.chains[s].len() as int;
    assert forall|k: usize, i: int| m2.has(k, i) <==> m.has(k, i) by {}
    if let Some(w) = m.waiting {
        let (k, i) = choose|k: usize, i: int| #[trigger] m.has(k, i) && m.pred(k, i) == w;
        assert(m2.has(k, i));
    }
    if len > 0 {
        let a = m.chains[s][0];
        let b = m.chains[s].last();
        let p2 = p.set_prev(a, s).set_next(b, s);
        assert(m.has(s, 0));
        assert(m.has(s, len - 1));
        assert forall|k: usize, i: int| #[trigger] m.has(k, i) implies m2.pred(k, i) == m.pred(k, i)
            && m.pred(k, i) != b && (m.chains[k][i] == a <==> k == s && i == 0) by {
            if i > 0 {
                assert(m.has(k, i - 1));
            }
        }
        assert forall|k: usize| #[trigger] m2.chains.contains_key(k) && m2.chains[k].len()
            > 0 implies m2.has(k, m2.chains[k].len() - 1) by {}
        assert(p2.next_words(m2));
        assert(p2.prev_words(m2));
        assert(p2.ends(m2));
    }
}

/// A drain takes the lock again; a ring that has only the sentinel left is cut.
#[verifier::rlimit(40)]
pub proof fn lemma_opened(m: Model, p: Words, s: usize)
    requires
        m.wf(),
        p.represents(m),
        m.chains.contains_key(s),
        s != HEAD_MARKER,
        m.open is None,
        m.leaving is None,
        m.waiting is None,
    ensures
        m.opened(s).wf(),
        m.chains[s].len() == 0 <==> p.links[s].next == 0 || p.links[s].next == s,
        p.links[s].next == s ==> p.set_next(s, 0).represents(m.opened(s)),
        p.links[s].next != s ==> p.represents(m.opened(s)),
{
    let m2 = m.opened(s);
    assert forall|k: usize, i: int| m2.has(k, i) <==> m.has(k, i) by {}
    assert forall|k: usize, i: int| #[trigger] m.has(k, i) implies m2.pred(k, i) == m.pred(k, i) && (
    m.pred(k, i) == s <==> k == s && i == 0) by {
        if i > 0 {
            assert(m.has(k, i - 1));
        }
    }
    if m.chains[s].len() > 0 {
        assert(m.has(s, 0));
    }
    assert forall|k: usize| #[trigger] m2.chains.contains_key(k) && m2.chains[k].len()
        > 0 implies m2.has(k, m2.chains[k].len() - 1) by {}
}

/// A drain that is done with its nodes ends.
pub proof fn lemma_drained(m: Model, p: Words, s: usize)
    requires
        m.wf(),
        p.represents(m),
        m.open == Some(s),
        m.chains[s].len() == 0,
        m.waiting is None,
    ensures
        m.drained(s).wf(),
        (Words { links: p.links.remove(s), ..p }).represents(m.drained(s)),
{
    let m2 = m.drained(s);
    let p2 = Words { links: p.links.remove(s), ..p };
    assert forall|k: usize, i: int| m2.has(k, i) <==> m.has(k, i) by {}
    assert forall|k: usize, i: int| #[trigger] m.has(k, i) implies m2.pred(k, i) == m.pred(k, i)
        && m.pred(k, i) != s && m.chains[k][i] != s && k != s by {
        if i > 0 {
            assert(m.has(k, i - 1));
        }
    }
    assert(m2.chains.contains_key(HEAD_MARKER));
    assert forall|k: usize| #[trigger] m2.chains.contains_key(k) implies m.chains.contains_key(k)
        && k != s by {}
    assert forall|k: usize| #[trigger] m2.chains.contains_key(k) && m2.chains[k].len()
        > 0 implies m2.chains[k].last() != s by {
        assert(m.has(k, m.chains[k].len() - 1));
    }
    assert(p2.next_words(m2));
    assert(p2.prev_words(m2));
    assert(p2.ends(m2));
}

/// The thread that holds the lock announces that it waits on cell `w`.
pub proof fn lemma_awaiting(m: Model, p: Words, w: usize)
    requires
        m.wf(),
        p.represents(m),
        m.waiting is None,
        m.followed(w),
        p.parked_node is None ==> p.next_at(w) == 0,
    ensures
        m.awaiting(Some(w)).wf(),
        p.parked_node is None ==> p.set_next(w, PARKED).represents(m.awaiting(Some(w))),
        p.parked_node is Some ==> (Words { parked_node: Some(w), ..p }).represents(
            m.awaiting(Some(w)),
        ),
        w == HEAD_MARKER || p.links.contains_key(w),
{
    let m2 = m.awaiting(Some(w));
    assert forall|k: usize, i: int| m2.has(k, i) <==> m.has(k, i) by {}
    let (k0, i0) = choose|k: usize, i: int| #[trigger] m.has(k, i) && m.pred(k, i) == w;
    assert(m2.has(k0, i0) && m2.pred(k0, i0) == w);
    if i0 > 0 {
        assert(m.has(k0, i0 - 1));
    }
    assert forall|k: usize, i: int| #[trigger] m.has(k, i) implies m2.pred(k, i) == m.pred(k, i) && (
    m.pred(k, i) == w <==> k == k0 && i == i0) && m.chains[k][i] != 0 by {
        if i > 0 {
            assert(m.has(k, i - 1));
        }
    }
    assert forall|k: usize| #[trigger] m2.chains.contains_key(k) && m2.chains[k].len()
        > 0 implies m2.has(k, m2.chains[k].len() - 1) && m2.chains[k].last() != w by {
        assert(m.has(k, m.chains[k].len() - 1));
    }
}

/// The thread that holds the lock goes on once the word that it waited for is set.
pub proof fn lemma_resumed(m: Model, p: Words)
    requires
        m.wf(),
        p.represents(m),
        m.waiting matches Some(w) ==> p.next_at(w) != PARKED,
    ensures
        m.awaiting(None).wf(),
        p.parked_node is None ==> p.represents(m.awaiting(None)),
        p.parked_node is Some ==> (Words { parked_node: Some(0), ..p }).represents(m.awaiting(None)),
{
    let m2 = m.awaiting(None);
    assert forall|k: usize, i: int| m2.has(k, i) <==> m.has(k, i) by {}
}

} // verus!
