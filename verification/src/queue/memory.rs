//! The memory that nodes are pinned in.

use vstd::prelude::*;

use crate::node::{raw_state, NodeInner, NodeLink, RawNodeState};
use crate::queue::model::{
    is_addr, lemma_created, lemma_destroyed, lemma_followed, lemma_reset, Link, Words, UNQUEUED,
};
use crate::queue::{data_of, index_of, lemma_other_addresses, links_of, slot_at, LockedQueue, Queue, QueueView};
use crate::sync::SyncPrimitives;
use crate::unsafe_pinned::UnsafePinned;

verus! {

/// The memory of the nodes.
impl<T, SP: SyncPrimitives> Queue<T, SP> {
    /// Pins a node or a sentinel at an address that nothing else has.
    pub(super) fn pin(&mut self, inner: NodeInner<T>) -> (a: usize)
        requires
            old(self).memory_wf(),
            old(self)@.room > 0,
            inner.data is Some || inner.sentinel,
        ensures
            is_addr(a),
            !old(self).words().links.contains_key(a),
            final(self).same_outside(old(self)),
            final(self).memory_wf(),
            final(self)@.room == old(self)@.room - 1,
            final(self).words().links == old(self).words().links.insert(
                a,
                Link { prev: inner.link.prev@, next: inner.link.next@ },
            ),
            inner.data matches Some(data) ==> data_of(final(self).slots@) == data_of(old(self).slots@).insert(
                a,
                data,
            ),
            inner.data is None ==> data_of(final(self).slots@) == data_of(old(self).slots@),
    {
        let i: usize;
        match self.free.pop() {
            Some(slot) => {
                i = slot;
                self.slots[i] = UnsafePinned::new(inner);
                proof {
                    assert(old(self).free@.last() == slot);
                    assert(old(self).free@[old(self).free@.len() - 1] == slot);
                    assert forall|j: int|
                        #![trigger self.free@[j]]
                        0 <= j < self.free@.len() implies self.free@[j] != slot by {
                        assert(self.free@[j] == old(self).free@[j]);
                    }
                }
            },
            None => {
                i = self.slots.len();
                self.slots.push(UnsafePinned::new(inner));
            },
        }
        let a: usize = 4 * i + 4;
        proof {
            lemma_other_addresses(a);
            assert(self.words().links =~= old(self).words().links.insert(
                a,
                Link { prev: inner.link.prev@, next: inner.link.next@ },
            ));
            if inner.data is Some {
                assert(data_of(self.slots@) =~= data_of(old(self).slots@).insert(a, inner.data->0));
            } else {
                assert(data_of(self.slots@) =~= data_of(old(self).slots@));
            }
        }
        a
    }

    /// Frees the memory at `a` and returns what it held.
    pub(super) fn unpin(&mut self, a: usize) -> (data: Option<T>)
        requires
            old(self).memory_wf(),
            old(self).words().links.contains_key(a),
        ensures
            final(self).same_outside(old(self)),
            final(self).memory_wf(),
            final(self)@.room == old(self)@.room + 1,
            final(self).words().links == old(self).words().links.remove(a),
            data_of(final(self).slots@) == data_of(old(self).slots@).remove(a),
            data is Some <==> data_of(old(self).slots@).contains_key(a),
            data matches Some(d) ==> d == data_of(old(self).slots@)[a],
    {
        let i: usize = a / 4 - 1;
        proof {
            lemma_other_addresses(a);
            assert forall|j: int|
                #![trigger self.free@[j]]
                0 <= j < self.free@.len() implies self.free@[j] != i by {}
            assert(!self.free@.contains(i));
            lemma_room(self.free@, self.slots@.len() as int, i);
        }
        let inner: &mut NodeInner<T> = UnsafePinned::raw_get(&mut self.slots[i]);
        let data = inner.data.take();
        inner.sentinel = false;
        self.free.push(i);
        proof {
            assert(self.words().links =~= old(self).words().links.remove(a));
            assert(data_of(self.slots@) =~= data_of(old(self).slots@).remove(a));
        }
        data
    }
}

/// Distinct numbers below a bound that do not include `i` leave place for `i`.
proof fn lemma_room(free: Seq<usize>, bound: int, i: usize)
    requires
        free.no_duplicates(),
        forall|j: int| 0 <= j < free.len() ==> 0 <= #[trigger] free[j] < bound,
        i < bound,
        !free.contains(i),
    ensures
        free.len() < bound,
{
    let numbers = free.push(i).map_values(|x: usize| x as int);
    assert(numbers.no_duplicates());
    numbers.unique_seq_to_set();
    vstd::set_lib::lemma_int_range(0, bound);
    assert(numbers.to_set().subset_of(vstd::set_lib::set_int_range(0, bound)));
    vstd::set_lib::lemma_len_subset(
        numbers.to_set(),
        vstd::set_lib::set_int_range(0, bound),
    );
}

/// Nodes.
impl<T, SP: SyncPrimitives> Queue<T, SP> {
    /// Makes a node that carries `data`, and returns its address.
    pub fn create_node(&mut self, data: T) -> (a: usize)
        requires
            old(self).wf(),
            old(self)@.room > 0,
        ensures
            final(self).wf(),
            is_addr(a),
            !old(self)@.model.nodes.contains(a),
            !old(self)@.model.chains.contains_key(a),
            final(self)@ == (QueueView {
                model: old(self)@.model.created(a),
                data: old(self)@.data.insert(a, data),
                room: (old(self)@.room - 1) as nat,
                ..old(self)@
            }),
    {
        let ghost m = self.model@;
        let ghost p = self.words();
        let a = self.pin(NodeInner { link: NodeLink::new(), data: Some(data), sentinel: false });
        self.model = Ghost(m.created(a));
        proof {
            lemma_created(m, p, a);
            if let Some(w) = m.waiting {
                lemma_followed(m, p, w);
            }
            assert(data_of(self.slots@).dom() =~= self.model@.nodes);
            assert(self.words() =~= Words {
                links: p.links.insert(a, Link { prev: 0, next: 0 }),
                ..p
            });
        }
        a
    }

    /// Does away with a node that is not queued, and returns what it carried.
    pub fn destroy_node(&mut self, a: usize) -> (data: T)
        requires
            old(self).wf(),
            old(self)@.model.nodes.contains(a),
            !old(self)@.model.queued.contains(a),
        ensures
            final(self).wf(),
            data == old(self)@.data[a],
            final(self)@ == (QueueView {
                model: old(self)@.model.destroyed(a),
                data: old(self)@.data.remove(a),
                room: old(self)@.room + 1,
                ..old(self)@
            }),
    {
        let ghost m = self.model@;
        let ghost p = self.words();
        assert(data_of(self.slots@).contains_key(a));
        let data = self.unpin(a);
        self.model = Ghost(m.destroyed(a));
        proof {
            lemma_destroyed(m, p, a);
            if let Some(w) = m.waiting {
                lemma_followed(m, p, w);
                let (k, i) = choose|k: usize, i: int| #[trigger] m.has(k, i) && m.pred(k, i) == w;
                if i > 0 {
                    assert(m.has(k, i - 1));
                }
            }
            assert(data_of(self.slots@).dom() =~= self.model@.nodes);
            assert(self.words() =~= Words { links: p.links.remove(a), ..p });
        }
        data.unwrap()
    }

    /// Makes a dequeued node ready to be inserted again.
    pub fn reset_node(&mut self, a: usize)
        requires
            old(self).wf(),
            old(self)@.model.dequeued.contains(a),
        ensures
            final(self).wf(),
            final(self)@ == (QueueView { model: old(self)@.model.reset(a), ..old(self)@ }),
    {
        let ghost m = self.model@;
        let ghost p = self.words();
        proof {
            assert(m.nodes.contains(a));
        }
        self.set_prev(a, UNQUEUED);
        self.set_next(a, 0);
        self.model = Ghost(m.reset(a));
        proof {
            lemma_reset(m, p, a);
            if let Some(w) = m.waiting {
                let (k, i) = choose|k: usize, i: int| #[trigger] m.has(k, i) && m.pred(k, i) == w;
                if i > 0 {
                    assert(m.has(k, i - 1));
                }
            }
            assert(self.words() =~= p.set_prev(a, UNQUEUED).set_next(a, 0));
        }
    }

    /// The state of node `a`.
    pub fn raw_state(&self, a: usize) -> (state: RawNodeState)
        requires
            self.wf(),
            self@.model.nodes.contains(a),
        ensures
            state is Unqueued <==> self@.model.unqueued(a),
            state is Queued <==> self@.model.queued.contains(a),
            state is Dequeued <==> self@.model.dequeued.contains(a),
    {
        proof {
            let m = self.model@;
            let p = self.words();
            assert(p.links.contains_key(a));
            if m.queued.contains(a) {
                let (k, i) = choose|k: usize, i: int| #[trigger] m.has(k, i) && m.chains[k][i] == a;
                assert(m.has(k, i));
            }
        }
        self.slots[a / 4 - 1].get().link.state()
    }

    /// What node `a` carries, for its owner.
    pub fn data(&self, a: usize) -> (data: &T)
        requires
            self.wf(),
            self@.owned(a),
        ensures
            *data == self@.data[a],
    {
        self.node_data(a)
    }

    /// What node `a` carries, for its owner, to be changed.
    pub fn data_mut(&mut self, a: usize) -> (data: &mut T)
        requires
            old(self).wf(),
            old(self)@.owned(a),
        ensures
            *data == old(self)@.data[a],
            final(self).wf(),
            final(self)@ == (QueueView {
                data: old(self)@.data.insert(a, *final(data)),
                ..old(self)@
            }),
    {
        self.node_data_mut(a)
    }

    /// What node `a` carries.
    pub(super) fn node_data(&self, a: usize) -> (data: &T)
        requires
            self.wf(),
            self@.model.nodes.contains(a),
        ensures
            *data == self@.data[a],
    {
        proof {
            assert(data_of(self.slots@).contains_key(a));
        }
        match &self.slots[a / 4 - 1].get().data {
            Some(data) => data,
            None => vstd::pervasive::unreached(),
        }
    }

    /// What node `a` carries, to be changed.
    pub(super) fn node_data_mut(&mut self, a: usize) -> (data: &mut T)
        requires
            old(self).wf(),
            old(self)@.model.nodes.contains(a),
        ensures
            *data == old(self)@.data[a],
            final(self).wf(),
            final(self)@ == (QueueView {
                data: old(self)@.data.insert(a, *final(data)),
                ..old(self)@
            }),
    {
        proof {
            assert(data_of(self.slots@).contains_key(a));
            lemma_data_changed(self.slots@, a);
        }
        match &mut UnsafePinned::raw_get(&mut self.slots[a / 4 - 1]).data {
            Some(data) => data,
            None => vstd::pervasive::unreached(),
        }
    }
}

/// Visiting nodes.
impl<T, SP: SyncPrimitives> Queue<T, SP> {
    /// Shows `on_next` what node `a` carries, under the lock, and lets the node carry what it hands
    /// back.
    pub(super) fn visit_data<H, N: FnMut(H, T, &LockedQueue<SP>) -> (H, T, bool)>(
        &mut self,
        a: usize,
        helper: H,
        locked: &LockedQueue<SP>,
        on_next: &mut N,
    ) -> (seen: (H, bool))
        requires
            old(self).wf(),
            old(self)@.model.nodes.contains(a),
            call_requires(*old(on_next), (helper, old(self)@.data[a], locked)),
        ensures
            *final(on_next) == *old(on_next),
            final(self).wf(),
            exists|left: T| #[trigger]
                call_ensures(
                    *old(on_next),
                    (helper, old(self)@.data[a], locked),
                    (seen.0, left, seen.1),
                ) && final(self)@ == (QueueView {
                    data: old(self)@.data.insert(a, left),
                    ..old(self)@
                }),
    {
        proof {
            assert(data_of(self.slots@).contains_key(a));
            lemma_data_changed(self.slots@, a);
        }
        let inner: &mut NodeInner<T> = UnsafePinned::raw_get(&mut self.slots[a / 4 - 1]);
        let data = inner.data.take().unwrap();
        let (after, left, unlock) = on_next(helper, data, locked);
        let ghost kept = left;
        inner.data = Some(left);
        let seen = (after, unlock);
        assert(call_ensures(
            *old(on_next),
            (helper, old(self)@.data[a], locked),
            (seen.0, kept, seen.1),
        ));
        seen
    }
}

/// Changing what a node carries changes nothing else.
proof fn lemma_data_changed<T>(slots: Seq<UnsafePinned<NodeInner<T>>>, a: usize)
    requires
        data_of(slots).contains_key(a),
    ensures
        forall|changed: UnsafePinned<NodeInner<T>>|
            changed@.data is Some && changed@.link == slot_at(slots, a).link && changed@.sentinel
                == slot_at(slots, a).sentinel ==> {
                &&& links_of(#[trigger] slots.update(index_of(a), changed)) == links_of(slots)
                &&& data_of(slots.update(index_of(a), changed)) == data_of(slots).insert(
                    a,
                    changed@.data->0,
                )
                &&& data_of(slots.update(index_of(a), changed)).dom() == data_of(slots).dom()
            },
{
    lemma_other_addresses(a);
    assert forall|changed: UnsafePinned<NodeInner<T>>|
        changed@.data is Some && changed@.link == slot_at(slots, a).link && changed@.sentinel
            == slot_at(slots, a).sentinel implies {
        &&& links_of(#[trigger] slots.update(index_of(a), changed)) == links_of(slots)
        &&& data_of(slots.update(index_of(a), changed)) == data_of(slots).insert(
            a,
            changed@.data->0,
        )
        &&& data_of(slots.update(index_of(a), changed)).dom() == data_of(slots).dom()
    } by {
        assert(links_of(slots.update(index_of(a), changed)) =~= links_of(slots));
        assert(data_of(slots.update(index_of(a), changed)) =~= data_of(slots).insert(
            a,
            changed@.data->0,
        ));
        assert(data_of(slots.update(index_of(a), changed)).dom() =~= data_of(slots).dom());
    }
}

} // verus!
