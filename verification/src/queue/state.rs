//! The tail word: a number while the queue is empty, the tagged address of the last node otherwise.

use vstd::prelude::*;

verus! {

/// Set in the tail word when it holds the address of a node.
pub const TAIL_FLAG: usize = 1;

/// How far a state is shifted in the tail word.
pub const STATE_SHIFT: usize = 1;

/// The number that a queue carries while it is empty.
pub type QueueState = usize;

/// The largest state that fits in the tail word.
pub const INTRUSIVE_QUEUE_MAX_STATE: usize = usize::MAX / 2;

/// What a tail word says.
#[derive(Clone, Copy, Debug, PartialEq, Eq, Structural)]
pub enum StateOrTail {
    /// The queue is empty and carries this state.
    State(QueueState),
    /// The queue's last node has this address.
    Tail(usize),
}

/// The word that encodes `value`.
pub open spec fn tail_word(value: StateOrTail) -> int {
    match value {
        StateOrTail::State(state) => 2 * state,
        StateOrTail::Tail(addr) => addr + 1,
    }
}

/// Whether `value` has a word of its own: a state that fits, or an even address.
pub open spec fn encodable(value: StateOrTail) -> bool {
    match value {
        StateOrTail::State(state) => state <= INTRUSIVE_QUEUE_MAX_STATE,
        StateOrTail::Tail(addr) => addr % 2 == 0,
    }
}

/// The word that carries `state` in an empty queue.
pub fn state_to_ptr(state: QueueState) -> (word: usize)
    requires
        state <= INTRUSIVE_QUEUE_MAX_STATE,
    ensures
        word == tail_word(StateOrTail::State(state)),
{
    proof {
        let max: usize = usize::MAX;
        assert(max <= !0usize) by (bit_vector);
        assert(2 * state <= !0usize ==> state << 1usize == 2 * state) by (bit_vector);
    }
    state << STATE_SHIFT
}

impl StateOrTail {
    /// Reads a tail word.
    pub fn from_word(word: usize) -> (value: StateOrTail)
        ensures
            encodable(value),
            word == tail_word(value),
    {
        assert(word & 1 == 0 ==> word % 2 == 0 && (word >> 1) * 2 == word) by (bit_vector);
        assert(word & 1 != 0 ==> word % 2 == 1 && (word & !1) + 1 == word && (word & !1) % 2 == 0)
            by (bit_vector);
        if word & TAIL_FLAG != 0 {
            StateOrTail::Tail(word & !TAIL_FLAG)
        } else {
            StateOrTail::State(word >> STATE_SHIFT)
        }
    }

    /// Writes a tail word.
    pub fn into_word(self) -> (word: usize)
        requires
            encodable(self),
        ensures
            word == tail_word(self),
    {
        match self {
            StateOrTail::State(state) => state_to_ptr(state),
            StateOrTail::Tail(tail) => {
                assert(tail % 2 == 0 ==> tail | 1 == tail + 1) by (bit_vector);
                tail | TAIL_FLAG
            },
        }
    }
}

/// Reading a tail word gives back what was written in it: no state is mistaken for a node, nor a
/// node for a state, and no two values share a word.
pub proof fn tail_word_is_injective(a: StateOrTail, b: StateOrTail)
    requires
        encodable(a),
        encodable(b),
        tail_word(a) == tail_word(b),
    ensures
        a == b,
{
}

} // verus!
