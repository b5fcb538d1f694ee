//! An intrusive queue of pinned nodes with lockless insertion and serialized removal.
//!
//! The words that threads share are fields of the queue, and each operation names the queue that it
//! works on.
//!
//! Some operations are steps: they take effect at one access to the shared words, and what they do
//! besides concerns words that no other thread uses at that time. Threads may take steps in any order;
//! the contract of a step holds from whatever state the others have left behind. [`queue`] lists them.
//! The other operations are made of several steps. They have the queue to themselves while they run,
//! so their contracts say what comes of the steps when no other thread takes one in between. Threads
//! that share a queue take the steps one by one, or make such a call under a mutex. [`runs`] says what
//! holds of steps in any order.
//!
//! Operations do not block: where one has to wait, it says so, and is called again.

pub mod atomic;
pub mod attempt;
pub mod effects;
pub mod laws;
pub mod node;
pub mod queue;
pub mod runs;
pub mod sync;
pub mod unsafe_pinned;
pub mod wait_queue;

pub use crate::node::{Node, NodeState};
pub use crate::queue::Queue;
pub use crate::wait_queue::WaitQueue;
