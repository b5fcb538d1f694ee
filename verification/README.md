# aiq

An atomic intrusive queue: a doubly linked list of pinned nodes with lockless insertion and
serialized removal, for building async primitives, and a wait queue built with it. The library is
written in Verus: what each operation does is stated in its contract and proved.

## How it is built

A `Queue` owns the memory that its nodes are pinned in, so the words that threads share are fields of
one value, and each operation names that value. Some operations are steps: they take effect at one
access to those words. Threads may take steps in any order; the contract of a step holds from whatever
state the others have left behind, and every step keeps the queue well formed. The other operations
(`enqueue`, `remove`, `Node::state`, `Drain::for_each`, and nearly all of a wait queue) are made of
several steps, and their contracts say what comes of these when no other thread takes one in between.
The head of `src/queue/mod.rs` lists which are which.

A lock knows what the queue is called that it belongs to, and what a queued node carries is reached
through it. Queues are called by whoever makes them; that a lock keeps others out rests on no two queues
of a program being called by the same name.

An operation that has to wait for another thread does not block. It returns `Attempt::Spin` or
`Attempt::Wait`, and its contract says what it has left behind and how it is called again. Blocking
is up to the caller; `app/` shows how, with the mutexes, parkers and wakers of the platform.

## Layout

- `src/queue/`: the queue. `model.rs` holds the mathematical model of a queue, the content of its
  words, and the relation between the two; `insert.rs`, `lock.rs`, `remove.rs`, `ring.rs` and
  `drain.rs` hold the operations.
- `src/node.rs`: nodes, and what can be done with one in each of its states.
- `src/wait_queue.rs`, `src/wait_queue/`: tasks that wait, and how they are notified.
- `src/sync/`: the mutexes and parkers that a queue is built with.
- `src/runs.rs`: what holds of steps in any order, of any number of threads.
- `src/laws.rs`, `src/wait_queue/laws.rs`: what holds of queues and of wait queues as a whole.
- `app/`: queues for threads and wait queues for tasks. There the steps are made under a mutex, and
  threads block on the mutexes and parkers of the platform.
