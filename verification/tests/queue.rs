use aiq::attempt::{Attempt, AttemptFrom};
use aiq::node::{Node, NodeState, RawNodeState};
use aiq::queue::state::{QueueState, StateOrTail, INTRUSIVE_QUEUE_MAX_STATE};
use aiq::queue::{
    Enqueued, Linked, LockedQueue, NewTail, Queue, QueueHandle, StateUpdate, TailUpdate,
};
use aiq::sync::mutex::SpinMutex;
use aiq::sync::parker::AtomicParker;
use aiq::sync::SyncPrimitives;

/// Primitives with which a thread parks at once.
struct Impatient;

impl SyncPrimitives for Impatient {
    type Mutex = SpinMutex;
    type Parker = AtomicParker;
    const SPIN_BEFORE_PARK: usize = 0;
}

fn done<R>(attempt: Attempt<R>) -> R {
    match attempt {
        Attempt::Done(result) => result,
        Attempt::Spin => panic!("spins"),
        Attempt::Wait => panic!("waits"),
    }
}

fn found<R, S>(attempt: AttemptFrom<R, S>) -> R {
    match attempt {
        AttemptFrom::Done(result) => result,
        AttemptFrom::Spin(_) => panic!("spins"),
        AttemptFrom::Wait(_) => panic!("waits"),
    }
}

fn insert<T, SP: SyncPrimitives>(queue: &mut Queue<T, SP>, data: T) -> usize {
    let node = queue.create_node(data);
    let enqueued = queue.enqueue(node, |_| NewTail::Node);
    assert!(matches!(enqueued, Enqueued::Node(_)));
    node
}

/// Makes `node` the tail, without linking it.
fn publish<T, SP: SyncPrimitives>(queue: &mut Queue<T, SP>, node: usize) -> usize {
    let tail = queue.load_tail();
    match queue.update_tail(node, tail, NewTail::Node) {
        TailUpdate::Published(prev) => prev,
        _ => panic!("not published"),
    }
}

fn take_head<T: Copy, SP: SyncPrimitives>(
    queue: &mut Queue<T, SP>,
    locked: &mut LockedQueue<SP>,
) -> Option<T> {
    let mut head = done(locked.dequeue(queue))?;
    let data = *head.data(queue);
    let _ = done(head.finish(queue));
    Some(data)
}

#[test]
fn first_in_first_out() {
    let mut queue: Queue<u32> = Queue::new(1);
    for data in 0..5 {
        insert(&mut queue, data);
    }
    let mut locked = done(queue.lock());
    for data in 0..5 {
        assert_eq!(take_head(&mut queue, &mut locked), Some(data));
    }
    assert_eq!(take_head(&mut queue, &mut locked), None);
    locked.unlock(&mut queue);
    assert!(queue.is_empty());
}

#[test]
fn last_in_first_out() {
    let mut queue: Queue<u32> = Queue::new(1);
    for data in 0..3 {
        insert(&mut queue, data);
    }
    let mut locked = done(queue.lock());
    for data in [2, 1, 0] {
        let mut last = done(locked.pop(&mut queue)).unwrap();
        assert_eq!(*last.data(&queue), data);
        assert_eq!(done(last.try_set_queue_state(&mut queue, 9)), data == 0);
    }
    assert!(done(locked.pop(&mut queue)).is_none());
    locked.unlock(&mut queue);
    assert_eq!(queue.state(), Some(9));
}

#[test]
fn requeue_leaves_the_node_in_place() {
    let mut queue: Queue<u32> = Queue::new(1);
    let node = insert(&mut queue, 1);
    insert(&mut queue, 2);
    let mut locked = done(queue.lock());
    let mut head = done(locked.dequeue(&mut queue)).unwrap();
    *head.data_pinned(&mut queue) = 10;
    head.requeue(&mut queue);
    assert_eq!(queue.raw_state(node), RawNodeState::Queued);
    assert_eq!(take_head(&mut queue, &mut locked), Some(10));
    assert_eq!(queue.raw_state(node), RawNodeState::Dequeued);
    locked.unlock(&mut queue);
}

#[test]
fn state_is_there_while_the_queue_is_empty() {
    let mut queue: Queue<(), Impatient> = Queue::with_state(1, 5);
    assert_eq!(queue.state(), Some(5));
    assert!(queue.is_empty());
    assert_eq!(queue.fetch_update_state(|s| Some(s + 1)), Ok(5));
    assert_eq!(queue.fetch_update_state(|_| None), Err(Some(6)));
    insert(&mut queue, ());
    assert_eq!(queue.state(), None);
    assert!(!queue.is_empty());
    assert_eq!(queue.fetch_update_state(|s| Some(s + 1)), Err(None));
    let mut locked = done(queue.lock());
    let mut head = done(locked.dequeue(&mut queue)).unwrap();
    assert!(done(head.try_set_queue_state(&mut queue, 7)));
    locked.unlock(&mut queue);
    assert_eq!(queue.state(), Some(7));
    assert_eq!(
        queue.fetch_update_state(|_| Some(INTRUSIVE_QUEUE_MAX_STATE)),
        Ok(7)
    );
    assert_eq!(queue.state(), Some(INTRUSIVE_QUEUE_MAX_STATE));
    assert_eq!(INTRUSIVE_QUEUE_MAX_STATE, usize::MAX >> 1);
}

#[test]
fn tail_words_tell_states_from_nodes() {
    assert_eq!(StateOrTail::State(3).into_word(), 6);
    assert_eq!(StateOrTail::Tail(8).into_word(), 9);
    for word in [0, 1, 6, 9, usize::MAX] {
        assert_eq!(StateOrTail::from_word(word).into_word(), word);
    }
    assert_eq!(StateOrTail::from_word(9), StateOrTail::Tail(8));
    assert_eq!(StateOrTail::from_word(6), StateOrTail::State(3));
    assert_eq!(aiq::queue::state::state_to_ptr(21), 42);
}

#[test]
fn a_stale_tail_is_noticed() {
    let mut queue: Queue<u32> = Queue::with_state(1, 1);
    let seen = queue.load_tail();
    assert_eq!(seen, StateOrTail::State(1));
    assert_eq!(queue.fetch_update_state(|_| Some(2)), Ok(1));
    let node = queue.create_node(1);
    assert_eq!(
        queue.update_tail(node, seen, NewTail::Node),
        TailUpdate::Retry(StateOrTail::State(2))
    );
    assert_eq!(
        queue.fetch_update_seen(seen, |s| Some(s)),
        StateUpdate::Retry(StateOrTail::State(2))
    );
    assert_eq!(queue.fetch_update_seen(seen, |_| None), StateUpdate::Kept(1));
    assert_eq!(queue.raw_state(node), RawNodeState::Unqueued);
    assert_eq!(queue.update_tail(node, seen, NewTail::Keep), TailUpdate::Kept);
    assert_eq!(
        queue.enqueue(node, |_| NewTail::State(3)),
        Enqueued::Updated(StateOrTail::State(2))
    );
    assert_eq!(
        queue.enqueue(node, |_| NewTail::Keep),
        Enqueued::Kept(StateOrTail::State(3))
    );
    assert_eq!(
        queue.enqueue(node, |_| NewTail::Node),
        Enqueued::Node(StateOrTail::State(3))
    );
    assert_eq!(
        queue.fetch_update_seen(StateOrTail::Tail(node), |s| Some(s)),
        StateUpdate::NotEmpty
    );
}

#[test]
fn insertions_overlap() {
    for first_linked_first in [true, false] {
        let mut queue: Queue<u32> = Queue::new(1);
        let a = queue.create_node(1);
        let b = queue.create_node(2);
        let before_a = publish(&mut queue, a);
        let before_b = publish(&mut queue, b);
        assert_eq!(before_b, a);
        if first_linked_first {
            assert!(!queue.link_node(a, before_a));
            assert!(!queue.link_node(b, before_b));
        } else {
            assert!(!queue.link_node(b, before_b));
            assert!(!queue.link_node(a, before_a));
        }
        let mut locked = done(queue.lock());
        assert_eq!(take_head(&mut queue, &mut locked), Some(1));
        assert_eq!(take_head(&mut queue, &mut locked), Some(2));
        locked.unlock(&mut queue);
    }
}

#[test]
fn an_insertion_does_not_wait_for_a_removal() {
    let mut queue: Queue<u32> = Queue::new(1);
    insert(&mut queue, 1);
    insert(&mut queue, 2);
    let mut locked = done(queue.lock());
    let c = queue.create_node(3);
    let before_c = publish(&mut queue, c);
    assert_eq!(take_head(&mut queue, &mut locked), Some(1));
    assert!(!queue.link_node(c, before_c));
    assert_eq!(take_head(&mut queue, &mut locked), Some(2));
    assert_eq!(take_head(&mut queue, &mut locked), Some(3));
    locked.unlock(&mut queue);
}

fn dequeue_waits_for_the_head(mut queue: Queue<u32, Impatient>) {
    let a = queue.create_node(1);
    let before = publish(&mut queue, a);
    let mut locked = done(queue.lock());
    assert!(matches!(locked.dequeue(&mut queue), Attempt::Wait));
    // Still nothing there.
    assert!(matches!(locked.dequeue(&mut queue), Attempt::Wait));
    // The thread that sleeps has to be woken.
    assert!(queue.link_node(a, before));
    assert_eq!(take_head(&mut queue, &mut locked), Some(1));
    locked.unlock(&mut queue);
    assert_eq!(queue.state(), Some(0));
}

#[test]
fn dequeue_waits_for_the_head_in_its_cell() {
    dequeue_waits_for_the_head(Queue::new(1));
}

#[test]
fn dequeue_waits_for_the_head_in_a_word_of_its_own() {
    dequeue_waits_for_the_head(Queue::with_parked_node(1, 0));
}

fn removal_waits_for_the_node_behind(mut queue: Queue<u32, Impatient>) {
    let a = insert(&mut queue, 1);
    let b = queue.create_node(2);
    let before_b = publish(&mut queue, b);
    assert_eq!(before_b, a);
    let mut locked = done(queue.lock());
    assert!(matches!(locked.remove(&mut queue, a, 0), Attempt::Wait));
    assert_eq!(queue.raw_state(a), RawNodeState::Queued);
    assert!(queue.link_node(b, before_b));
    assert!(!done(locked.remove(&mut queue, a, 0)));
    assert_eq!(queue.raw_state(a), RawNodeState::Dequeued);
    assert_eq!(take_head(&mut queue, &mut locked), Some(2));
    locked.unlock(&mut queue);
}

#[test]
fn removal_waits_for_the_node_behind_in_its_cell() {
    removal_waits_for_the_node_behind(Queue::new(1));
}

#[test]
fn removal_waits_for_the_node_behind_in_a_word_of_its_own() {
    removal_waits_for_the_node_behind(Queue::with_parked_node(1, 0));
}

#[test]
fn a_thread_spins_before_it_parks() {
    let mut queue: Queue<u32> = Queue::default();
    let a = queue.create_node(1);
    let before = publish(&mut queue, a);
    let mut locked = done(queue.lock());
    for _ in 0..100 {
        assert!(matches!(locked.dequeue(&mut queue), Attempt::Spin));
    }
    assert!(matches!(locked.dequeue(&mut queue), Attempt::Wait));
    assert!(queue.link_node(a, before));
    assert!(matches!(locked.dequeue(&mut queue), Attempt::Done(Some(_))));
    locked.unlock(&mut queue);
}

#[test]
fn pop_waits_for_the_insertion_of_the_tail() {
    let mut queue: Queue<u32, Impatient> = Queue::new(1);
    insert(&mut queue, 1);
    let b = queue.create_node(2);
    let before = publish(&mut queue, b);
    let mut locked = done(queue.lock());
    assert!(matches!(locked.pop(&mut queue), Attempt::Wait));
    assert!(queue.link_node(b, before));
    let mut last = done(locked.pop(&mut queue)).unwrap();
    assert_eq!(last.node, b);
    assert!(!done(last.finish(&mut queue)));
    assert_eq!(take_head(&mut queue, &mut locked), Some(1));
    locked.unlock(&mut queue);
}

#[test]
fn one_thread_at_a_time_has_the_lock() {
    let mut queue: Queue<u32> = Queue::new(1);
    assert!(matches!(queue.is_empty_or_lock(), Attempt::Done(None)));
    insert(&mut queue, 1);
    let locked = done(queue.lock());
    assert!(matches!(queue.lock(), Attempt::Wait));
    assert!(matches!(queue.is_empty_or_lock(), Attempt::Wait));
    assert!(matches!(
        queue.fetch_update_state_or_lock(|s| s),
        AttemptFrom::Wait(_)
    ));
    locked.unlock(&mut queue);
    let locked = done(queue.is_empty_or_lock()).unwrap();
    locked.unlock(&mut queue);
}

#[test]
fn update_the_state_or_lock() {
    let mut queue: Queue<u32> = Queue::with_state(1, 1);
    assert!(found(queue.fetch_update_state_or_lock(|s| s + 1)).is_none());
    assert_eq!(queue.state(), Some(2));
    let fallback = |_: &mut Queue<u32>, _: LockedQueue| panic!("not empty");
    done(queue.fetch_update_state_with_lock(|s| s + 1, fallback));
    assert_eq!(queue.state(), Some(3));
    done(queue.fetch_update_state_locked(|s| s + 1, fallback));
    assert_eq!(queue.state(), Some(4));

    insert(&mut queue, 1);
    let locked = found(queue.fetch_update_state_or_lock(|s| s + 1)).unwrap();
    assert!(matches!(
        queue.fetch_update_state_with_lock(|s| s, fallback),
        Attempt::Wait
    ));
    locked.unlock(&mut queue);
    let take = |queue: &mut Queue<u32>, locked: LockedQueue| {
        let mut locked = locked;
        assert_eq!(take_head(queue, &mut locked), Some(1));
        locked.unlock(queue);
    };
    done(queue.fetch_update_state_with_lock(|s| s, take));
    assert_eq!(queue.state(), Some(0));
}

#[test]
fn a_node_goes_through_its_states() {
    let mut queue: Queue<u32> = Queue::new(1);
    let mut node: Node<QueueHandle<u32>> = Node::new(queue.handle(), &mut queue);
    assert_eq!(node.raw_state(&queue), RawNodeState::Unqueued);
    match found(node.state(&mut queue)) {
        NodeState::Unqueued(mut unqueued) => {
            assert_eq!(*unqueued.data(&queue), 0);
            *unqueued.data_mut(&mut queue) = 5;
            assert_eq!(unqueued.with_data(&queue, |data| *data + 1), 6);
            assert_eq!(
                unqueued.with_data_mut(&mut queue, |data| {
                    *data += 1;
                    *data
                }),
                6
            );
            unqueued.enqueue(&mut queue);
        }
        _ => panic!("not unqueued"),
    }
    assert_eq!(node.raw_state(&queue), RawNodeState::Queued);
    match found(node.state(&mut queue)) {
        NodeState::Queued(queued) => {
            assert_eq!(*queued.data(&queue), 6);
            match queued.dequeue(&mut queue) {
                AttemptFrom::Done((_, locked)) => locked.unlock(&mut queue),
                _ => panic!("not dequeued"),
            }
        }
        _ => panic!("not queued"),
    }
    match found(node.state_and_queue(&mut queue).0) {
        NodeState::Dequeued(dequeued) => {
            assert_eq!(*dequeued.data(&queue), 6);
            let unqueued = dequeued.reset(&mut queue);
            assert!(unqueued
                .try_enqueue_with_queue_state(&mut queue, Some(1))
                .is_err());
        }
        _ => panic!("not dequeued"),
    }
    assert_eq!(node.raw_state(&queue), RawNodeState::Unqueued);
}

#[test]
fn a_queued_node_is_reached_under_the_lock() {
    let mut queue: Queue<u32> = Queue::new(1);
    let mut node = Node::with_data(queue.handle(), &mut queue, 1);
    match found(node.state(&mut queue)) {
        NodeState::Unqueued(unqueued) => {
            assert!(unqueued.try_enqueue_if(&mut queue, |s| s == Some(0)).is_ok());
        }
        _ => panic!("not unqueued"),
    }
    let locked = done(queue.lock());
    assert!(matches!(node.state(&mut queue), AttemptFrom::Wait(_)));
    locked.unlock(&mut queue);
    match found(node.state(&mut queue)) {
        NodeState::Queued(queued) => queued.unlock(&mut queue),
        _ => panic!("not queued"),
    }
    match found(node.state(&mut queue)) {
        NodeState::Queued(queued) => match queued.dequeue_try_set_queue_state(&mut queue, 4) {
            AttemptFrom::Done(Ok((_, locked))) => locked.unlock(&mut queue),
            _ => panic!("not the last one"),
        },
        _ => panic!("not queued"),
    }
    assert_eq!(queue.state(), Some(4));
}

#[test]
fn update_the_state_or_insert() {
    let mut queue: Queue<u32> = Queue::with_state(1, 2);
    let take_one = |s: QueueState| s.checked_sub(1);
    let mut node = Node::with_data(queue.handle(), &mut queue, 0);
    for left in [1, 0] {
        match found(node.state(&mut queue)) {
            NodeState::Unqueued(unqueued) => {
                let result =
                    unqueued.fetch_update_queue_state_or_enqueue(&mut queue, take_one, |_, _| true);
                assert_eq!(result, Ok(()));
                assert_eq!(queue.state(), Some(left));
            }
            _ => panic!("not unqueued"),
        }
    }
    match found(node.state(&mut queue)) {
        NodeState::Unqueued(unqueued) => {
            let result = unqueued.fetch_update_queue_state_or_enqueue(
                &mut queue,
                take_one,
                |state, data: &mut u32| {
                    *data = 7;
                    state == Some(0)
                },
            );
            assert_eq!(result, Err(Some(0)));
        }
        _ => panic!("not unqueued"),
    }
    let mut locked = done(queue.lock());
    assert_eq!(take_head(&mut queue, &mut locked), Some(7));
    locked.unlock(&mut queue);
}

#[test]
fn a_node_leaves_the_queue_before_it_goes() {
    let mut queue: Queue<u32> = Queue::new(1);
    insert(&mut queue, 1);
    let mut node = Node::with_data(queue.handle(), &mut queue, 2);
    match found(node.state(&mut queue)) {
        NodeState::Unqueued(unqueued) => unqueued.enqueue(&mut queue),
        _ => panic!("not unqueued"),
    }
    insert(&mut queue, 3);
    let mut dropping = node.release();
    assert_eq!(done(dropping.finish(&mut queue)), 2);
    let mut locked = done(queue.lock());
    assert_eq!(take_head(&mut queue, &mut locked), Some(1));
    assert_eq!(take_head(&mut queue, &mut locked), Some(3));
    locked.unlock(&mut queue);
}

#[test]
fn a_node_on_its_way_out_waits_like_any_removal() {
    let mut queue: Queue<u32, Impatient> = Queue::new(1);
    let mut node = Node::with_data(queue.handle(), &mut queue, 1);
    match found(node.state(&mut queue)) {
        NodeState::Unqueued(unqueued) => unqueued.enqueue(&mut queue),
        _ => panic!("not unqueued"),
    }
    let b = queue.create_node(2);
    let before = publish(&mut queue, b);
    let mut dropping = node.release();
    let locked = done(queue.lock());
    assert!(matches!(dropping.finish(&mut queue), Attempt::Wait));
    locked.unlock(&mut queue);
    assert!(matches!(dropping.finish(&mut queue), Attempt::Wait));
    assert!(queue.link_node(b, before));
    assert_eq!(done(dropping.finish(&mut queue)), 1);
    assert!(queue.has_room());
}

#[test]
fn a_slot_is_used_again() {
    let mut queue: Queue<u32> = Queue::new(1);
    let a = queue.create_node(1);
    assert_eq!(queue.destroy_node(a), 1);
    let b = queue.create_node(2);
    assert_eq!(a, b);
    assert_eq!(*queue.data(b), 2);
    *queue.data_mut(b) = 3;
    assert_eq!(queue.destroy_node(b), 3);
}

#[test]
fn a_lock_belongs_to_one_queue() {
    let mut first: Queue<u32> = Queue::new(1);
    let mut second: Queue<u32> = Queue::with_state(2, 0);
    let locked = done(first.lock());
    let other = done(second.lock());
    assert_eq!(locked.queue(), 1);
    assert_eq!(other.queue(), 2);
    locked.unlock(&mut first);
    assert!(matches!(second.lock(), Attempt::Wait));
    other.unlock(&mut second);
}

#[test]
fn queued_data_is_reached_with_the_lock() {
    let mut queue: Queue<u32> = Queue::new(1);
    let node = insert(&mut queue, 1);
    let mut locked = done(queue.lock());
    assert_eq!(*locked.data(&queue, node), 1);
    *locked.data_mut(&mut queue, node) = 2;
    assert_eq!(take_head(&mut queue, &mut locked), Some(2));
    locked.unlock(&mut queue);
    assert_eq!(*queue.data(node), 2);
}

#[test]
fn the_queue_is_looked_at_again_under_the_lock() {
    for emptied in [true, false] {
        let mut queue: Queue<u32> = Queue::new(1);
        insert(&mut queue, 1);
        insert(&mut queue, 2);
        let mut locked = done(queue.lock());
        let waiting = match queue.fetch_update_state_or_lock(|s| s + 5) {
            AttemptFrom::Wait(again) => again,
            _ => panic!("the lock is taken"),
        };
        let waiting = match waiting.resume(&mut queue) {
            AttemptFrom::Wait(again) => again,
            _ => panic!("the lock is still taken"),
        };
        assert_eq!(take_head(&mut queue, &mut locked), Some(1));
        if emptied {
            let mut head = done(locked.dequeue(&mut queue)).unwrap();
            assert!(done(head.try_set_queue_state(&mut queue, 3)));
        }
        locked.unlock(&mut queue);
        let locked = found(waiting.resume(&mut queue));
        if emptied {
            assert!(locked.is_none());
            assert_eq!(queue.state(), Some(8));
            assert!(matches!(queue.lock(), Attempt::Done(_)));
        } else {
            let mut locked = locked.unwrap();
            assert_eq!(take_head(&mut queue, &mut locked), Some(2));
            locked.unlock(&mut queue);
            assert_eq!(queue.state(), Some(0));
        }
    }
}

#[test]
fn a_node_is_looked_at_again_under_the_lock() {
    for taken in [true, false] {
        let mut queue: Queue<u32> = Queue::new(1);
        let mut node = Node::with_data(queue.handle(), &mut queue, 1);
        match found(node.state(&mut queue)) {
            NodeState::Unqueued(unqueued) => unqueued.enqueue(&mut queue),
            _ => panic!("not unqueued"),
        }
        let mut locked = done(queue.lock());
        let waiting = match node.state(&mut queue) {
            AttemptFrom::Wait(again) => again,
            _ => panic!("the lock is taken"),
        };
        let waiting = match waiting.resume(&mut queue) {
            AttemptFrom::Wait(again) => again,
            _ => panic!("the lock is still taken"),
        };
        if taken {
            assert_eq!(take_head(&mut queue, &mut locked), Some(1));
        }
        locked.unlock(&mut queue);
        match found(waiting.resume(&mut queue)) {
            NodeState::Dequeued(dequeued) => {
                assert!(taken);
                assert_eq!(*dequeued.data(&queue), 1);
            }
            NodeState::Queued(queued) => {
                assert!(!taken);
                assert_eq!(*queued.data(&queue), 1);
                queued.unlock(&mut queue);
            }
            _ => panic!("unqueued"),
        }
        // The lock is free again.
        assert!(matches!(queue.lock(), Attempt::Done(_)));
    }
}

#[test]
fn others_only_append_to_a_locked_queue() {
    let mut queue: Queue<u32> = Queue::new(1);
    for data in 0..3 {
        insert(&mut queue, data);
    }
    let mut locked = done(queue.lock());
    insert(&mut queue, 3);
    let c = queue.create_node(4);
    let before = publish(&mut queue, c);
    assert_eq!(take_head(&mut queue, &mut locked), Some(0));
    assert!(!queue.link_node(c, before));
    for data in 1..5 {
        assert_eq!(take_head(&mut queue, &mut locked), Some(data));
    }
    assert_eq!(take_head(&mut queue, &mut locked), None);
    locked.unlock(&mut queue);
}

#[test]
fn the_state_is_the_one_given_last() {
    let mut queue: Queue<u32> = Queue::with_state(1, 1);
    assert_eq!(queue.fetch_update_state(|_| Some(2)), Ok(1));
    insert(&mut queue, 1);
    insert(&mut queue, 2);
    let mut locked = done(queue.lock());
    // The first one does not leave the queue empty.
    let mut head = done(locked.dequeue(&mut queue)).unwrap();
    assert!(!done(head.try_set_queue_state(&mut queue, 3)));
    assert_eq!(queue.state(), None);
    let mut head = done(locked.dequeue(&mut queue)).unwrap();
    assert!(done(head.try_set_queue_state(&mut queue, 4)));
    assert_eq!(queue.state(), Some(4));
    locked.unlock(&mut queue);
    assert_eq!(queue.state(), Some(4));
}

#[test]
fn nodes_stay_in_order_whoever_leaves() {
    let mut queue: Queue<u32> = Queue::new(1);
    let mut nodes = Vec::new();
    for data in 0..6 {
        nodes.push(insert(&mut queue, data));
    }
    let mut locked = done(queue.lock());
    // From the middle, from the front and from the back.
    assert!(!done(locked.remove(&mut queue, nodes[2], 0)));
    assert_eq!(take_head(&mut queue, &mut locked), Some(0));
    insert(&mut queue, 6);
    assert_ne!(done(locked.pop(&mut queue)).unwrap().node, nodes[5]);
    assert!(!done(locked.remove(&mut queue, nodes[5], 0)));
    insert(&mut queue, 7);
    for data in [1, 3, 4, 6, 7] {
        assert_eq!(take_head(&mut queue, &mut locked), Some(data));
    }
    assert_eq!(take_head(&mut queue, &mut locked), None);
    locked.unlock(&mut queue);
}

#[test]
fn a_node_goes_one_way() {
    let mut queue: Queue<u32> = Queue::new(1);
    let node = queue.create_node(1);
    assert_eq!(queue.raw_state(node), RawNodeState::Unqueued);
    insert(&mut queue, 0);
    let before = publish(&mut queue, node);
    assert_eq!(queue.raw_state(node), RawNodeState::Queued);
    assert!(!queue.link_node(node, before));
    insert(&mut queue, 2);
    assert_eq!(queue.raw_state(node), RawNodeState::Queued);
    let mut locked = done(queue.lock());
    assert!(!done(locked.remove(&mut queue, node, 0)));
    assert_eq!(queue.raw_state(node), RawNodeState::Dequeued);
    insert(&mut queue, 3);
    assert_eq!(take_head(&mut queue, &mut locked), Some(0));
    locked.unlock(&mut queue);
    assert_eq!(queue.raw_state(node), RawNodeState::Dequeued);
    queue.reset_node(node);
    assert_eq!(queue.raw_state(node), RawNodeState::Unqueued);
}

#[test]
fn the_lock_is_of_use_after_a_requeue() {
    let mut queue: Queue<u32> = Queue::new(1);
    for data in 0..3 {
        insert(&mut queue, data);
    }
    let mut locked = done(queue.lock());
    let mut head = done(locked.dequeue(&mut queue)).unwrap();
    let node = head.node;
    *head.data_pinned(&mut queue) = 10;
    head.requeue(&mut queue);
    let head = done(locked.dequeue(&mut queue)).unwrap();
    assert_eq!(head.node, node);
    assert_eq!(*head.data(&queue), 10);
    head.requeue(&mut queue);
    let mut last = done(locked.pop(&mut queue)).unwrap();
    let node = last.node;
    *last.data_pinned(&mut queue) = 12;
    last.requeue(&mut queue);
    let last = done(locked.pop(&mut queue)).unwrap();
    assert_eq!(last.node, node);
    assert_eq!(*last.data(&queue), 12);
    last.requeue(&mut queue);
    for data in [10, 1, 12] {
        assert_eq!(take_head(&mut queue, &mut locked), Some(data));
    }
    locked.unlock(&mut queue);
}

fn pop_goes_on_after_an_insertion(mut queue: Queue<u32, Impatient>) {
    insert(&mut queue, 1);
    let b = queue.create_node(2);
    let before_b = publish(&mut queue, b);
    let mut locked = done(queue.lock());
    assert!(matches!(locked.pop(&mut queue), Attempt::Wait));
    // Another node comes, whose insertion ends.
    insert(&mut queue, 3);
    assert!(matches!(locked.pop(&mut queue), Attempt::Wait));
    assert!(queue.link_node(b, before_b));
    // It is the node that was last then.
    let mut last = done(locked.pop(&mut queue)).unwrap();
    assert_eq!(last.node, b);
    assert!(!done(last.finish(&mut queue)));
    assert_eq!(take_head(&mut queue, &mut locked), Some(1));
    assert_eq!(take_head(&mut queue, &mut locked), Some(3));
    locked.unlock(&mut queue);
}

#[test]
fn pop_goes_on_after_an_insertion_in_its_cell() {
    pop_goes_on_after_an_insertion(Queue::new(1));
}

#[test]
fn pop_goes_on_after_an_insertion_in_a_word_of_its_own() {
    pop_goes_on_after_an_insertion(Queue::with_parked_node(1, 0));
}

/// The cell before the head.
const HEAD: usize = aiq::queue::model::HEAD_MARKER;

#[test]
fn announcing_finds_a_node_that_has_been_linked() {
    let mut queue: Queue<u32> = Queue::new(1);
    let a = queue.create_node(1);
    let before = publish(&mut queue, a);
    let mut locked = done(queue.lock());
    assert_eq!(locked.look(&queue, HEAD), None);
    // The node is linked before the thread is announced: nobody has to be woken.
    assert_eq!(queue.link_next(a, before), Linked::Quiet);
    assert_eq!(locked.announce(&mut queue, HEAD), Some(a));
    assert_eq!(take_head(&mut queue, &mut locked), Some(1));
    locked.unlock(&mut queue);
}

#[test]
fn linking_finds_an_announcement() {
    let mut queue: Queue<u32> = Queue::new(1);
    let a = queue.create_node(1);
    let before = publish(&mut queue, a);
    let mut locked = done(queue.lock());
    assert_eq!(locked.announce(&mut queue, HEAD), None);
    assert_eq!(locked.look_again(&mut queue), None);
    assert!(matches!(locked.park(&mut queue), Attempt::Wait));
    assert_eq!(queue.link_next(a, before), Linked::Wake);
    assert!(queue.unpark());
    assert!(matches!(locked.park(&mut queue), Attempt::Done(())));
    assert_eq!(locked.look_again(&mut queue), Some(a));
    locked.retract(&mut queue);
    assert_eq!(take_head(&mut queue, &mut locked), Some(1));
    locked.unlock(&mut queue);
}

#[test]
fn one_of_two_threads_sees_the_other() {
    // The node is linked before the announcement, after it, or after the second look.
    for linked_at in 0..3 {
        let mut queue: Queue<u32> = Queue::with_parked_node(1, 0);
        let a = queue.create_node(1);
        let before = publish(&mut queue, a);
        let mut locked = done(queue.lock());
        assert_eq!(locked.look(&queue, HEAD), None);
        if linked_at == 0 {
            assert_eq!(queue.link_next(a, before), Linked::Look(HEAD));
        }
        assert_eq!(locked.announce(&mut queue, HEAD), None);
        if linked_at == 1 {
            assert_eq!(queue.link_next(a, before), Linked::Look(HEAD));
        }
        let seen = locked.look_again(&mut queue);
        assert_eq!(seen.is_some(), linked_at < 2);
        if linked_at == 2 {
            assert_eq!(queue.link_next(a, before), Linked::Look(HEAD));
            assert!(queue.look_parked(HEAD));
            // The token is there before the thread parks.
            assert!(!queue.unpark());
            assert!(matches!(locked.park(&mut queue), Attempt::Done(())));
            assert_eq!(locked.look_again(&mut queue), Some(a));
            locked.retract(&mut queue);
        } else {
            locked.retract(&mut queue);
            // The announcement has been taken back.
            assert!(!queue.look_parked(HEAD));
        }
        assert_eq!(take_head(&mut queue, &mut locked), Some(1));
        locked.unlock(&mut queue);
    }
}

#[test]
fn a_token_that_comes_late_does_no_harm() {
    let mut queue: Queue<u32, Impatient> = Queue::new(1);
    let a = queue.create_node(1);
    let before_a = publish(&mut queue, a);
    let mut locked = done(queue.lock());
    assert!(matches!(locked.dequeue(&mut queue), Attempt::Wait));
    assert_eq!(queue.link_next(a, before_a), Linked::Wake);
    // The thread goes on before it is unparked, and waits for the next node.
    assert_eq!(take_head(&mut queue, &mut locked), Some(1));
    let b = queue.create_node(2);
    let before_b = publish(&mut queue, b);
    assert!(matches!(locked.dequeue(&mut queue), Attempt::Wait));
    assert!(queue.unpark());
    assert!(matches!(locked.dequeue(&mut queue), Attempt::Wait));
    assert!(queue.link_node(b, before_b));
    assert_eq!(take_head(&mut queue, &mut locked), Some(2));
    locked.unlock(&mut queue);
}
