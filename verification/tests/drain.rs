use aiq::attempt::{Attempt, AttemptFrom};
use aiq::node::{Node, NodeState, RawNodeState};
use aiq::queue::drain::Drain;
use aiq::queue::{LockedQueue, NewTail, Queue, TailUpdate};
use aiq::sync::mutex::SpinMutex;
use aiq::sync::parker::SpinParker;
use aiq::sync::SyncPrimitives;

/// Primitives with which a thread parks at once.
struct Impatient;

impl SyncPrimitives for Impatient {
    type Mutex = SpinMutex;
    type Parker = SpinParker;
    const SPIN_BEFORE_PARK: usize = 0;
}

fn done<R>(attempt: Attempt<R>) -> R {
    match attempt {
        Attempt::Done(result) => result,
        _ => panic!("not done"),
    }
}

fn found<R, S>(attempt: AttemptFrom<R, S>) -> R {
    match attempt {
        AttemptFrom::Done(result) => result,
        _ => panic!("not done"),
    }
}

fn insert<SP: SyncPrimitives>(queue: &mut Queue<u32, SP>, data: u32) -> usize {
    let node = queue.create_node(data);
    let _ = queue.enqueue(node, |_| NewTail::Node);
    node
}

fn filled(count: u32) -> Queue<u32> {
    let mut queue = Queue::new(1);
    for data in 0..count {
        insert(&mut queue, data);
    }
    queue
}

fn start<SP: SyncPrimitives>(queue: &mut Queue<u32, SP>, state: usize) -> Drain<SP> {
    let locked = done(queue.lock());
    match locked.drain_try_set_state(queue, state) {
        AttemptFrom::Done(drain) => drain,
        _ => panic!("not drained"),
    }
}

#[test]
fn a_drain_hands_nodes_out_in_order() {
    let mut queue = filled(4);
    let mut drain = start(&mut queue, 3);
    assert_eq!(queue.state(), Some(3));
    for data in 0..4 {
        let mut first = drain.next(&queue).unwrap();
        assert_eq!(*first.data(&queue), data);
        *first.data_mut(&mut queue) += 10;
        let node = first.node;
        done(first.finish(&mut queue));
        assert_eq!(queue.raw_state(node), RawNodeState::Dequeued);
        assert_eq!(*queue.data(node), data + 10);
    }
    assert!(drain.next(&queue).is_none());
    done(drain.finish(&mut queue));
    assert!(matches!(queue.lock(), Attempt::Done(_)));
}

#[test]
fn a_drain_of_an_empty_queue_keeps_the_state() {
    let mut queue: Queue<u32> = Queue::with_state(1, 5);
    let locked = done(queue.lock());
    let mut drain = match locked.drain(&mut queue) {
        AttemptFrom::Done(drain) => drain,
        _ => panic!("not drained"),
    };
    assert!(drain.next(&queue).is_none());
    done(drain.finish(&mut queue));
    assert_eq!(queue.state(), Some(5));
}

#[test]
fn nodes_inserted_later_are_not_drained() {
    let mut queue = filled(2);
    let mut drain = start(&mut queue, 0);
    let later = insert(&mut queue, 9);
    done(drain.finish(&mut queue));
    assert_eq!(queue.raw_state(later), RawNodeState::Queued);
    let mut locked = done(queue.lock());
    assert_eq!(done(locked.dequeue(&mut queue)).unwrap().node, later);
    locked.unlock(&mut queue);
}

#[test]
fn the_lock_is_free_while_unlocked() {
    let mut queue = filled(3);
    let mut drain = start(&mut queue, 0);
    assert!(matches!(queue.lock(), Attempt::Wait));
    drain.unlock(&mut queue);
    let locked = done(queue.lock());
    assert!(matches!(drain.relock(&mut queue), Attempt::Wait));
    assert!(matches!(drain.finish(&mut queue), Attempt::Wait));
    locked.unlock(&mut queue);
    done(drain.relock(&mut queue));
    let (result, outcome) = drain.execute_unlocked(&mut queue, |queue| {
        // The lock is free.
        let locked = done(queue.lock());
        locked.unlock(queue);
        insert(queue, 9);
        42
    });
    assert_eq!(result, 42);
    done(outcome);
    // It is taken again.
    assert!(drain.is_locked());
    assert!(matches!(queue.lock(), Attempt::Wait));
    assert_eq!(*drain.next(&queue).unwrap().data(&queue), 0);
    done(drain.finish(&mut queue));
    let mut locked = done(queue.lock());
    assert_eq!(*done(locked.dequeue(&mut queue)).unwrap().data(&queue), 9);
    locked.unlock(&mut queue);
}

#[test]
fn a_lock_that_is_kept_has_to_be_waited_for() {
    let mut queue = filled(2);
    let mut drain = start(&mut queue, 0);
    let (locked, outcome) = drain.execute_unlocked(&mut queue, |queue| done(queue.lock()));
    assert!(matches!(outcome, Attempt::Wait));
    assert!(!drain.is_locked());
    locked.unlock(&mut queue);
    done(drain.relock(&mut queue));
    assert_eq!(*drain.next(&queue).unwrap().data(&queue), 0);
    done(drain.finish(&mut queue));
}

#[test]
fn a_drain_after_its_window() {
    let mut queue: Queue<u32> = Queue::new(1);
    let mut nodes = Vec::new();
    for data in 0..5 {
        let mut node = Node::with_data(queue.handle(), &mut queue, data);
        match found(node.state(&mut queue)) {
            NodeState::Unqueued(unqueued) => unqueued.enqueue(&mut queue),
            _ => panic!("not unqueued"),
        }
        nodes.push(node);
    }
    let mut drain = start(&mut queue, 7);
    let third = nodes.remove(3);
    let first = nodes.remove(1);
    let (_, outcome) = drain.execute_unlocked(&mut queue, |queue| {
        assert_eq!(done(third.release().finish(queue)), 3);
        assert_eq!(queue.state(), Some(7));
        insert(queue, 10);
        assert_eq!(done(first.release().finish(queue)), 1);
        insert(queue, 11);
    });
    done(outcome);
    for data in [0, 2, 4] {
        let mut next = drain.next(&queue).unwrap();
        assert_eq!(*next.data(&queue), data);
        done(next.finish(&mut queue));
    }
    assert!(drain.next(&queue).is_none());
    done(drain.finish(&mut queue));
    let mut locked = done(queue.lock());
    for data in [10, 11] {
        let mut head = done(locked.dequeue(&mut queue)).unwrap();
        assert_eq!(*head.data(&queue), data);
        done(head.finish(&mut queue));
    }
    locked.unlock(&mut queue);
}

#[test]
fn nodes_leave_an_unlocked_drain() {
    let mut queue: Queue<u32> = Queue::new(1);
    let mut nodes = Vec::new();
    for data in 0..3 {
        let mut node = Node::with_data(queue.handle(), &mut queue, data);
        match found(node.state(&mut queue)) {
            NodeState::Unqueued(unqueued) => unqueued.enqueue(&mut queue),
            _ => panic!("not unqueued"),
        }
        nodes.push(node);
    }
    let mut drain = start(&mut queue, 0);
    drain.unlock(&mut queue);
    let later = insert(&mut queue, 9);
    // The last one and then the first one leave.
    let first = nodes.remove(0);
    let last = nodes.remove(1);
    assert_eq!(done(last.release().finish(&mut queue)), 2);
    assert_eq!(done(first.release().finish(&mut queue)), 0);
    done(drain.relock(&mut queue));
    let mut only = drain.next(&queue).unwrap();
    assert_eq!(*only.data(&queue), 1);
    done(only.finish(&mut queue));
    assert!(drain.next(&queue).is_none());
    done(drain.finish(&mut queue));
    assert_eq!(queue.raw_state(later), RawNodeState::Queued);
}

#[test]
fn all_nodes_may_leave_an_unlocked_drain() {
    let mut queue: Queue<u32> = Queue::new(1);
    let mut node = Node::with_data(queue.handle(), &mut queue, 1);
    match found(node.state(&mut queue)) {
        NodeState::Unqueued(unqueued) => unqueued.enqueue(&mut queue),
        _ => panic!("not unqueued"),
    }
    let mut drain = start(&mut queue, 0);
    drain.unlock(&mut queue);
    assert_eq!(done(node.release().finish(&mut queue)), 1);
    done(drain.relock(&mut queue));
    assert!(drain.next(&queue).is_none());
    done(drain.finish(&mut queue));
}

#[test]
fn for_each_visits_all_nodes() {
    let mut queue = filled(5);
    let mut drain = start(&mut queue, 0);
    // Two at a time.
    let on_next = |helper: (Vec<u32>, Vec<usize>), data: u32, lock: &LockedQueue| {
        let mut helper = helper;
        assert_eq!(lock.queue(), 1);
        helper.0.push(data);
        let unlock = helper.0.len() % 2 == 0;
        (helper, data + 100, unlock)
    };
    let on_unlock = |helper: (Vec<u32>, Vec<usize>), queue: Queue<u32>| {
        let mut helper = helper;
        let mut queue = queue;
        // The lock is free.
        let locked = done(queue.lock());
        locked.unlock(&mut queue);
        helper.1.push(helper.0.len());
        (helper, queue)
    };
    let (helper, outcome) =
        drain.for_each(&mut queue, (Vec::new(), Vec::new()), on_next, on_unlock);
    done(outcome);
    assert_eq!(helper.0, vec![0, 1, 2, 3, 4]);
    assert_eq!(helper.1, vec![2, 4]);
    done(drain.finish(&mut queue));
}

#[test]
fn for_each_stops_at_an_insertion_under_way() {
    let mut queue: Queue<u32, Impatient> = Queue::new(1);
    insert(&mut queue, 1);
    let b = queue.create_node(2);
    let tail = queue.load_tail();
    let before = match queue.update_tail(b, tail, NewTail::Node) {
        TailUpdate::Published(before) => before,
        _ => panic!("not published"),
    };
    let mut drain = start(&mut queue, 0);
    let collect = |seen: Vec<u32>, data: u32, _: &LockedQueue<Impatient>| {
        let mut seen = seen;
        seen.push(data);
        (seen, data, true)
    };
    let mut keep = |seen: Vec<u32>, queue: Queue<u32, Impatient>| (seen, queue);
    let (seen, outcome) = drain.for_each(&mut queue, Vec::new(), collect, keep);
    assert!(matches!(outcome, Attempt::Wait));
    assert_eq!(seen, vec![1]);
    let _ = queue.link_node(b, before);
    let (seen, outcome) = drain.finish_visit(&mut queue, seen, &mut keep);
    done(outcome);
    let (seen, outcome) = drain.for_each(&mut queue, seen, collect, keep);
    done(outcome);
    assert_eq!(seen, vec![1, 2]);
    done(drain.finish(&mut queue));
}

#[test]
fn a_drain_waits_for_the_head() {
    let mut queue: Queue<u32, Impatient> = Queue::with_parked_node(1, 0);
    let a = queue.create_node(1);
    let tail = queue.load_tail();
    let before = match queue.update_tail(a, tail, NewTail::Node) {
        TailUpdate::Published(before) => before,
        _ => panic!("not published"),
    };
    let locked = done(queue.lock());
    let locked = match locked.drain(&mut queue) {
        AttemptFrom::Wait(locked) => locked,
        _ => panic!("the head is not linked"),
    };
    let _ = queue.link_node(a, before);
    let mut drain = match locked.drain(&mut queue) {
        AttemptFrom::Done(drain) => drain,
        _ => panic!("not drained"),
    };
    assert_eq!(*drain.next(&queue).unwrap().data(&queue), 1);
    done(drain.finish(&mut queue));
}

#[test]
fn a_visited_node_is_out_when_the_lock_is_given_back() {
    let mut queue = filled(3);
    let mut drain = start(&mut queue, 0);
    let first = drain.next(&queue).unwrap().node;
    let on_next = |seen: usize, data: u32, _: &LockedQueue| (seen + 1, data, true);
    let on_unlock = |seen: usize, queue: Queue<u32>| {
        let mut queue = queue;
        if seen == 1 {
            assert_eq!(queue.raw_state(first), RawNodeState::Dequeued);
            // It can be used again at once, and is not shown a second time.
            queue.reset_node(first);
            let _ = queue.enqueue(first, |_| NewTail::Node);
        }
        (seen, queue)
    };
    let (seen, outcome) = drain.for_each(&mut queue, 0, on_next, on_unlock);
    done(outcome);
    assert_eq!(seen, 3);
    done(drain.finish(&mut queue));
    assert_eq!(queue.raw_state(first), RawNodeState::Queued);
}

#[test]
fn for_each_stops_when_the_lock_is_kept() {
    let mut queue = filled(2);
    let mut drain = start(&mut queue, 0);
    let on_next = |seen: (u32, Option<LockedQueue>), data: u32, _: &LockedQueue| {
        ((seen.0 + 1, seen.1), data, seen.0 == 0)
    };
    let on_unlock = |seen: (u32, Option<LockedQueue>), queue: Queue<u32>| {
        let mut queue = queue;
        let locked = done(queue.lock());
        ((seen.0, Some(locked)), queue)
    };
    let (seen, outcome) = drain.for_each(&mut queue, (0, None), on_next, on_unlock);
    assert!(matches!(outcome, Attempt::Wait));
    assert_eq!(seen.0, 1);
    seen.1.unwrap().unlock(&mut queue);
    done(drain.relock(&mut queue));
    assert_eq!(*drain.next(&queue).unwrap().data(&queue), 1);
    done(drain.finish(&mut queue));
}

#[test]
fn for_each_shows_every_node_whatever_is_inserted() {
    let mut queue = filled(4);
    let mut drain = start(&mut queue, 0);
    let on_next = |seen: Vec<u32>, data: u32, _: &LockedQueue| {
        let mut seen = seen;
        seen.push(data);
        (seen, data, true)
    };
    let on_unlock = |seen: Vec<u32>, queue: Queue<u32>| {
        let mut queue = queue;
        insert(&mut queue, 10 + seen.len() as u32);
        (seen, queue)
    };
    let (seen, outcome) = drain.for_each(&mut queue, Vec::new(), on_next, on_unlock);
    done(outcome);
    assert_eq!(seen, vec![0, 1, 2, 3]);
    done(drain.finish(&mut queue));
    let mut locked = done(queue.lock());
    for data in 11..15 {
        let mut head = done(locked.dequeue(&mut queue)).unwrap();
        assert_eq!(*head.data(&queue), data);
        done(head.finish(&mut queue));
    }
    locked.unlock(&mut queue);
}
