use std::sync::Arc;

use aiq::attempt::{Attempt, AttemptFrom};
use aiq::queue::{QueueHandle, QueueRef};
use aiq::wait_queue::wake::{WakerList, Wakers, WAKER_LIST_CAPACITY};
use aiq::wait_queue::{Poll, PollUntil, Wait, WaitQueue, Woken};

type Handle = QueueHandle<Option<u32>>;

fn same(a: &u32, b: &u32) -> bool {
    a == b
}

fn done<R, S>(attempt: AttemptFrom<R, S>) -> R {
    match attempt {
        AttemptFrom::Done(result) => result,
        _ => panic!("not done"),
    }
}

fn collect<W>(wakers: Wakers<W>) -> Vec<W> {
    let mut wakers = wakers;
    let mut collected = Vec::new();
    while let Some(waker) = wakers.next() {
        collected.push(waker);
    }
    assert_eq!(wakers.len(), 0);
    collected
}

/// All wakers, and how many of them came in each batch.
fn all(queue: &mut WaitQueue<u32>, woken: Woken<u32>) -> (Vec<u32>, Vec<usize>) {
    let mut woken = woken;
    let mut wakers: Vec<u32> = Vec::new();
    let mut batches: Vec<usize> = Vec::new();
    loop {
        match woken {
            Woken::Done(last) => {
                batches.push(last.len());
                wakers.extend(collect(last));
                return (wakers, batches);
            }
            Woken::Batch(batch, waking) => {
                batches.push(batch.len());
                wakers.extend(collect(batch));
                woken = waking.resume(queue);
            }
            _ => panic!("has to wait"),
        }
    }
}

fn notify_all(queue: &mut WaitQueue<u32>) -> Vec<u32> {
    let woken = queue.notify_all();
    all(queue, woken).0
}

fn close(queue: &mut WaitQueue<u32>) -> Vec<u32> {
    let woken = queue.close();
    all(queue, woken).0
}

fn is_ready<R>(polled: Attempt<Poll<R>>) -> bool {
    match polled {
        Attempt::Done(Poll::Ready(_)) => true,
        Attempt::Done(Poll::Pending) => false,
        _ => panic!("the lock is taken"),
    }
}

fn poll(wait: &mut Wait<Handle>, queue: &mut WaitQueue<u32>, waker: u32) -> bool {
    is_ready(wait.poll(queue, waker, same))
}

#[test]
fn miri_wait_queue_notify_one() {
    let mut rx: WaitQueue<u32> = WaitQueue::new(1);
    let mut wait = rx.wait();
    assert!(!poll(&mut wait, &mut rx, 1));

    // The other thread is done before the poll in the middle, or after it.
    assert_eq!(done(rx.notify_one()), Some(1));
    let _ = poll(&mut wait, &mut rx, 1);
    assert!(poll(&mut wait, &mut rx, 1));
}

#[test]
fn miri_wait_queue_notify_all() {
    let mut rx: WaitQueue<u32> = WaitQueue::new(1);
    let mut wait = rx.wait();
    assert!(!poll(&mut wait, &mut rx, 1));

    assert_eq!(notify_all(&mut rx), vec![1]);
    let _ = poll(&mut wait, &mut rx, 1);
    assert!(poll(&mut wait, &mut rx, 1));
}

#[test]
fn loom_wait_queue_notify_one() {
    for poll_first in [true, false] {
        let mut rx: WaitQueue<u32> = WaitQueue::new(1);
        let mut wait = rx.wait();
        assert!(!poll(&mut wait, &mut rx, 1));

        if poll_first {
            let _ = poll(&mut wait, &mut rx, 1);
            assert_eq!(done(rx.notify_one()), Some(1));
        } else {
            assert_eq!(done(rx.notify_one()), Some(1));
            let _ = poll(&mut wait, &mut rx, 1);
        }
        assert!(poll(&mut wait, &mut rx, 1));
    }
}

#[test]
fn loom_wait_queue_notify_all() {
    for poll_first in [true, false] {
        let mut rx: WaitQueue<u32> = WaitQueue::new(1);
        let mut wait = rx.wait();
        assert!(!poll(&mut wait, &mut rx, 1));

        if poll_first {
            let _ = poll(&mut wait, &mut rx, 1);
            assert_eq!(notify_all(&mut rx), vec![1]);
        } else {
            assert_eq!(notify_all(&mut rx), vec![1]);
            let _ = poll(&mut wait, &mut rx, 1);
        }
        assert!(poll(&mut wait, &mut rx, 1));
    }
}

#[test]
fn notify_one_takes_the_first() {
    let mut queue: WaitQueue<u32> = WaitQueue::new(1);
    let mut waits: Vec<Wait<Handle>> = Vec::new();
    for waker in 0..3 {
        let mut wait = queue.wait();
        assert!(!poll(&mut wait, &mut queue, waker));
        waits.push(wait);
    }
    assert_eq!(done(queue.notify_one()), Some(0));
    assert!(poll(&mut waits[0], &mut queue, 9));
    assert!(!poll(&mut waits[1], &mut queue, 1));
    assert_eq!(done(queue.notify_one()), Some(1));
    assert_eq!(done(queue.notify_one()), Some(2));
    assert_eq!(done(queue.notify_one()), None);
    assert!(poll(&mut waits[1], &mut queue, 1));
    assert!(poll(&mut waits[2], &mut queue, 2));
}

#[test]
fn notify_last_takes_the_last() {
    let mut queue: WaitQueue<u32> = WaitQueue::new(1);
    let mut waits: Vec<Wait<Handle>> = Vec::new();
    for waker in 0..3 {
        let mut wait = queue.wait();
        assert!(!poll(&mut wait, &mut queue, waker));
        waits.push(wait);
    }
    assert_eq!(done(queue.notify_last()), Some(2));
    assert_eq!(done(queue.notify_last()), Some(1));
    assert!(!poll(&mut waits[0], &mut queue, 0));
    assert_eq!(done(queue.notify_last()), Some(0));
    assert_eq!(done(queue.notify_last()), None);
    assert!(poll(&mut waits[0], &mut queue, 0));
}

#[test]
fn notify_all_wakes_in_line_across_batches() {
    let mut queue: WaitQueue<u32> = WaitQueue::new(1);
    let mut waits: Vec<Wait<Handle>> = Vec::new();
    let count = 2 * WAKER_LIST_CAPACITY as u32 + 3;
    for waker in 0..count {
        let mut wait = queue.wait();
        assert!(!poll(&mut wait, &mut queue, waker));
        waits.push(wait);
    }
    let woken = queue.notify_all();
    let (wakers, batches) = all(&mut queue, woken);
    assert_eq!(wakers, (0..count).collect::<Vec<u32>>());
    assert_eq!(batches, vec![32, 32, 3]);
    for wait in waits.iter_mut() {
        assert!(poll(wait, &mut queue, 0));
    }
    assert!(!queue.is_closed());
    assert!(notify_all(&mut queue).is_empty());
}

#[test]
fn the_lock_is_free_between_batches() {
    let mut queue: WaitQueue<u32> = WaitQueue::new(1);
    let mut waits: Vec<Wait<Handle>> = Vec::new();
    let count = WAKER_LIST_CAPACITY as u32 + 2;
    for waker in 0..count {
        let mut wait = queue.wait();
        assert!(!poll(&mut wait, &mut queue, waker));
        waits.push(wait);
    }
    let waking = match queue.notify_all() {
        Woken::Batch(batch, waking) => {
            assert_eq!(collect(batch), (0..32).collect::<Vec<u32>>());
            waking
        }
        _ => panic!("not a batch"),
    };
    // Those of the batch are ready, and the others can be reached.
    assert!(poll(&mut waits[0], &mut queue, 0));
    assert!(!poll(&mut waits[32], &mut queue, 99));
    // One that still waits may go, and one that comes now is not notified.
    let last = waits.pop().unwrap();
    assert!(matches!(last.release().finish(&mut queue), Attempt::Done(Some(33))));
    let mut later = queue.wait();
    assert!(!poll(&mut later, &mut queue, 50));
    match waking.resume(&mut queue) {
        Woken::Done(batch) => assert_eq!(collect(batch), vec![99]),
        _ => panic!("not done"),
    }
    assert!(poll(&mut waits[32], &mut queue, 0));
    assert!(!poll(&mut later, &mut queue, 50));
    assert_eq!(done(queue.notify_one()), Some(50));
}

#[test]
fn a_full_last_batch_is_followed_by_an_empty_one() {
    let mut queue: WaitQueue<u32> = WaitQueue::new(1);
    let mut waits: Vec<Wait<Handle>> = Vec::new();
    for waker in 0..WAKER_LIST_CAPACITY as u32 {
        let mut wait = queue.wait();
        assert!(!poll(&mut wait, &mut queue, waker));
        waits.push(wait);
    }
    let woken = queue.close();
    assert!(queue.is_closed());
    let (wakers, batches) = all(&mut queue, woken);
    assert_eq!(wakers.len(), 32);
    assert_eq!(batches, vec![32, 0]);
}

#[test]
fn notify_all_does_not_reach_later_waiters() {
    let mut queue: WaitQueue<u32> = WaitQueue::new(1);
    let mut first = queue.wait();
    assert!(!poll(&mut first, &mut queue, 1));
    assert_eq!(notify_all(&mut queue), vec![1]);
    let mut second = queue.wait();
    assert!(!poll(&mut second, &mut queue, 2));
    assert!(poll(&mut first, &mut queue, 1));
    assert!(!poll(&mut second, &mut queue, 2));
}

#[test]
fn a_waiting_task_may_change_its_waker() {
    let mut queue: WaitQueue<u32> = WaitQueue::new(1);
    let mut wait = queue.wait();
    assert!(!poll(&mut wait, &mut queue, 1));
    assert!(!poll(&mut wait, &mut queue, 2));
    assert_eq!(done(queue.notify_one()), Some(2));

    // A waker that wakes the same task stays.
    let mut wait = queue.wait();
    let always = |_: &u32, _: &u32| true;
    assert!(!is_ready(wait.poll(&mut queue, 3, always)));
    assert!(!is_ready(wait.poll(&mut queue, 4, always)));
    assert_eq!(done(queue.notify_one()), Some(3));
}

#[test]
fn close_makes_everybody_ready() {
    let mut queue: WaitQueue<u32> = WaitQueue::default();
    let mut first = queue.wait();
    let mut second = queue.wait();
    assert!(!poll(&mut first, &mut queue, 1));
    assert!(!poll(&mut second, &mut queue, 2));
    assert!(!queue.is_closed());
    assert_eq!(close(&mut queue), vec![1, 2]);
    assert!(queue.is_closed());
    assert!(poll(&mut first, &mut queue, 1));
    assert!(poll(&mut second, &mut queue, 2));
    let mut third = queue.wait();
    assert!(poll(&mut third, &mut queue, 3));
}

#[test]
fn closed_stays_closed() {
    let mut queue: WaitQueue<u32> = WaitQueue::new(1);
    assert!(close(&mut queue).is_empty());
    assert!(queue.is_closed());
    assert_eq!(done(queue.notify_one()), None);
    assert_eq!(done(queue.notify_last()), None);
    assert!(notify_all(&mut queue).is_empty());
    assert!(close(&mut queue).is_empty());
    let mut wait = queue.wait();
    assert!(poll(&mut wait, &mut queue, 1));
    let mut dropping = wait.release();
    assert!(matches!(dropping.finish(&mut queue), Attempt::Done(Some(1))));
    assert!(queue.is_closed());
}

#[test]
fn a_released_waiter_is_not_notified() {
    let mut queue: WaitQueue<u32> = WaitQueue::new(1);
    let mut first = queue.wait();
    let mut second = queue.wait();
    assert!(!poll(&mut first, &mut queue, 1));
    assert!(!poll(&mut second, &mut queue, 2));
    let mut dropping = first.release();
    assert!(matches!(dropping.finish(&mut queue), Attempt::Done(Some(1))));
    assert_eq!(done(queue.notify_one()), Some(2));
    assert!(poll(&mut second, &mut queue, 2));
}

#[test]
fn wait_owned_waits_like_the_others() {
    let mut queue: WaitQueue<u32> = WaitQueue::new(7);
    assert!(queue.has_room());
    let mut wait: Wait<Arc<Handle>> = queue.wait_owned();
    assert!(!is_ready(wait.poll(&mut queue, 1, same)));
    assert_eq!(done(queue.notify_one()), Some(1));
    assert!(is_ready(wait.poll(&mut queue, 1, same)));
}

#[test]
fn wait_if_asks_once_when_notified() {
    for holds in [true, false] {
        let mut queue: WaitQueue<u32> = WaitQueue::new(1);
        let mut wait = queue.wait_if(move |_: &WaitQueue<u32>| holds);
        assert!(!is_ready(wait.poll(&mut queue, 1, same)));
        assert_eq!(done(queue.notify_one()), Some(1));
        assert_eq!(is_ready(wait.poll(&mut queue, 1, same)), holds);
        // The predicate is gone.
        assert!(!is_ready(wait.poll(&mut queue, 1, same)));

        let mut owned = queue.wait_if_owned(move |_: &WaitQueue<u32>| holds);
        assert!(!is_ready(owned.poll(&mut queue, 2, same)));
        let mut dropping = owned.release();
        assert!(matches!(dropping.finish(&mut queue), Attempt::Done(Some(2))));
    }
}

#[test]
fn wait_until_waits_again_and_again() {
    let mut queue: WaitQueue<u32> = WaitQueue::new(1);
    let mut calls = 0;
    let predicate = move |_: &WaitQueue<u32>| {
        calls += 1;
        if calls > 4 {
            Some(calls)
        } else {
            None
        }
    };
    let mut wait = queue.wait_until(predicate);
    assert!(matches!(
        wait.try_poll(&mut queue, 1, same),
        Attempt::Done(PollUntil::Pending)
    ));
    assert_eq!(done(queue.notify_one()), Some(1));
    assert!(matches!(
        wait.poll(&mut queue, 2, same),
        Attempt::Done(Poll::Pending)
    ));
    assert_eq!(done(queue.notify_one()), Some(2));
    assert!(matches!(
        wait.poll(&mut queue, 3, same),
        Attempt::Done(Poll::Ready(5))
    ));
    assert_eq!(done(queue.notify_one()), None);
}

#[test]
fn wait_until_tells_that_nobody_will_notify() {
    let mut queue: WaitQueue<u32> = WaitQueue::new(1);
    let mut wait = queue.wait_until_owned(|_: &WaitQueue<u32>| None::<u8>);
    assert!(matches!(
        wait.poll_cold(&mut queue, 1, same),
        Attempt::Done(PollUntil::Pending)
    ));
    assert_eq!(close(&mut queue), vec![1]);
    assert!(matches!(
        wait.try_poll(&mut queue, 1, same),
        Attempt::Done(PollUntil::Closed)
    ));
    let mut dropping = wait.release();
    assert!(matches!(dropping.finish(&mut queue), Attempt::Done(Some(1))));
}

#[test]
fn waker_list_is_full_at_its_capacity() {
    let mut list: WakerList<usize> = WakerList::new();
    for waker in 0..WAKER_LIST_CAPACITY {
        assert!(!list.is_full());
        list.push(waker);
    }
    assert!(list.is_full());
    let wakers = list.drain();
    assert!(!list.is_full());
    assert_eq!(wakers.len(), WAKER_LIST_CAPACITY);
    assert_eq!(collect(wakers), (0..WAKER_LIST_CAPACITY).collect::<Vec<usize>>());
    assert_eq!(list.drain().len(), 0);
    // The list can be filled again.
    list.push(7);
    assert_eq!(collect(list.drain()), vec![7]);
}

#[test]
fn handles_name_their_queue() {
    let queue: aiq::Queue<u8> = aiq::Queue::new(3);
    let handle = queue.handle();
    assert_eq!(handle.queue(), 3);
    assert_eq!(Arc::new(handle.clone()).queue(), 3);
}

#[test]
fn a_predicate_is_asked_of_the_queue_as_it_is_then() {
    let mut queue: WaitQueue<u32> = WaitQueue::new(1);
    let mut wait = queue.wait_if(|queue: &WaitQueue<u32>| queue.is_closed());
    assert!(!is_ready(wait.poll(&mut queue, 1, same)));
    assert_eq!(close(&mut queue), vec![1]);
    assert!(is_ready(wait.poll(&mut queue, 1, same)));

    let mut queue: WaitQueue<u32> = WaitQueue::new(2);
    let mut wait = queue.wait_until(|queue: &WaitQueue<u32>| {
        if queue.is_closed() {
            Some(7)
        } else {
            None
        }
    });
    assert!(!is_ready(wait.poll(&mut queue, 1, same)));
    assert_eq!(close(&mut queue), vec![1]);
    assert!(matches!(
        wait.poll(&mut queue, 1, same),
        Attempt::Done(Poll::Ready(7))
    ));
}

#[test]
fn a_predicate_can_be_asked_by_the_caller() {
    let mut queue: WaitQueue<u32> = WaitQueue::new(1);
    let mut wait = queue.wait_if(|_: &WaitQueue<u32>| true);
    assert!(!is_ready(wait.poll_wait(&mut queue, 1, same)));
    assert_eq!(done(queue.notify_one()), Some(1));
    match wait.poll_wait(&mut queue, 1, same) {
        Attempt::Done(Poll::Ready(Some(predicate))) => assert!(predicate(&queue)),
        _ => panic!("not notified"),
    }
    // It is handed out but once.
    assert!(matches!(
        wait.poll_wait(&mut queue, 1, same),
        Attempt::Done(Poll::Ready(None))
    ));
}

#[test]
fn what_a_question_after_waiting_tells() {
    assert!(matches!(
        PollUntil::new(Poll::Pending, Some(3)),
        PollUntil::Ready(3)
    ));
    assert!(matches!(
        PollUntil::new(Poll::Ready(()), Some(3)),
        PollUntil::Ready(3)
    ));
    assert!(matches!(
        PollUntil::<u8>::new(Poll::Pending, None),
        PollUntil::Pending
    ));
    assert!(matches!(
        PollUntil::<u8>::new(Poll::Ready(()), None),
        PollUntil::Closed
    ));
}

#[test]
fn close_wakes_any_number_of_waiters() {
    for count in [1, 31, 32, 33, 64, 65, 100] {
        let mut queue: WaitQueue<u32> = WaitQueue::new(1);
        let mut waits: Vec<Wait<Handle>> = Vec::new();
        for waker in 0..count {
            let mut wait = queue.wait();
            assert!(!poll(&mut wait, &mut queue, waker));
            waits.push(wait);
        }
        assert_eq!(close(&mut queue), (0..count).collect::<Vec<u32>>());
        assert!(queue.is_closed());
        for wait in waits.iter_mut() {
            assert!(poll(wait, &mut queue, 0));
        }
        // Once more, and nobody is woken.
        assert!(close(&mut queue).is_empty());
        assert!(queue.is_closed());
    }
}

#[test]
fn an_open_queue_stays_open() {
    let mut queue: WaitQueue<u32> = WaitQueue::new(1);
    let mut wait = queue.wait();
    assert!(!poll(&mut wait, &mut queue, 1));
    assert!(!queue.is_closed());
    assert_eq!(done(queue.notify_one()), Some(1));
    assert!(!queue.is_closed());
    assert!(poll(&mut wait, &mut queue, 1));
    let mut other = queue.wait();
    assert!(!poll(&mut other, &mut queue, 2));
    assert_eq!(notify_all(&mut queue), vec![2]);
    assert!(!queue.is_closed());
    assert!(matches!(other.release().finish(&mut queue), Attempt::Done(None)));
    assert!(!queue.is_closed());
}

#[test]
fn waiters_may_leave_and_change_between_rounds() {
    let mut queue: WaitQueue<u32> = WaitQueue::new(1);
    let mut waits: Vec<Option<Wait<Handle>>> = Vec::new();
    for waker in 0..70 {
        let mut wait = queue.wait();
        assert!(!poll(&mut wait, &mut queue, waker));
        waits.push(Some(wait));
    }
    let mut wakers: Vec<u32> = Vec::new();
    let mut woken = queue.close();
    let mut rounds = 0;
    loop {
        let waking = match woken {
            Woken::Done(last) => {
                wakers.extend(collect(last));
                break;
            }
            Woken::Batch(batch, waking) => {
                wakers.extend(collect(batch));
                waking
            }
            _ => panic!("has to wait"),
        };
        rounds += 1;
        if rounds == 1 {
            // One that still waits leaves, one changes its waker, and one that was notified goes.
            assert!(matches!(
                waits[40].take().unwrap().release().finish(&mut queue),
                Attempt::Done(Some(40))
            ));
            assert!(!poll(waits[50].as_mut().unwrap(), &mut queue, 500));
            assert!(matches!(
                waits[3].take().unwrap().release().finish(&mut queue),
                Attempt::Done(None)
            ));
        }
        woken = waking.resume(&mut queue);
    }
    let expected: Vec<u32> = (0..70)
        .filter(|waker| *waker != 40)
        .map(|waker| if waker == 50 { 500 } else { waker })
        .collect();
    assert_eq!(wakers, expected);
    assert!(queue.is_closed());
}

#[test]
fn an_open_queue_takes_any_predicate() {
    let mut queue: WaitQueue<u32> = WaitQueue::new(1);
    let mut wait = queue.wait_until(|_: &WaitQueue<u32>| None::<u8>);
    for _ in 0..2 {
        assert!(matches!(
            wait.poll(&mut queue, 1, same),
            Attempt::Done(Poll::Pending)
        ));
    }
    assert_eq!(done(queue.notify_one()), Some(1));
    assert!(matches!(
        wait.poll(&mut queue, 2, same),
        Attempt::Done(Poll::Pending)
    ));
    assert_eq!(done(queue.notify_one()), Some(2));
}
