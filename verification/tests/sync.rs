use aiq::atomic::AtomicPtr;
use aiq::attempt::Attempt;
use aiq::node::{NodeLink, RawNodeState};
use aiq::queue::backoff::Backoff;
use aiq::sync::mutex::{Mutex, SpinMutex, StdMutex};
use aiq::sync::parker::{AtomicParker, Parker, ParkerState, SpinParker, StdParker};
use aiq::sync::pthread::{LazyBox, PthreadParker};
use aiq::sync::{DefaultSyncPrimitives, SyncPrimitives};
use aiq::unsafe_pinned::UnsafePinned;

fn excludes<M: Mutex>() {
    let mut mutex = M::new();
    let guard = match mutex.lock() {
        Attempt::Done(guard) => guard,
        _ => panic!("not locked"),
    };
    assert!(matches!(mutex.lock(), Attempt::Wait));
    mutex.unlock(guard);
    assert!(matches!(mutex.lock(), Attempt::Done(_)));
}

#[test]
fn mutexes_exclude() {
    excludes::<SpinMutex>();
    excludes::<StdMutex>();
}

fn keeps_one_token<P: Parker>(sleeps: bool) {
    let mut parker = P::new();
    // The token is there before anybody asks for it.
    assert!(!parker.unpark());
    assert!(!parker.unpark());
    assert!(matches!(parker.park(), Attempt::Done(())));
    // There was but one.
    assert!(matches!(parker.park(), Attempt::Wait));
    // Nobody put one there.
    assert!(matches!(parker.park(), Attempt::Wait));
    assert_eq!(parker.unpark(), sleeps);
    assert!(matches!(parker.park(), Attempt::Done(())));
}

#[test]
fn parkers_keep_one_token() {
    keeps_one_token::<SpinParker>(false);
    keeps_one_token::<AtomicParker>(true);
    keeps_one_token::<StdParker>(true);
    keeps_one_token::<PthreadParker>(true);
}

#[test]
fn parker_states_tell_what_to_do() {
    assert_eq!(ParkerState::PARKED, u32::MAX);
    assert!(ParkerState::had_token(ParkerState::NOTIFIED));
    assert!(!ParkerState::had_token(ParkerState::EMPTY));
    assert!(!ParkerState::had_token(ParkerState::PARKED));
    assert!(ParkerState::had_sleeper(ParkerState::PARKED));
    assert!(!ParkerState::had_sleeper(ParkerState::NOTIFIED));
    assert!(!ParkerState::had_sleeper(ParkerState::EMPTY));
    let mut parker = ParkerState::new();
    assert!(matches!(parker.begin(), Attempt::Wait));
    assert!(matches!(parker.resume(), Attempt::Wait));
    assert!(parker.unpark());
    assert!(matches!(parker.resume(), Attempt::Done(())));
    assert!(!parker.unpark());
    assert!(matches!(parker.begin(), Attempt::Done(())));
}

#[test]
fn default_primitives() {
    assert_eq!(DefaultSyncPrimitives::SPIN_BEFORE_PARK, 100);
}

#[test]
fn lazy_boxes_are_made_once() {
    let mut lazy: LazyBox<u32> = LazyBox::new();
    assert_eq!(*lazy.get_or_init(|| Box::new(1)), 1);
    assert_eq!(*lazy.get_or_init(|| Box::new(2)), 1);
    assert_eq!(lazy.init(Box::new(3)), Some(Box::new(3)));
    let mut lazy: LazyBox<u32> = LazyBox::new();
    assert!(lazy.init(Box::new(4)).is_none());
    assert_eq!(*lazy.get_or_init(|| Box::new(5)), 4);
}

#[test]
fn words_are_exchanged() {
    let mut word = AtomicPtr::new(4);
    assert_eq!(word.load(), 4);
    assert_eq!(word.swap(8), 4);
    assert_eq!(word.compare_exchange(4, 12), Err(8));
    assert_eq!(word.compare_exchange(8, 12), Ok(8));
    word.store(16);
    assert_eq!(word.load(), 16);
}

#[test]
fn backoff_doubles_up_to_a_limit() {
    let mut backoff = Backoff::new();
    for turns in [1, 2, 4, 8, 16, 32, 64, 64, 64] {
        assert_eq!(backoff.spin(), turns);
    }
}

#[test]
fn links_tell_the_state_of_a_node() {
    let mut link = NodeLink::new();
    assert_eq!(link.state(), RawNodeState::Unqueued);
    link.prev.store(RawNodeState::Queued.into_ptr());
    assert_eq!(link.state(), RawNodeState::Queued);
    assert_eq!(link.prev(), 2);
    link.dequeue();
    assert_eq!(link.state(), RawNodeState::Dequeued);
    assert_eq!(RawNodeState::Unqueued.into_ptr(), 0);
    assert_eq!(RawNodeState::Dequeued.into_ptr(), 1);
}

#[test]
fn pinned_values_are_reached() {
    let mut pinned = UnsafePinned::new(1);
    *UnsafePinned::raw_get(&mut pinned) = 2;
    assert_eq!(*pinned.get(), 2);
    assert_eq!(pinned.into_inner(), 2);
}
