use portable_collections::primitives::{Clearable, Container, Pop, Push, ScopedRollback, ScopedStack, TryPush};
use portable_collections::{Checkpoint, HeaplessLog};

#[test]
fn push_pop_last_len() {
    let mut log: HeaplessLog<u32, 4> = HeaplessLog::new();
    log.push(10);
    log.push(20);
    assert_eq!(log.last(), Some(&20));
    assert_eq!(Container::len(&log), 2);
    assert_eq!(log.pop(), Some(20));
    assert_eq!(log.pop(), Some(10));
    assert_eq!(log.pop(), None);
    assert!(Container::is_empty(&log));
}

#[test]
fn try_push_fails_when_full_without_panic() {
    let mut log: HeaplessLog<u32, 2> = HeaplessLog::new();
    assert!(log.try_push(1));
    assert!(log.try_push(2));
    assert!(log.is_full());
    assert!(!log.try_push(3)); // full → false, nothing inserted
    assert_eq!(Container::len(&log), 2);
}

#[test]
fn drain_since_yields_lifo_and_truncates() {
    let mut log: HeaplessLog<u32, 8> = HeaplessLog::new();
    log.push(1);
    let mark = ScopedRollback::checkpoint(&log);
    log.push(2);
    log.push(3);
    let drained: Vec<u32> = log.drain_since(mark);
    assert_eq!(drained, [3, 2]); // LIFO
    assert_eq!(Container::len(&log), 1);
    assert_eq!(log.last(), Some(&1));
}

#[test]
fn rollback_to_is_the_silent_twin() {
    let mut log: HeaplessLog<u32, 8> = HeaplessLog::new();
    log.push(1);
    let mark = ScopedRollback::checkpoint(&log);
    log.push(2);
    log.push(3);
    ScopedRollback::rollback_to(&mut log, mark);
    assert_eq!(Container::len(&log), 1);
    assert_eq!(log.last(), Some(&1));
}

#[test]
fn drain_since_overshoot_is_empty_noop() {
    let mut log: HeaplessLog<u32, 4> = HeaplessLog::new();
    log.push(1);
    let big = Checkpoint::from_len(99);
    let drained: Vec<u32> = log.drain_since(big);
    assert!(drained.is_empty());
    assert_eq!(Container::len(&log), 1);
}

#[test]
fn heapless_capacity_clear_and_refill() {
    let mut log: HeaplessLog<u32, 3> = HeaplessLog::new();
    assert_eq!(log.capacity(), 3);
    assert!(!log.is_full());
    log.push(1);
    log.push(2);
    log.push(3);
    assert!(log.is_full());
    Clearable::clear(&mut log);
    assert!(Container::is_empty(&log));
    assert!(log.try_push(4));
    assert_eq!(log.last(), Some(&4));
}

#[test]
fn heapless_rollback_laws() {
    let mut log: HeaplessLog<u32, 8> = HeaplessLog::default();
    log.push(1);
    log.push(2);
    // Round trip: a mark taken now rolls back to the same content.
    let now = ScopedRollback::checkpoint(&log);
    ScopedRollback::rollback_to(&mut log, now);
    assert_eq!(Container::len(&log), 2);
    // Idempotent.
    let one = Checkpoint::from_len(1);
    ScopedRollback::rollback_to(&mut log, one);
    ScopedRollback::rollback_to(&mut log, one);
    assert_eq!(Container::len(&log), 1);
    assert_eq!(log.last(), Some(&1));
    // The origin empties it.
    ScopedRollback::rollback_to(&mut log, Checkpoint::origin());
    assert!(Container::is_empty(&log));
}

#[test]
fn heapless_log_clone_is_independent() {
    let mut a: HeaplessLog<u32, 4> = HeaplessLog::new();
    a.push(1);
    a.push(2);
    let mut b = a.clone();
    assert_eq!(b.pop(), Some(2));
    assert_eq!(Container::len(&a), 2);
    assert_eq!(a.pop(), Some(2));
    assert_eq!(a.pop(), Some(1));
    assert_eq!(b.pop(), Some(1));
}
