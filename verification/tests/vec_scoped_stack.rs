use portable_collections::primitives::{Clearable, Container, Pop, Push, ScopedRollback, ScopedStack};
use portable_collections::{Checkpoint, VecScopedStack};

#[test]
fn stack_push_last_len() {
    let mut log: VecScopedStack<u32> = VecScopedStack::new();
    log.push(10);
    log.push(20);
    assert_eq!(log.last(), Some(&20));
    assert_eq!(Container::len(&log), 2);
    assert!(!Container::is_empty(&log));
}

#[test]
fn stack_pop_removes_last_lifo() {
    let mut log: VecScopedStack<u32> = VecScopedStack::new();
    log.push(1);
    log.push(2);
    assert_eq!(log.pop(), Some(2));
    assert_eq!(log.last(), Some(&1));
    assert_eq!(log.pop(), Some(1));
    assert_eq!(log.pop(), None);
}

#[test]
fn stack_drain_since_yields_lifo_and_truncates() {
    let mut log: VecScopedStack<u32> = VecScopedStack::new();
    log.push(1);
    let mark = ScopedRollback::checkpoint(&log);
    log.push(2);
    log.push(3);
    let drained: Vec<u32> = log.drain_since(mark);
    assert_eq!(drained, [3, 2]); // LIFO: reverse-push
    assert_eq!(Container::len(&log), 1);
    assert_eq!(log.last(), Some(&1));
}

#[test]
fn stack_drain_since_overshoot_is_empty_noop() {
    let mut log: VecScopedStack<u32> = VecScopedStack::new();
    log.push(1);
    let big = Checkpoint::from_len(99);
    let drained: Vec<u32> = log.drain_since(big);
    assert!(drained.is_empty());
    assert_eq!(Container::len(&log), 1);
}

#[test]
fn stack_rollback_to_is_the_silent_twin_of_drain_since() {
    let mut log: VecScopedStack<u32> = VecScopedStack::new();
    log.push(1);
    let mark = ScopedRollback::checkpoint(&log);
    log.push(2);
    log.push(3);
    ScopedRollback::rollback_to(&mut log, mark);
    assert_eq!(Container::len(&log), 1);
    assert_eq!(log.last(), Some(&1));
}

#[test]
fn stack_round_trip_identity() {
    let mut log: VecScopedStack<u32> = VecScopedStack::new();
    log.push(1);
    log.push(2);
    let m = ScopedRollback::checkpoint(&log);
    ScopedRollback::rollback_to(&mut log, m);
    assert_eq!(log.as_slice(), &[1, 2]);
}

#[test]
fn stack_iter_in_push_order_and_clear() {
    let mut log: VecScopedStack<u32> = VecScopedStack::default();
    log.push(5);
    log.push(6);
    let items: Vec<u32> = log.iter().into_iter().copied().collect();
    assert_eq!(items, [5, 6]);
    Clearable::clear(&mut log);
    assert!(Container::is_empty(&log));
}

#[test]
fn stack_nested_rollbacks() {
    let mut log: VecScopedStack<u32> = VecScopedStack::new();
    log.push(1);
    let outer = ScopedRollback::checkpoint(&log);
    log.push(2);
    let inner = ScopedRollback::checkpoint(&log);
    log.push(3);
    assert!(outer < inner);
    ScopedRollback::rollback_to(&mut log, inner);
    assert_eq!(log.as_slice(), &[1, 2]);
    ScopedRollback::rollback_to(&mut log, outer);
    assert_eq!(log.as_slice(), &[1]);
}
