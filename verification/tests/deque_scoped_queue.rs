use portable_collections::primitives::{Clearable, Container, Pull, Push, ScopedQueue, ScopedRollback};
use portable_collections::{Checkpoint, DequeScopedQueue};

#[test]
fn queue_push_pull_fifo() {
    let mut q: DequeScopedQueue<u32> = DequeScopedQueue::new();
    q.push(1);
    q.push(2);
    q.push(3);
    assert_eq!(q.first(), Some(&1));
    assert_eq!(q.pull(), Some(1)); // FIFO: oldest first
    assert_eq!(q.pull(), Some(2));
    assert_eq!(Container::len(&q), 1);
    assert_eq!(q.pull(), Some(3));
    assert_eq!(q.pull(), None);
}

#[test]
fn queue_drain_since_yields_fifo_and_rolls_back_pushes() {
    let mut q: DequeScopedQueue<u32> = DequeScopedQueue::new();
    q.push(1);
    let mark = ScopedRollback::checkpoint(&q);
    q.push(2);
    q.push(3);
    let drained: Vec<u32> = q.drain_since(mark);
    assert_eq!(drained, [2, 3]);
    assert_eq!(Container::len(&q), 1);
    assert_eq!(q.first(), Some(&1));
}

#[test]
fn queue_rollback_to_is_the_silent_twin_for_pushes() {
    let mut q: DequeScopedQueue<u32> = DequeScopedQueue::new();
    q.push(1);
    let mark = ScopedRollback::checkpoint(&q);
    q.push(2);
    q.push(3);
    ScopedRollback::rollback_to(&mut q, mark);
    assert_eq!(Container::len(&q), 1);
    assert_eq!(q.first(), Some(&1));
}

#[test]
fn queue_rollback_overshoot_is_noop() {
    let mut q: DequeScopedQueue<u32> = DequeScopedQueue::new();
    q.push(1);
    let big = Checkpoint::from_len(99);
    ScopedRollback::rollback_to(&mut q, big);
    assert_eq!(Container::len(&q), 1);
}

#[test]
fn queue_pull_does_not_break_a_later_rollback() {
    let mut q: DequeScopedQueue<u32> = DequeScopedQueue::new();
    q.push(10); // committed (pre-scope)
    let mark = ScopedRollback::checkpoint(&q);
    q.push(20);
    q.push(30);
    assert_eq!(q.pull(), Some(10)); // consume the committed prefix
    ScopedRollback::rollback_to(&mut q, mark); // undo the scope's pushes
    assert_eq!(Container::len(&q), 0);
    assert_eq!(q.first(), None);
}

#[test]
fn queue_iter_and_clear_resets_marks() {
    let mut q: DequeScopedQueue<u32> = DequeScopedQueue::default();
    q.push(7);
    q.push(8);
    let items: Vec<u32> = q.iter().into_iter().copied().collect();
    assert_eq!(items, [7, 8]);
    Clearable::clear(&mut q);
    assert!(Container::is_empty(&q));
    assert_eq!(ScopedRollback::checkpoint(&q), Checkpoint::origin());
}

#[test]
fn queue_drain_after_pull_keeps_the_counter() {
    // Drain resyncs only as far as it removed: the push counter drops by the
    // number of entries handed back.
    let mut q: DequeScopedQueue<u32> = DequeScopedQueue::new();
    q.push(1);
    let mark = ScopedRollback::checkpoint(&q);
    q.push(2);
    q.push(3);
    assert_eq!(q.pull(), Some(1));
    assert_eq!(q.pull(), Some(2));
    let drained: Vec<u32> = q.drain_since(mark);
    assert_eq!(drained, [3]);
    assert_eq!(ScopedRollback::checkpoint(&q), Checkpoint::from_len(2));
}

#[test]
fn deque_queue_clone_keeps_items_and_marks() {
    let mut q: DequeScopedQueue<u32> = DequeScopedQueue::new();
    q.push(1);
    let mark = q.checkpoint();
    q.push(2);
    let mut c = q.clone();
    c.rollback_to(mark);
    assert_eq!(Container::len(&c), 1);
    assert_eq!(Container::len(&q), 2);
    assert_eq!(q.pull(), Some(1));
    assert_eq!(c.pull(), Some(1));
}
