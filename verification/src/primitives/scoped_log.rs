use vstd::prelude::*;

use super::checkpointing::{rollback_drops, ScopedRollback};
use super::queue::{Pop, Pull, Push};

verus! {

/// A LIFO append-only sequence with scope checkpoint/rollback.
pub trait ScopedStack<T>: ScopedRollback + Push<T> + Pop<T> {
    /// Discard everything pushed after `mark` and return it most-recent
    /// first. A mark at or beyond the current size gives nothing back.
    fn drain_since(&mut self, mark: <Self as ScopedRollback>::Mark) -> (r: Vec<T>)
        ensures
            r@.len() == rollback_drops(old(self).position(), old(self).size(), Self::mark_position(mark)),
            final(self).size() == old(self).size() - r@.len(),
            final(self).position() == old(self).position() - r@.len(),
    ;
}

/// A FIFO append-only sequence with scope checkpoint/rollback.
pub trait ScopedQueue<T>: ScopedRollback + Push<T> + Pull<T> {
    /// Discard everything pushed after `mark` and return it oldest first.
    /// A mark at or beyond the push count gives nothing back.
    fn drain_since(&mut self, mark: <Self as ScopedRollback>::Mark) -> (r: Vec<T>)
        ensures
            r@.len() == rollback_drops(old(self).position(), old(self).size(), Self::mark_position(mark)),
            final(self).size() == old(self).size() - r@.len(),
            final(self).position() == old(self).position() - r@.len(),
    ;
}

} // verus!
