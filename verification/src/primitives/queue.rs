use vstd::prelude::*;

use super::container::Container;

verus! {

/// Append an item.
pub trait Push<T>: Container {
    /// Whether there is room for one more item.
    spec fn has_room(&self) -> bool;

    /// Append `item`.
    fn push(&mut self, item: T)
        requires
            old(self).has_room(),
        ensures
            final(self).size() == old(self).size() + 1,
    ;
}

/// Append an item where there may be no room.
pub trait TryPush<T>: Push<T> {
    /// Append `item` if there is room; `false` (inserting nothing) otherwise.
    fn try_push(&mut self, item: T) -> (r: bool)
        ensures
            r == old(self).has_room(),
            final(self).size() == old(self).size() + (if r { 1int } else { 0int }),
    ;
}

/// Remove and inspect the most recent item (LIFO).
pub trait Pop<T>: Container {
    /// Remove and return the most recent item.
    fn pop(&mut self) -> (r: Option<T>)
        ensures
            r is Some == (old(self).size() > 0),
            final(self).size() == old(self).size() - (if r is Some { 1int } else { 0int }),
    ;

    /// The most recent item.
    fn last(&self) -> (r: Option<&T>)
        ensures
            r is Some == (self.size() > 0),
    ;
}

/// Remove and inspect the oldest item (FIFO).
pub trait Pull<T>: Container {
    /// Remove and return the oldest item.
    fn pull(&mut self) -> (r: Option<T>)
        ensures
            r is Some == (old(self).size() > 0),
            final(self).size() == old(self).size() - (if r is Some { 1int } else { 0int }),
    ;

    /// The oldest item.
    fn first(&self) -> (r: Option<&T>)
        ensures
            r is Some == (self.size() > 0),
    ;
}

} // verus!
