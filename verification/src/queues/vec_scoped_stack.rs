use vstd::prelude::*;

use crate::primitives::checkpointing::rolled_back;
use crate::primitives::{Checkpoint, Clearable, Container, Pop, Push, ScopedRollback, ScopedStack};

verus! {

/// A `Vec`-backed append-only log with scope checkpoint/rollback: `push`
/// appends, `checkpoint` marks the current length, and `rollback_to` /
/// `drain_since` cut the suffix back to a mark (silently / yielding it
/// most-recent first).
#[derive(Clone, Debug)]
pub struct VecScopedStack<T> {
    items: Vec<T>,
}

impl<T> View for VecScopedStack<T> {
    type V = Seq<T>;

    closed spec fn view(&self) -> Seq<T> {
        self.items@
    }
}

/// Move the items of `v` out, last first.
pub fn reversed<T>(v: Vec<T>) -> (r: Vec<T>)
    ensures
        r@ == v@.reverse(),
{
    let mut v = v;
    let ghost orig = v@;
    let mut r: Vec<T> = Vec::with_capacity(v.len());
    proof {
        assert(orig.take(orig.len() as int) =~= orig);
        assert(orig.skip(orig.len() as int).reverse() =~= Seq::<T>::empty());
    }
    while v.len() > 0
        invariant
            v@.len() <= orig.len(),
            v@ == orig.take(v@.len() as int),
            r@ == orig.skip(v@.len() as int).reverse(),
        decreases v@.len(),
    {
        let ghost n = v@.len();
        let x = v.pop().unwrap();
        r.push(x);
        proof {
            assert(orig.take(n - 1) =~= orig.take(n as int).take(n - 1));
            assert(orig.skip(n - 1).reverse() =~= orig.skip(n as int).reverse().push(orig[n - 1]));
        }
    }
    proof {
        assert(orig.skip(0) =~= orig);
    }
    r
}

impl<T> VecScopedStack<T> {
    /// Create an empty log.
    pub fn new() -> (s: Self)
        ensures
            s@ == Seq::<T>::empty(),
    {
        VecScopedStack { items: Vec::new() }
    }

    /// The logged items in push order.
    pub fn as_slice(&self) -> (r: &[T])
        ensures
            r@ == self@,
    {
        self.items.as_slice()
    }

    /// The logged items in push order.
    pub fn iter(&self) -> (r: Vec<&T>)
        ensures
            r@.len() == self@.len(),
            forall|i: int| 0 <= i < r@.len() ==> *(#[trigger] r@[i]) == self@[i],
    {
        let mut r: Vec<&T> = Vec::with_capacity(self.items.len());
        let mut i: usize = 0;
        while i < self.items.len()
            invariant
                i <= self.items@.len(),
                r@.len() == i,
                forall|j: int| 0 <= j < i ==> *(#[trigger] r@[j]) == self.items@[j],
            decreases self.items@.len() - i,
        {
            r.push(&self.items[i]);
            i = i + 1;
        }
        r
    }
}

impl<T> Default for VecScopedStack<T> {
    fn default() -> (s: Self)
        ensures
            s@ == Seq::<T>::empty(),
    {
        Self::new()
    }
}

impl<T> Container for VecScopedStack<T> {
    open spec fn size(&self) -> nat {
        self@.len()
    }

    fn len(&self) -> (n: usize) {
        self.items.len()
    }
}

impl<T> Clearable for VecScopedStack<T> {
    fn clear(&mut self)
        ensures
            final(self)@ == Seq::<T>::empty(),
    {
        self.items.clear();
    }
}

impl<T> ScopedRollback for VecScopedStack<T> {
    type Mark = Checkpoint;

    open spec fn mark_position(mark: Checkpoint) -> nat {
        mark.len_spec()
    }

    open spec fn position(&self) -> nat {
        self@.len()
    }

    fn checkpoint(&self) -> (mark: Checkpoint) {
        Checkpoint::from_len(self.items.len())
    }

    fn rollback_to(&mut self, mark: Checkpoint)
        ensures
            final(self)@ == rolled_back(old(self)@, mark.len_spec()),
    {
        self.items.truncate(mark.as_len());
    }
}

impl<T> Push<T> for VecScopedStack<T> {
    open spec fn has_room(&self) -> bool {
        true
    }

    fn push(&mut self, item: T)
        ensures
            final(self)@ == old(self)@.push(item),
    {
        self.items.push(item);
    }
}

impl<T> Pop<T> for VecScopedStack<T> {
    fn pop(&mut self) -> (r: Option<T>)
        ensures
            old(self)@.len() > 0 ==> r == Some(old(self)@.last()) && final(self)@ == old(self)@.drop_last(),
            old(self)@.len() == 0 ==> r is None && final(self)@ == old(self)@,
    {
        self.items.pop()
    }

    fn last(&self) -> (r: Option<&T>)
        ensures
            self@.len() > 0 ==> r == Some(&self@.last()),
            self@.len() == 0 ==> r is None,
    {
        if self.items.len() == 0 {
            None
        } else {
            Some(&self.items[self.items.len() - 1])
        }
    }
}

impl<T> ScopedStack<T> for VecScopedStack<T> {
    fn drain_since(&mut self, mark: Checkpoint) -> (r: Vec<T>)
        ensures
            final(self)@ == rolled_back(old(self)@, mark.len_spec()),
            r@ == old(self)@.skip(rolled_back(old(self)@, mark.len_spec()).len() as int).reverse(),
    {
        let m = mark.as_len();
        let from = if m < self.items.len() { m } else { self.items.len() };
        let tail = self.items.split_off(from);
        proof {
            assert(old(self)@.subrange(from as int, old(self)@.len() as int) =~= old(self)@.skip(from as int));
            if from == old(self)@.len() {
                assert(old(self)@.subrange(0, from as int) =~= old(self)@);
            }
        }
        reversed(tail)
    }
}

} // verus!
