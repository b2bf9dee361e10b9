use vstd::prelude::*;

use crate::primitives::checkpointing::rolled_back;
use crate::primitives::{Checkpoint, Clearable, Container, Pop, Push, ScopedRollback, ScopedStack, TryPush};

verus! {

/// A bounded LIFO log of at most `N` items, held in an inline array of `N`
/// slots (no allocation), with scope checkpoint/rollback. The capacity is a
/// hard ceiling: `push` demands room, `try_push` reports when there is none.
#[derive(Debug)]
pub struct HeaplessLog<T, const N: usize> {
    items: [Option<T>; N],
    len: usize,
}

/// A slot left vacant.
fn vacant<T>(_i: usize) -> (r: Option<T>)
    ensures
        r is None,
{
    None
}

/// `N` slots, built by `core::array::from_fn`, which makes slot `i` from a
/// call of the given function on `i`; nothing is claimed of the slots, since
/// a log of length zero reads none of them.
#[verifier::external_body]
fn vacant_slots<T, const N: usize>() -> [Option<T>; N] {
    core::array::from_fn(|i| vacant(i))
}

impl<T, const N: usize> View for HeaplessLog<T, N> {
    type V = Seq<T>;

    /// The items in push order.
    closed spec fn view(&self) -> Seq<T> {
        Seq::new(self.len as nat, |i: int| self.items@[i]->Some_0)
    }
}

impl<T, const N: usize> HeaplessLog<T, N> {
    #[verifier::type_invariant]
    spec fn inv(self) -> bool {
        &&& self.len <= N
        &&& forall|i: int| 0 <= i < self.len ==> (#[trigger] self.items@[i]) is Some
    }

    /// Create an empty log.
    pub fn new() -> (s: Self)
        ensures
            s@ == Seq::<T>::empty(),
    {
        let s = HeaplessLog { items: vacant_slots(), len: 0 };
        proof {
            assert(s@ =~= Seq::<T>::empty());
        }
        s
    }

    /// The fixed capacity `N`.
    pub fn capacity(&self) -> (n: usize)
        ensures
            n == N,
    {
        N
    }

    /// Whether the log is at capacity.
    pub fn is_full(&self) -> (b: bool)
        ensures
            b == (self@.len() == N),
    {
        self.len == N
    }

    /// Empty the slots from `from` up to `to`, dropping what they held.
    fn vacate(&mut self, from: usize, to: usize)
        requires
            old(self).len <= from <= to <= N,
        ensures
            final(self)@ == old(self)@,
            final(self).len == old(self).len,
            forall|j: int| from <= j < to ==> (#[trigger] final(self).items@[j]) is None,
            forall|j: int| 0 <= j < N && !(from <= j < to)
                ==> (#[trigger] final(self).items@[j]) == old(self).items@[j],
    {
        proof {
            use_type_invariant(&*self);
        }
        let mut i = from;
        while i < to
            invariant
                from <= i <= to <= N,
                self.len == old(self).len,
                self.len <= from,
                self@ == old(self)@,
                forall|j: int| 0 <= j < self.len ==> (#[trigger] self.items@[j]) is Some,
                forall|j: int| from <= j < i ==> (#[trigger] self.items@[j]) is None,
                forall|j: int| 0 <= j < N && !(from <= j < i)
                    ==> (#[trigger] self.items@[j]) == old(self).items@[j],
            decreases to - i,
        {
            self.items[i] = None;
            proof {
                assert(self@ =~= old(self)@);
            }
            i = i + 1;
        }
    }
}

impl<T: Clone, const N: usize> Clone for HeaplessLog<T, N> {
    /// A copy holding a clone of each item, in the same order.
    fn clone(&self) -> (r: Self)
        ensures
            r@.len() == self@.len(),
            forall|i: int| 0 <= i < self@.len() ==> cloned(self@[i], #[trigger] r@[i]),
    {
        proof {
            use_type_invariant(self);
        }
        let mut items: [Option<T>; N] = vacant_slots();
        let mut i: usize = 0;
        while i < self.len
            invariant
                i <= self.len <= N,
                self.inv(),
                forall|j: int| 0 <= j < i ==> (#[trigger] items@[j]) is Some
                    && cloned(self.items@[j]->Some_0, items@[j]->Some_0),
            decreases self.len - i,
        {
            let c = match &self.items[i] {
                Some(x) => Some(x.clone()),
                None => None,
            };
            items[i] = c;
            i = i + 1;
        }
        HeaplessLog { items, len: self.len }
    }
}

impl<T, const N: usize> Default for HeaplessLog<T, N> {
    fn default() -> (s: Self)
        ensures
            s@ == Seq::<T>::empty(),
    {
        Self::new()
    }
}

impl<T, const N: usize> Container for HeaplessLog<T, N> {
    open spec fn size(&self) -> nat {
        self@.len()
    }

    fn len(&self) -> (n: usize)
        ensures
            n <= N,
    {
        proof {
            use_type_invariant(self);
        }
        self.len
    }
}

impl<T, const N: usize> Clearable for HeaplessLog<T, N> {
    fn clear(&mut self)
        ensures
            final(self)@ == Seq::<T>::empty(),
    {
        proof {
            use_type_invariant(&*self);
        }
        let n = self.len;
        self.len = 0;
        proof {
            assert(self@ =~= Seq::<T>::empty());
        }
        self.vacate(0, n);
    }
}

impl<T, const N: usize> Push<T> for HeaplessLog<T, N> {
    open spec fn has_room(&self) -> bool {
        self@.len() < N
    }

    /// Append `item`; the log must not be full.
    fn push(&mut self, item: T)
        ensures
            final(self)@ == old(self)@.push(item),
    {
        proof {
            use_type_invariant(&*self);
        }
        let n = self.len;
        self.items[n] = Some(item);
        self.len = n + 1;
        proof {
            assert(self@ =~= old(self)@.push(item));
        }
    }
}

impl<T, const N: usize> TryPush<T> for HeaplessLog<T, N> {
    /// Append `item` if there is room; return `false` (inserting nothing)
    /// when full.
    fn try_push(&mut self, item: T) -> (r: bool)
        ensures
            r == (old(self)@.len() < N),
            r ==> final(self)@ == old(self)@.push(item),
            !r ==> final(self)@ == old(self)@,
    {
        proof {
            use_type_invariant(&*self);
        }
        if self.len == N {
            return false;
        }
        let n = self.len;
        self.items[n] = Some(item);
        self.len = n + 1;
        proof {
            assert(self@ =~= old(self)@.push(item));
        }
        true
    }
}

impl<T, const N: usize> Pop<T> for HeaplessLog<T, N> {
    fn pop(&mut self) -> (r: Option<T>)
        ensures
            old(self)@.len() > 0 ==> r == Some(old(self)@.last()) && final(self)@ == old(self)@.drop_last(),
            old(self)@.len() == 0 ==> r is None && final(self)@ == old(self)@,
    {
        proof {
            use_type_invariant(&*self);
        }
        if self.len == 0 {
            return None;
        }
        let n = self.len - 1;
        self.len = n;
        let mut r: Option<T> = None;
        std::mem::swap(&mut r, &mut self.items[n]);
        proof {
            assert(self@ =~= old(self)@.drop_last());
        }
        r
    }

    fn last(&self) -> (r: Option<&T>)
        ensures
            self@.len() > 0 ==> r == Some(&self@.last()),
            self@.len() == 0 ==> r is None,
    {
        proof {
            use_type_invariant(self);
        }
        if self.len == 0 {
            None
        } else {
            match &self.items[self.len - 1] {
                Some(x) => Some(x),
                None => None,
            }
        }
    }
}

impl<T, const N: usize> ScopedRollback for HeaplessLog<T, N> {
    type Mark = Checkpoint;

    open spec fn mark_position(mark: Checkpoint) -> nat {
        mark.len_spec()
    }

    open spec fn position(&self) -> nat {
        self@.len()
    }

    fn checkpoint(&self) -> (mark: Checkpoint) {
        Checkpoint::from_len(self.len)
    }

    fn rollback_to(&mut self, mark: Checkpoint)
        ensures
            final(self)@ == rolled_back(old(self)@, mark.len_spec()),
    {
        proof {
            use_type_invariant(&*self);
        }
        let m = mark.as_len();
        let n = self.len;
        let to = if m < n { m } else { n };
        self.len = to;
        proof {
            assert(self@ =~= rolled_back(old(self)@, mark.len_spec()));
        }
        self.vacate(to, n);
    }
}

impl<T, const N: usize> ScopedStack<T> for HeaplessLog<T, N> {
    /// Cut the log back to `mark`, handing back what was cut, most recent
    /// first.
    fn drain_since(&mut self, mark: Checkpoint) -> (r: Vec<T>)
        ensures
            final(self)@ == rolled_back(old(self)@, mark.len_spec()),
            r@ == old(self)@.skip(rolled_back(old(self)@, mark.len_spec()).len() as int).reverse(),
    {
        proof {
            use_type_invariant(&*self);
        }
        let ghost before = self@;
        let m = mark.as_len();
        let n = self.len;
        let to = if m < n { m } else { n };
        self.len = to;
        let mut out: Vec<T> = Vec::new();
        let mut cur = n;
        while cur > to
            invariant
                to <= cur <= n <= N,
                self.len == to,
                before.len() == n,
                forall|j: int| 0 <= j < cur ==> #[trigger] self.items@[j] == old(self).items@[j],
                forall|j: int| 0 <= j < n ==> (#[trigger] old(self).items@[j]) is Some && old(self).items@[j]->Some_0 == before[j],
                out@ == before.subrange(cur as int, n as int).reverse(),
            decreases cur - to,
        {
            cur = cur - 1;
            let mut slot: Option<T> = None;
            std::mem::swap(&mut slot, &mut self.items[cur]);
            proof {
                assert(slot == old(self).items@[cur as int]);
            }
            match slot {
                Some(x) => {
                    out.push(x);
                },
                None => {
                    proof {
                        assert(false);
                    }
                },
            }
            proof {
                assert(out@ =~= before.subrange(cur as int, n as int).reverse());
            }
        }
        proof {
            assert(self@ =~= rolled_back(before, mark.len_spec()));
            assert(before.skip(to as int) =~= before.subrange(to as int, n as int));
        }
        out
    }
}

} // verus!
