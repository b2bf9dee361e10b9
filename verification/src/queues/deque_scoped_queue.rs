use vstd::prelude::*;
use std::collections::VecDeque;

use crate::primitives::{Checkpoint, Clearable, Container, Pull, Push, ScopedQueue, ScopedRollback};

verus! {

/// A `VecDeque`-backed FIFO append-log with scope checkpoint/rollback:
/// `push` appends at the back, `pull` consumes at the front, and
/// `drain_since` peels the post-mark suffix off the back in push order.
///
/// The mark is an absolute push counter that `pull` does not decrement, so
/// rollback undoes exactly the pushes made after the mark that are still
/// queued.
#[derive(Debug)]
pub struct DequeScopedQueue<T> {
    items: VecDeque<T>,
    /// Total items pushed since the last clear, less those rolled back.
    gen: usize,
}

/// How many of the last pushes a rollback to `target` removes from a queue
/// holding `len` items after `gen` pushes.
pub open spec fn rollback_count(gen: nat, len: nat, target: nat) -> nat {
    if gen > target {
        let k = (gen - target) as nat;
        if k < len { k } else { len }
    } else {
        0
    }
}

/// Rolling a queue back to a mark taken at its current push count drops
/// nothing; neither does a mark at or beyond it.
pub proof fn law_queue_rollback_overshoot(gen: nat, len: nat, target: nat)
    requires
        target >= gen,
    ensures
        rollback_count(gen, len, target) == 0,
{
}

/// Rolling a queue back twice to one mark is the same as once: the second
/// rollback drops nothing.
pub proof fn law_queue_rollback_idempotent(gen: nat, len: nat, target: nat)
    requires
        len <= gen,
    ensures
        rollback_count(
            (gen - rollback_count(gen, len, target)) as nat,
            (len - rollback_count(gen, len, target)) as nat,
            target,
        ) == 0,
{
}

/// A queue rollback drops the newest entries only, never more than it
/// holds, and brings the push count down to the mark unless entries pushed
/// after the mark were already pulled.
pub proof fn law_queue_rollback_drops_newest(gen: nat, len: nat, target: nat)
    requires
        len <= gen,
        target < gen,
    ensures
        rollback_count(gen, len, target) <= len,
        rollback_count(gen, len, target) < len ==> gen - rollback_count(gen, len, target) == target,
{
}

impl<T> DequeScopedQueue<T> {
    #[verifier::type_invariant]
    spec fn inv(self) -> bool {
        self.items@.len() <= self.gen
    }

    /// The queued items, oldest first.
    pub closed spec fn items(&self) -> Seq<T> {
        self.items@
    }

    /// The push counter that marks are taken from.
    pub closed spec fn generation(&self) -> nat {
        self.gen as nat
    }

    /// Create an empty queue.
    pub fn new() -> (q: Self)
        ensures
            q.items() == Seq::<T>::empty(),
            q.generation() == 0,
    {
        DequeScopedQueue { items: VecDeque::new(), gen: 0 }
    }

    /// The live items in FIFO (front-to-back) order.
    pub fn iter(&self) -> (r: Vec<&T>)
        ensures
            r@.len() == self.items().len(),
            forall|i: int| 0 <= i < r@.len() ==> *(#[trigger] r@[i]) == self.items()[i],
    {
        let mut r: Vec<&T> = Vec::with_capacity(self.items.len());
        let mut i: usize = 0;
        while i < self.items.len()
            invariant
                i <= self.items@.len(),
                r@.len() == i,
                forall|j: int| 0 <= j < i ==> *(#[trigger] r@[j]) == self.items@[j],
            decreases self.items@.len() - i,
        {
            r.push(&self.items[i]);
            i = i + 1;
        }
        r
    }

    /// Move the items out.
    fn take_items(&mut self) -> (items: VecDeque<T>)
        ensures
            items@ == old(self).items(),
            final(self).items() == Seq::<T>::empty(),
            final(self).generation() == old(self).generation(),
            items@.len() <= old(self).generation(),
    {
        proof {
            use_type_invariant(&*self);
        }
        let mut items: VecDeque<T> = VecDeque::new();
        std::mem::swap(&mut items, &mut self.items);
        items
    }
}

impl<T: Clone> Clone for DequeScopedQueue<T> {
    /// A copy with a clone of each queued item and the same push count.
    fn clone(&self) -> (r: Self)
        ensures
            r.items().len() == self.items().len(),
            forall|i: int| 0 <= i < self.items().len() ==> cloned(self.items()[i], #[trigger] r.items()[i]),
            r.generation() == self.generation(),
    {
        proof {
            use_type_invariant(self);
        }
        DequeScopedQueue { items: self.items.clone(), gen: self.gen }
    }
}

impl<T> Default for DequeScopedQueue<T> {
    fn default() -> (q: Self)
        ensures
            q.items() == Seq::<T>::empty(),
            q.generation() == 0,
    {
        Self::new()
    }
}

impl<T> Container for DequeScopedQueue<T> {
    open spec fn size(&self) -> nat {
        self.items().len()
    }

    fn len(&self) -> (n: usize) {
        self.items.len()
    }
}

impl<T> Clearable for DequeScopedQueue<T> {
    fn clear(&mut self)
        ensures
            final(self).items() == Seq::<T>::empty(),
            final(self).generation() == 0,
    {
        *self = DequeScopedQueue { items: VecDeque::new(), gen: 0 };
    }
}

impl<T> Push<T> for DequeScopedQueue<T> {
    open spec fn has_room(&self) -> bool {
        self.generation() < usize::MAX
    }

    fn push(&mut self, item: T)
        ensures
            final(self).items() == old(self).items().push(item),
            final(self).generation() == old(self).generation() + 1,
    {
        let mut items = self.take_items();
        items.push_back(item);
        *self = DequeScopedQueue { items, gen: self.gen + 1 };
    }
}

impl<T> Pull<T> for DequeScopedQueue<T> {
    fn pull(&mut self) -> (r: Option<T>)
        ensures
            old(self).items().len() > 0 ==> r == Some(old(self).items()[0])
                && final(self).items() == old(self).items().drop_first(),
            old(self).items().len() == 0 ==> r is None && final(self).items() == old(self).items(),
            final(self).generation() == old(self).generation(),
    {
        let mut items = self.take_items();
        let r = items.pop_front();
        proof {
            if old(self).items().len() > 0 {
                assert(items@ =~= old(self).items().drop_first());
            }
        }
        *self = DequeScopedQueue { items, gen: self.gen };
        r
    }

    fn first(&self) -> (r: Option<&T>)
        ensures
            self.items().len() > 0 ==> r == Some(&self.items()[0]),
            self.items().len() == 0 ==> r is None,
    {
        if self.items.len() == 0 {
            None
        } else {
            Some(&self.items[0])
        }
    }
}

impl<T> ScopedRollback for DequeScopedQueue<T> {
    type Mark = Checkpoint;

    open spec fn mark_position(mark: Checkpoint) -> nat {
        mark.len_spec()
    }

    open spec fn position(&self) -> nat {
        self.generation()
    }

    fn checkpoint(&self) -> (mark: Checkpoint) {
        Checkpoint::from_len(self.gen)
    }

    /// Drop the pushes made after the mark, from the back; when the queue
    /// runs out first (the scope's pushes were already pulled) the counter
    /// is brought down to the mark. A mark at or beyond the counter is a
    /// no-op.
    fn rollback_to(&mut self, mark: Checkpoint)
        ensures
            final(self).items() == old(self).items().take(
                old(self).items().len() - rollback_count(old(self).generation(), old(self).items().len(), mark.len_spec()),
            ),
            final(self).generation() == (if old(self).generation() > mark.len_spec() {
                mark.len_spec()
            } else {
                old(self).generation()
            }),
    {
        let target = mark.as_len();
        let mut items = self.take_items();
        let mut gen = self.gen;
        let ghost orig = items@;
        let ghost g0 = gen;
        while gen > target
            invariant_except_break
                g0 - gen <= orig.len(),
                items@ == orig.take(orig.len() - (g0 - gen)),
            invariant
                items@.len() <= gen,
                g0 >= gen,
                g0 > target ==> gen >= target,
                g0 <= target ==> gen == g0,
            ensures
                items@ == orig.take(orig.len() - rollback_count(g0 as nat, orig.len(), target as nat)),
                gen == (if g0 > target { target } else { g0 }),
                items@.len() <= gen,
            decreases gen,
        {
            let ghost before = items@;
            if items.pop_back().is_some() {
                gen = gen - 1;
                proof {
                    assert(items@ =~= orig.take(orig.len() - (g0 - gen)));
                }
            } else {
                gen = target;
                proof {
                    assert(orig.take(0) =~= items@);
                }
                break;
            }
        }
        proof {
            assert(orig.take(orig.len() as int) =~= orig);
        }
        *self = DequeScopedQueue { items, gen };
    }
}

impl<T> ScopedQueue<T> for DequeScopedQueue<T> {
    fn drain_since(&mut self, mark: Checkpoint) -> (r: Vec<T>)
        ensures
            final(self).items() == old(self).items().take(
                old(self).items().len() - rollback_count(old(self).generation(), old(self).items().len(), mark.len_spec()),
            ),
            final(self).generation() == old(self).generation()
                - rollback_count(old(self).generation(), old(self).items().len(), mark.len_spec()),
            r@ == old(self).items().skip(
                old(self).items().len() - rollback_count(old(self).generation(), old(self).items().len(), mark.len_spec()),
            ),
    {
        let target = mark.as_len();
        let mut items = self.take_items();
        let over = if self.gen > target { self.gen - target } else { 0 };
        let n = if over < items.len() { over } else { items.len() };
        let start = items.len() - n;
        let mut tail = items.split_off(start);
        let mut r: Vec<T> = Vec::with_capacity(n);
        let ghost t0 = tail@;
        while tail.len() > 0
            invariant
                r@ + tail@ == t0,
            decreases tail@.len(),
        {
            let ghost before = tail@;
            let x = tail.pop_front().unwrap();
            r.push(x);
            proof {
                assert(tail@ =~= before.drop_first());
                assert(r@ + tail@ =~= t0);
            }
        }
        proof {
            assert(r@ =~= t0);
            assert(t0 =~= old(self).items().skip(start as int));
        }
        *self = DequeScopedQueue { items, gen: self.gen - n };
        r
    }
}

} // verus!
