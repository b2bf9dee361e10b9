use vstd::prelude::*;

use super::container::Clearable;
use vstd::std_specs::cmp::PartialOrdSpec;

verus! {

/// An opaque mark of a collection's size at one point in time.
#[derive(Clone, Copy, PartialEq, Eq, Structural, Ord, Hash, Debug)]
pub struct Checkpoint(usize);

impl Checkpoint {
    /// The origin mark, equal to the checkpoint of an empty collection:
    /// rolling back to it empties the collection.
    pub fn origin() -> (c: Checkpoint)
        ensures
            c.len_spec() == 0,
    {
        Checkpoint(0)
    }

    /// The length this mark stands for.
    pub closed spec fn len_spec(self) -> nat {
        self.0 as nat
    }

    /// Mint a mark from a collection's current logical length.
    pub fn from_len(len: usize) -> (c: Checkpoint)
        ensures
            c.len_spec() == len,
    {
        Checkpoint(len)
    }

    /// The length this mark was captured at.
    pub fn as_len(self) -> (n: usize)
        ensures
            n == self.len_spec(),
    {
        self.0
    }

    /// A mark is nothing but its length: two marks of one length are equal.
    pub proof fn lemma_fixed_by_len(a: Checkpoint, b: Checkpoint)
        requires
            a.len_spec() == b.len_spec(),
        ensures
            a == b,
    {
    }

    /// Marks compare as the lengths they stand for: an outer (earlier) scope
    /// is below an inner (later) one.
    pub proof fn law_ordered_by_len(a: Checkpoint, b: Checkpoint)
        ensures
            (a.partial_cmp_spec(&b) == Some(core::cmp::Ordering::Less)) == (a.len_spec() < b.len_spec()),
            (a.partial_cmp_spec(&b) == Some(core::cmp::Ordering::Equal)) == (a == b),
            (a.partial_cmp_spec(&b) == Some(core::cmp::Ordering::Greater)) == (a.len_spec() > b.len_spec()),
    {
    }
}

/// A log rolled back to `mark` entries: the first `mark` entries, or the
/// whole log when it is no longer than the mark.
pub open spec fn rolled_back<T>(log: Seq<T>, mark: nat) -> Seq<T> {
    if mark < log.len() {
        log.take(mark as int)
    } else {
        log
    }
}

/// Rolling back to a mark taken at the current size changes nothing.
pub proof fn law_rollback_round_trip<T>(log: Seq<T>)
    ensures
        rolled_back(log, log.len()) == log,
{
}

/// Rollback removes entries last-in-first-out: what survives is the oldest
/// `mark` entries, in their order.
pub proof fn law_rollback_keeps_oldest<T>(log: Seq<T>, mark: nat)
    ensures
        rolled_back(log, mark).len() == (if mark < log.len() { mark } else { log.len() }),
        forall|i: int| 0 <= i < rolled_back(log, mark).len() ==> #[trigger] rolled_back(log, mark)[i] == log[i],
{
}

/// A mark at or beyond the current size is a no-op.
pub proof fn law_rollback_overshoot<T>(log: Seq<T>, mark: nat)
    requires
        mark >= log.len(),
    ensures
        rolled_back(log, mark) == log,
{
}

/// Rolling back twice to one mark is the same as once.
pub proof fn law_rollback_idempotent<T>(log: Seq<T>, mark: nat)
    ensures
        rolled_back(rolled_back(log, mark), mark) == rolled_back(log, mark),
{
}

/// Draining since a mark hands back exactly what the rollback removes,
/// newest first: the survivors followed by the drained entries in push
/// order give back the whole log.
pub proof fn law_drain_returns_removed<T>(log: Seq<T>, mark: nat)
    ensures
        rolled_back(log, mark) + log.skip(rolled_back(log, mark).len() as int).reverse().reverse() == log,
{
    let kept = rolled_back(log, mark);
    let tail = log.skip(kept.len() as int);
    assert(tail.reverse().reverse() =~= tail);
    assert(kept + tail =~= log);
}

/// Nested scopes: rolling back to an inner mark and then to an outer one is
/// the same as rolling back to the outer one directly.
pub proof fn law_rollback_nested<T>(log: Seq<T>, outer: nat, inner: nat)
    requires
        outer <= inner,
    ensures
        rolled_back(rolled_back(log, inner), outer) == rolled_back(log, outer),
{
    assert(rolled_back(rolled_back(log, inner), outer) =~= rolled_back(log, outer));
}

/// How many entries a rollback to the mark `mark` drops from a collection
/// that stands at `position` holding `size` entries: those captured after
/// the mark, as far as the collection still holds them.
pub open spec fn rollback_drops(position: nat, size: nat, mark: nat) -> nat {
    if mark < position {
        if position - mark < size { (position - mark) as nat } else { size }
    } else {
        0
    }
}

/// The scope checkpoint/rollback contract: `checkpoint` records a mark and
/// `rollback_to` rolls every backing store of the collection back to it,
/// dropping later entries last-in-first-out. A mark at or beyond the
/// current size leaves the collection unchanged, and rolling back twice to
/// the same mark is the same as once. Each implementation states these
/// over its own model.
pub trait ScopedRollback: Clearable {
    /// The mark type.
    type Mark: Copy;

    /// The position a mark stands for.
    spec fn mark_position(mark: Self::Mark) -> nat;

    /// The position a checkpoint taken now would stand for.
    spec fn position(&self) -> nat;

    /// Capture a mark of the current state.
    fn checkpoint(&self) -> (mark: Self::Mark)
        ensures
            Self::mark_position(mark) == self.position(),
    ;

    /// Discard everything captured after `mark`: the entries that are still
    /// held go, and the position comes back to the mark.
    fn rollback_to(&mut self, mark: Self::Mark)
        ensures
            final(self).size() == old(self).size() - rollback_drops(old(self).position(), old(self).size(), Self::mark_position(mark)),
            final(self).position() == (if Self::mark_position(mark) < old(self).position() {
                Self::mark_position(mark)
            } else {
                old(self).position()
            }),
    ;
}

/// Marks are ordered by the lengths they stand for.
impl PartialOrd for Checkpoint {
    fn partial_cmp(&self, other: &Self) -> (r: Option<core::cmp::Ordering>) {
        if self.0 < other.0 {
            Some(core::cmp::Ordering::Less)
        } else if self.0 == other.0 {
            Some(core::cmp::Ordering::Equal)
        } else {
            Some(core::cmp::Ordering::Greater)
        }
    }
}

impl vstd::std_specs::cmp::PartialOrdSpecImpl for Checkpoint {
    open spec fn obeys_partial_cmp_spec() -> bool {
        true
    }

    open spec fn partial_cmp_spec(&self, other: &Self) -> Option<core::cmp::Ordering> {
        if self.len_spec() < other.len_spec() {
            Some(core::cmp::Ordering::Less)
        } else if self.len_spec() == other.len_spec() {
            Some(core::cmp::Ordering::Equal)
        } else {
            Some(core::cmp::Ordering::Greater)
        }
    }
}

impl Default for Checkpoint {
    fn default() -> (c: Checkpoint)
        ensures
            c.len_spec() == 0,
    {
        Checkpoint(0)
    }
}

} // verus!
