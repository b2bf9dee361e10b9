use vstd::prelude::*;

use crate::ranges::{is_cloned_range, is_ordered_range, pairs_view};

verus! {

/// An ordered map keyed by byte slices.
pub trait OrderedMap<V>: Sized {
    /// The key/value content.
    spec fn contents(&self) -> Map<Seq<u8>, V>;

    /// Whether cloning a stored value gives back an equal one. Copy-on-write
    /// updates clone the values they copy, so the stored values are exact
    /// where this holds and clones otherwise.
    spec fn values_clone_exactly() -> bool;

    /// `copy` is `original` itself or a copy the map made of it.
    spec fn copy_of(original: V, copy: V) -> bool;

    /// Insert / overwrite `key -> value`; returns the previous value if any
    /// (a clone). Other keys keep their values, as clones where the update
    /// copied them.
    fn insert(&mut self, key: &[u8], value: V) -> (prev: Option<V>)
        requires
            old(self).contents().dom().finite(),
            old(self).contents().len() < usize::MAX,
        ensures
            final(self).contents().dom() == old(self).contents().dom().insert(key@),
            final(self).contents()[key@] == value,
            forall|k: Seq<u8>| k != key@ && #[trigger] old(self).contents().contains_key(k)
                ==> Self::copy_of(old(self).contents()[k], final(self).contents()[k]),
            final(self).contents().dom().finite(),
            prev is Some <==> old(self).contents().contains_key(key@),
            prev matches Some(p) ==> Self::copy_of(old(self).contents()[key@], p),
            Self::values_clone_exactly() ==> final(self).contents() == old(self).contents().insert(key@, value)
                && prev == old(self).contents().get(key@),
    ;

    /// Point lookup.
    fn get(&self, key: &[u8]) -> (r: Option<&V>)
        ensures
            r matches Some(v) ==> self.contents().get(key@) == Some(*v),
            r is None ==> !self.contents().contains_key(key@),
    ;

    /// Ordered scan over the inclusive byte-range `[lo, hi]`, ascending by
    /// key, each value a clone.
    fn range(&self, lo: &[u8], hi: &[u8]) -> (out: Vec<(Vec<u8>, V)>)
        where
            V: Clone,
        ensures
            is_cloned_range(pairs_view(out@), self.contents(), lo@, hi@),
            Self::values_clone_exactly() ==> is_ordered_range(pairs_view(out@), self.contents(), lo@, hi@),
    ;

    /// Number of stored keys.
    fn len(&self) -> (n: usize)
        ensures
            self.contents().dom().finite(),
            n == self.contents().len(),
    ;

    /// Whether the map holds no keys.
    fn is_empty(&self) -> (b: bool)
        ensures
            b == (self.contents().len() == 0),
    {
        self.len() == 0
    }
}

/// A map supporting snapshots: an isolated point-in-time view.
pub trait SnapshotMap<V>: OrderedMap<V> {
    /// The snapshot type (itself an [`OrderedMap`] for reads).
    type Snapshot: OrderedMap<V>;

    /// Take a snapshot holding exactly the current content.
    fn snapshot(&self) -> (s: Self::Snapshot)
        ensures
            s.contents() == self.contents(),
    ;
}

} // verus!
