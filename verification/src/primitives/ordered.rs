use vstd::prelude::*;

use super::container::Container;
use super::facade::{MapReadShim, MapRefKeyInsertShim};
use crate::ranges::{called_on, is_cloned_range, is_ordered_range, ref_pairs, pairs_view};

verus! {

/// An ordered map keyed by byte slices, scannable in ascending
/// (lexicographic) key order.
pub trait OrderedMap<V>: MapReadShim<[u8], V> + MapRefKeyInsertShim<[u8], V> + Container {
    /// The key/value content, keyed by the bytes of each key.
    spec fn contents(&self) -> Map<Seq<u8>, V>;

    /// The entries with keys in the inclusive range `[lo, hi]`, ascending by
    /// key, each as an owned key and a borrowed value.
    fn range_ref<'a>(&'a self, lo: &[u8], hi: &[u8]) -> (out: Vec<(Vec<u8>, &'a V)>)
        ensures
            is_ordered_range(ref_pairs(out@), self.contents(), lo@, hi@),
    ;

    /// Call `f(key, value)` for each entry in `[lo, hi]` in ascending key
    /// order, borrowing both.
    fn for_each_range<F: FnMut(&[u8], &V)>(&self, lo: &[u8], hi: &[u8], f: F)
        requires
            forall|k: &[u8], v: &V| crate::lex::in_range(k@, lo@, hi@) ==> #[trigger] call_requires(f, (k, v)),
        ensures
            forall|k: Seq<u8>| #[trigger] self.contents().contains_key(k) && crate::lex::in_range(k, lo@, hi@)
                ==> called_on(f, (k, self.contents()[k])),
    ;

    /// The entries with keys in `[lo, hi]`, ascending by key, each with a
    /// clone of its value.
    fn range(&self, lo: &[u8], hi: &[u8]) -> (out: Vec<(Vec<u8>, V)>)
        where
            V: Clone,
        ensures
            is_cloned_range(pairs_view(out@), self.contents(), lo@, hi@),
    {
        let refs = self.range_ref(lo, hi);
        let mut out: Vec<(Vec<u8>, V)> = Vec::with_capacity(refs.len());
        let mut i: usize = 0;
        while i < refs.len()
            invariant
                i <= refs@.len(),
                out@.len() == i,
                forall|j: int| 0 <= j < i ==> (#[trigger] out@[j]).0@ == refs@[j].0@ && cloned(*refs@[j].1, out@[j].1),
            decreases refs@.len() - i,
        {
            let k = crate::lex::copy_bytes(&refs[i].0);
            let v = refs[i].1.clone();
            out.push((k, v));
            i = i + 1;
        }
        proof {
            let r = ref_pairs(refs@);
            let o = pairs_view(out@);
            assert(o.len() == r.len());
            assert forall|j: int| 0 <= j < o.len() implies #[trigger] o[j].0 == r[j].0 && cloned(r[j].1, o[j].1) by {
                assert(out@[j].0@ == refs@[j].0@);
            }
            assert forall|a: int, b: int| 0 <= a < b < o.len() implies crate::lex::lex_lt(#[trigger] o[a].0, #[trigger] o[b].0) by {
                assert(o[a].0 == r[a].0 && o[b].0 == r[b].0);
            }
            assert forall|k: Seq<u8>| #[trigger] self.contents().contains_key(k) && crate::lex::in_range(k, lo@, hi@)
                implies exists|j: int| 0 <= j < o.len() && o[j].0 == k by {
                let j = choose|j: int| 0 <= j < r.len() && r[j].0 == k;
                assert(o[j].0 == r[j].0);
            }
        }
        out
    }
}

/// A map supporting snapshots: an immutable, isolated point-in-time view.
pub trait SnapshotMap<V>: OrderedMap<V> {
    /// The snapshot type (itself an [`OrderedMap`] for reads).
    type Snapshot: OrderedMap<V>;

    /// Take a snapshot holding exactly the current content.
    fn snapshot(&self) -> (s: Self::Snapshot)
        ensures
            s.contents() == self.contents(),
    ;
}

} // verus!
