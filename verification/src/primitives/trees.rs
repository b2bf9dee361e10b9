use vstd::prelude::*;
use std::collections::{BTreeMap, BTreeSet};

use super::container::{Clearable, Container};
use super::facade::{MapFacade, MapInsertShim, MapReadShim, MapShim, SetFacade, SetReadShim, SetShim};

verus! {

/// `BTreeMap::get_mut`: a handle on the value under `key`. Nothing is
/// claimed of it, nor of what writing through it does to the map.
#[verifier::external_body]
fn map_get_mut<'a, K: Ord, V>(m: &'a mut BTreeMap<K, V>, key: &K) -> Option<&'a mut V> {
    m.get_mut(key)
}

/// `BTreeSet::replace`: under a lawful order, the set afterwards holds
/// `value`, and what comes back is the element equal to it that was there,
/// if one was.
#[verifier::external_body]
fn set_replace<T: Ord>(s: &mut BTreeSet<T>, value: T) -> (r: Option<T>)
    ensures
        vstd::laws_cmp::obeys_cmp::<T>() ==> final(s)@ == old(s)@.insert(value),
        vstd::laws_cmp::obeys_cmp::<T>() ==> r == (if old(s)@.contains(value) { Some(value) } else { None }),
{
    s.replace(value)
}

/// `BTreeSet::take`: under a lawful order, the element equal to `value` is
/// removed and handed back, if there was one.
#[verifier::external_body]
fn set_take<T: Ord>(s: &mut BTreeSet<T>, value: &T) -> (r: Option<T>)
    ensures
        vstd::laws_cmp::obeys_cmp::<T>() ==> final(s)@ == old(s)@.remove(*value),
        vstd::laws_cmp::obeys_cmp::<T>() ==> r == (if old(s)@.contains(*value) { Some(*value) } else { None }),
{
    s.take(value)
}

/// `BTreeSet::is_disjoint`: under a lawful order, whether the sets share no
/// element.
#[verifier::external_body]
fn set_is_disjoint<T: Ord>(a: &BTreeSet<T>, b: &BTreeSet<T>) -> (r: bool)
    ensures
        vstd::laws_cmp::obeys_cmp::<T>() ==> r == a@.disjoint(b@),
{
    a.is_disjoint(b)
}

/// `BTreeSet::is_subset`: under a lawful order, whether `b` holds every
/// element of `a`.
#[verifier::external_body]
fn set_is_subset<T: Ord>(a: &BTreeSet<T>, b: &BTreeSet<T>) -> (r: bool)
    ensures
        vstd::laws_cmp::obeys_cmp::<T>() ==> r == a@.subset_of(b@),
{
    a.is_subset(b)
}

/// `BTreeSet::is_superset`: under a lawful order, whether `a` holds every
/// element of `b`.
#[verifier::external_body]
fn set_is_superset<T: Ord>(a: &BTreeSet<T>, b: &BTreeSet<T>) -> (r: bool)
    ensures
        vstd::laws_cmp::obeys_cmp::<T>() ==> r == b@.subset_of(a@),
{
    a.is_superset(b)
}

impl<K: Ord, V> Container for BTreeMap<K, V> {
    open spec fn size(&self) -> nat {
        vstd::std_specs::btree::spec_btree_map_len(self) as nat
    }

    /// The key type's order is lawful.
    open spec fn lawful_model(&self) -> bool {
        vstd::laws_cmp::obeys_cmp::<K>()
    }

    fn len(&self) -> (n: usize) {
        BTreeMap::len(self)
    }
}

impl<K: Ord, V> Clearable for BTreeMap<K, V> {
    fn clear(&mut self) {
        BTreeMap::clear(self)
    }
}

impl<K: Ord, V> MapReadShim<K, V> for BTreeMap<K, V> {
    open spec fn stored(&self, key: &K) -> Option<V> {
        self@.get(*key)
    }

    fn get(&self, key: &K) -> (r: Option<&V>) {
        BTreeMap::get(self, key)
    }

    fn contains_key(&self, key: &K) -> (b: bool) {
        BTreeMap::contains_key(self, key)
    }
}

impl<K: Ord, V> MapInsertShim<K, K, V> for BTreeMap<K, V> {
    open spec fn held(&self, key: K) -> Option<V> {
        self@.get(key)
    }

    fn insert(&mut self, key: K, value: V) -> (prev: Option<V>) {
        BTreeMap::insert(self, key, value)
    }
}

impl<K: Ord, V> MapShim<K, K, V> for BTreeMap<K, V> {
    fn get_mut(&mut self, key: &K) -> Option<&mut V> {
        map_get_mut(self, key)
    }

    fn remove(&mut self, key: &K) -> (r: Option<V>) {
        BTreeMap::remove(self, key)
    }
}

impl<K: Ord, V> MapFacade<K, V> for BTreeMap<K, V> {
}

impl<T: Ord> Container for BTreeSet<T> {
    open spec fn size(&self) -> nat {
        vstd::std_specs::btree::spec_btree_set_len(self) as nat
    }

    /// The element type's order is lawful.
    open spec fn lawful_model(&self) -> bool {
        vstd::laws_cmp::obeys_cmp::<T>()
    }

    fn len(&self) -> (n: usize) {
        BTreeSet::len(self)
    }
}

impl<T: Ord> Clearable for BTreeSet<T> {
    fn clear(&mut self) {
        BTreeSet::clear(self)
    }
}

impl<T: Ord> SetReadShim<T, T> for BTreeSet<T> {
    open spec fn element_for(&self, value: &T) -> Option<T> {
        if self@.contains(*value) { Some(*value) } else { None }
    }

    open spec fn element_like(&self, value: T) -> Option<T> {
        if self@.contains(value) { Some(value) } else { None }
    }

    fn get(&self, value: &T) -> (r: Option<&T>) {
        BTreeSet::get(self, value)
    }

    fn contains(&self, value: &T) -> (b: bool) {
        BTreeSet::contains(self, value)
    }

    fn is_disjoint(&self, other: &Self) -> (b: bool) {
        let b = set_is_disjoint(self, other);
        proof {
            if vstd::laws_cmp::obeys_cmp::<T>() {
                if !b {
                    let t = choose|t: T| self@.contains(t) && other@.contains(t);
                    assert(self.element_like(t) is Some && other.element_like(t) is Some);
                }
            }
        }
        b
    }

    fn is_subset(&self, other: &Self) -> (b: bool) {
        let b = set_is_subset(self, other);
        proof {
            if vstd::laws_cmp::obeys_cmp::<T>() {
                if !b {
                    let t = choose|t: T| self@.contains(t) && !other@.contains(t);
                    assert(self.element_like(t) is Some && other.element_like(t) is None);
                }
            }
        }
        b
    }

    fn is_superset(&self, other: &Self) -> (b: bool) {
        let b = set_is_superset(self, other);
        proof {
            if vstd::laws_cmp::obeys_cmp::<T>() {
                if !b {
                    let t = choose|t: T| other@.contains(t) && !self@.contains(t);
                    assert(other.element_like(t) is Some && self.element_like(t) is None);
                }
            }
        }
        b
    }
}

impl<T: Ord> SetShim<T, T> for BTreeSet<T> {
    fn remove(&mut self, value: &T) -> (b: bool) {
        BTreeSet::remove(self, value)
    }

    fn insert(&mut self, value: T) -> (b: bool) {
        BTreeSet::insert(self, value)
    }

    fn replace(&mut self, value: T) -> (r: Option<T>) {
        set_replace(self, value)
    }

    fn take(&mut self, value: &T) -> (r: Option<T>) {
        set_take(self, value)
    }
}

impl<T: Ord> SetFacade<T> for BTreeSet<T> {
}

} // verus!
