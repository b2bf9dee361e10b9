use vstd::prelude::*;
use std::collections::{HashMap, HashSet};
use std::hash::{BuildHasher, Hash};

use super::container::{Clearable, Container};
use super::facade::{MapFacade, MapInsertShim, MapReadShim, MapShim, SetFacade, SetReadShim, SetShim};

verus! {

broadcast use vstd::std_specs::hash::group_hash_axioms;

/// Keys of type `T` hash and compare lawfully, and `S` builds valid hashers:
/// where this holds, the standard hash maps and sets behave as their models.
pub open spec fn lawful_hashing<T, S>() -> bool {
    vstd::std_specs::hash::obeys_key_model::<T>() && vstd::std_specs::hash::builds_valid_hashers::<S>()
}

/// `HashMap::get_mut`: a handle on the value under `key`. Nothing is
/// claimed of it, nor of what writing through it does to the map.
#[verifier::external_body]
fn map_get_mut<'a, K: Eq + Hash, V, S: BuildHasher>(
    m: &'a mut HashMap<K, V, S>,
    key: &K,
) -> Option<&'a mut V> {
    m.get_mut(key)
}

/// `HashSet::replace`: under lawful hashing, the set afterwards holds
/// `value`, and what comes back is the element equal to it that was there,
/// if one was.
#[verifier::external_body]
fn set_replace<T: Eq + Hash, S: BuildHasher>(s: &mut HashSet<T, S>, value: T) -> (r: Option<T>)
    ensures
        (lawful_hashing::<T, S>()) ==> final(s)@ == old(s)@.insert(value),
        (lawful_hashing::<T, S>()) ==> r == (if old(s)@.contains(value) { Some(value) } else { None }),
{
    s.replace(value)
}

/// `HashSet::take`: under lawful hashing, the element equal to `value` is
/// removed and handed back, if there was one.
#[verifier::external_body]
fn set_take<T: Eq + Hash, S: BuildHasher>(s: &mut HashSet<T, S>, value: &T) -> (r: Option<T>)
    ensures
        (lawful_hashing::<T, S>()) ==> final(s)@ == old(s)@.remove(*value),
        (lawful_hashing::<T, S>()) ==> r == (if old(s)@.contains(*value) { Some(*value) } else { None }),
{
    s.take(value)
}

/// `HashSet::is_disjoint`: under lawful hashing, whether the sets share
/// no element.
#[verifier::external_body]
fn set_is_disjoint<T: Eq + Hash, S: BuildHasher>(a: &HashSet<T, S>, b: &HashSet<T, S>) -> (r: bool)
    ensures
        (lawful_hashing::<T, S>()) ==> r == a@.disjoint(b@),
{
    a.is_disjoint(b)
}

/// `HashSet::is_subset`: under lawful hashing, whether `b` holds every
/// element of `a`.
#[verifier::external_body]
fn set_is_subset<T: Eq + Hash, S: BuildHasher>(a: &HashSet<T, S>, b: &HashSet<T, S>) -> (r: bool)
    ensures
        (lawful_hashing::<T, S>()) ==> r == a@.subset_of(b@),
{
    a.is_subset(b)
}

/// `HashSet::is_superset`: under lawful hashing, whether `a` holds every
/// element of `b`.
#[verifier::external_body]
fn set_is_superset<T: Eq + Hash, S: BuildHasher>(a: &HashSet<T, S>, b: &HashSet<T, S>) -> (r: bool)
    ensures
        (lawful_hashing::<T, S>()) ==> r == b@.subset_of(a@),
{
    a.is_superset(b)
}

impl<K: Eq + Hash, V, S: BuildHasher> Container for HashMap<K, V, S> {
    open spec fn size(&self) -> nat {
        vstd::std_specs::hash::spec_hash_map_len(self) as nat
    }

    /// The key type's hashing and equality, and the hasher, are lawful.
    open spec fn lawful_model(&self) -> bool {
        lawful_hashing::<K, S>()
    }

    fn len(&self) -> (n: usize) {
        HashMap::len(self)
    }
}

impl<K: Eq + Hash, V, S: BuildHasher> Clearable for HashMap<K, V, S> {
    fn clear(&mut self) {
        HashMap::clear(self)
    }
}

impl<K: Eq + Hash, V, S: BuildHasher> MapReadShim<K, V> for HashMap<K, V, S> {
    open spec fn stored(&self, key: &K) -> Option<V> {
        self@.get(*key)
    }

    fn get(&self, key: &K) -> (r: Option<&V>) {
        HashMap::get(self, key)
    }

    fn contains_key(&self, key: &K) -> (b: bool) {
        HashMap::contains_key(self, key)
    }
}

impl<K: Eq + Hash, V, S: BuildHasher> MapInsertShim<K, K, V> for HashMap<K, V, S> {
    open spec fn held(&self, key: K) -> Option<V> {
        self@.get(key)
    }

    fn insert(&mut self, key: K, value: V) -> (prev: Option<V>) {
        HashMap::insert(self, key, value)
    }
}

impl<K: Eq + Hash, V, S: BuildHasher> MapShim<K, K, V> for HashMap<K, V, S> {
    fn get_mut(&mut self, key: &K) -> Option<&mut V> {
        map_get_mut(self, key)
    }

    fn remove(&mut self, key: &K) -> (r: Option<V>) {
        HashMap::remove(self, key)
    }
}

impl<K: Eq + Hash, V, S: BuildHasher> MapFacade<K, V> for HashMap<K, V, S> {
}

impl<T: Eq + Hash, S: BuildHasher> Container for HashSet<T, S> {
    open spec fn size(&self) -> nat {
        vstd::std_specs::hash::spec_hash_set_len(self) as nat
    }

    /// The element type's hashing and equality, and the hasher, are lawful.
    open spec fn lawful_model(&self) -> bool {
        lawful_hashing::<T, S>()
    }

    fn len(&self) -> (n: usize) {
        HashSet::len(self)
    }
}

impl<T: Eq + Hash, S: BuildHasher> Clearable for HashSet<T, S> {
    fn clear(&mut self) {
        HashSet::clear(self)
    }
}

impl<T: Eq + Hash, S: BuildHasher> SetReadShim<T, T> for HashSet<T, S> {
    open spec fn element_for(&self, value: &T) -> Option<T> {
        if self@.contains(*value) { Some(*value) } else { None }
    }

    open spec fn element_like(&self, value: T) -> Option<T> {
        if self@.contains(value) { Some(value) } else { None }
    }

    fn get(&self, value: &T) -> (r: Option<&T>) {
        HashSet::get(self, value)
    }

    fn contains(&self, value: &T) -> (b: bool) {
        HashSet::contains(self, value)
    }

    fn is_disjoint(&self, other: &Self) -> (b: bool) {
        let b = set_is_disjoint(self, other);
        proof {
            if lawful_hashing::<T, S>() {
                if !b {
                    let t = choose|t: T| self@.contains(t) && other@.contains(t);
                    assert(self.element_like(t) is Some && other.element_like(t) is Some);
                }
            }
        }
        b
    }

    fn is_subset(&self, other: &Self) -> (b: bool) {
        let b = set_is_subset(self, other);
        proof {
            if lawful_hashing::<T, S>() {
                if !b {
                    let t = choose|t: T| self@.contains(t) && !other@.contains(t);
                    assert(self.element_like(t) is Some && other.element_like(t) is None);
                }
            }
        }
        b
    }

    fn is_superset(&self, other: &Self) -> (b: bool) {
        let b = set_is_superset(self, other);
        proof {
            if lawful_hashing::<T, S>() {
                if !b {
                    let t = choose|t: T| other@.contains(t) && !self@.contains(t);
                    assert(other.element_like(t) is Some && self.element_like(t) is None);
                }
            }
        }
        b
    }
}

impl<T: Eq + Hash, S: BuildHasher> SetShim<T, T> for HashSet<T, S> {
    fn remove(&mut self, value: &T) -> (b: bool) {
        HashSet::remove(self, value)
    }

    fn insert(&mut self, value: T) -> (b: bool) {
        HashSet::insert(self, value)
    }

    fn replace(&mut self, value: T) -> (r: Option<T>) {
        set_replace(self, value)
    }

    fn take(&mut self, value: &T) -> (r: Option<T>) {
        set_take(self, value)
    }
}

impl<T: Eq + Hash, S: BuildHasher> SetFacade<T> for HashSet<T, S> {
}

} // verus!
