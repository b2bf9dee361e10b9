use vstd::prelude::*;
use core::borrow::Borrow;

use super::container::{Clearable, Container};

verus! {

/// Read access to a map queried by `&Q`.
pub trait MapReadShim<Q: ?Sized, V>: Container {
    /// The value stored under `key`.
    spec fn stored(&self, key: &Q) -> Option<V>;

    /// The value bound to `key`, if any.
    fn get(&self, key: &Q) -> (r: Option<&V>)
        ensures
            self.lawful_model() ==> (r matches Some(v) ==> self.stored(key) == Some(*v)),
            self.lawful_model() ==> (r is None ==> self.stored(key) is None),
    ;

    /// Whether `key` is mapped.
    fn contains_key(&self, key: &Q) -> (b: bool)
        ensures
            self.lawful_model() ==> b == self.stored(key) is Some,
    ;
}

/// Insertion into a map keyed by a borrowed `&Q`.
pub trait MapRefKeyInsertShim<Q: ?Sized, V>: MapReadShim<Q, V> + Clearable {
    /// Whether `key` may be inserted.
    spec fn may_insert(&self, key: &Q) -> bool;

    /// Insert / overwrite `key -> value`; returns the previous value if any.
    fn insert(&mut self, key: &Q, value: V) -> (prev: Option<V>)
        requires
            old(self).may_insert(key),
        ensures
            final(self).stored(key) == Some(value),
    ;
}

/// Insertion into a map keyed by an owned `K`.
pub trait MapInsertShim<K: Borrow<Q>, Q: ?Sized, V>: MapReadShim<Q, V> + Clearable {
    /// The value stored under the key equal to `key`.
    spec fn held(&self, key: K) -> Option<V>;

    /// Insert / overwrite `key -> value`; returns the previous value if any.
    fn insert(&mut self, key: K, value: V) -> (prev: Option<V>)
        ensures
            old(self).lawful_model() ==> prev == old(self).held(key),
            old(self).lawful_model() ==> final(self).held(key) == Some(value),
    ;
}

/// Mutable access to a map keyed by an owned `K`.
pub trait MapShim<K: Borrow<Q>, Q: ?Sized, V>: MapInsertShim<K, Q, V> + MapReadShim<Q, V> + Clearable {
    fn get_mut(&mut self, key: &Q) -> Option<&mut V>;

    /// Unbind `key`; returns the value it was bound to, if any.
    fn remove(&mut self, key: &Q) -> (r: Option<V>)
        ensures
            old(self).lawful_model() ==> r == old(self).stored(key),
            old(self).lawful_model() ==> final(self).stored(key) is None,
    ;
}

/// Mutable access to a map keyed by a borrowed `&Q`.
pub trait MapRefKeyShim<Q: ?Sized, V>: MapRefKeyInsertShim<Q, V> + MapReadShim<Q, V> + Clearable {
    fn get_mut(&mut self, key: &Q) -> Option<&mut V>;

    fn remove(&mut self, key: &Q) -> Option<V>;
}

/// The map facade over the shims.
pub trait MapFacade<K, V>: Container {
    /// The value bound to `key`, if any.
    fn get<Q: ?Sized>(&self, key: &Q) -> Option<&V> where K: Borrow<Q>, Self: MapShim<K, Q, V>
        requires
            self.lawful_model(),
        returns
            (match <Self as MapReadShim<Q, V>>::stored(self, key) {
                Some(v) => Some(&v),
                None => None,
            }),
    {
        <Self as MapReadShim<Q, V>>::get(self, key)
    }

    fn get_mut<Q: ?Sized>(&mut self, key: &Q) -> Option<&mut V> where K: Borrow<Q>, Self: MapShim<K, Q, V> {
        <Self as MapShim<K, Q, V>>::get_mut(self, key)
    }

    /// Unbind `key`; returns the value it was bound to, if any.
    fn remove<Q: ?Sized>(&mut self, key: &Q) -> Option<V> where K: Borrow<Q>, Self: MapShim<K, Q, V>
        requires
            old(self).lawful_model(),
        returns
            <Self as MapReadShim<Q, V>>::stored(old(self), key),
    {
        <Self as MapShim<K, Q, V>>::remove(self, key)
    }

    /// Insert / overwrite `key -> value`; returns the previous value if any.
    fn insert(&mut self, key: K, value: V) -> Option<V> where Self: MapShim<K, K, V>
        requires
            old(self).lawful_model(),
        returns
            <Self as MapInsertShim<K, K, V>>::held(old(self), key),
    {
        <Self as MapInsertShim<K, K, V>>::insert(self, key, value)
    }

    /// Whether `key` is bound.
    fn contains_key<Q: ?Sized>(&self, key: &Q) -> bool where K: Borrow<Q>, Self: MapShim<K, Q, V>
        requires
            self.lawful_model(),
        returns
            <Self as MapReadShim<Q, V>>::stored(self, key) is Some,
    {
        <Self as MapReadShim<Q, V>>::contains_key(self, key)
    }
}

/// Read access to a set queried by `&Q`.
pub trait SetReadShim<T: Borrow<Q>, Q: ?Sized>: Container {
    /// The stored element that `value` finds, if any.
    spec fn element_for(&self, value: &Q) -> Option<T>;

    /// The stored element equal to `value`, if any.
    spec fn element_like(&self, value: T) -> Option<T>;

    /// The stored element that `value` finds, if any.
    fn get(&self, value: &Q) -> (r: Option<&T>)
        ensures
            self.lawful_model() ==> (r matches Some(t) ==> self.element_for(value) == Some(*t)),
            self.lawful_model() ==> (r is None ==> self.element_for(value) is None),
    ;

    /// Whether `value` finds an element.
    fn contains(&self, value: &Q) -> (b: bool)
        ensures
            self.lawful_model() ==> (b == self.element_for(value) is Some),
    ;

    /// Whether no element of this set is equal to an element of `other`.
    fn is_disjoint(&self, other: &Self) -> (b: bool)
        ensures
            self.lawful_model() && other.lawful_model() ==> (b == forall|t: T| #[trigger] self.element_like(t) is Some ==> other.element_like(t) is None),
    ;

    /// Whether every element of this set is equal to an element of `other`.
    fn is_subset(&self, other: &Self) -> (b: bool)
        ensures
            self.lawful_model() && other.lawful_model() ==> (b == forall|t: T| #[trigger] self.element_like(t) is Some ==> other.element_like(t) is Some),
    ;

    /// Whether every element of `other` is equal to an element of this set.
    fn is_superset(&self, other: &Self) -> (b: bool)
        ensures
            self.lawful_model() && other.lawful_model() ==> (b == forall|t: T| #[trigger] other.element_like(t) is Some ==> self.element_like(t) is Some),
    ;
}

/// Mutable access to a set.
pub trait SetShim<T: Borrow<Q>, Q: ?Sized>: SetReadShim<T, Q> {
    /// Drop the element that `value` finds; whether there was one.
    fn remove(&mut self, value: &Q) -> (b: bool)
        ensures
            old(self).lawful_model() ==> (b == old(self).element_for(value) is Some),
            old(self).lawful_model() ==> (final(self).element_for(value) is None),
    ;

    /// Add `value` unless an equal element is already there, which then
    /// stays; whether it was added.
    fn insert(&mut self, value: T) -> (b: bool)
        ensures
            old(self).lawful_model() ==> (b == old(self).element_like(value) is None),
            old(self).lawful_model() ==> (final(self).element_like(value) == (if b { Some(value) } else { old(self).element_like(value) })),
    ;

    /// Add `value` in place of an equal element; returns the element it
    /// replaced, if any.
    fn replace(&mut self, value: T) -> (r: Option<T>)
        ensures
            old(self).lawful_model() ==> (r == old(self).element_like(value)),
            old(self).lawful_model() ==> (final(self).element_like(value) == Some(value)),
    ;

    /// Remove and return the element that `value` finds, if any.
    fn take(&mut self, value: &Q) -> (r: Option<T>)
        ensures
            old(self).lawful_model() ==> (r == old(self).element_for(value)),
            old(self).lawful_model() ==> (final(self).element_for(value) is None),
    ;
}

/// The set facade over the shims.
pub trait SetFacade<T>: Container {
    /// The stored element that `value` finds, if any.
    fn get<Q: ?Sized>(&self, value: &Q) -> Option<&T> where T: Borrow<Q>, Self: SetShim<T, Q>
        requires
            self.lawful_model(),
        returns
            (match <Self as SetReadShim<T, Q>>::element_for(self, value) {
                Some(t) => Some(&t),
                None => None,
            }),
    {
        <Self as SetReadShim<T, Q>>::get(self, value)
    }

    /// Drop the element that `value` finds; whether there was one.
    fn remove<Q: ?Sized>(&mut self, value: &Q) -> bool where T: Borrow<Q>, Self: SetShim<T, Q>
        requires
            old(self).lawful_model(),
        returns
            <Self as SetReadShim<T, Q>>::element_for(old(self), value) is Some,
    {
        <Self as SetShim<T, Q>>::remove(self, value)
    }

    /// Add `value` unless an equal element is already there; whether it was
    /// added.
    fn insert(&mut self, value: T) -> bool where Self: SetShim<T, T>
        requires
            old(self).lawful_model(),
        returns
            <Self as SetReadShim<T, T>>::element_like(old(self), value) is None,
    {
        <Self as SetShim<T, T>>::insert(self, value)
    }

    /// Whether `value` finds an element.
    fn contains<Q: ?Sized>(&self, value: &Q) -> bool where T: Borrow<Q>, Self: SetShim<T, Q>
        requires
            self.lawful_model(),
        returns
            <Self as SetReadShim<T, Q>>::element_for(self, value) is Some,
    {
        <Self as SetReadShim<T, Q>>::contains(self, value)
    }

    /// Whether no element of this set is equal to an element of `other`.
    fn is_disjoint(&self, other: &Self) -> bool where Self: SetShim<T, T>
        requires
            self.lawful_model(),
            other.lawful_model(),
        returns
            forall|t: T| #[trigger] <Self as SetReadShim<T, T>>::element_like(self, t) is Some
                ==> <Self as SetReadShim<T, T>>::element_like(other, t) is None,
    {
        <Self as SetReadShim<T, T>>::is_disjoint(self, other)
    }

    /// Whether every element of this set is equal to an element of `other`.
    fn is_subset(&self, other: &Self) -> bool where Self: SetShim<T, T>
        requires
            self.lawful_model(),
            other.lawful_model(),
        returns
            forall|t: T| #[trigger] <Self as SetReadShim<T, T>>::element_like(self, t) is Some
                ==> <Self as SetReadShim<T, T>>::element_like(other, t) is Some,
    {
        <Self as SetReadShim<T, T>>::is_subset(self, other)
    }

    /// Whether every element of `other` is equal to an element of this set.
    fn is_superset(&self, other: &Self) -> bool where Self: SetShim<T, T>
        requires
            self.lawful_model(),
            other.lawful_model(),
        returns
            forall|t: T| #[trigger] <Self as SetReadShim<T, T>>::element_like(other, t) is Some
                ==> <Self as SetReadShim<T, T>>::element_like(self, t) is Some,
    {
        <Self as SetReadShim<T, T>>::is_superset(self, other)
    }

    /// Add `value` in place of an equal element; returns the element it
    /// replaced, if any.
    fn replace(&mut self, value: T) -> Option<T> where Self: SetShim<T, T>
        requires
            old(self).lawful_model(),
        returns
            <Self as SetReadShim<T, T>>::element_like(old(self), value),
    {
        <Self as SetShim<T, T>>::replace(self, value)
    }

    /// Remove and return the element that `value` finds, if any.
    fn take<Q: ?Sized>(&mut self, value: &Q) -> Option<T> where T: Borrow<Q>, Self: SetShim<T, Q>
        requires
            old(self).lawful_model(),
        returns
            <Self as SetReadShim<T, Q>>::element_for(old(self), value),
    {
        <Self as SetShim<T, Q>>::take(self, value)
    }
}

} // verus!
