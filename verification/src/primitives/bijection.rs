use vstd::prelude::*;

use super::checkpointing::ScopedRollback;

verus! {

/// A bijection `K <-> V`, one key to one value with lookups both ways, that
/// remembers insertion order and rolls back atomically to a checkpoint.
pub trait Bimap<K, V>: ScopedRollback {
    /// The error an insert returns when the pair would break bijectivity.
    type InsertError;

    /// The value bound to `key`, if any.
    spec fn value_of(&self, key: K) -> Option<V>;

    /// The key bound to `value`, if any.
    spec fn key_of(&self, value: V) -> Option<K>;

    /// Forward lookup: the value bound to `key`, if any, which in turn is
    /// bound back to `key`.
    fn get_by_key(&self, key: &K) -> (r: Option<&V>)
        ensures
            self.lawful_model() ==> (r matches Some(v) ==> self.value_of(*key) == Some(*v)
                && self.key_of(*v) == Some(*key)),
            self.lawful_model() ==> (r is None ==> self.value_of(*key) is None),
    ;

    /// Reverse lookup: the key bound to `value`, if any, which in turn is
    /// bound to `value`.
    fn get_by_value(&self, value: &V) -> (r: Option<&K>)
        ensures
            self.lawful_model() ==> (r matches Some(k) ==> self.key_of(*value) == Some(*k)
                && self.value_of(*k) == Some(*value)),
            self.lawful_model() ==> (r is None ==> self.key_of(*value) is None),
    ;

    /// Whether the pair can be offered to `insert` at all.
    spec fn can_insert(&self, key: K, value: V) -> bool;

    /// Insert a fresh `key <-> value` pair; on rejection (either side already
    /// mapped) nothing is inserted.
    fn insert(&mut self, key: K, value: V) -> (r: Result<(), Self::InsertError>)
        requires
            old(self).can_insert(key, value),
        ensures
            old(self).lawful_model() ==> (r is Ok <==> old(self).value_of(key) is None
                && old(self).key_of(value) is None),
            old(self).lawful_model() ==> (r is Ok ==> final(self).value_of(key) == Some(value)
                && final(self).key_of(value) == Some(key)),
            r is Ok ==> final(self).size() == old(self).size() + 1,
            r is Err ==> final(self).size() == old(self).size(),
    ;

    /// The `(key, value)` pairs in insertion order.
    fn iter(&self) -> (r: Vec<(&K, &V)>)
        ensures
            r@.len() == self.size(),
    ;
}

} // verus!
