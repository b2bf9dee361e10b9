use vstd::prelude::*;
use std::collections::BTreeMap;

use crate::primitives::checkpointing::rolled_back;
use crate::primitives::{Bimap, Checkpoint, Clearable, Container, ScopedRollback};
use crate::values::clone_preserves;
use super::pairs::{fwd_map, rev_map, pairs_unique, lemma_maps_of_log, lemma_maps_drop_last, lemma_push_unique, law_bimap_inverse};

verus! {

/// Why an insert was refused; carries the rejected `(key, value)` back.
#[derive(Clone, PartialEq, Eq, Debug)]
pub enum InsertError<K, V> {
    /// `key` was already mapped (to some value).
    DuplicateKey(K, V),
    /// `value` was already mapped (from some key).
    DuplicateValue(K, V),
}

impl<K, V> InsertError<K, V> {
    /// The reason, in words.
    pub fn describe(&self) -> (s: &'static str)
        ensures
            s@ == (match self {
                InsertError::DuplicateKey(..) => "key already mapped (bijection violation)"@,
                InsertError::DuplicateValue(..) => "value already mapped (bijection violation)"@,
            }),
    {
        match self {
            InsertError::DuplicateKey(..) => "key already mapped (bijection violation)",
            InsertError::DuplicateValue(..) => "value already mapped (bijection violation)",
        }
    }
}

/// A scope-checkpointed bijection `K <-> V` with an insertion-order log.
///
/// Every entry is a 1-to-1 pair. `insert` refuses to break that, and
/// `truncate` rolls every later entry out of both lookup directions and the
/// log at once, so the directions cannot drift apart.
pub struct BTreeBimap<K: Ord + Clone, V: Ord + Clone> {
    fwd: BTreeMap<K, V>,
    rev: BTreeMap<V, K>,
    /// Insertion order; also the rollback log (truncated from the back).
    order: Vec<(K, V)>,
}

impl<K: Ord + Clone, V: Ord + Clone> View for BTreeBimap<K, V> {
    type V = Seq<(K, V)>;

    /// The pairs in insertion order.
    closed spec fn view(&self) -> Seq<(K, V)> {
        self.order@
    }
}

impl<K: Ord + Clone, V: Ord + Clone> BTreeBimap<K, V> {
    /// The key and value types order and clone lawfully, which the lookup
    /// contracts rely on.
    pub open spec fn lawful() -> bool {
        &&& vstd::laws_cmp::obeys_cmp::<K>()
        &&& vstd::laws_cmp::obeys_cmp::<V>()
        &&& clone_preserves::<K>()
        &&& clone_preserves::<V>()
    }

    #[verifier::type_invariant]
    spec fn inv(self) -> bool {
        Self::lawful() ==> {
            &&& pairs_unique(self.order@)
            &&& self.fwd@ == fwd_map(self.order@)
            &&& self.rev@ == rev_map(self.order@)
        }
    }

    /// The forward map: each key to its value.
    pub open spec fn forward(&self) -> Map<K, V> {
        fwd_map(self@)
    }

    /// The reverse map: each value to its key.
    pub open spec fn backward(&self) -> Map<V, K> {
        rev_map(self@)
    }

    /// Create an empty bimap.
    pub fn new() -> (m: Self)
        ensures
            m@ == Seq::<(K, V)>::empty(),
    {
        BTreeBimap { fwd: BTreeMap::new(), rev: BTreeMap::new(), order: Vec::new() }
    }

    /// Number of entries currently held.
    pub fn len(&self) -> (n: usize)
        ensures
            n == self@.len(),
    {
        self.order.len()
    }

    /// Whether the bimap holds no entries.
    pub fn is_empty(&self) -> (b: bool)
        ensures
            b == (self@.len() == 0),
    {
        self.order.len() == 0
    }

    /// A checkpoint of the current size for a later `truncate`: exactly the
    /// current length.
    pub fn checkpoint(&self) -> (n: usize)
        ensures
            n == self@.len(),
    {
        self.order.len()
    }

    /// Like `checkpoint`, as a typed mark.
    pub fn checkpoint_mark(&self) -> (m: Checkpoint)
        ensures
            m.len_spec() == self@.len(),
    {
        Checkpoint::from_len(self.order.len())
    }

    /// The entries in insertion order.
    pub fn entries(&self) -> (r: &[(K, V)])
        ensures
            r@ == self@,
    {
        self.order.as_slice()
    }

    /// The `(key, value)` pairs in insertion order.
    pub fn iter(&self) -> (r: Vec<(&K, &V)>)
        ensures
            r@.len() == self@.len(),
            forall|i: int| 0 <= i < r@.len() ==> (*(#[trigger] r@[i]).0, *r@[i].1) == self@[i],
    {
        let mut r: Vec<(&K, &V)> = Vec::with_capacity(self.order.len());
        let mut i: usize = 0;
        while i < self.order.len()
            invariant
                i <= self.order@.len(),
                r@.len() == i,
                forall|j: int| 0 <= j < i ==> (*(#[trigger] r@[j]).0, *r@[j].1) == self.order@[j],
            decreases self.order@.len() - i,
        {
            let e = &self.order[i];
            r.push((&e.0, &e.1));
            i = i + 1;
        }
        r
    }

    /// The keys in insertion order.
    pub fn keys(&self) -> (r: Vec<&K>)
        ensures
            r@.len() == self@.len(),
            forall|i: int| 0 <= i < r@.len() ==> *(#[trigger] r@[i]) == self@[i].0,
    {
        let mut r: Vec<&K> = Vec::with_capacity(self.order.len());
        let mut i: usize = 0;
        while i < self.order.len()
            invariant
                i <= self.order@.len(),
                r@.len() == i,
                forall|j: int| 0 <= j < i ==> *(#[trigger] r@[j]) == self.order@[j].0,
            decreases self.order@.len() - i,
        {
            r.push(&self.order[i].0);
            i = i + 1;
        }
        r
    }

    /// The values in insertion order.
    pub fn values(&self) -> (r: Vec<&V>)
        ensures
            r@.len() == self@.len(),
            forall|i: int| 0 <= i < r@.len() ==> *(#[trigger] r@[i]) == self@[i].1,
    {
        let mut r: Vec<&V> = Vec::with_capacity(self.order.len());
        let mut i: usize = 0;
        while i < self.order.len()
            invariant
                i <= self.order@.len(),
                r@.len() == i,
                forall|j: int| 0 <= j < i ==> *(#[trigger] r@[j]) == self.order@[j].1,
            decreases self.order@.len() - i,
        {
            r.push(&self.order[i].1);
            i = i + 1;
        }
        r
    }

    /// Remove all entries from every store.
    pub fn clear(&mut self)
        ensures
            final(self)@ == Seq::<(K, V)>::empty(),
    {
        *self = BTreeBimap { fwd: BTreeMap::new(), rev: BTreeMap::new(), order: Vec::new() };
    }

    /// The value bound to `key`, if any (forward lookup).
    pub fn get(&self, key: &K) -> (r: Option<&V>)
        ensures
            Self::lawful() ==> (r matches Some(v) ==> self.forward().get(*key) == Some(*v)),
            Self::lawful() ==> (r is None ==> !self.forward().contains_key(*key)),
    {
        proof {
            use_type_invariant(self);
        }
        self.fwd.get(key)
    }

    /// The key bound to `value`, if any (reverse lookup).
    pub fn get_key(&self, value: &V) -> (r: Option<&K>)
        ensures
            Self::lawful() ==> (r matches Some(k) ==> self.backward().get(*value) == Some(*k)),
            Self::lawful() ==> (r is None ==> !self.backward().contains_key(*value)),
    {
        proof {
            use_type_invariant(self);
        }
        self.rev.get(value)
    }

    /// Whether `key` is mapped.
    pub fn contains_key(&self, key: &K) -> (b: bool)
        ensures
            Self::lawful() ==> b == self.forward().contains_key(*key),
    {
        proof {
            use_type_invariant(self);
        }
        self.fwd.contains_key(key)
    }

    /// Whether `value` is mapped.
    pub fn contains_value(&self, value: &V) -> (b: bool)
        ensures
            Self::lawful() ==> b == self.backward().contains_key(*value),
    {
        proof {
            use_type_invariant(self);
        }
        self.rev.contains_key(value)
    }

    /// Insert a fresh `key <-> value` pair, preserving bijectivity: a mapped
    /// key gives `DuplicateKey`, else a mapped value gives `DuplicateValue`,
    /// and either way nothing is inserted; on success both directions and
    /// the log gain the pair together.
    pub fn insert(&mut self, key: K, value: V) -> (r: Result<(), InsertError<K, V>>)
        ensures
            r is Ok ==> final(self)@ == old(self)@.push((key, value)),
            r is Err ==> final(self)@ == old(self)@,
            r matches Err(InsertError::DuplicateKey(k, v)) ==> k == key && v == value,
            r matches Err(InsertError::DuplicateValue(k, v)) ==> k == key && v == value,
            Self::lawful() ==> {
                &&& (r matches Err(InsertError::DuplicateKey(..))) == old(self).forward().contains_key(key)
                &&& (r matches Err(InsertError::DuplicateValue(..))) == (!old(self).forward().contains_key(key)
                    && old(self).backward().contains_key(value))
            },
    {
        proof {
            use_type_invariant(&*self);
        }
        if self.fwd.contains_key(&key) {
            return Err(InsertError::DuplicateKey(key, value));
        }
        if self.rev.contains_key(&value) {
            return Err(InsertError::DuplicateValue(key, value));
        }
        let BTreeBimap { mut fwd, mut rev, mut order } = self.take_all();
        let ghost log = order@;
        let k1 = key.clone();
        let v1 = value.clone();
        let k2 = key.clone();
        let v2 = value.clone();
        fwd.insert(k1, v1);
        rev.insert(v2, k2);
        order.push((key, value));
        proof {
            if Self::lawful() {
                assert(cloned(key, k1) && cloned(key, k2) && cloned(value, v1) && cloned(value, v2));
                lemma_push_unique(log, key, value);
                assert(fwd@ =~= fwd_map(order@)) by {
                    assert(order@.drop_last() =~= log);
                }
                assert(rev@ =~= rev_map(order@)) by {
                    assert(order@.drop_last() =~= log);
                }
            }
        }
        *self = BTreeBimap { fwd, rev, order };
        Ok(())
    }

    /// Roll back to `len` entries, dropping every later entry from the
    /// forward map, the reverse map and the log, last-in first-out. A `len`
    /// at or beyond the current size is a no-op.
    pub fn truncate(&mut self, len: usize)
        ensures
            final(self)@ == rolled_back(old(self)@, len as nat),
    {
        proof {
            use_type_invariant(&*self);
        }
        let BTreeBimap { mut fwd, mut rev, mut order } = self.take_all();
        let ghost log = order@;
        while order.len() > len
            invariant
                order@ == rolled_back(log, order@.len()),
                order@.len() <= log.len(),
                len < log.len() ==> order@.len() >= len,
                len >= log.len() ==> order@.len() == log.len(),
                Self::lawful() ==> {
                    &&& pairs_unique(order@)
                    &&& fwd@ == fwd_map(order@)
                    &&& rev@ == rev_map(order@)
                },
            decreases order@.len(),
        {
            let ghost before = order@;
            match order.pop() {
                Some((k, v)) => {
                    fwd.remove(&k);
                    rev.remove(&v);
                    proof {
                        if Self::lawful() {
                            lemma_maps_drop_last(before);
                        }
                        assert(order@ =~= log.take(order@.len() as int));
                    }
                },
                None => {},
            }
        }
        proof {
            if order@.len() == log.len() {
                assert(log.take(log.len() as int) =~= log);
            }
        }
        *self = BTreeBimap { fwd, rev, order };
    }

    /// Move every store out, leaving the bimap empty.
    fn take_all(&mut self) -> (r: BTreeBimap<K, V>)
        ensures
            r.order@ == old(self)@,
            Self::lawful() ==> {
                &&& pairs_unique(r.order@)
                &&& r.fwd@ == fwd_map(r.order@)
                &&& r.rev@ == rev_map(r.order@)
            },
            final(self)@ == Seq::<(K, V)>::empty(),
    {
        proof {
            use_type_invariant(&*self);
        }
        let mut empty = BTreeBimap { fwd: BTreeMap::new(), rev: BTreeMap::new(), order: Vec::new() };
        std::mem::swap(self, &mut empty);
        empty
    }
}

impl<K: Ord + Clone, V: Ord + Clone> Clone for BTreeBimap<K, V> {
    /// A copy holding a clone of each pair, in the same insertion order.
    fn clone(&self) -> (r: Self)
        ensures
            r@.len() == self@.len(),
            forall|i: int| 0 <= i < self@.len()
                ==> cloned(self@[i].0, (#[trigger] r@[i]).0) && cloned(self@[i].1, r@[i].1),
    {
        proof {
            use_type_invariant(self);
        }
        let fwd = self.fwd.clone();
        let rev = self.rev.clone();
        let mut order: Vec<(K, V)> = Vec::with_capacity(self.order.len());
        let mut i: usize = 0;
        while i < self.order.len()
            invariant
                i <= self.order@.len(),
                order@.len() == i,
                forall|j: int| 0 <= j < i
                    ==> cloned(self.order@[j].0, (#[trigger] order@[j]).0) && cloned(self.order@[j].1, order@[j].1),
            decreases self.order@.len() - i,
        {
            let k = self.order[i].0.clone();
            let v = self.order[i].1.clone();
            order.push((k, v));
            i = i + 1;
        }
        proof {
            if Self::lawful() {
                assert forall|j: int| 0 <= j < order@.len() implies order@[j] == self.order@[j] by {
                    assert(cloned(self.order@[j].0, order@[j].0));
                    assert(cloned(self.order@[j].1, order@[j].1));
                }
                assert(order@ =~= self.order@);
            }
        }
        BTreeBimap { fwd, rev, order }
    }
}

impl<K: Ord + Clone, V: Ord + Clone> Default for BTreeBimap<K, V> {
    fn default() -> (m: Self)
        ensures
            m@ == Seq::<(K, V)>::empty(),
    {
        Self::new()
    }
}

impl<K: Ord + Clone, V: Ord + Clone> Container for BTreeBimap<K, V> {
    open spec fn size(&self) -> nat {
        self@.len()
    }

    /// Keys and values order and clone lawfully.
    open spec fn lawful_model(&self) -> bool {
        Self::lawful()
    }

    fn len(&self) -> (n: usize) {
        BTreeBimap::len(self)
    }
}

impl<K: Ord + Clone, V: Ord + Clone> Clearable for BTreeBimap<K, V> {
    /// Clears the forward map, the reverse map and the log together.
    fn clear(&mut self)
        ensures
            final(self)@ == Seq::<(K, V)>::empty(),
    {
        BTreeBimap::clear(self);
    }
}

impl<K: Ord + Clone, V: Ord + Clone> ScopedRollback for BTreeBimap<K, V> {
    type Mark = Checkpoint;

    open spec fn mark_position(mark: Checkpoint) -> nat {
        mark.len_spec()
    }

    open spec fn position(&self) -> nat {
        self@.len()
    }

    fn checkpoint(&self) -> (mark: Checkpoint) {
        self.checkpoint_mark()
    }

    fn rollback_to(&mut self, mark: Checkpoint)
        ensures
            final(self)@ == rolled_back(old(self)@, mark.len_spec()),
    {
        self.truncate(mark.as_len());
    }
}

impl<K: Ord + Clone, V: Ord + Clone> Bimap<K, V> for BTreeBimap<K, V> {
    type InsertError = InsertError<K, V>;

    open spec fn can_insert(&self, key: K, value: V) -> bool {
        true
    }

    open spec fn value_of(&self, key: K) -> Option<V> {
        self.forward().get(key)
    }

    open spec fn key_of(&self, value: V) -> Option<K> {
        self.backward().get(value)
    }

    fn get_by_key(&self, key: &K) -> (r: Option<&V>)
        ensures
            Self::lawful() ==> (r matches Some(v) ==> self.forward().get(*key) == Some(*v)),
            Self::lawful() ==> (r is None ==> !self.forward().contains_key(*key)),
    {
        proof {
            use_type_invariant(self);
        }
        let r = self.get(key);
        proof {
            if Self::lawful() && r is Some {
                law_bimap_inverse(self@, *key, *r->0);
            }
        }
        r
    }

    fn get_by_value(&self, value: &V) -> (r: Option<&K>)
        ensures
            Self::lawful() ==> (r matches Some(k) ==> self.backward().get(*value) == Some(*k)),
            Self::lawful() ==> (r is None ==> !self.backward().contains_key(*value)),
    {
        proof {
            use_type_invariant(self);
        }
        let r = self.get_key(value);
        proof {
            if Self::lawful() && r is Some {
                law_bimap_inverse(self@, *r->0, *value);
            }
        }
        r
    }

    fn insert(&mut self, key: K, value: V) -> (r: Result<(), InsertError<K, V>>)
        ensures
            r is Ok ==> final(self)@ == old(self)@.push((key, value)),
            r is Err ==> final(self)@ == old(self)@,
            Self::lawful() ==> (r is Ok <==> (!old(self).forward().contains_key(key)
                && !old(self).backward().contains_key(value))),
    {
        BTreeBimap::insert(self, key, value)
    }

    fn iter(&self) -> (r: Vec<(&K, &V)>)
        ensures
            r@.len() == self@.len(),
            forall|i: int| 0 <= i < r@.len() ==> (*(#[trigger] r@[i]).0, *r@[i].1) == self@[i],
    {
        BTreeBimap::iter(self)
    }
}

} // verus!
