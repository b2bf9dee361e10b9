use vstd::prelude::*;

use crate::primitives::checkpointing::rolled_back;
use crate::primitives::{Bimap, Checkpoint, Clearable, Container, ScopedRollback};
use super::btree_bimap::InsertError;
use super::pairs::{fwd_map, rev_map, pairs_unique, lemma_maps_of_log, lemma_maps_drop_last, lemma_push_unique};

verus! {

/// A type usable as a dense `Vec` index: a cheap, total projection to
/// `usize`.
pub trait DenseIndex: Copy {
    /// The dense index this id maps to.
    spec fn dense(self) -> usize;

    /// The dense index this id maps to.
    fn to_index(self) -> (i: usize)
        ensures
            i == self.dense(),
    ;
}

impl DenseIndex for u8 {
    open spec fn dense(self) -> usize {
        self as usize
    }

    fn to_index(self) -> (i: usize) {
        self as usize
    }
}

impl DenseIndex for u16 {
    open spec fn dense(self) -> usize {
        self as usize
    }

    fn to_index(self) -> (i: usize) {
        self as usize
    }
}

impl DenseIndex for u32 {
    open spec fn dense(self) -> usize {
        self as usize
    }

    fn to_index(self) -> (i: usize) {
        self as usize
    }
}

impl DenseIndex for u64 {
    /// On targets where `usize` is narrower than 64 bits this keeps the low
    /// bits, as `as` does.
    open spec fn dense(self) -> usize {
        self as usize
    }

    fn to_index(self) -> (i: usize) {
        self as usize
    }
}

impl DenseIndex for usize {
    open spec fn dense(self) -> usize {
        self
    }

    fn to_index(self) -> (i: usize) {
        self
    }
}

/// The log with each key taken by its dense index.
pub open spec fn keyed<K: DenseIndex, V>(s: Seq<(K, V)>) -> Seq<(usize, V)> {
    s.map_values(|e: (K, V)| (e.0.dense(), e.1))
}

/// The log with each value taken by its dense index.
pub open spec fn valued<K, V: DenseIndex>(s: Seq<(K, V)>) -> Seq<(K, usize)> {
    s.map_values(|e: (K, V)| (e.0, e.1.dense()))
}

/// The log with both sides taken by their dense indices.
pub open spec fn dense_pairs<K: DenseIndex, V: DenseIndex>(s: Seq<(K, V)>) -> Seq<(usize, usize)> {
    s.map_values(|e: (K, V)| (e.0.dense(), e.1.dense()))
}

/// No two ids of `T` share a dense index.
pub open spec fn dense_injective<T: DenseIndex>() -> bool {
    forall|a: T, b: T| #[trigger] a.dense() == #[trigger] b.dense() ==> a == b
}

/// The built-in id types keep their ids apart: distinct ids get distinct
/// dense indices, so lookups and duplicate checks go by the id itself.
pub proof fn law_dense_injective_builtin()
    ensures
        dense_injective::<u8>(),
        dense_injective::<u16>(),
        dense_injective::<u32>(),
        dense_injective::<usize>(),
{
}

/// Where `usize` is 64 bits wide, `u64` ids are kept apart too.
pub proof fn law_dense_injective_u64()
    requires
        usize::MAX == u64::MAX,
    ensures
        dense_injective::<u64>(),
{
}

/// The dense index of a built-in id is the id's own number.
pub proof fn law_dense_is_the_id(a: u8, b: u16, c: u32, d: usize)
    ensures
        a.dense() == a as int,
        b.dense() == b as int,
        c.dense() == c as int,
        d.dense() == d as int,
{
}

proof fn lemma_logs_push<K: DenseIndex, V: DenseIndex>(s: Seq<(K, V)>, k: K, v: V)
    ensures
        keyed(s.push((k, v))) == keyed(s).push((k.dense(), v)),
        valued(s.push((k, v))) == valued(s).push((k, v.dense())),
{
    assert(keyed(s.push((k, v))) =~= keyed(s).push((k.dense(), v)));
    assert(valued(s.push((k, v))) =~= valued(s).push((k, v.dense())));
}

proof fn lemma_dense_unique<K: DenseIndex, V: DenseIndex>(s: Seq<(K, V)>)
    requires
        pairs_unique(dense_pairs(s)),
    ensures
        pairs_unique(keyed(s)),
        pairs_unique(valued(s)),
{
    let d = dense_pairs(s);
    let a = keyed(s);
    let c = valued(s);
    assert(d.len() == s.len() && a.len() == s.len() && c.len() == s.len());
    assert forall|i: int, j: int| 0 <= i < a.len() && 0 <= j < a.len() && i != j
        implies #[trigger] a[i].0 != #[trigger] a[j].0 && a[i].1 != a[j].1 by {
        assert(d[i] == (s[i].0.dense(), s[i].1.dense()));
        assert(d[j] == (s[j].0.dense(), s[j].1.dense()));
        assert(d[i].0 != d[j].0 && d[i].1 != d[j].1);
    }
    assert forall|i: int, j: int| 0 <= i < c.len() && 0 <= j < c.len() && i != j
        implies #[trigger] c[i].0 != #[trigger] c[j].0 && c[i].1 != c[j].1 by {
        assert(d[i] == (s[i].0.dense(), s[i].1.dense()));
        assert(d[j] == (s[j].0.dense(), s[j].1.dense()));
        assert(d[i].0 != d[j].0 && d[i].1 != d[j].1);
    }
}

/// A bijection `K <-> V` for dense integer ids, backed by direct-indexed
/// `Vec`s: `fwd` is indexed by the key, `rev` by the value, and `order` is
/// the insertion log that drives rollback.
pub struct FlatRadixBimap<K: DenseIndex, V: DenseIndex> {
    fwd: Vec<Option<V>>,
    rev: Vec<Option<K>>,
    /// Insertion order; also the rollback log (truncated from the back).
    order: Vec<(K, V)>,
}

impl<K: DenseIndex, V: DenseIndex> View for FlatRadixBimap<K, V> {
    type V = Seq<(K, V)>;

    /// The pairs in insertion order.
    closed spec fn view(&self) -> Seq<(K, V)> {
        self.order@
    }
}

/// A slot vector agrees with a map over its indices, and the map has no key
/// beyond it.
pub open spec fn slots_match<T>(slots: Seq<Option<T>>, m: Map<usize, T>) -> bool {
    &&& forall|i: int| 0 <= i < slots.len() ==> #[trigger] slots[i] == m.get(i as usize)
    &&& forall|i: usize| #[trigger] m.contains_key(i) ==> i < slots.len()
}

impl<K: DenseIndex, V: DenseIndex> FlatRadixBimap<K, V> {
    #[verifier::type_invariant]
    spec fn inv(self) -> bool {
        &&& pairs_unique(dense_pairs(self.order@))
        &&& slots_match(self.fwd@, fwd_map(keyed(self.order@)))
        &&& slots_match(self.rev@, rev_map(valued(self.order@)))
    }

    /// The forward map by dense key index: each key's index to its value.
    pub open spec fn forward(&self) -> Map<usize, V> {
        fwd_map(keyed(self@))
    }

    /// The reverse map by dense value index: each value's index to its key.
    pub open spec fn backward(&self) -> Map<usize, K> {
        rev_map(valued(self@))
    }

    /// Create an empty bimap.
    pub fn new() -> (m: Self)
        ensures
            m@ == Seq::<(K, V)>::empty(),
    {
        let m = FlatRadixBimap { fwd: Vec::new(), rev: Vec::new(), order: Vec::new() };
        proof {
            assert(dense_pairs(m.order@) =~= Seq::<(usize, usize)>::empty());
            assert(keyed(m.order@) =~= Seq::<(usize, V)>::empty());
            assert(valued(m.order@) =~= Seq::<(K, usize)>::empty());
        }
        m
    }

    /// Number of entries currently held.
    pub fn len(&self) -> (n: usize)
        ensures
            n == self@.len(),
    {
        self.order.len()
    }

    /// Whether the bimap holds no entries.
    pub fn is_empty(&self) -> (b: bool)
        ensures
            b == (self@.len() == 0),
    {
        self.order.len() == 0
    }

    /// A checkpoint of the current size for a later `truncate`.
    pub fn checkpoint(&self) -> (n: usize)
        ensures
            n == self@.len(),
    {
        self.order.len()
    }

    /// Like `checkpoint`, as a typed mark.
    pub fn checkpoint_mark(&self) -> (m: Checkpoint)
        ensures
            m.len_spec() == self@.len(),
    {
        Checkpoint::from_len(self.order.len())
    }

    /// The entries in insertion order.
    pub fn entries(&self) -> (r: &[(K, V)])
        ensures
            r@ == self@,
    {
        self.order.as_slice()
    }

    /// The `(key, value)` pairs in insertion order.
    pub fn iter(&self) -> (r: Vec<(&K, &V)>)
        ensures
            r@.len() == self@.len(),
            forall|i: int| 0 <= i < r@.len() ==> (*(#[trigger] r@[i]).0, *r@[i].1) == self@[i],
    {
        let mut r: Vec<(&K, &V)> = Vec::with_capacity(self.order.len());
        let mut i: usize = 0;
        while i < self.order.len()
            invariant
                i <= self.order@.len(),
                r@.len() == i,
                forall|j: int| 0 <= j < i ==> (*(#[trigger] r@[j]).0, *r@[j].1) == self.order@[j],
            decreases self.order@.len() - i,
        {
            let e = &self.order[i];
            r.push((&e.0, &e.1));
            i = i + 1;
        }
        r
    }

    /// The keys in insertion order.
    pub fn keys(&self) -> (r: Vec<&K>)
        ensures
            r@.len() == self@.len(),
            forall|i: int| 0 <= i < r@.len() ==> *(#[trigger] r@[i]) == self@[i].0,
    {
        let mut r: Vec<&K> = Vec::with_capacity(self.order.len());
        let mut i: usize = 0;
        while i < self.order.len()
            invariant
                i <= self.order@.len(),
                r@.len() == i,
                forall|j: int| 0 <= j < i ==> *(#[trigger] r@[j]) == self.order@[j].0,
            decreases self.order@.len() - i,
        {
            r.push(&self.order[i].0);
            i = i + 1;
        }
        r
    }

    /// The values in insertion order.
    pub fn values(&self) -> (r: Vec<&V>)
        ensures
            r@.len() == self@.len(),
            forall|i: int| 0 <= i < r@.len() ==> *(#[trigger] r@[i]) == self@[i].1,
    {
        let mut r: Vec<&V> = Vec::with_capacity(self.order.len());
        let mut i: usize = 0;
        while i < self.order.len()
            invariant
                i <= self.order@.len(),
                r@.len() == i,
                forall|j: int| 0 <= j < i ==> *(#[trigger] r@[j]) == self.order@[j].1,
            decreases self.order@.len() - i,
        {
            r.push(&self.order[i].1);
            i = i + 1;
        }
        r
    }

    /// The value bound to `key`, if any (forward lookup). An id beyond the
    /// index vector gives `None`.
    pub fn get(&self, key: &K) -> (r: Option<&V>)
        ensures
            r matches Some(v) ==> self.forward().get(key.dense()) == Some(*v),
            r is None ==> !self.forward().contains_key(key.dense()),
    {
        proof {
            use_type_invariant(self);
        }
        let i = (*key).to_index();
        if i < self.fwd.len() {
            self.fwd[i].as_ref()
        } else {
            None
        }
    }

    /// The key bound to `value`, if any (reverse lookup).
    pub fn get_key(&self, value: &V) -> (r: Option<&K>)
        ensures
            r matches Some(k) ==> self.backward().get(value.dense()) == Some(*k),
            r is None ==> !self.backward().contains_key(value.dense()),
    {
        proof {
            use_type_invariant(self);
        }
        let i = (*value).to_index();
        if i < self.rev.len() {
            self.rev[i].as_ref()
        } else {
            None
        }
    }

    /// Whether `key` is mapped.
    pub fn contains_key(&self, key: &K) -> (b: bool)
        ensures
            b == self.forward().contains_key(key.dense()),
    {
        self.get(key).is_some()
    }

    /// Whether `value` is mapped.
    pub fn contains_value(&self, value: &V) -> (b: bool)
        ensures
            b == self.backward().contains_key(value.dense()),
    {
        self.get_key(value).is_some()
    }

    /// Insert a fresh `key <-> value` pair, preserving bijectivity: a mapped
    /// key gives `DuplicateKey`, else a mapped value gives `DuplicateValue`,
    /// and either way nothing is inserted; on success both index vectors and
    /// the log gain the pair together.
    pub fn insert(&mut self, key: K, value: V) -> (r: Result<(), InsertError<K, V>>)
        requires
            key.dense() < usize::MAX,
            value.dense() < usize::MAX,
        ensures
            r is Ok ==> final(self)@ == old(self)@.push((key, value)),
            r is Err ==> final(self)@ == old(self)@,
            r matches Err(InsertError::DuplicateKey(k, v)) ==> k == key && v == value,
            r matches Err(InsertError::DuplicateValue(k, v)) ==> k == key && v == value,
            (r matches Err(InsertError::DuplicateKey(..))) == old(self).forward().contains_key(key.dense()),
            (r matches Err(InsertError::DuplicateValue(..))) == (!old(self).forward().contains_key(key.dense())
                && old(self).backward().contains_key(value.dense())),
    {
        if self.contains_key(&key) {
            return Err(InsertError::DuplicateKey(key, value));
        }
        if self.contains_value(&value) {
            return Err(InsertError::DuplicateValue(key, value));
        }
        proof {
            use_type_invariant(&*self);
        }
        let ki = key.to_index();
        let vi = value.to_index();
        let FlatRadixBimap { mut fwd, mut rev, mut order } = self.take_all();
        let ghost log = order@;
        let ghost fm = fwd_map(keyed(log));
        let ghost rm = rev_map(valued(log));
        if ki >= fwd.len() {
            grow_slots(&mut fwd, ki + 1);
        }
        if vi >= rev.len() {
            grow_slots(&mut rev, vi + 1);
        }
        fwd.set(ki, Some(value));
        rev.set(vi, Some(key));
        order.push((key, value));
        proof {
            let nl = order@;
            assert(keyed(nl) =~= keyed(log).push((ki, value)));
            assert(valued(nl) =~= valued(log).push((key, vi)));
            assert(dense_pairs(nl) =~= dense_pairs(log).push((ki, vi)));
            assert(keyed(nl).drop_last() =~= keyed(log));
            assert(valued(nl).drop_last() =~= valued(log));
            lemma_dense_unique(log);
            lemma_maps_of_log(dense_pairs(log));
            lemma_maps_of_log(keyed(log));
            lemma_maps_of_log(valued(log));
            assert(!fwd_map(dense_pairs(log)).contains_key(ki)) by {
                if fwd_map(dense_pairs(log)).contains_key(ki) {
                    let j = choose|j: int| 0 <= j < log.len() && dense_pairs(log)[j].0 == ki;
                    assert(keyed(log)[j].0 == ki);
                }
            }
            assert(!rev_map(dense_pairs(log)).contains_key(vi)) by {
                if rev_map(dense_pairs(log)).contains_key(vi) {
                    let j = choose|j: int| 0 <= j < log.len() && dense_pairs(log)[j].1 == vi;
                    assert(valued(log)[j].1 == vi);
                }
            }
            lemma_push_unique(dense_pairs(log), ki, vi);
            assert(fwd_map(keyed(nl)) == fm.insert(ki, value));
            assert(rev_map(valued(nl)) == rm.insert(vi, key));
        }
        *self = FlatRadixBimap { fwd, rev, order };
        Ok(())
    }

    /// Roll back to `len` entries, clearing every later pair from the
    /// forward index, the reverse index and the log, last-in first-out. A
    /// `len` at or beyond the current size is a no-op. The index vectors
    /// keep their length; only the popped slots are emptied.
    pub fn truncate(&mut self, len: usize)
        ensures
            final(self)@ == rolled_back(old(self)@, len as nat),
    {
        proof {
            use_type_invariant(&*self);
        }
        let FlatRadixBimap { mut fwd, mut rev, mut order } = self.take_all();
        let ghost log = order@;
        while order.len() > len
            invariant
                order@ == rolled_back(log, order@.len()),
                order@.len() <= log.len(),
                len < log.len() ==> order@.len() >= len,
                len >= log.len() ==> order@.len() == log.len(),
                pairs_unique(dense_pairs(order@)),
                slots_match(fwd@, fwd_map(keyed(order@))),
                slots_match(rev@, rev_map(valued(order@))),
            decreases order@.len(),
        {
            let ghost before = order@;
            match order.pop() {
                Some((k, v)) => {
                    let ki = k.to_index();
                    let vi = v.to_index();
                    proof {
                        lemma_dense_unique(before);
                        lemma_maps_of_log(keyed(before));
                        lemma_maps_of_log(valued(before));
                        let n = before.len() - 1;
                        assert(keyed(before)[n].0 == ki);
                        assert(valued(before)[n].1 == vi);
                        assert(fwd_map(keyed(before)).contains_key(ki));
                        assert(rev_map(valued(before)).contains_key(vi));
                    }
                    fwd.set(ki, None);
                    rev.set(vi, None);
                    let fl = fwd.len();
                    let rl = rev.len();
                    proof {
                        assert(keyed(order@) =~= keyed(before).drop_last());
                        assert(valued(order@) =~= valued(before).drop_last());
                        assert(dense_pairs(order@) =~= dense_pairs(before).drop_last());
                        lemma_maps_drop_last(keyed(before));
                        lemma_maps_drop_last(valued(before));
                        lemma_maps_drop_last(dense_pairs(before));
                        let fm = fwd_map(keyed(order@));
                        let rm = rev_map(valued(order@));
                        assert(fm == fwd_map(keyed(before)).remove(ki));
                        assert(rm == rev_map(valued(before)).remove(vi));
                        assert forall|i: int| 0 <= i < fwd@.len() implies #[trigger] fwd@[i] == fm.get(i as usize) by {
                            let u = i as usize;
                            assert(u as int == i);
                            if u != ki {
                                assert(fwd_map(keyed(before)).contains_key(u) == fm.contains_key(u));
                            }
                        }
                        assert forall|i: int| 0 <= i < rev@.len() implies #[trigger] rev@[i] == rm.get(i as usize) by {
                            let u = i as usize;
                            assert(u as int == i);
                            if u != vi {
                                assert(rev_map(valued(before)).contains_key(u) == rm.contains_key(u));
                            }
                        }
                        assert(order@ =~= log.take(order@.len() as int));
                    }
                },
                None => {},
            }
        }
        proof {
            if order@.len() == log.len() {
                assert(log.take(log.len() as int) =~= log);
            }
        }
        *self = FlatRadixBimap { fwd, rev, order };
    }

    /// Remove all entries.
    pub fn clear(&mut self)
        ensures
            final(self)@ == Seq::<(K, V)>::empty(),
    {
        *self = Self::new();
    }

    /// Move every store out, leaving the bimap empty.
    fn take_all(&mut self) -> (r: FlatRadixBimap<K, V>)
        ensures
            r.order@ == old(self)@,
            pairs_unique(dense_pairs(r.order@)),
            slots_match(r.fwd@, fwd_map(keyed(r.order@))),
            slots_match(r.rev@, rev_map(valued(r.order@))),
            final(self)@ == Seq::<(K, V)>::empty(),
    {
        proof {
            use_type_invariant(&*self);
        }
        let mut empty = Self::new();
        std::mem::swap(self, &mut empty);
        empty
    }
}

/// Extend a slot vector with empty slots up to length `n`.
fn grow_slots<T>(slots: &mut Vec<Option<T>>, n: usize)
    requires
        old(slots)@.len() <= n,
    ensures
        final(slots)@.len() == n,
        forall|i: int| 0 <= i < old(slots)@.len() ==> #[trigger] final(slots)@[i] == old(slots)@[i],
        forall|i: int| old(slots)@.len() <= i < n ==> #[trigger] final(slots)@[i] is None,
{
    let ghost orig = slots@;
    while slots.len() < n
        invariant
            orig.len() <= slots@.len() <= n,
            forall|i: int| 0 <= i < orig.len() ==> #[trigger] slots@[i] == orig[i],
            forall|i: int| orig.len() <= i < slots@.len() ==> #[trigger] slots@[i] is None,
        decreases n - slots@.len(),
    {
        slots.push(None);
    }
}

/// An element-for-element copy of a vector of plain values.
fn copy_vec<T: Copy>(v: &Vec<T>) -> (r: Vec<T>)
    ensures
        r@ == v@,
{
    let mut r: Vec<T> = Vec::with_capacity(v.len());
    let mut i: usize = 0;
    while i < v.len()
        invariant
            i <= v@.len(),
            r@ == v@.take(i as int),
        decreases v@.len() - i,
    {
        r.push(v[i]);
        proof {
            assert(v@.take(i + 1) =~= v@.take(i as int).push(v@[i as int]));
        }
        i = i + 1;
    }
    proof {
        assert(v@.take(i as int) =~= v@);
    }
    r
}

impl<K: DenseIndex, V: DenseIndex> Clone for FlatRadixBimap<K, V> {
    /// A copy with the same pairs in the same order.
    fn clone(&self) -> (r: Self)
        ensures
            r@ == self@,
    {
        proof {
            use_type_invariant(self);
        }
        FlatRadixBimap { fwd: copy_vec(&self.fwd), rev: copy_vec(&self.rev), order: copy_vec(&self.order) }
    }
}

impl<K: DenseIndex, V: DenseIndex> Default for FlatRadixBimap<K, V> {
    fn default() -> (m: Self)
        ensures
            m@ == Seq::<(K, V)>::empty(),
    {
        Self::new()
    }
}

impl<K: DenseIndex, V: DenseIndex> Container for FlatRadixBimap<K, V> {
    open spec fn size(&self) -> nat {
        self@.len()
    }

    /// No two keys, and no two values, share a dense index.
    open spec fn lawful_model(&self) -> bool {
        dense_injective::<K>() && dense_injective::<V>()
    }

    fn len(&self) -> (n: usize) {
        FlatRadixBimap::len(self)
    }
}

impl<K: DenseIndex, V: DenseIndex> Clearable for FlatRadixBimap<K, V> {
    fn clear(&mut self)
        ensures
            final(self)@ == Seq::<(K, V)>::empty(),
    {
        FlatRadixBimap::clear(self);
    }
}

impl<K: DenseIndex, V: DenseIndex> ScopedRollback for FlatRadixBimap<K, V> {
    type Mark = Checkpoint;

    open spec fn mark_position(mark: Checkpoint) -> nat {
        mark.len_spec()
    }

    open spec fn position(&self) -> nat {
        self@.len()
    }

    fn checkpoint(&self) -> (mark: Checkpoint) {
        self.checkpoint_mark()
    }

    fn rollback_to(&mut self, mark: Checkpoint)
        ensures
            final(self)@ == rolled_back(old(self)@, mark.len_spec()),
    {
        self.truncate(mark.as_len());
    }
}

impl<K: DenseIndex, V: DenseIndex> Bimap<K, V> for FlatRadixBimap<K, V> {
    type InsertError = InsertError<K, V>;

    /// Both ids index a vector one past them, so neither may be the largest
    /// `usize`.
    open spec fn can_insert(&self, key: K, value: V) -> bool {
        key.dense() < usize::MAX && value.dense() < usize::MAX
    }

    open spec fn value_of(&self, key: K) -> Option<V> {
        self.forward().get(key.dense())
    }

    open spec fn key_of(&self, value: V) -> Option<K> {
        self.backward().get(value.dense())
    }

    fn get_by_key(&self, key: &K) -> (r: Option<&V>)
        ensures
            r matches Some(v) ==> self.forward().get(key.dense()) == Some(*v),
            r is None ==> !self.forward().contains_key(key.dense()),
    {
        proof {
            use_type_invariant(self);
        }
        let r = self.get(key);
        proof {
            if r is Some {
                let log = self@;
                lemma_dense_unique(log);
                lemma_maps_of_log(keyed(log));
                lemma_maps_of_log(valued(log));
                let i = choose|i: int| 0 <= i < keyed(log).len() && keyed(log)[i].0 == key.dense();
                assert(keyed(log)[i] == (log[i].0.dense(), log[i].1));
                assert(valued(log)[i] == (log[i].0, log[i].1.dense()));
                assert(self.forward()[keyed(log)[i].0] == keyed(log)[i].1);
                assert(self.backward()[valued(log)[i].1] == valued(log)[i].0);
            }
        }
        r
    }

    fn get_by_value(&self, value: &V) -> (r: Option<&K>)
        ensures
            r matches Some(k) ==> self.backward().get(value.dense()) == Some(*k),
            r is None ==> !self.backward().contains_key(value.dense()),
    {
        proof {
            use_type_invariant(self);
        }
        let r = self.get_key(value);
        proof {
            if r is Some {
                let log = self@;
                lemma_dense_unique(log);
                lemma_maps_of_log(keyed(log));
                lemma_maps_of_log(valued(log));
                let i = choose|i: int| 0 <= i < valued(log).len() && valued(log)[i].1 == value.dense();
                assert(keyed(log)[i] == (log[i].0.dense(), log[i].1));
                assert(valued(log)[i] == (log[i].0, log[i].1.dense()));
                assert(self.forward()[keyed(log)[i].0] == keyed(log)[i].1);
                assert(self.backward()[valued(log)[i].1] == valued(log)[i].0);
            }
        }
        r
    }

    fn insert(&mut self, key: K, value: V) -> (r: Result<(), InsertError<K, V>>)
        ensures
            r is Ok ==> final(self)@ == old(self)@.push((key, value)),
            r is Err ==> final(self)@ == old(self)@,
            r is Ok <==> (!old(self).forward().contains_key(key.dense())
                && !old(self).backward().contains_key(value.dense())),
    {
        let ghost before = self@;
        let r = FlatRadixBimap::insert(self, key, value);
        proof {
            lemma_logs_push(before, key, value);
            if r is Ok {
                let a = keyed(self@);
                let c = valued(self@);
                assert(a.drop_last() =~= keyed(before));
                assert(c.drop_last() =~= valued(before));
            }
        }
        r
    }

    fn iter(&self) -> (r: Vec<(&K, &V)>)
        ensures
            r@.len() == self@.len(),
            forall|i: int| 0 <= i < r@.len() ==> (*(#[trigger] r@[i]).0, *r@[i].1) == self@[i],
    {
        FlatRadixBimap::iter(self)
    }
}

} // verus!
