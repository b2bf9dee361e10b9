use vstd::prelude::*;
use std::sync::Arc;

use crate::lex::{bytes_between, is_prefix, proper_prefix};
use crate::radix::art::{
    arc_node, fit_rec, get_rec, insert_rec_with, lemma_leaf_root_wf, root_content,
    root_wf, Node,
};
use crate::values::clone_preserves;

verus! {

/// FNV-1a offset basis.
pub const FNV_OFFSET: u64 = 0xcbf2_9ce4_8422_2325;

/// FNV-1a prime.
pub const FNV_PRIME: u64 = 0x0000_0100_0000_01b3;

/// The 64-bit FNV-1a hash of a byte string.
pub open spec fn fnv1a(bytes: Seq<u8>) -> u64
    decreases bytes.len(),
{
    if bytes.len() == 0 {
        FNV_OFFSET
    } else {
        (fnv1a(bytes.drop_last()) ^ (bytes.last() as u64)).wrapping_mul(FNV_PRIME)
    }
}

/// The shard of `key` among `n`: the FNV-1a hash of its first `prefix`
/// bytes (all of them if it is shorter), modulo `n`.
pub open spec fn shard_spec(key: Seq<u8>, prefix: int, n: int) -> int {
    let end = if prefix < key.len() { prefix } else { key.len() as int };
    fnv1a(key.take(end)) as int % n
}

/// The shard a key maps to.
pub fn shard_of(key: &[u8], prefix: usize, n: usize) -> (s: usize)
    requires
        n > 0,
    ensures
        s == shard_spec(key@, prefix as int, n as int),
        s < n,
{
    let end = if prefix < key.len() { prefix } else { key.len() };
    let mut h: u64 = FNV_OFFSET;
    let mut i: usize = 0;
    while i < end
        invariant
            i <= end <= key@.len(),
            h == fnv1a(key@.take(i as int)),
        decreases end - i,
    {
        proof {
            assert(key@.take(i + 1).drop_last() =~= key@.take(i as int));
        }
        h = (h ^ (key[i] as u64)).wrapping_mul(FNV_PRIME);
        i = i + 1;
    }
    (h % (n as u64)) as usize
}

/// A write of `seq` to `key` is superseded when the key already holds a
/// value stamped `seq` or later.
pub open spec fn superseded<V>(m: Map<Seq<u8>, (u64, V)>, key: Seq<u8>, seq: u64) -> bool {
    m.contains_key(key) && m[key].0 >= seq
}

/// A monotone write: it lands only if its stamp exceeds the resident one.
pub open spec fn apply_stamped<V>(m: Map<Seq<u8>, (u64, V)>, key: Seq<u8>, seq: u64, value: V) -> Map<
    Seq<u8>,
    (u64, V),
> {
    if superseded(m, key, seq) {
        m
    } else {
        m.insert(key, (seq, value))
    }
}

/// Two monotone writes commute unless they hit one key with one stamp: a
/// batch's outcome does not depend on the order of its ops when no two ops
/// on a key carry the same stamp.
pub proof fn law_monotone_writes_commute<V>(
    m: Map<Seq<u8>, (u64, V)>,
    k1: Seq<u8>,
    s1: u64,
    v1: V,
    k2: Seq<u8>,
    s2: u64,
    v2: V,
)
    requires
        k1 != k2 || s1 != s2,
    ensures
        apply_stamped(apply_stamped(m, k1, s1, v1), k2, s2, v2) == apply_stamped(apply_stamped(m, k2, s2, v2), k1, s1, v1),
{
    let a = apply_stamped(apply_stamped(m, k1, s1, v1), k2, s2, v2);
    let b = apply_stamped(apply_stamped(m, k2, s2, v2), k1, s1, v1);
    assert(a =~= b);
}

/// A write never lowers a key's stamp, and the key ends up stamped with the
/// greater of its old stamp and the write's.
pub proof fn law_monotone_write_keeps_latest<V>(m: Map<Seq<u8>, (u64, V)>, key: Seq<u8>, seq: u64, value: V)
    ensures
        apply_stamped(m, key, seq, value).contains_key(key),
        m.contains_key(key) ==> apply_stamped(m, key, seq, value)[key].0 == (if m[key].0 < seq { seq } else { m[key].0 }),
        !m.contains_key(key) ==> apply_stamped(m, key, seq, value)[key] == (seq, value),
        forall|k: Seq<u8>| k != key ==> #[trigger] apply_stamped(m, key, seq, value).get(k) == m.get(k),
{
}

/// The stamps of a stamped map.
pub open spec fn stamps<V>(m: Map<Seq<u8>, (u64, V)>) -> Map<Seq<u8>, u64> {
    Map::new(|k: Seq<u8>| m.contains_key(k), |k: Seq<u8>| m[k].0)
}

/// One shard: a copy-on-write radix tree from keys to `(op_seq, value)`.
pub struct ShardRoot<V> {
    root: Option<Arc<Node<(u64, V)>>>,
}

impl<V> ShardRoot<V> {
    #[verifier::type_invariant]
    spec fn inv(self) -> bool {
        root_wf(self.root)
    }

    /// The key to stamped value content.
    pub closed spec fn content(&self) -> Map<Seq<u8>, (u64, V)> {
        root_content(self.root)
    }

    /// `key` neither extends nor is extended by a stored key.
    pub open spec fn prefix_free_with(&self, key: Seq<u8>) -> bool {
        forall|k: Seq<u8>| #[trigger] self.content().contains_key(k) ==> !proper_prefix(key, k) && !proper_prefix(k, key)
    }

    /// An empty shard.
    pub fn empty() -> (r: Self)
        ensures
            r.content() == Map::<Seq<u8>, (u64, V)>::empty(),
    {
        let r = ShardRoot { root: None };
        proof {
            assert(r.content() =~= Map::<Seq<u8>, (u64, V)>::empty());
        }
        r
    }

    /// Another handle on the same tree: O(1), every node shared.
    pub fn share(&self) -> (r: Self)
        ensures
            r.content() == self.content(),
    {
        proof {
            use_type_invariant(self);
        }
        let root = match &self.root {
            Some(r) => Some(Arc::clone(r)),
            None => None,
        };
        ShardRoot { root }
    }

    /// Whether `key` may be written: it neither extends nor is extended by a
    /// stored key.
    pub fn may_insert(&self, key: &[u8]) -> (b: bool)
        ensures
            b == self.prefix_free_with(key@),
    {
        proof {
            use_type_invariant(self);
        }
        match &self.root {
            Some(r) => {
                proof {
                    assert(key@.take(0) =~= Seq::<u8>::empty());
                }
                let f = fit_rec(r, key, 0);
                proof {
                    if f {
                        assert forall|k: Seq<u8>| #[trigger] self.content().contains_key(k) implies !proper_prefix(key@, k)
                            && !proper_prefix(k, key@) by {
                            assert(arc_node(r).lookup(k, 0) is Some);
                        }
                    } else {
                        let k = choose|k: Seq<u8>|
                            #[trigger] arc_node(r).lookup(k, 0) is Some && !(!proper_prefix(key@, k) && !proper_prefix(k, key@));
                        assert(self.content().contains_key(k));
                    }
                }
                f
            },
            None => true,
        }
    }

    /// The stamped value stored for `key`.
    pub fn get(&self, key: &[u8]) -> (r: Option<&(u64, V)>)
        ensures
            r matches Some(v) ==> self.content().contains_key(key@) && self.content()[key@] == *v,
            r is None ==> !self.content().contains_key(key@),
    {
        proof {
            use_type_invariant(self);
        }
        match &self.root {
            Some(r) => {
                proof {
                    assert(key@.take(0) =~= Seq::<u8>::empty());
                }
                get_rec(r, key, 0)
            },
            None => None,
        }
    }
}

/// Monotone copy-on-write insert of `key -> (seq, value)` into a shard.
/// Returns `None` when the write is superseded (a no-op), else the new tree.
pub fn insert_mono<V>(root: &ShardRoot<V>, key: &[u8], value: V, seq: u64) -> (r: Option<ShardRoot<V>>)
    requires
        root.prefix_free_with(key@),
    ensures
        r is None <==> superseded(root.content(), key@, seq),
        r matches Some(t) ==> t.content() == root.content().insert(key@, (seq, value)),
{
    proof {
        use_type_invariant(root);
    }
    let ghost before = root.content();
    match &root.root {
        None => {
            let leaf = Node::Leaf { key: bytes_between(key, 0, key.len()), value: (seq, value) };
            proof {
                assert(is_prefix(Seq::<u8>::empty(), key@)) by {
                    assert(key@.take(0) =~= Seq::<u8>::empty());
                }
                assert(key@.subrange(0, key@.len() as int) =~= key@);
                lemma_leaf_root_wf(leaf);
                assert(leaf.content() =~= before.insert(key@, (seq, value)));
            }
            Some(ShardRoot { root: Some(Arc::new(leaf)) })
        },
        Some(r) => {
            let later = |old: &(u64, V), new: &(u64, V)| -> (b: bool)
                ensures
                    b == (new.0 > old.0),
                { new.0 > old.0 };
            proof {
                assert(key@.take(0) =~= Seq::<u8>::empty());
                assert forall|k: Seq<u8>| #[trigger] arc_node(r).lookup(k, 0) is Some implies !proper_prefix(key@, k)
                    && !proper_prefix(k, key@) by {
                    assert(before.contains_key(k));
                }
            }
            match insert_rec_with(r, key, 0, (seq, value), &later) {
                Some(n) => {
                    proof {
                        assert((*n).content() =~= before.insert(key@, (seq, value)));
                        if before.contains_key(key@) {
                            assert(arc_node(r).lookup(key@, 0) is Some);
                        }
                    }
                    Some(ShardRoot { root: Some(n) })
                },
                None => None,
            }
        },
    }
}

/// One monotone write as a whole-tree transition: the new tree, or the same
/// tree shared when the write is superseded.
pub fn apply_op<V>(cur: &ShardRoot<V>, key: &[u8], value: V, seq: u64) -> (r: ShardRoot<V>)
    requires
        cur.prefix_free_with(key@),
    ensures
        r.content() == apply_stamped(cur.content(), key@, seq, value),
{
    match insert_mono(cur, key, value, seq) {
        Some(t) => t,
        None => cur.share(),
    }
}

/// The positions of the batch ops that fall in shard `s`, in batch order.
pub open spec fn shard_members<V>(ops: Seq<(Vec<u8>, V, u64)>, prefix: int, n: int, s: int) -> Seq<usize>
    decreases ops.len(),
{
    if ops.len() == 0 {
        Seq::empty()
    } else {
        let prev = shard_members(ops.drop_last(), prefix, n, s);
        if shard_spec(ops.last().0@, prefix, n) == s {
            prev.push((ops.len() - 1) as usize)
        } else {
            prev
        }
    }
}

/// The greatest stamp among the batch ops that fall in shard `s` (0 if none).
pub open spec fn shard_max<V>(ops: Seq<(Vec<u8>, V, u64)>, prefix: int, n: int, s: int) -> u64
    decreases ops.len(),
{
    if ops.len() == 0 {
        0
    } else {
        let prev = shard_max(ops.drop_last(), prefix, n, s);
        if shard_spec(ops.last().0@, prefix, n) == s && prev < ops.last().2 {
            ops.last().2
        } else {
            prev
        }
    }
}

/// The greatest stamp in the batch (0 if empty).
pub open spec fn batch_max<V>(ops: Seq<(Vec<u8>, V, u64)>) -> u64
    decreases ops.len(),
{
    if ops.len() == 0 {
        0
    } else {
        let prev = batch_max(ops.drop_last());
        if prev < ops.last().2 {
            ops.last().2
        } else {
            prev
        }
    }
}

/// A shard's stamp is the greatest of its ops' stamps: no op of the shard
/// carries a later one, and it is 0 or the stamp of one of them, whatever
/// the order of the batch.
pub proof fn law_shard_max_is_greatest<V>(ops: Seq<(Vec<u8>, V, u64)>, prefix: int, n: int, s: int)
    ensures
        forall|i: int| 0 <= i < ops.len() && shard_spec(#[trigger] ops[i].0@, prefix, n) == s
            ==> ops[i].2 <= shard_max(ops, prefix, n, s),
        shard_max(ops, prefix, n, s) == 0 || exists|i: int| 0 <= i < ops.len()
            && shard_spec(#[trigger] ops[i].0@, prefix, n) == s && ops[i].2 == shard_max(ops, prefix, n, s),
    decreases ops.len(),
{
    if ops.len() > 0 {
        let pre = ops.drop_last();
        law_shard_max_is_greatest(pre, prefix, n, s);
        assert forall|i: int| 0 <= i < ops.len() && shard_spec(#[trigger] ops[i].0@, prefix, n) == s
            implies ops[i].2 <= shard_max(ops, prefix, n, s) by {
            if i < ops.len() - 1 {
                assert(pre[i] == ops[i]);
            }
        }
        if shard_max(ops, prefix, n, s) != 0 && shard_max(ops, prefix, n, s) == shard_max(pre, prefix, n, s) {
            let i = choose|i: int| 0 <= i < pre.len()
                && shard_spec(#[trigger] pre[i].0@, prefix, n) == s && pre[i].2 == shard_max(pre, prefix, n, s);
            assert(ops[i] == pre[i]);
        } else if shard_max(ops, prefix, n, s) != 0 {
            assert(shard_spec(ops[ops.len() - 1].0@, prefix, n) == s);
        }
    }
}

/// The batch's stamp is the greatest of all its ops' stamps: none is later,
/// and it is 0 or the stamp of one of them, whatever the order of the batch.
pub proof fn law_batch_max_is_greatest<V>(ops: Seq<(Vec<u8>, V, u64)>)
    ensures
        forall|i: int| 0 <= i < ops.len() ==> (#[trigger] ops[i]).2 <= batch_max(ops),
        batch_max(ops) == 0 || exists|i: int| 0 <= i < ops.len() && (#[trigger] ops[i]).2 == batch_max(ops),
    decreases ops.len(),
{
    if ops.len() > 0 {
        let pre = ops.drop_last();
        law_batch_max_is_greatest(pre);
        assert forall|i: int| 0 <= i < ops.len() implies (#[trigger] ops[i]).2 <= batch_max(ops) by {
            if i < ops.len() - 1 {
                assert(pre[i] == ops[i]);
            }
        }
        if batch_max(ops) != 0 && batch_max(ops) == batch_max(pre) {
            let i = choose|i: int| 0 <= i < pre.len() && (#[trigger] pre[i]).2 == batch_max(pre);
            assert(ops[i] == pre[i]);
        } else if batch_max(ops) != 0 {
            assert(ops[ops.len() - 1].2 == batch_max(ops));
        }
    }
}

/// A shard's members are exactly the positions of the batch's ops that fall
/// in it, each once, in batch order.
pub proof fn law_shard_members_in_order<V>(ops: Seq<(Vec<u8>, V, u64)>, prefix: int, n: int, s: int)
    requires
        ops.len() <= usize::MAX,
    ensures
        forall|j: int| 0 <= j < shard_members(ops, prefix, n, s).len()
            ==> (#[trigger] shard_members(ops, prefix, n, s)[j]) < ops.len()
                && shard_spec(ops[shard_members(ops, prefix, n, s)[j] as int].0@, prefix, n) == s,
        forall|j1: int, j2: int| 0 <= j1 < j2 < shard_members(ops, prefix, n, s).len()
            ==> #[trigger] shard_members(ops, prefix, n, s)[j1] < #[trigger] shard_members(ops, prefix, n, s)[j2],
        forall|i: int| 0 <= i < ops.len() && shard_spec(#[trigger] ops[i].0@, prefix, n) == s
            ==> shard_members(ops, prefix, n, s).contains(i as usize),
    decreases ops.len(),
{
    if ops.len() > 0 {
        let pre = ops.drop_last();
        let last = ops.len() - 1;
        law_shard_members_in_order(pre, prefix, n, s);
        let pm = shard_members(pre, prefix, n, s);
        let m = shard_members(ops, prefix, n, s);
        let hit = shard_spec(ops[last].0@, prefix, n) == s;
        if hit {
            assert(m == pm.push(last as usize));
        } else {
            assert(m == pm);
        }
        assert forall|j: int| 0 <= j < m.len() implies (#[trigger] m[j]) < ops.len()
            && shard_spec(ops[m[j] as int].0@, prefix, n) == s by {
            if j < pm.len() {
                assert(m[j] == pm[j]);
                assert(pm[j] < pre.len());
                assert(ops[pm[j] as int] == pre[pm[j] as int]);
            } else {
                assert(m[j] == last as usize);
            }
        }
        assert forall|j1: int, j2: int| 0 <= j1 < j2 < m.len() implies #[trigger] m[j1] < #[trigger] m[j2] by {
            assert(m[j1] == pm[j1]);
            assert(pm[j1] < pre.len());
            if j2 < pm.len() {
                assert(m[j2] == pm[j2]);
            } else {
                assert(m[j2] == last as usize);
            }
        }
        assert forall|i: int| 0 <= i < ops.len() && shard_spec(#[trigger] ops[i].0@, prefix, n) == s
            implies m.contains(i as usize) by {
            if i < last {
                assert(pre[i] == ops[i]);
                assert(pm.contains(i as usize));
                let j = choose|j: int| 0 <= j < pm.len() && pm[j] == i as usize;
                assert(m[j] == pm[j]);
            } else {
                assert(m[m.len() - 1] == last as usize);
            }
        }
    }
}

/// Group a batch by shard: for each of the `n` shards the positions of its
/// ops in batch order and their greatest stamp, and the greatest stamp of
/// the whole batch.
pub fn plan_batch<V>(ops: &[(Vec<u8>, V, u64)], prefix: usize, n: usize) -> (r: (Vec<Vec<usize>>, Vec<u64>, u64))
    requires
        n > 0,
    ensures
        r.0@.len() == n,
        r.1@.len() == n,
        forall|s: int| 0 <= s < n ==> #[trigger] r.0@[s]@ == shard_members(ops@, prefix as int, n as int, s),
        forall|s: int| 0 <= s < n ==> #[trigger] r.1@[s] == shard_max(ops@, prefix as int, n as int, s),
        r.2 == batch_max(ops@),
        forall|i: int| 0 <= i < ops@.len() ==> (#[trigger] ops@[i]).2 <= r.2
            && ops@[i].2 <= r.1@[shard_spec(ops@[i].0@, prefix as int, n as int)],
        r.2 == 0 || exists|i: int| 0 <= i < ops@.len() && (#[trigger] ops@[i]).2 == r.2,
        forall|i: int| 0 <= i < ops@.len() ==> r.0@[shard_spec((#[trigger] ops@[i]).0@, prefix as int, n as int)]@.contains(i as usize),
{
    let total: usize = ops.len();
    proof {
        assert(ops@.len() == total);
        law_batch_max_is_greatest(ops@);
        assert forall|i: int| 0 <= i < ops@.len() implies shard_members(ops@, prefix as int, n as int,
            shard_spec((#[trigger] ops@[i]).0@, prefix as int, n as int)).contains(i as usize) by {
            law_shard_members_in_order(ops@, prefix as int, n as int, shard_spec(ops@[i].0@, prefix as int, n as int));
        }
        assert forall|i: int| 0 <= i < ops@.len() implies
            ops@[i].2 <= shard_max(ops@, prefix as int, n as int, shard_spec(ops@[i].0@, prefix as int, n as int)) by {
            law_shard_max_is_greatest(ops@, prefix as int, n as int, shard_spec(ops@[i].0@, prefix as int, n as int));
        }
    }
    let mut by_shard: Vec<Vec<usize>> = Vec::new();
    let mut maxes: Vec<u64> = Vec::new();
    let mut s: usize = 0;
    while s < n
        invariant
            s <= n,
            by_shard@.len() == s,
            maxes@.len() == s,
            forall|t: int| 0 <= t < s ==> (#[trigger] by_shard@[t])@ == Seq::<usize>::empty(),
            forall|t: int| 0 <= t < s ==> #[trigger] maxes@[t] == 0,
        decreases n - s,
    {
        by_shard.push(Vec::new());
        maxes.push(0);
        s = s + 1;
    }
    let mut top: u64 = 0;
    let mut i: usize = 0;
    while i < ops.len()
        invariant
            n > 0,
            i <= ops@.len(),
            by_shard@.len() == n,
            maxes@.len() == n,
            forall|t: int| 0 <= t < n ==> (#[trigger] by_shard@[t])@ == shard_members(ops@.take(i as int), prefix as int, n as int, t),
            forall|t: int| 0 <= t < n ==> #[trigger] maxes@[t] == shard_max(ops@.take(i as int), prefix as int, n as int, t),
            top == batch_max(ops@.take(i as int)),
        decreases ops@.len() - i,
    {
        let sh = shard_of(&ops[i].0, prefix, n);
        let seq = ops[i].2;
        let ghost pre = ops@.take(i as int);
        let ghost next = ops@.take(i + 1);
        proof {
            assert(next.drop_last() =~= pre);
            assert(next.last() == ops@[i as int]);
        }
        by_shard[sh].push(i);
        if maxes[sh] < seq {
            maxes.set(sh, seq);
        }
        if top < seq {
            top = seq;
        }
        proof {
            assert forall|t: int| 0 <= t < n implies (#[trigger] by_shard@[t])@ == shard_members(next, prefix as int, n as int, t) by {
                if t == sh {
                } else {
                }
            }
        }
        i = i + 1;
    }
    proof {
        assert(ops@.take(ops@.len() as int) =~= ops@);
    }
    (by_shard, maxes, top)
}

/// A batch applied in the order of `idxs`, each op a monotone write.
pub open spec fn fold_ops<V>(m: Map<Seq<u8>, (u64, V)>, ops: Seq<(Vec<u8>, V, u64)>, idxs: Seq<usize>) -> Map<
    Seq<u8>,
    (u64, V),
>
    decreases idxs.len(),
{
    if idxs.len() == 0 {
        m
    } else {
        let op = ops[idxs.last() as int];
        apply_stamped(fold_ops(m, ops, idxs.drop_last()), op.0@, op.2, op.1)
    }
}

proof fn lemma_fold_append<V>(m: Map<Seq<u8>, (u64, V)>, ops: Seq<(Vec<u8>, V, u64)>, a: Seq<usize>, b: Seq<usize>)
    ensures
        fold_ops(m, ops, a + b) == fold_ops(fold_ops(m, ops, a), ops, b),
    decreases b.len(),
{
    if b.len() == 0 {
        assert(a + b =~= a);
    } else {
        assert((a + b).drop_last() =~= a + b.drop_last());
        lemma_fold_append(m, ops, a, b.drop_last());
    }
}

/// After a batch, each key it touches holds the greatest stamp among its
/// resident stamp and the stamps of the batch's ops on it, together with the
/// value that came with that stamp (the resident pair, or that of an op on
/// the key); keys it does not touch are left as they were.
pub proof fn law_fold_keeps_greatest_stamp<V>(
    m: Map<Seq<u8>, (u64, V)>,
    ops: Seq<(Vec<u8>, V, u64)>,
    idxs: Seq<usize>,
    k: Seq<u8>,
)
    requires
        forall|j: int| 0 <= j < idxs.len() ==> #[trigger] idxs[j] < ops.len(),
    ensures
        fold_ops(m, ops, idxs).contains_key(k)
            == (m.contains_key(k) || exists|j: int| 0 <= j < idxs.len() && ops[#[trigger] idxs[j] as int].0@ == k),
        fold_ops(m, ops, idxs).contains_key(k) ==> {
            let top = fold_ops(m, ops, idxs)[k].0;
            &&& m.contains_key(k) ==> m[k].0 <= top
            &&& forall|j: int| 0 <= j < idxs.len() && ops[#[trigger] idxs[j] as int].0@ == k ==> ops[idxs[j] as int].2 <= top
            &&& (m.contains_key(k) && m[k] == fold_ops(m, ops, idxs)[k])
                || exists|j: int| 0 <= j < idxs.len() && ops[#[trigger] idxs[j] as int].0@ == k
                    && fold_ops(m, ops, idxs)[k] == (ops[idxs[j] as int].2, ops[idxs[j] as int].1)
        },
        !(exists|j: int| 0 <= j < idxs.len() && ops[#[trigger] idxs[j] as int].0@ == k)
            ==> fold_ops(m, ops, idxs).get(k) == m.get(k),
    decreases idxs.len(),
{
    if idxs.len() > 0 {
        let pre = idxs.drop_last();
        let last = idxs.len() - 1;
        assert forall|j: int| 0 <= j < pre.len() implies #[trigger] pre[j] < ops.len() by {
            assert(pre[j] == idxs[j]);
        }
        law_fold_keeps_greatest_stamp(m, ops, pre, k);
        let op = ops[idxs[last] as int];
        let before = fold_ops(m, ops, pre);
        let after = fold_ops(m, ops, idxs);
        assert(after == apply_stamped(before, op.0@, op.2, op.1));
        law_monotone_write_keeps_latest(before, op.0@, op.2, op.1);
        assert forall|j: int| 0 <= j < pre.len() implies #[trigger] pre[j] == idxs[j] by {}
        if op.0@ != k {
            assert(after.get(k) == before.get(k));
            if exists|j: int| 0 <= j < idxs.len() && ops[#[trigger] idxs[j] as int].0@ == k {
                let j = choose|j: int| 0 <= j < idxs.len() && ops[#[trigger] idxs[j] as int].0@ == k;
                assert(j < last);
                assert(pre[j] == idxs[j]);
            }
            if after.contains_key(k) {
                let top = after[k].0;
                assert forall|j: int| 0 <= j < idxs.len() && ops[#[trigger] idxs[j] as int].0@ == k
                    implies ops[idxs[j] as int].2 <= top by {
                    assert(j < last);
                    assert(pre[j] == idxs[j]);
                }
                if !(m.contains_key(k) && m[k] == after[k]) {
                    let j = choose|j: int| 0 <= j < pre.len() && ops[#[trigger] pre[j] as int].0@ == k
                        && before[k] == (ops[pre[j] as int].2, ops[pre[j] as int].1);
                    assert(idxs[j] == pre[j]);
                }
            }
        } else {
            assert(ops[idxs[last] as int].0@ == k);
            let top = after[k].0;
            assert forall|j: int| 0 <= j < idxs.len() && ops[#[trigger] idxs[j] as int].0@ == k
                implies ops[idxs[j] as int].2 <= top by {
                if j < last {
                    assert(pre[j] == idxs[j]);
                }
            }
            if before.contains_key(k) && before[k].0 >= op.2 {
                assert(after[k] == before[k]);
                if !(m.contains_key(k) && m[k] == after[k]) {
                    let j = choose|j: int| 0 <= j < pre.len() && ops[#[trigger] pre[j] as int].0@ == k
                        && before[k] == (ops[pre[j] as int].2, ops[pre[j] as int].1);
                    assert(idxs[j] == pre[j]);
                }
            } else {
                assert(after[k] == (op.2, op.1));
                assert(ops[idxs[last] as int].0@ == k);
            }
        }
    }
}

/// Swapping two neighbouring ops of a batch leaves the outcome unchanged
/// unless they write one key with one stamp; so a batch whose ops on any key
/// carry distinct stamps gives the same map in every order.
pub proof fn law_batch_order_swap<V>(
    m: Map<Seq<u8>, (u64, V)>,
    ops: Seq<(Vec<u8>, V, u64)>,
    before: Seq<usize>,
    x: usize,
    y: usize,
    after: Seq<usize>,
)
    requires
        x < ops.len(),
        y < ops.len(),
        ops[x as int].0@ != ops[y as int].0@ || ops[x as int].2 != ops[y as int].2,
    ensures
        fold_ops(m, ops, before + seq![x, y] + after) == fold_ops(m, ops, before + seq![y, x] + after),
{
    let s1 = before + seq![x, y];
    let s2 = before + seq![y, x];
    lemma_fold_append(m, ops, s1, after);
    lemma_fold_append(m, ops, s2, after);
    let mid = fold_ops(m, ops, before);
    assert(s1.drop_last() =~= before.push(x));
    assert(s2.drop_last() =~= before.push(y));
    assert(before.push(x).drop_last() =~= before);
    assert(before.push(y).drop_last() =~= before);
    let ox = ops[x as int];
    let oy = ops[y as int];
    law_monotone_writes_commute(mid, ox.0@, ox.2, ox.1, oy.0@, oy.2, oy.1);
    assert(s1.last() == y);
    assert(s2.last() == x);
    assert(before.push(x).last() == x);
    assert(before.push(y).last() == y);
    assert(fold_ops(m, ops, before.push(x)) == apply_stamped(mid, ox.0@, ox.2, ox.1));
    assert(fold_ops(m, ops, before.push(y)) == apply_stamped(mid, oy.0@, oy.2, oy.1));
    assert(fold_ops(m, ops, s1) == apply_stamped(fold_ops(m, ops, before.push(x)), oy.0@, oy.2, oy.1));
    assert(fold_ops(m, ops, s2) == apply_stamped(fold_ops(m, ops, before.push(y)), ox.0@, ox.2, ox.1));
    assert(fold_ops(m, ops, s1) == apply_stamped(apply_stamped(mid, ox.0@, ox.2, ox.1), oy.0@, oy.2, oy.1));
    assert(fold_ops(m, ops, s2) == apply_stamped(apply_stamped(mid, oy.0@, oy.2, oy.1), ox.0@, ox.2, ox.1));
}

/// The keys of the batch ops at `idxs` neither extend nor are extended by a
/// key of `dom` or by one another.
pub open spec fn batch_prefix_free<V>(dom: Set<Seq<u8>>, ops: Seq<(Vec<u8>, V, u64)>, idxs: Seq<usize>) -> bool {
    &&& forall|j: int| 0 <= j < idxs.len() ==> #[trigger] idxs[j] < ops.len()
    &&& forall|j: int, k: Seq<u8>|
        0 <= j < idxs.len() && #[trigger] dom.contains(k) ==> !proper_prefix(ops[#[trigger] idxs[j] as int].0@, k)
            && !proper_prefix(k, ops[idxs[j] as int].0@)
    &&& forall|j1: int, j2: int|
        0 <= j1 < idxs.len() && 0 <= j2 < idxs.len() ==> !proper_prefix(
            ops[#[trigger] idxs[j1] as int].0@,
            ops[#[trigger] idxs[j2] as int].0@,
        )
}

/// Whether a batch can be folded into `root`: every position is in the batch,
/// and no key extends another or a stored key.
pub fn batch_fits<V>(root: &ShardRoot<V>, ops: &[(Vec<u8>, V, u64)], idxs: &[usize]) -> (b: bool)
    ensures
        b == batch_prefix_free(root.content().dom(), ops@, idxs@),
{
    let mut j: usize = 0;
    while j < idxs.len()
        invariant
            j <= idxs@.len(),
            forall|jj: int| 0 <= jj < j ==> #[trigger] idxs@[jj] < ops@.len(),
            forall|jj: int, k: Seq<u8>|
                0 <= jj < j && #[trigger] root.content().dom().contains(k) ==> !proper_prefix(ops@[#[trigger] idxs@[jj] as int].0@, k)
                    && !proper_prefix(k, ops@[idxs@[jj] as int].0@),
        decreases idxs@.len() - j,
    {
        if idxs[j] >= ops.len() {
            return false;
        }
        if !root.may_insert(&ops[idxs[j]].0) {
            proof {
                let k = choose|k: Seq<u8>| #[trigger] root.content().contains_key(k)
                    && !(!proper_prefix(ops@[idxs@[j as int] as int].0@, k) && !proper_prefix(k, ops@[idxs@[j as int] as int].0@));
                assert(root.content().dom().contains(k));
            }
            return false;
        }
        j = j + 1;
    }
    let mut j1: usize = 0;
    while j1 < idxs.len()
        invariant
            j1 <= idxs@.len(),
            forall|jj: int| 0 <= jj < idxs@.len() ==> #[trigger] idxs@[jj] < ops@.len(),
            forall|a: int, c: int|
                0 <= a < j1 && 0 <= c < idxs@.len() ==> !proper_prefix(ops@[#[trigger] idxs@[a] as int].0@, ops@[#[trigger] idxs@[c] as int].0@),
        decreases idxs@.len() - j1,
    {
        let mut j2: usize = 0;
        while j2 < idxs.len()
            invariant
                j1 < idxs@.len(),
                j2 <= idxs@.len(),
                forall|jj: int| 0 <= jj < idxs@.len() ==> #[trigger] idxs@[jj] < ops@.len(),
                forall|c: int| 0 <= c < j2 ==> !proper_prefix(ops@[idxs@[j1 as int] as int].0@, ops@[#[trigger] idxs@[c] as int].0@),
            decreases idxs@.len() - j2,
        {
            if proper_prefix_bytes(&ops[idxs[j1]].0, &ops[idxs[j2]].0) {
                return false;
            }
            j2 = j2 + 1;
        }
        j1 = j1 + 1;
    }
    true
}

/// Whether `a` is a proper prefix of `b`.
fn proper_prefix_bytes(a: &Vec<u8>, b: &Vec<u8>) -> (r: bool)
    ensures
        r == proper_prefix(a@, b@),
{
    if a.len() >= b.len() {
        return false;
    }
    let mut i: usize = 0;
    while i < a.len()
        invariant
            i <= a@.len() < b@.len(),
            a@.take(i as int) == b@.take(i as int),
        decreases a@.len() - i,
    {
        if a[i] != b[i] {
            proof {
                assert(b@.take(a@.len() as int)[i as int] == b@[i as int]);
            }
            return false;
        }
        proof {
            assert(a@.take(i + 1) =~= a@.take(i as int).push(a@[i as int]));
            assert(b@.take(i + 1) =~= b@.take(i as int).push(b@[i as int]));
        }
        i = i + 1;
    }
    proof {
        assert(a@.take(i as int) =~= a@);
    }
    true
}

/// Fold the batch ops at `idxs`, in that order, into a shard: one new tree
/// for the whole group. The stamps are exactly those of the monotone fold;
/// the values are clones of the ops' values.
pub fn fold_batch<V: Clone>(root: &ShardRoot<V>, ops: &[(Vec<u8>, V, u64)], idxs: &[usize]) -> (r: ShardRoot<V>)
    requires
        batch_prefix_free(root.content().dom(), ops@, idxs@),
    ensures
        stamps(r.content()) == stamps(fold_ops(root.content(), ops@, idxs@)),
        forall|k: Seq<u8>| #[trigger] r.content().contains_key(k)
            ==> cloned(fold_ops(root.content(), ops@, idxs@)[k].1, r.content()[k].1),
        clone_preserves::<V>() ==> r.content() == fold_ops(root.content(), ops@, idxs@),
{
    let ghost m = root.content();
    let mut cur = root.share();
    let mut j: usize = 0;
    while j < idxs.len()
        invariant
            j <= idxs@.len(),
            batch_prefix_free(m.dom(), ops@, idxs@),
            stamps(cur.content()) == stamps(fold_ops(m, ops@, idxs@.take(j as int))),
            clone_preserves::<V>() ==> cur.content() == fold_ops(m, ops@, idxs@.take(j as int)),
            forall|k: Seq<u8>| #[trigger] cur.content().contains_key(k)
                ==> cloned(fold_ops(m, ops@, idxs@.take(j as int))[k].1, cur.content()[k].1),
            forall|k: Seq<u8>| #[trigger] cur.content().contains_key(k) ==> m.contains_key(k)
                || exists|jj: int| 0 <= jj < j && k == ops@[#[trigger] idxs@[jj] as int].0@,
        decreases idxs@.len() - j,
    {
        let i = idxs[j];
        let ghost prev = fold_ops(m, ops@, idxs@.take(j as int));
        let ghost key = ops@[i as int].0@;
        proof {
            assert(idxs@.take(j + 1).drop_last() =~= idxs@.take(j as int));
            assert(idxs@.take(j + 1).last() == i);
            assert forall|k: Seq<u8>| #[trigger] cur.content().contains_key(k) implies !proper_prefix(key, k)
                && !proper_prefix(k, key) by {
                if m.contains_key(k) {
                    assert(m.dom().contains(k));
                } else {
                    let jj = choose|jj: int| 0 <= jj < j && k == ops@[#[trigger] idxs@[jj] as int].0@;
                    assert(!proper_prefix(ops@[idxs@[j as int] as int].0@, ops@[idxs@[jj] as int].0@));
                    assert(!proper_prefix(ops@[idxs@[jj] as int].0@, ops@[idxs@[j as int] as int].0@));
                }
            }
            assert(superseded(cur.content(), key, ops@[i as int].2) == superseded(prev, key, ops@[i as int].2)) by {
                assert(stamps(cur.content()).contains_key(key) == stamps(prev).contains_key(key));
                if cur.content().contains_key(key) {
                    assert(stamps(cur.content())[key] == stamps(prev)[key]);
                }
            }
        }
        let ghost c0 = cur.content();
        let seq = ops[i].2;
        let v = ops[i].1.clone();
        let ghost vg = v;
        match insert_mono(&cur, &ops[i].0, v, seq) {
            Some(t) => {
                cur = t;
            },
            None => {},
        }
        proof {
            let next = fold_ops(m, ops@, idxs@.take(j + 1));
            assert(next == apply_stamped(prev, key, seq, ops@[i as int].1));
            assert(cur.content() == apply_stamped(c0, key, seq, vg));
            assert forall|k: Seq<u8>| #[trigger] stamps(cur.content()).contains_key(k) == stamps(next).contains_key(k)
                && (stamps(cur.content()).contains_key(k) ==> stamps(cur.content())[k] == stamps(next)[k]) by {
                assert(stamps(c0).contains_key(k) == stamps(prev).contains_key(k));
                if c0.contains_key(k) {
                    assert(stamps(c0)[k] == stamps(prev)[k]);
                }
            }
            assert(stamps(cur.content()) =~= stamps(next));
            assert forall|k: Seq<u8>| #[trigger] cur.content().contains_key(k)
                implies cloned(next[k].1, cur.content()[k].1) by {
                assert(stamps(cur.content()).contains_key(k));
                assert(stamps(c0).contains_key(k) == stamps(prev).contains_key(k));
                if k != key || superseded(c0, key, seq) {
                    assert(c0.contains_key(k));
                }
            }
            if clone_preserves::<V>() {
                assert(cloned(ops@[i as int].1, vg));
                assert(vg == ops@[i as int].1);
                assert(cur.content() =~= next);
            }
            assert forall|k: Seq<u8>| #[trigger] cur.content().contains_key(k) implies m.contains_key(k)
                || exists|jj: int| 0 <= jj < j + 1 && k == ops@[#[trigger] idxs@[jj] as int].0@ by {
                if k == key {
                    assert(k == ops@[idxs@[j as int] as int].0@);
                }
            }
        }
        j = j + 1;
    }
    proof {
        assert(idxs@.take(idxs@.len() as int) =~= idxs@);
    }
    cur
}

/// An immutable point-in-time view of a sharded map: one shared tree per
/// shard, and the key prefix length that picks a key's shard.
pub struct ShardedArtSnapshot<V> {
    roots: Vec<ShardRoot<V>>,
    prefix: usize,
}

impl<V> ShardedArtSnapshot<V> {
    #[verifier::type_invariant]
    spec fn inv(self) -> bool {
        self.roots@.len() >= 1
    }

    /// Number of shards.
    pub closed spec fn shard_count(&self) -> int {
        self.roots@.len() as int
    }

    /// The key prefix length that picks a shard.
    pub closed spec fn shard_prefix(&self) -> int {
        self.prefix as int
    }

    /// The content of shard `s`.
    pub closed spec fn shard_content(&self, s: int) -> Map<Seq<u8>, (u64, V)> {
        self.roots@[s].content()
    }

    /// The shard holding `key`.
    pub open spec fn home(&self, key: Seq<u8>) -> int {
        shard_spec(key, self.shard_prefix(), self.shard_count())
    }

    /// A view over the given shard trees.
    pub fn new(roots: Vec<ShardRoot<V>>, prefix: usize) -> (r: Self)
        requires
            roots@.len() >= 1,
        ensures
            r.shard_count() == roots@.len(),
            r.shard_prefix() == prefix,
            forall|s: int| 0 <= s < roots@.len() ==> #[trigger] r.shard_content(s) == roots@[s].content(),
    {
        ShardedArtSnapshot { roots, prefix }
    }
}

impl<V: Clone> ShardedArtSnapshot<V> {
    /// The value stored for `key` when the view was taken (a clone).
    pub fn get(&self, key: &[u8]) -> (r: Option<V>)
        ensures
            r is Some <==> self.shard_content(self.home(key@)).contains_key(key@),
            r matches Some(v) ==> cloned(self.shard_content(self.home(key@))[key@].1, v),
    {
        proof {
            use_type_invariant(self);
        }
        let idx = shard_of(key, self.prefix, self.roots.len());
        proof {
            assert(self.home(key@) == idx as int);
        }
        match self.roots[idx].get(key) {
            Some(sv) => Some(sv.1.clone()),
            None => None,
        }
    }
}

} // verus!
