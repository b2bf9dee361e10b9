use vstd::prelude::*;

verus! {

/// Lexicographic strict order on byte strings (the order of Rust's `[u8]`):
/// the first differing byte decides, and a proper prefix is smaller.
pub open spec fn lex_lt(a: Seq<u8>, b: Seq<u8>) -> bool
    decreases a.len(),
{
    if b.len() == 0 {
        false
    } else if a.len() == 0 {
        true
    } else if a[0] != b[0] {
        a[0] < b[0]
    } else {
        lex_lt(a.drop_first(), b.drop_first())
    }
}

/// Lexicographic non-strict order.
pub open spec fn lex_le(a: Seq<u8>, b: Seq<u8>) -> bool {
    a == b || lex_lt(a, b)
}

/// `key` lies in the inclusive range `[lo, hi]`.
pub open spec fn in_range(key: Seq<u8>, lo: Seq<u8>, hi: Seq<u8>) -> bool {
    lex_le(lo, key) && lex_le(key, hi)
}

/// `p` is a prefix of `k`.
pub open spec fn is_prefix(p: Seq<u8>, k: Seq<u8>) -> bool {
    p.len() <= k.len() && k.take(p.len() as int) == p
}

/// `p` is a prefix of `k` and shorter than it.
pub open spec fn proper_prefix(p: Seq<u8>, k: Seq<u8>) -> bool {
    is_prefix(p, k) && p.len() < k.len()
}

/// A sequence of keyed entries whose keys strictly increase.
pub open spec fn strictly_sorted<V>(s: Seq<(Seq<u8>, V)>) -> bool {
    forall|i: int, j: int| 0 <= i < j < s.len() ==> lex_lt(#[trigger] s[i].0, #[trigger] s[j].0)
}

/// Two non-empty sequences with the same head and the same tail are equal.
pub proof fn lemma_head_tail_eq(a: Seq<u8>, b: Seq<u8>)
    requires
        a.len() > 0,
        b.len() > 0,
        a[0] == b[0],
        a.drop_first() == b.drop_first(),
    ensures
        a == b,
{
    assert(a =~= seq![a[0]] + a.drop_first());
    assert(b =~= seq![b[0]] + b.drop_first());
}

pub proof fn lemma_lex_irreflexive(a: Seq<u8>)
    ensures
        !lex_lt(a, a),
    decreases a.len(),
{
    if a.len() > 0 {
        lemma_lex_irreflexive(a.drop_first());
    }
}

pub proof fn lemma_lex_asymmetric(a: Seq<u8>, b: Seq<u8>)
    ensures
        !(lex_lt(a, b) && lex_lt(b, a)),
    decreases a.len(),
{
    if a.len() > 0 && b.len() > 0 && a[0] == b[0] {
        lemma_lex_asymmetric(a.drop_first(), b.drop_first());
    }
}

pub proof fn lemma_lex_total(a: Seq<u8>, b: Seq<u8>)
    ensures
        lex_lt(a, b) || a == b || lex_lt(b, a),
    decreases a.len(),
{
    if a.len() > 0 && b.len() > 0 && a[0] == b[0] {
        lemma_lex_total(a.drop_first(), b.drop_first());
        if a.drop_first() == b.drop_first() {
            assert(a =~= seq![a[0]] + a.drop_first());
            assert(b =~= seq![b[0]] + b.drop_first());
        }
    } else if a.len() == 0 && b.len() == 0 {
        assert(a =~= b);
    }
}

pub proof fn lemma_lex_transitive(a: Seq<u8>, b: Seq<u8>, c: Seq<u8>)
    requires
        lex_lt(a, b),
        lex_lt(b, c),
    ensures
        lex_lt(a, c),
    decreases a.len(),
{
    if a.len() > 0 && a[0] == b[0] && b[0] == c[0] {
        lemma_lex_transitive(a.drop_first(), b.drop_first(), c.drop_first());
    }
}

/// A proper prefix is smaller than the sequence it starts.
pub proof fn lemma_proper_prefix_lt(p: Seq<u8>, k: Seq<u8>)
    requires
        is_prefix(p, k),
        p.len() < k.len(),
    ensures
        lex_lt(p, k),
    decreases p.len(),
{
    if p.len() > 0 {
        assert(p[0] == k.take(p.len() as int)[0]);
        assert(k.drop_first().take(p.drop_first().len() as int) =~= p.drop_first());
        lemma_proper_prefix_lt(p.drop_first(), k.drop_first());
    }
}

/// `q < p` carries over to every extension of `p`.
pub proof fn lemma_lt_extends_right(q: Seq<u8>, p: Seq<u8>, k: Seq<u8>)
    requires
        lex_lt(q, p),
        is_prefix(p, k),
    ensures
        lex_lt(q, k),
    decreases q.len(),
{
    if q.len() > 0 {
        assert(p[0] == k.take(p.len() as int)[0]);
        if q[0] == p[0] {
            assert(k.drop_first().take(p.drop_first().len() as int) =~= p.drop_first());
            lemma_lt_extends_right(q.drop_first(), p.drop_first(), k.drop_first());
        }
    } else {
        assert(k.len() > 0);
    }
}

/// When `p < q` and `p` is not a prefix of `q`, every extension of `p` is
/// below every extension of `q`.
pub proof fn lemma_lt_extends_both(p: Seq<u8>, q: Seq<u8>, k: Seq<u8>, l: Seq<u8>)
    requires
        lex_lt(p, q),
        !is_prefix(p, q),
        is_prefix(p, k),
        is_prefix(q, l),
    ensures
        lex_lt(k, l),
    decreases p.len(),
{
    if p.len() == 0 {
        assert(q.take(0) =~= p);
    } else {
        assert(p[0] == k.take(p.len() as int)[0]);
        assert(q[0] == l.take(q.len() as int)[0]);
        if p[0] == q[0] {
            assert(k.drop_first().take(p.drop_first().len() as int) =~= p.drop_first());
            assert(l.drop_first().take(q.drop_first().len() as int) =~= q.drop_first());
            if is_prefix(p.drop_first(), q.drop_first()) {
                assert(q.take(p.len() as int) =~= seq![p[0]] + q.drop_first().take(p.drop_first().len() as int));
                assert(p =~= seq![p[0]] + p.drop_first());
            }
            lemma_lt_extends_both(p.drop_first(), q.drop_first(), k.drop_first(), l.drop_first());
        }
    }
}

/// Two sequences that agree before position `m` and differ there are
/// ordered by their bytes at `m`.
pub proof fn lemma_lt_at(a: Seq<u8>, b: Seq<u8>, m: int)
    requires
        0 <= m < a.len(),
        m < b.len(),
        a.take(m) == b.take(m),
        a[m] < b[m],
    ensures
        lex_lt(a, b),
    decreases m,
{
    if m > 0 {
        assert(a[0] == a.take(m)[0]);
        assert(b[0] == b.take(m)[0]);
        assert(a.drop_first().take(m - 1) =~= a.take(m).drop_first());
        assert(b.drop_first().take(m - 1) =~= b.take(m).drop_first());
        lemma_lt_at(a.drop_first(), b.drop_first(), m - 1);
    }
}

/// Every extension of `p` falls below `lo` when `p` falls below `lo`'s
/// prefix of the same length (or below `lo` itself when `lo` is shorter).
pub proof fn lemma_prune_low(p: Seq<u8>, lo: Seq<u8>, k: Seq<u8>)
    requires
        lex_lt(p, lo.take(if p.len() < lo.len() { p.len() as int } else { lo.len() as int })),
        is_prefix(p, k),
    ensures
        lex_lt(k, lo),
{
    let m = if p.len() < lo.len() { p.len() as int } else { lo.len() as int };
    let q = lo.take(m);
    if is_prefix(p, q) {
        assert(p.len() == q.len());
        assert(q.take(p.len() as int) =~= q);
        lemma_lex_irreflexive(p);
    }
    assert(lo.take(q.len() as int) =~= q);
    lemma_lt_extends_both(p, q, k, lo);
}

/// Every extension of `p` lies above `hi` when `p` lies above `hi`'s prefix
/// of the same length (or above `hi` itself when `hi` is shorter).
pub proof fn lemma_prune_high(p: Seq<u8>, hi: Seq<u8>, k: Seq<u8>)
    requires
        lex_lt(hi.take(if p.len() < hi.len() { p.len() as int } else { hi.len() as int }), p),
        is_prefix(p, k),
    ensures
        lex_lt(hi, k),
{
    let m = if p.len() < hi.len() { p.len() as int } else { hi.len() as int };
    let q = hi.take(m);
    if m == hi.len() {
        assert(q =~= hi);
        lemma_lt_extends_right(hi, p, k);
    } else {
        if is_prefix(q, p) {
            assert(p.take(q.len() as int) =~= p);
            lemma_lex_irreflexive(p);
        }
        assert(hi.take(q.len() as int) =~= q);
        lemma_lt_extends_both(q, p, hi, k);
    }
}

/// Lexicographic three-way comparison of two byte strings: negative, zero or
/// positive as `a` is below, equal to or above `b`.
pub fn compare_bytes(a: &[u8], b: &[u8]) -> (r: i8)
    ensures
        r < 0 <==> lex_lt(a@, b@),
        r == 0 <==> a@ == b@,
        r > 0 <==> lex_lt(b@, a@),
{
    let mut i: usize = 0;
    proof {
        assert(a@.skip(0) =~= a@);
        assert(b@.skip(0) =~= b@);
    }
    while i < a.len() && i < b.len()
        invariant
            i <= a.len(),
            i <= b.len(),
            a@.take(i as int) == b@.take(i as int),
            lex_lt(a@, b@) == lex_lt(a@.skip(i as int), b@.skip(i as int)),
            lex_lt(b@, a@) == lex_lt(b@.skip(i as int), a@.skip(i as int)),
        decreases a.len() - i,
    {
        if a[i] < b[i] {
            proof {
                lemma_lex_asymmetric(a@, b@);
                assert(a@.skip(i as int)[0] == a@[i as int]);
                assert(b@.skip(i as int)[0] == b@[i as int]);
                if a@ == b@ {
                    assert(false);
                }
            }
            return -1;
        }
        if a[i] > b[i] {
            proof {
                lemma_lex_asymmetric(a@, b@);
                assert(a@.skip(i as int)[0] == a@[i as int]);
                assert(b@.skip(i as int)[0] == b@[i as int]);
            }
            return 1;
        }
        proof {
            assert(a@.skip(i as int).drop_first() =~= a@.skip(i + 1));
            assert(b@.skip(i as int).drop_first() =~= b@.skip(i + 1));
            assert(a@.skip(i as int)[0] == a@[i as int]);
            assert(b@.skip(i as int)[0] == b@[i as int]);
            assert(a@.take(i + 1) =~= a@.take(i as int).push(a@[i as int]));
            assert(b@.take(i + 1) =~= b@.take(i as int).push(b@[i as int]));
        }
        i = i + 1;
    }
    proof {
        lemma_lex_asymmetric(a@, b@);
        lemma_lex_irreflexive(a@);
        if i == a.len() {
            assert(a@ =~= a@.take(i as int));
        }
        if i == b.len() {
            assert(b@ =~= b@.take(i as int));
        }
    }
    if a.len() < b.len() {
        proof {
            assert(a@.skip(i as int).len() == 0);
        }
        -1
    } else if a.len() > b.len() {
        proof {
            assert(b@.skip(i as int).len() == 0);
        }
        1
    } else {
        proof {
            assert(a@ =~= b@);
        }
        0
    }
}

/// A copy of a byte vector.
pub fn copy_bytes(s: &Vec<u8>) -> (r: Vec<u8>)
    ensures
        r@ == s@,
{
    bytes_between(s.as_slice(), 0, s.len())
}

/// A fresh vector holding `s[i..j]`.
pub fn bytes_between(s: &[u8], i: usize, j: usize) -> (r: Vec<u8>)
    requires
        i <= j <= s@.len(),
    ensures
        r@ == s@.subrange(i as int, j as int),
{
    let mut r: Vec<u8> = Vec::with_capacity(j - i);
    let mut x: usize = i;
    while x < j
        invariant
            i <= x <= j <= s@.len(),
            r@ == s@.subrange(i as int, x as int),
        decreases j - x,
    {
        r.push(s[x]);
        proof {
            assert(s@.subrange(i as int, x + 1) =~= s@.subrange(i as int, x as int).push(s@[x as int]));
        }
        x = x + 1;
    }
    r
}

/// The shorter of the two lengths.
pub open spec fn min_len(a: Seq<u8>, b: Seq<u8>) -> int {
    if a.len() < b.len() { a.len() as int } else { b.len() as int }
}

/// Whether the subtree under `path` may hold keys in `[lo, hi]`: `path` is
/// neither below `lo` nor above `hi` on their prefixes of its length.
pub fn subtree_may_hit(path: &Vec<u8>, lo: &[u8], hi: &[u8]) -> (r: bool)
    ensures
        r == !(lex_lt(path@, lo@.take(min_len(path@, lo@)))
            || lex_lt(hi@.take(min_len(path@, hi@)), path@)),
        !r ==> forall|k: Seq<u8>| is_prefix(path@, k) ==> !in_range(k, lo@, hi@),
{
    let len = path.len();
    let lm = if len < lo.len() { len } else { lo.len() };
    let hm = if len < hi.len() { len } else { hi.len() };
    let lop = vstd::slice::slice_subrange(lo, 0, lm);
    let hip = vstd::slice::slice_subrange(hi, 0, hm);
    let below = compare_bytes(path.as_slice(), lop) < 0;
    let above = compare_bytes(path.as_slice(), hip) > 0;
    proof {
        assert(lop@ =~= lo@.take(lm as int));
        assert(hip@ =~= hi@.take(hm as int));
        assert forall|k: Seq<u8>| is_prefix(path@, k) && (below || above) implies !in_range(k, lo@, hi@) by {
            if below {
                lemma_prune_low(path@, lo@, k);
                lemma_lex_asymmetric(k, lo@);
                lemma_lex_irreflexive(k);
            } else {
                lemma_prune_high(path@, hi@, k);
                lemma_lex_asymmetric(k, hi@);
                lemma_lex_irreflexive(k);
            }
        }
    }
    !(below || above)
}

} // verus!
