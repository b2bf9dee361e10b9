use vstd::prelude::*;

use crate::lex::{in_range, strictly_sorted, lex_lt, lemma_lex_irreflexive, lemma_lex_asymmetric};
use crate::values::cloned_entries;

verus! {

/// `out` lists, in strictly increasing key order, exactly the entries of `m`
/// whose keys lie in `[lo, hi]`.
pub open spec fn is_ordered_range<V>(out: Seq<(Seq<u8>, V)>, m: Map<Seq<u8>, V>, lo: Seq<u8>, hi: Seq<u8>) -> bool {
    &&& strictly_sorted(out)
    &&& forall|i: int| 0 <= i < out.len() ==> {
        let e = #[trigger] out[i];
        &&& in_range(e.0, lo, hi)
        &&& m.contains_key(e.0)
        &&& m[e.0] == e.1
    }
    &&& forall|k: Seq<u8>| #[trigger] m.contains_key(k) && in_range(k, lo, hi)
        ==> exists|i: int| 0 <= i < out.len() && out[i].0 == k
}

/// Key/value pairs with the keys taken by their views.
pub open spec fn pairs_view<V>(s: Seq<(Vec<u8>, V)>) -> Seq<(Seq<u8>, V)> {
    s.map_values(|e: (Vec<u8>, V)| (e.0@, e.1))
}

/// The entries of `s` whose keys lie in `[lo, hi]`, in their order in `s`.
pub open spec fn in_range_entries<V>(s: Seq<(Seq<u8>, V)>, lo: Seq<u8>, hi: Seq<u8>) -> Seq<(Seq<u8>, V)> {
    s.filter(|e: (Seq<u8>, V)| in_range(e.0, lo, hi))
}

pub proof fn lemma_in_range_entries_add<V>(a: Seq<(Seq<u8>, V)>, b: Seq<(Seq<u8>, V)>, lo: Seq<u8>, hi: Seq<u8>)
    ensures
        in_range_entries(a + b, lo, hi) == in_range_entries(a, lo, hi) + in_range_entries(b, lo, hi),
{
    Seq::filter_distributes_over_add(a, b, |e: (Seq<u8>, V)| in_range(e.0, lo, hi));
}

pub proof fn lemma_in_range_entries_none<V>(s: Seq<(Seq<u8>, V)>, lo: Seq<u8>, hi: Seq<u8>)
    requires
        forall|x: int| 0 <= x < s.len() ==> !in_range(#[trigger] s[x].0, lo, hi),
    ensures
        in_range_entries(s, lo, hi) == Seq::<(Seq<u8>, V)>::empty(),
    decreases s.len(),
{
    reveal(Seq::filter);
    if s.len() > 0 {
        assert forall|x: int| 0 <= x < s.drop_last().len() implies !in_range(#[trigger] s.drop_last()[x].0, lo, hi) by {
            assert(s.drop_last()[x] == s[x]);
        }
        lemma_in_range_entries_none(s.drop_last(), lo, hi);
        assert(!in_range(s[s.len() - 1].0, lo, hi));
    }
}

pub proof fn lemma_in_range_entries_single<V>(e: (Seq<u8>, V), lo: Seq<u8>, hi: Seq<u8>)
    ensures
        in_range_entries(seq![e], lo, hi) == (if in_range(e.0, lo, hi) { seq![e] } else { Seq::empty() }),
{
    reveal(Seq::filter);
    assert(seq![e].drop_last() =~= Seq::<(Seq<u8>, V)>::empty());
    assert(Seq::<(Seq<u8>, V)>::empty().filter(|e: (Seq<u8>, V)| in_range(e.0, lo, hi)) =~= Seq::<(Seq<u8>, V)>::empty());
}

/// Filtering keeps strict key order.
pub proof fn lemma_in_range_entries_sorted<V>(s: Seq<(Seq<u8>, V)>, lo: Seq<u8>, hi: Seq<u8>)
    requires
        strictly_sorted(s),
    ensures
        strictly_sorted(in_range_entries(s, lo, hi)),
    decreases s.len(),
{
    reveal(Seq::filter);
    broadcast use vstd::seq_lib::group_filter_ensures;
    if s.len() > 0 {
        let init = s.drop_last();
        assert(strictly_sorted(init)) by {
            assert forall|i: int, j: int| 0 <= i < j < init.len() implies lex_lt(#[trigger] init[i].0, #[trigger] init[j].0) by {
                assert(init[i] == s[i] && init[j] == s[j]);
            }
        }
        lemma_in_range_entries_sorted(init, lo, hi);
        let f = in_range_entries(init, lo, hi);
        let last = s.last();
        if in_range(last.0, lo, hi) {
            let g = f.push(last);
            assert(in_range_entries(s, lo, hi) == g);
            assert forall|i: int, j: int| 0 <= i < j < g.len() implies lex_lt(#[trigger] g[i].0, #[trigger] g[j].0) by {
                if j == g.len() - 1 {
                    assert(g[i] == f[i]);
                    assert(init.filter(|e: (Seq<u8>, V)| in_range(e.0, lo, hi)).contains(f[i]) ==> init.contains(f[i])) by {
                        if init.filter(|e: (Seq<u8>, V)| in_range(e.0, lo, hi)).contains(f[i]) {
                            init.lemma_filter_contains_rev(|e: (Seq<u8>, V)| in_range(e.0, lo, hi), f[i]);
                        }
                    }
                    assert(f.contains(f[i]));
                    let x = choose|x: int| 0 <= x < init.len() && init[x] == f[i];
                    assert(s[x] == init[x]);
                    assert(lex_lt(s[x].0, s[s.len() - 1].0));
                } else {
                    assert(g[i] == f[i] && g[j] == f[j]);
                }
            }
        }
    }
}

/// `out` lists, in strictly increasing key order, exactly the keys of `m`
/// that lie in `[lo, hi]`, each with a clone of its value.
pub open spec fn is_cloned_range<V: Clone>(out: Seq<(Seq<u8>, V)>, m: Map<Seq<u8>, V>, lo: Seq<u8>, hi: Seq<u8>) -> bool {
    &&& strictly_sorted(out)
    &&& forall|i: int| 0 <= i < out.len() ==> {
        let e = #[trigger] out[i];
        &&& in_range(e.0, lo, hi)
        &&& m.contains_key(e.0)
        &&& cloned(m[e.0], e.1)
    }
    &&& forall|k: Seq<u8>| #[trigger] m.contains_key(k) && in_range(k, lo, hi)
        ==> exists|i: int| 0 <= i < out.len() && out[i].0 == k
}

/// `f` has been called, and has returned, on a key and a value equal to
/// those of `e`.
pub open spec fn called_on<V, F: FnMut(&[u8], &V)>(f: F, e: (Seq<u8>, V)) -> bool {
    exists|k: &[u8], v: &V| #[trigger] call_ensures(f, (k, v), ()) && k@ == e.0 && *v == e.1
}

/// Something a range walk hands its entries to, one call per entry, in the
/// order of the walk.
pub trait RangeVisitor<V> {
    /// What the visitor hands the entries on to.
    type Target;

    /// What the visitor hands the entries on to; taking entries does not
    /// change it.
    spec fn target(&self) -> Self::Target;

    /// The entries handed over so far, in the order they came.
    spec fn seen(&self) -> Seq<(Seq<u8>, V)>;

    /// Whether the visitor may be handed `key` and `value`.
    spec fn accepts(&self, key: &[u8], value: &V) -> bool;

    /// What the visitor keeps true between calls.
    spec fn inv(&self) -> bool;

    /// Take one entry.
    fn visit(&mut self, key: &[u8], value: &V)
        requires
            old(self).inv(),
            old(self).accepts(key, value),
        ensures
            final(self).inv(),
            final(self).target() == old(self).target(),
            final(self).seen() == old(self).seen().push((key@, *value)),
            forall|k: &[u8], v: &V| #[trigger] final(self).accepts(k, v) == old(self).accepts(k, v),
    ;
}

/// A visitor that passes each entry on to a callback, and records, as a
/// ghost, the entries it passed on.
pub(crate) struct CallbackVisitor<V, F> {
    f: F,
    log: Ghost<Seq<(Seq<u8>, V)>>,
    origin: Ghost<F>,
}

impl<V, F: FnMut(&[u8], &V)> CallbackVisitor<V, F> {
    /// A visitor over `f` that has seen nothing yet.
    pub(crate) fn new(f: F) -> (w: Self)
        ensures
            w.inv(),
            w.seen() == Seq::<(Seq<u8>, V)>::empty(),
            w.target() == f,
            forall|k: &[u8], v: &V| #[trigger] w.accepts(k, v) == call_requires(f, (k, v)),
    {
        let ghost g = f;
        CallbackVisitor { f, log: Ghost(Seq::empty()), origin: Ghost(g) }
    }

    /// Every entry the visitor recorded was passed to its callback.
    pub(crate) proof fn lemma_called(&self)
        requires
            self.inv(),
        ensures
            forall|i: int| 0 <= i < self.seen().len() ==> called_on(self.target(), #[trigger] self.seen()[i]),
    {
    }
}

impl<V, F: FnMut(&[u8], &V)> RangeVisitor<V> for CallbackVisitor<V, F> {
    type Target = F;

    closed spec fn target(&self) -> F {
        self.origin@
    }

    closed spec fn seen(&self) -> Seq<(Seq<u8>, V)> {
        self.log@
    }

    closed spec fn accepts(&self, key: &[u8], value: &V) -> bool {
        call_requires(self.f, (key, value))
    }

    /// The callback is the one the visitor started with, and it has been
    /// called on every entry recorded.
    closed spec fn inv(&self) -> bool {
        &&& self.f == self.origin@
        &&& forall|i: int| 0 <= i < self.log@.len() ==> called_on(self.origin@, #[trigger] self.log@[i])
    }

    fn visit(&mut self, key: &[u8], value: &V) {
        (self.f)(key, value);
        proof {
            assert(called_on(self.origin@, (key@, *value)));
        }
        self.log = Ghost(self.log@.push((key@, *value)));
    }
}

/// A map has one ordered range per pair of bounds: any two sequences that
/// list, in strictly increasing key order, exactly the entries of `m` in
/// `[lo, hi]` are the same sequence. So every walk whose output is an
/// ordered range (`range_ref`, `range`, the lazy walk, and what
/// `visit_range` hands its visitor) yields the same entries in the same
/// order.
pub proof fn law_ordered_range_unique<V>(
    a: Seq<(Seq<u8>, V)>,
    b: Seq<(Seq<u8>, V)>,
    m: Map<Seq<u8>, V>,
    lo: Seq<u8>,
    hi: Seq<u8>,
)
    requires
        is_ordered_range(a, m, lo, hi),
        is_ordered_range(b, m, lo, hi),
    ensures
        a == b,
    decreases a.len(),
{
    if a.len() == 0 {
        if b.len() > 0 {
            assert(m.contains_key(b[0].0) && in_range(b[0].0, lo, hi));
        }
        assert(a =~= b);
    } else if b.len() == 0 {
        assert(m.contains_key(a[0].0) && in_range(a[0].0, lo, hi));
    } else {
        let ka = a[0].0;
        let kb = b[0].0;
        assert(m.contains_key(ka) && in_range(ka, lo, hi));
        assert(m.contains_key(kb) && in_range(kb, lo, hi));
        let j = choose|j: int| 0 <= j < b.len() && b[j].0 == ka;
        let i = choose|i: int| 0 <= i < a.len() && a[i].0 == kb;
        if j > 0 {
            assert(lex_lt(b[0].0, b[j].0));
            if i > 0 {
                assert(lex_lt(a[0].0, a[i].0));
                lemma_lex_asymmetric(ka, kb);
            } else {
                lemma_lex_irreflexive(ka);
            }
        }
        assert(ka == kb);
        assert(a[0] == b[0]);
        let m2 = m.remove(ka);
        let a2 = a.drop_first();
        let b2 = b.drop_first();
        assert forall|x: int, y: int| 0 <= x < y < a2.len() implies lex_lt(#[trigger] a2[x].0, #[trigger] a2[y].0) by {
            assert(a2[x] == a[x + 1] && a2[y] == a[y + 1]);
        }
        assert forall|x: int, y: int| 0 <= x < y < b2.len() implies lex_lt(#[trigger] b2[x].0, #[trigger] b2[y].0) by {
            assert(b2[x] == b[x + 1] && b2[y] == b[y + 1]);
        }
        assert forall|x: int| 0 <= x < a2.len() implies {
            let e = #[trigger] a2[x];
            &&& in_range(e.0, lo, hi)
            &&& m2.contains_key(e.0)
            &&& m2[e.0] == e.1
        } by {
            assert(a2[x] == a[x + 1]);
            assert(lex_lt(a[0].0, a[x + 1].0));
            lemma_lex_irreflexive(ka);
        }
        assert forall|x: int| 0 <= x < b2.len() implies {
            let e = #[trigger] b2[x];
            &&& in_range(e.0, lo, hi)
            &&& m2.contains_key(e.0)
            &&& m2[e.0] == e.1
        } by {
            assert(b2[x] == b[x + 1]);
            assert(lex_lt(b[0].0, b[x + 1].0));
            lemma_lex_irreflexive(ka);
        }
        assert forall|k: Seq<u8>| #[trigger] m2.contains_key(k) && in_range(k, lo, hi)
            implies exists|x: int| 0 <= x < a2.len() && a2[x].0 == k by {
            assert(m.contains_key(k));
            let x = choose|x: int| 0 <= x < a.len() && a[x].0 == k;
            assert(x > 0);
            assert(a2[x - 1] == a[x]);
        }
        assert forall|k: Seq<u8>| #[trigger] m2.contains_key(k) && in_range(k, lo, hi)
            implies exists|x: int| 0 <= x < b2.len() && b2[x].0 == k by {
            assert(m.contains_key(k));
            let x = choose|x: int| 0 <= x < b.len() && b[x].0 == k;
            assert(x > 0);
            assert(b2[x - 1] == b[x]);
        }
        law_ordered_range_unique(a2, b2, m2, lo, hi);
        assert(a =~= seq![a[0]] + a2);
        assert(b =~= seq![b[0]] + b2);
    }
}

/// Pairs of owned keys and borrowed values, taken by their views.
pub open spec fn ref_pairs<V>(s: Seq<(Vec<u8>, &V)>) -> Seq<(Seq<u8>, V)> {
    s.map_values(|e: (Vec<u8>, &V)| (e.0@, *e.1))
}

/// Cloning the values of an ordered range gives a cloned range.
pub proof fn lemma_cloned_range<V: Clone>(all: Seq<(Seq<u8>, V)>, got: Seq<(Seq<u8>, V)>, m: Map<Seq<u8>, V>, lo: Seq<u8>, hi: Seq<u8>)
    requires
        is_ordered_range(all, m, lo, hi),
        cloned_entries(all, got),
    ensures
        is_cloned_range(got, m, lo, hi),
{
    assert forall|i: int, j: int| 0 <= i < j < got.len() implies lex_lt(#[trigger] got[i].0, #[trigger] got[j].0) by {
        assert(got[i].0 == all[i].0 && got[j].0 == all[j].0);
        assert(lex_lt(all[i].0, all[j].0));
    }
    assert forall|i: int| 0 <= i < got.len() implies {
        let e = #[trigger] got[i];
        &&& in_range(e.0, lo, hi)
        &&& m.contains_key(e.0)
        &&& cloned(m[e.0], e.1)
    } by {
        assert(got[i].0 == all[i].0 && cloned(all[i].1, got[i].1));
        let e = all[i];
        assert(m[e.0] == e.1);
    }
    assert forall|k: Seq<u8>| #[trigger] m.contains_key(k) && in_range(k, lo, hi) implies exists|i: int| 0 <= i < got.len() && got[i].0 == k by {
        let i = choose|i: int| 0 <= i < all.len() && all[i].0 == k;
        assert(got[i].0 == all[i].0);
    }
}

} // verus!
