use vstd::prelude::*;

verus! {

/// Cloning a `V` gives back an equal value. Copy-on-write structures clone
/// the values on a copied path, so their contracts speak of the stored values
/// exactly where this holds.
pub open spec fn clone_preserves<V: Clone>() -> bool {
    forall|a: V, b: V| #[trigger] cloned(a, b) ==> a == b
}

/// `b` holds a value exactly when `a` does, and then `a`'s value or a clone
/// of it.
pub open spec fn cloned_opt<V: Clone>(a: Option<V>, b: Option<V>) -> bool {
    match a {
        Some(x) => b is Some && cloned(x, b->0),
        None => b is None,
    }
}

/// `b` is `a` with each value replaced by itself or a clone of it.
pub open spec fn cloned_entries<V: Clone>(a: Seq<(Seq<u8>, V)>, b: Seq<(Seq<u8>, V)>) -> bool {
    &&& a.len() == b.len()
    &&& forall|i: int| 0 <= i < a.len() ==> (#[trigger] b[i]).0 == a[i].0 && cloned(a[i].1, b[i].1)
}

/// Entry lists cloned part by part are cloned as a whole.
pub proof fn lemma_cloned_entries_add<V: Clone>(
    a: Seq<(Seq<u8>, V)>,
    b: Seq<(Seq<u8>, V)>,
    c: Seq<(Seq<u8>, V)>,
    d: Seq<(Seq<u8>, V)>,
)
    requires
        cloned_entries(a, c),
        cloned_entries(b, d),
    ensures
        cloned_entries(a + b, c + d),
{
    assert forall|i: int| 0 <= i < (a + b).len() implies (#[trigger] (c + d)[i]).0 == (a + b)[i].0 && cloned((a + b)[i].1, (c + d)[i].1) by {
        if i >= a.len() {
            assert((c + d)[i] == d[i - a.len()]);
            assert((a + b)[i] == b[i - a.len()]);
        } else {
            assert((c + d)[i] == c[i]);
            assert((a + b)[i] == a[i]);
        }
    }
}

/// When clones are equal, cloned entry lists are equal.
pub proof fn lemma_cloned_entries_exact<V: Clone>(a: Seq<(Seq<u8>, V)>, b: Seq<(Seq<u8>, V)>)
    requires
        cloned_entries(a, b),
        clone_preserves::<V>(),
    ensures
        a == b,
{
    assert forall|i: int| 0 <= i < a.len() implies a[i] == b[i] by {
        assert(cloned(a[i].1, b[i].1));
    }
    assert(a =~= b);
}

} // verus!
