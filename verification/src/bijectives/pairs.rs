use vstd::prelude::*;

use crate::primitives::checkpointing::rolled_back;

verus! {

/// The forward map of an insertion log: each key to its value.
pub open spec fn fwd_map<K, V>(s: Seq<(K, V)>) -> Map<K, V>
    decreases s.len(),
{
    if s.len() == 0 {
        Map::empty()
    } else {
        fwd_map(s.drop_last()).insert(s.last().0, s.last().1)
    }
}

/// The reverse map of an insertion log: each value to its key.
pub open spec fn rev_map<K, V>(s: Seq<(K, V)>) -> Map<V, K>
    decreases s.len(),
{
    if s.len() == 0 {
        Map::empty()
    } else {
        rev_map(s.drop_last()).insert(s.last().1, s.last().0)
    }
}

/// No key and no value occurs twice in the log.
pub open spec fn pairs_unique<K, V>(s: Seq<(K, V)>) -> bool {
    forall|i: int, j: int| 0 <= i < s.len() && 0 <= j < s.len() && i != j
        ==> #[trigger] s[i].0 != #[trigger] s[j].0 && s[i].1 != s[j].1
}

/// The forward and reverse maps of a log without repeats hold exactly its
/// pairs.
pub proof fn lemma_maps_of_log<K, V>(s: Seq<(K, V)>)
    requires
        pairs_unique(s),
    ensures
        forall|k: K| #[trigger] fwd_map(s).contains_key(k) <==> exists|i: int| 0 <= i < s.len() && s[i].0 == k,
        forall|v: V| #[trigger] rev_map(s).contains_key(v) <==> exists|i: int| 0 <= i < s.len() && s[i].1 == v,
        forall|i: int| 0 <= i < s.len() ==> fwd_map(s)[#[trigger] s[i].0] == s[i].1,
        forall|i: int| 0 <= i < s.len() ==> rev_map(s)[#[trigger] s[i].1] == s[i].0,
        fwd_map(s).dom().finite(),
        rev_map(s).dom().finite(),
    decreases s.len(),
{
    if s.len() > 0 {
        let t = s.drop_last();
        assert(pairs_unique(t)) by {
            assert forall|i: int, j: int| 0 <= i < t.len() && 0 <= j < t.len() && i != j
                implies #[trigger] t[i].0 != #[trigger] t[j].0 && t[i].1 != t[j].1 by {
                assert(t[i] == s[i] && t[j] == s[j]);
            }
        }
        lemma_maps_of_log(t);
        let n = s.len() - 1;
        assert forall|k: K| #[trigger] fwd_map(s).contains_key(k) <==> exists|i: int| 0 <= i < s.len() && s[i].0 == k by {
            if fwd_map(s).contains_key(k) && k != s[n].0 {
                let i = choose|i: int| 0 <= i < t.len() && t[i].0 == k;
                assert(s[i] == t[i]);
            }
            if exists|i: int| 0 <= i < s.len() && s[i].0 == k {
                let i = choose|i: int| 0 <= i < s.len() && s[i].0 == k;
                if i < n {
                    assert(t[i] == s[i]);
                }
            }
        }
        assert forall|v: V| #[trigger] rev_map(s).contains_key(v) <==> exists|i: int| 0 <= i < s.len() && s[i].1 == v by {
            if rev_map(s).contains_key(v) && v != s[n].1 {
                let i = choose|i: int| 0 <= i < t.len() && t[i].1 == v;
                assert(s[i] == t[i]);
            }
            if exists|i: int| 0 <= i < s.len() && s[i].1 == v {
                let i = choose|i: int| 0 <= i < s.len() && s[i].1 == v;
                if i < n {
                    assert(t[i] == s[i]);
                }
            }
        }
        assert forall|i: int| 0 <= i < s.len() implies fwd_map(s)[#[trigger] s[i].0] == s[i].1 by {
            if i < n {
                assert(t[i] == s[i]);
                assert(s[i].0 != s[n].0);
            }
        }
        assert forall|i: int| 0 <= i < s.len() implies rev_map(s)[#[trigger] s[i].1] == s[i].0 by {
            if i < n {
                assert(t[i] == s[i]);
                assert(s[i].1 != s[n].1);
            }
        }
    }
}

/// Dropping the last pair of a log without repeats removes it from both
/// maps.
pub proof fn lemma_maps_drop_last<K, V>(s: Seq<(K, V)>)
    requires
        pairs_unique(s),
        s.len() > 0,
    ensures
        fwd_map(s.drop_last()) == fwd_map(s).remove(s.last().0),
        rev_map(s.drop_last()) == rev_map(s).remove(s.last().1),
        pairs_unique(s.drop_last()),
{
    let t = s.drop_last();
    let n = s.len() - 1;
    assert(pairs_unique(t)) by {
        assert forall|i: int, j: int| 0 <= i < t.len() && 0 <= j < t.len() && i != j
            implies #[trigger] t[i].0 != #[trigger] t[j].0 && t[i].1 != t[j].1 by {
            assert(t[i] == s[i] && t[j] == s[j]);
        }
    }
    lemma_maps_of_log(t);
    assert(!fwd_map(t).contains_key(s[n].0)) by {
        if fwd_map(t).contains_key(s[n].0) {
            let i = choose|i: int| 0 <= i < t.len() && t[i].0 == s[n].0;
            assert(t[i] == s[i]);
        }
    }
    assert(!rev_map(t).contains_key(s[n].1)) by {
        if rev_map(t).contains_key(s[n].1) {
            let i = choose|i: int| 0 <= i < t.len() && t[i].1 == s[n].1;
            assert(t[i] == s[i]);
        }
    }
    assert(fwd_map(t) =~= fwd_map(s).remove(s.last().0));
    assert(rev_map(t) =~= rev_map(s).remove(s.last().1));
}

/// Appending a pair whose key and value are new keeps the log without
/// repeats.
pub proof fn lemma_push_unique<K, V>(s: Seq<(K, V)>, k: K, v: V)
    requires
        pairs_unique(s),
        !fwd_map(s).contains_key(k),
        !rev_map(s).contains_key(v),
    ensures
        pairs_unique(s.push((k, v))),
{
    lemma_maps_of_log(s);
    let t = s.push((k, v));
    assert forall|i: int, j: int| 0 <= i < t.len() && 0 <= j < t.len() && i != j
        implies #[trigger] t[i].0 != #[trigger] t[j].0 && t[i].1 != t[j].1 by {
        if i < s.len() && j < s.len() {
            assert(t[i] == s[i] && t[j] == s[j]);
        } else if i < s.len() {
            assert(t[i] == s[i]);
            if s[i].0 == k {
                assert(fwd_map(s).contains_key(k));
            }
            if s[i].1 == v {
                assert(rev_map(s).contains_key(v));
            }
        } else {
            assert(t[j] == s[j]);
            if s[j].0 == k {
                assert(fwd_map(s).contains_key(k));
            }
            if s[j].1 == v {
                assert(rev_map(s).contains_key(v));
            }
        }
    }
}

/// The two directions of a bimap agree: a key maps to a value exactly when
/// that value maps back to the key.
pub proof fn law_bimap_inverse<K, V>(log: Seq<(K, V)>, k: K, v: V)
    requires
        pairs_unique(log),
    ensures
        (fwd_map(log).contains_key(k) && fwd_map(log)[k] == v) <==> (rev_map(log).contains_key(v) && rev_map(log)[v] == k),
{
    lemma_maps_of_log(log);
    if fwd_map(log).contains_key(k) && fwd_map(log)[k] == v {
        let i = choose|i: int| 0 <= i < log.len() && log[i].0 == k;
        assert(fwd_map(log)[log[i].0] == log[i].1);
        assert(rev_map(log)[log[i].1] == log[i].0);
    }
    if rev_map(log).contains_key(v) && rev_map(log)[v] == k {
        let i = choose|i: int| 0 <= i < log.len() && log[i].1 == v;
        assert(rev_map(log)[log[i].1] == log[i].0);
        assert(fwd_map(log)[log[i].0] == log[i].1);
    }
}

/// Rollback is atomic across both directions: after rolling back to
/// `mark`, no pair added since is visible by its key or by its value, and
/// every older pair is still visible both ways.
pub proof fn law_rollback_atomic<K, V>(log: Seq<(K, V)>, mark: nat)
    requires
        pairs_unique(log),
    ensures
        forall|i: int| #![trigger log[i]] 0 <= i < log.len() && i >= mark ==> !fwd_map(rolled_back(log, mark)).contains_key(log[i].0)
            && !rev_map(rolled_back(log, mark)).contains_key(log[i].1),
        forall|i: int| #![trigger log[i]] 0 <= i < log.len() && i < mark ==> fwd_map(rolled_back(log, mark)).contains_key(log[i].0)
            && fwd_map(rolled_back(log, mark))[log[i].0] == log[i].1 && rev_map(rolled_back(log, mark)).contains_key(log[i].1)
            && rev_map(rolled_back(log, mark))[log[i].1] == log[i].0,
{
    let r = rolled_back(log, mark);
    assert(pairs_unique(r)) by {
        assert forall|i: int, j: int| 0 <= i < r.len() && 0 <= j < r.len() && i != j
            implies #[trigger] r[i].0 != #[trigger] r[j].0 && r[i].1 != r[j].1 by {
            assert(r[i] == log[i] && r[j] == log[j]);
        }
    }
    lemma_maps_of_log(r);
    assert forall|i: int| #![trigger log[i]] 0 <= i < log.len() && i >= mark implies !fwd_map(r).contains_key(log[i].0)
        && !rev_map(r).contains_key(log[i].1) by {
        if fwd_map(r).contains_key(log[i].0) {
            let j = choose|j: int| 0 <= j < r.len() && r[j].0 == log[i].0;
            assert(r[j] == log[j]);
        }
        if rev_map(r).contains_key(log[i].1) {
            let j = choose|j: int| 0 <= j < r.len() && r[j].1 == log[i].1;
            assert(r[j] == log[j]);
        }
    }
    assert forall|i: int| #![trigger log[i]] 0 <= i < log.len() && i < mark implies fwd_map(r).contains_key(log[i].0)
        && fwd_map(r)[log[i].0] == log[i].1 && rev_map(r).contains_key(log[i].1) && rev_map(r)[log[i].1] == log[i].0 by {
        assert(r[i] == log[i]);
    }
}

} // verus!
