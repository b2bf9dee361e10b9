use vstd::prelude::*;
use std::sync::Arc;

use crate::lex::{lex_lt, in_range, is_prefix, strictly_sorted, lemma_head_tail_eq, compare_bytes, copy_bytes, subtree_may_hit};
use crate::values::{clone_preserves, cloned_opt, cloned_entries, lemma_cloned_entries_add, lemma_cloned_entries_exact};
use super::traits::{OrderedMap, SnapshotMap};
use crate::primitives::{Clearable, Container};
use crate::ranges::{called_on, CallbackVisitor, RangeVisitor, lemma_cloned_range, is_ordered_range, pairs_view, in_range_entries, lemma_in_range_entries_add, lemma_in_range_entries_none, lemma_in_range_entries_single, lemma_in_range_entries_sorted};

verus! {

/// A node of the byte radix tree: byte-sorted children and an optional value
/// for the key that ends here.
pub struct Node<V> {
    children: Vec<(u8, Arc<Node<V>>)>,
    value: Option<V>,
}

/// The children's bytes strictly increase.
pub open spec fn bytes_sorted<V>(cs: Seq<(u8, Arc<Node<V>>)>) -> bool {
    forall|i: int, j: int| 0 <= i < j < cs.len() ==> #[trigger] cs[i].0 < #[trigger] cs[j].0
}

/// Some child hangs under byte `b`.
pub open spec fn has_byte<V>(cs: Seq<(u8, Arc<Node<V>>)>, b: u8) -> bool {
    exists|i: int| 0 <= i < cs.len() && #[trigger] cs[i].0 == b
}

/// The position of the child under byte `b`.
pub open spec fn slot_of<V>(cs: Seq<(u8, Arc<Node<V>>)>, b: u8) -> int {
    choose|i: int| 0 <= i < cs.len() && #[trigger] cs[i].0 == b
}

impl<V> Node<V> {
    /// Well-formed: children sorted by byte at every level.
    pub closed spec fn wf(self) -> bool
        decreases self,
    {
        &&& bytes_sorted(self.children@)
        &&& forall|i: int| 0 <= i < self.children@.len() ==> (*self.children@[i].1).wf()
    }

    /// The value stored under `key` below this node.
    pub closed spec fn lookup(self, key: Seq<u8>) -> Option<V>
        decreases key.len(),
    {
        if key.len() == 0 {
            self.value
        } else if has_byte(self.children@, key[0]) {
            (*self.children@[slot_of(self.children@, key[0])].1).lookup(key.drop_first())
        } else {
            None
        }
    }

    /// The entries below this node, each key prefixed by `path`, in
    /// depth-first order: this node's own value first, then each child's
    /// entries in byte order.
    pub closed spec fn entries_under(self, path: Seq<u8>) -> Seq<(Seq<u8>, V)>
        decreases self, 1nat,
    {
        let own = match self.value {
            Some(v) => seq![(path, v)],
            None => Seq::empty(),
        };
        own + Self::kids_entries(self.children@, path, self.children@.len() as int)
    }

    /// The entries of the first `n` children, prefixed by `path` and each
    /// child's byte.
    pub closed spec fn kids_entries(cs: Seq<(u8, Arc<Node<V>>)>, path: Seq<u8>, n: int) -> Seq<(Seq<u8>, V)>
        decreases cs, 0nat, n,
    {
        if n <= 0 || n > cs.len() {
            Seq::empty()
        } else {
            Self::kids_entries(cs, path, n - 1) + (*cs[n - 1].1).entries_under(path.push(cs[n - 1].0))
        }
    }

    /// The key/value content below this node.
    pub closed spec fn content(self) -> Map<Seq<u8>, V> {
        Map::new(|k: Seq<u8>| self.lookup(k) is Some, |k: Seq<u8>| self.lookup(k)->0)
    }
}

proof fn lemma_slot_unique<V>(cs: Seq<(u8, Arc<Node<V>>)>, j: int)
    requires
        bytes_sorted(cs),
        0 <= j < cs.len(),
    ensures
        has_byte(cs, cs[j].0),
        slot_of(cs, cs[j].0) == j,
{
    let b = cs[j].0;
    assert(cs[j].0 == b);
    let s = slot_of(cs, b);
    if s != j {
        if s < j {
            assert(cs[s].0 < cs[j].0);
        } else {
            assert(cs[j].0 < cs[s].0);
        }
    }
}

/// `e` is an entry of `node` seen from `path`: its key extends `path` and the
/// rest of the key leads to its value.
pub open spec fn entry_of<V>(node: Node<V>, path: Seq<u8>, e: (Seq<u8>, V)) -> bool {
    &&& is_prefix(path, e.0)
    &&& node.lookup(e.0.skip(path.len() as int)) == Some(e.1)
}

/// `e` is an entry of one of the first `n` children, seen from `path`.
#[verifier::opaque]
pub open spec fn from_kid<V>(cs: Seq<(u8, Arc<Node<V>>)>, path: Seq<u8>, n: int, e: (Seq<u8>, V)) -> bool {
    exists|j: int| 0 <= j < n && #[trigger] entry_of(*cs[j].1, path.push(cs[j].0), e)
}

proof fn lemma_own_entry<V>(node: Node<V>, path: Seq<u8>)
    requires
        node.value is Some,
    ensures
        entry_of(node, path, (path, node.value->0)),
{
    assert(path.take(path.len() as int) =~= path);
    assert(path.skip(path.len() as int) =~= Seq::<u8>::empty());
}

/// An entry of a child is an entry of the parent.
proof fn lemma_kid_entry_lifts<V>(node: Node<V>, path: Seq<u8>, e: (Seq<u8>, V))
    requires
        bytes_sorted(node.children@),
        from_kid(node.children@, path, node.children@.len() as int, e),
    ensures
        entry_of(node, path, e),
        path.len() < e.0.len(),
{
    reveal(from_kid);
    let cs = node.children@;
    let j = choose|j: int| 0 <= j < cs.len() && #[trigger] entry_of(*cs[j].1, path.push(cs[j].0), e);
    let p = path.push(cs[j].0);
    assert(e.0.take(p.len() as int) == p);
    assert(e.0.take(path.len() as int) =~= p.take(path.len() as int));
    assert(p.take(path.len() as int) =~= path);
    let key = e.0.skip(path.len() as int);
    assert(key[0] == e.0.take(p.len() as int)[path.len() as int]);
    lemma_slot_unique(cs, j);
    lemma_lookup_nonempty(node, key);
    assert(key.drop_first() =~= e.0.skip(p.len() as int));
}

/// Every depth-first entry is an entry of the node.
proof fn lemma_entries_sound<V>(node: Node<V>, path: Seq<u8>)
    requires
        node.wf(),
    ensures
        forall|x: int| 0 <= x < node.entries_under(path).len()
            ==> entry_of(node, path, #[trigger] node.entries_under(path)[x]),
    decreases node, 1nat,
{
    let cs = node.children@;
    let n = cs.len() as int;
    let kids = Node::<V>::kids_entries(cs, path, n);
    let all = node.entries_under(path);
    let own_len: int = if node.value is Some { 1 } else { 0 };
    assert(all.len() == own_len + kids.len());
    lemma_kids_sound(cs, path, n);
    assert forall|x: int| 0 <= x < all.len() implies entry_of(node, path, #[trigger] all[x]) by {
        if x < own_len {
            assert(all[x] == (path, node.value->0));
            lemma_own_entry(node, path);
        } else {
            assert(all[x] == kids[x - own_len]);
            lemma_kid_entry_lifts(node, path, all[x]);
        }
    }
}

proof fn lemma_kids_sound<V>(cs: Seq<(u8, Arc<Node<V>>)>, path: Seq<u8>, n: int)
    requires
        0 <= n <= cs.len(),
        forall|i: int| 0 <= i < cs.len() ==> (*cs[i].1).wf(),
    ensures
        forall|x: int| 0 <= x < Node::<V>::kids_entries(cs, path, n).len()
            ==> from_kid(cs, path, n, #[trigger] Node::<V>::kids_entries(cs, path, n)[x]),
    decreases cs, 0nat, n,
{
    reveal(from_kid);
    if n > 0 {
        let prev = Node::<V>::kids_entries(cs, path, n - 1);
        let c = *cs[n - 1].1;
        let p = path.push(cs[n - 1].0);
        let mine = c.entries_under(p);
        let all = Node::<V>::kids_entries(cs, path, n);
        assert(all == prev + mine);
        lemma_kids_sound(cs, path, n - 1);
        lemma_entries_sound(c, p);
        assert forall|x: int| 0 <= x < all.len() implies from_kid(cs, path, n, #[trigger] all[x]) by {
            if x < prev.len() {
                assert(all[x] == prev[x]);
                assert(from_kid(cs, path, n - 1, prev[x]));
            } else {
                assert(all[x] == mine[x - prev.len()]);
                assert(entry_of(c, p, all[x]));
            }
        }
    }
}

/// Every key of the content appears among the depth-first entries.
proof fn lemma_entries_complete<V>(node: Node<V>, path: Seq<u8>)
    requires
        node.wf(),
    ensures
        forall|k: Seq<u8>| #[trigger] node.lookup(k) is Some
            ==> node.entries_under(path).contains((path + k, node.lookup(k)->0)),
    decreases node, 1nat,
{
    let cs = node.children@;
    let n = cs.len() as int;
    let kids = Node::<V>::kids_entries(cs, path, n);
    let all = node.entries_under(path);
    let own_len: int = if node.value is Some { 1 } else { 0 };
    assert(all.len() == own_len + kids.len());
    lemma_kids_complete(cs, path, n);
    assert forall|k: Seq<u8>| #[trigger] node.lookup(k) is Some implies all.contains((path + k, node.lookup(k)->0)) by {
        if k.len() == 0 {
            assert(path + k =~= path);
            assert(all[0] == (path, node.value->0));
        } else {
            lemma_lookup_nonempty(node, k);
            let j = slot_of(cs, k[0]);
            assert(cs[j].0 == k[0]);
            let c = *cs[j].1;
            assert(c.lookup(k.drop_first()) is Some);
            assert(path.push(cs[j].0) + k.drop_first() =~= path + k);
            let y = choose|y: int| 0 <= y < kids.len() && kids[y] == (path.push(cs[j].0) + k.drop_first(), c.lookup(k.drop_first())->0);
            assert(all[own_len + y] == kids[y]);
        }
    }
}

proof fn lemma_kids_complete<V>(cs: Seq<(u8, Arc<Node<V>>)>, path: Seq<u8>, n: int)
    requires
        0 <= n <= cs.len(),
        forall|i: int| 0 <= i < cs.len() ==> (*cs[i].1).wf(),
    ensures
        forall|j: int, k: Seq<u8>| 0 <= j < n && (#[trigger] (*cs[j].1).lookup(k)) is Some
            ==> Node::<V>::kids_entries(cs, path, n).contains((path.push(cs[j].0) + k, (*cs[j].1).lookup(k)->0)),
    decreases cs, 0nat, n,
{
    if n > 0 {
        let prev = Node::<V>::kids_entries(cs, path, n - 1);
        let c = *cs[n - 1].1;
        let p = path.push(cs[n - 1].0);
        let mine = c.entries_under(p);
        let all = Node::<V>::kids_entries(cs, path, n);
        assert(all == prev + mine);
        lemma_kids_complete(cs, path, n - 1);
        lemma_entries_complete(c, p);
        assert forall|j: int, k: Seq<u8>| 0 <= j < n && (#[trigger] (*cs[j].1).lookup(k)) is Some
            implies all.contains((path.push(cs[j].0) + k, (*cs[j].1).lookup(k)->0)) by {
            let target = (path.push(cs[j].0) + k, (*cs[j].1).lookup(k)->0);
            if j < n - 1 {
                let y = choose|y: int| 0 <= y < prev.len() && prev[y] == target;
                assert(all[y] == target);
            } else {
                assert(c.lookup(k) is Some);
                let y = choose|y: int| 0 <= y < mine.len() && mine[y] == (p + k, c.lookup(k)->0);
                assert(all[prev.len() + y] == target);
            }
        }
    }
}

/// The depth-first entries come in strictly increasing key order.
proof fn lemma_entries_sorted<V>(node: Node<V>, path: Seq<u8>)
    requires
        node.wf(),
    ensures
        strictly_sorted(node.entries_under(path)),
    decreases node, 1nat,
{
    let cs = node.children@;
    let n = cs.len() as int;
    let kids = Node::<V>::kids_entries(cs, path, n);
    let all = node.entries_under(path);
    let own_len: int = if node.value is Some { 1 } else { 0 };
    assert(all.len() == own_len + kids.len());
    lemma_kids_sorted(cs, path, n);
    lemma_kids_sound(cs, path, n);
    assert forall|x: int, y: int| 0 <= x < y < all.len() implies lex_lt(#[trigger] all[x].0, #[trigger] all[y].0) by {
        if x < own_len {
            assert(all[x].0 == path);
            assert(all[y] == kids[y - own_len]);
            lemma_kid_entry_lifts(node, path, kids[y - own_len]);
            crate::lex::lemma_proper_prefix_lt(path, all[y].0);
        } else {
            assert(all[x] == kids[x - own_len]);
            assert(all[y] == kids[y - own_len]);
        }
    }
}

proof fn lemma_kids_sorted<V>(cs: Seq<(u8, Arc<Node<V>>)>, path: Seq<u8>, n: int)
    requires
        0 <= n <= cs.len(),
        bytes_sorted(cs),
        forall|i: int| 0 <= i < cs.len() ==> (*cs[i].1).wf(),
    ensures
        strictly_sorted(Node::<V>::kids_entries(cs, path, n)),
    decreases cs, 0nat, n,
{
    if n > 0 {
        let prev = Node::<V>::kids_entries(cs, path, n - 1);
        let c = *cs[n - 1].1;
        let p = path.push(cs[n - 1].0);
        let mine = c.entries_under(p);
        let all = Node::<V>::kids_entries(cs, path, n);
        assert(all == prev + mine);
        lemma_kids_sorted(cs, path, n - 1);
        lemma_entries_sorted(c, p);
        lemma_kids_sound(cs, path, n - 1);
        lemma_entries_sound(c, p);
        assert forall|x: int, y: int| 0 <= x < y < all.len() implies lex_lt(#[trigger] all[x].0, #[trigger] all[y].0) by {
            if y < prev.len() {
                assert(all[x] == prev[x]);
                assert(all[y] == prev[y]);
            } else if x >= prev.len() {
                assert(all[x] == mine[x - prev.len()]);
                assert(all[y] == mine[y - prev.len()]);
            } else {
                let e = prev[x];
                let f = mine[y - prev.len()];
                assert(all[x] == e);
                assert(all[y] == f);
                assert(from_kid(cs, path, n - 1, e));
                reveal(from_kid);
                let j = choose|j: int| 0 <= j < n - 1 && #[trigger] entry_of(*cs[j].1, path.push(cs[j].0), e);
                let q = path.push(cs[j].0);
                assert(cs[j].0 < cs[n - 1].0);
                assert(entry_of(c, p, f));
                assert(e.0.take(q.len() as int) == q);
                assert(f.0.take(p.len() as int) == p);
                assert(e.0[path.len() as int] == q[path.len() as int]);
                assert(f.0[path.len() as int] == p[path.len() as int]);
                assert(e.0.take(path.len() as int) =~= q.take(path.len() as int));
                assert(f.0.take(path.len() as int) =~= p.take(path.len() as int));
                assert(q.take(path.len() as int) =~= path);
                assert(p.take(path.len() as int) =~= path);
                crate::lex::lemma_lt_at(e.0, f.0, path.len() as int);
            }
        }
    }
}

/// Binary search for the child under byte `b`: `Ok(i)` where it is, or
/// `Err(i)`, the position where it would be inserted.
fn find_child<V>(cs: &Vec<(u8, Arc<Node<V>>)>, b: u8) -> (r: Result<usize, usize>)
    requires
        bytes_sorted(cs@),
    ensures
        r matches Ok(i) ==> i < cs@.len() && cs@[i as int].0 == b,
        r matches Err(i) ==> i <= cs@.len() && (forall|j: int| 0 <= j < i ==> #[trigger] cs@[j].0 < b)
            && (forall|j: int| i <= j < cs@.len() ==> b < #[trigger] cs@[j].0),
        r is Err <==> !has_byte(cs@, b),
{
    let mut lo: usize = 0;
    let mut hi: usize = cs.len();
    while lo < hi
        invariant
            lo <= hi <= cs@.len(),
            bytes_sorted(cs@),
            forall|j: int| 0 <= j < lo ==> #[trigger] cs@[j].0 < b,
            forall|j: int| hi <= j < cs@.len() ==> b < #[trigger] cs@[j].0,
        decreases hi - lo,
    {
        let mid = lo + (hi - lo) / 2;
        let c = cs[mid].0;
        if c == b {
            return Ok(mid);
        } else if c < b {
            proof {
                assert forall|j: int| 0 <= j < mid + 1 implies #[trigger] cs@[j].0 < b by {
                    if j < mid {
                        assert(cs@[j].0 < cs@[mid as int].0);
                    }
                }
            }
            lo = mid + 1;
        } else {
            proof {
                assert forall|j: int| mid <= j < cs@.len() implies b < #[trigger] cs@[j].0 by {
                    if j > mid {
                        assert(cs@[mid as int].0 < cs@[j].0);
                    }
                }
            }
            hi = mid;
        }
    }
    proof {
        if has_byte(cs@, b) {
            let j = slot_of(cs@, b);
            assert(cs@[j].0 == b);
        }
    }
    Err(lo)
}

/// Point lookup, walking one child per key byte.
fn get_rec<'a, V>(root: &'a Node<V>, key: &[u8]) -> (r: Option<&'a V>)
    requires
        root.wf(),
    ensures
        r matches Some(v) ==> root.lookup(key@) == Some(*v),
        r is None ==> root.lookup(key@) is None,
{
    let mut node = root;
    let mut i: usize = 0;
    proof {
        assert(key@.skip(0) =~= key@);
    }
    while i < key.len()
        invariant
            i <= key@.len(),
            node.wf(),
            root.lookup(key@) == node.lookup(key@.skip(i as int)),
        decreases key@.len() - i,
    {
        let b = key[i];
        proof {
            assert(key@.skip(i as int)[0] == b);
            assert(key@.skip(i as int).drop_first() =~= key@.skip(i + 1));
            reveal_with_fuel(Node::wf, 2);
        }
        match find_child(&node.children, b) {
            Ok(j) => {
                proof {
                    lemma_slot_unique(node.children@, j as int);
                }
                node = &node.children[j].1;
            },
            Err(_) => {
                return None;
            },
        }
        i = i + 1;
    }
    proof {
        assert(key@.skip(i as int).len() == 0);
    }
    node.value.as_ref()
}

/// A node's lookup below its own position depends only on its children.
proof fn lemma_lookup_nonempty<V>(n: Node<V>, k: Seq<u8>)
    requires
        k.len() > 0,
    ensures
        n.lookup(k) == (if has_byte(n.children@, k[0]) {
            (*n.children@[slot_of(n.children@, k[0])].1).lookup(k.drop_first())
        } else {
            None
        }),
{
}

/// Copy a child list, sharing every subtree.
fn copy_children<V>(cs: &Vec<(u8, Arc<Node<V>>)>) -> (r: Vec<(u8, Arc<Node<V>>)>)
    ensures
        r@ == cs@,
{
    let mut r: Vec<(u8, Arc<Node<V>>)> = Vec::with_capacity(cs.len());
    let mut i: usize = 0;
    while i < cs.len()
        invariant
            i <= cs@.len(),
            r@ == cs@.take(i as int),
        decreases cs@.len() - i,
    {
        let b = cs[i].0;
        let c = Arc::clone(&cs[i].1);
        r.push((b, c));
        proof {
            assert(cs@.take(i + 1) =~= cs@.take(i as int).push(cs@[i as int]));
        }
        i = i + 1;
    }
    proof {
        assert(cs@.take(i as int) =~= cs@);
    }
    r
}

/// A chain of single-child nodes spelling `key[depth..]`, holding `value` at
/// its end.
fn build_chain<V>(key: &[u8], depth: usize, value: V) -> (n: Node<V>)
    requires
        depth <= key@.len(),
    ensures
        n.wf(),
        forall|k: Seq<u8>| #[trigger] n.lookup(k) == (if k == key@.skip(depth as int) { Some(value) } else { None }),
    decreases key@.len() - depth,
{
    if depth == key.len() {
        let n = Node { children: Vec::new(), value: Some(value) };
        proof {
            assert forall|k: Seq<u8>| #[trigger] n.lookup(k) == (if k == key@.skip(depth as int) { Some(value) } else { None }) by {
                if k.len() > 0 {
                    assert(!has_byte(n.children@, k[0]));
                } else {
                    assert(k =~= key@.skip(depth as int));
                }
            }
        }
        n
    } else {
        let b = key[depth];
        let rest = build_chain(key, depth + 1, value);
        let mut children: Vec<(u8, Arc<Node<V>>)> = Vec::new();
        children.push((b, Arc::new(rest)));
        let n = Node { children, value: None };
        proof {
            let suffix = key@.skip(depth as int);
            assert(suffix[0] == b);
            assert(suffix.drop_first() =~= key@.skip(depth + 1));
            lemma_slot_unique(n.children@, 0);
            assert forall|k: Seq<u8>| #[trigger] n.lookup(k) == (if k == suffix { Some(value) } else { None }) by {
                if k.len() > 0 {
                    lemma_lookup_nonempty(n, k);
                    if k[0] == b {
                        if k.drop_first() == suffix.drop_first() {
                            lemma_head_tail_eq(k, suffix);
                        }
                        assert(k == suffix ==> k.drop_first() == suffix.drop_first());
                    } else {
                        assert(!has_byte(n.children@, k[0]));
                    }
                }
            }
            reveal_with_fuel(Node::wf, 2);
        }
        n
    }
}

/// The child node at position `i`.
spec fn kid<V>(cs: Seq<(u8, Arc<Node<V>>)>, i: int) -> Node<V> {
    *cs[i].1
}

/// One level of a path-copying insert: `mid` is `node` with the child under
/// `b` replaced by `nc`, an insert of the rest of `suffix` into the old child
/// `oc`.
proof fn lemma_chain_step<V: Clone>(node: Node<V>, mid: Node<V>, nc: Node<V>, oc: Node<V>, suffix: Seq<u8>, b: u8)
    requires
        suffix.len() > 0,
        suffix[0] == b,
        mid.value == node.value,
        forall|k: Seq<u8>| k.len() > 0 ==> {
            &&& (k[0] == b ==> #[trigger] mid.lookup(k) == nc.lookup(k.drop_first()) && node.lookup(k) == oc.lookup(k.drop_first()))
            &&& (k[0] != b ==> mid.lookup(k) == node.lookup(k))
        },
        forall|k: Seq<u8>| k != suffix.drop_first() ==> cloned_opt(oc.lookup(k), #[trigger] nc.lookup(k)),
        forall|k: Seq<u8>| !is_prefix(k, suffix.drop_first()) ==> #[trigger] nc.lookup(k) == oc.lookup(k),
    ensures
        mid.lookup(suffix) == nc.lookup(suffix.drop_first()),
        forall|k: Seq<u8>| k != suffix ==> cloned_opt(node.lookup(k), #[trigger] mid.lookup(k)),
        forall|k: Seq<u8>| !is_prefix(k, suffix) ==> #[trigger] mid.lookup(k) == node.lookup(k),
{
    let rest = suffix.drop_first();
    assert(mid.lookup(suffix) == nc.lookup(rest));
    assert forall|k: Seq<u8>| k != suffix implies cloned_opt(node.lookup(k), #[trigger] mid.lookup(k)) by {
        if k.len() == 0 {
            assert(mid.lookup(k) == node.lookup(k));
        } else if k[0] == b {
            if k.drop_first() == rest {
                lemma_head_tail_eq(k, suffix);
            }
            assert(cloned_opt(oc.lookup(k.drop_first()), nc.lookup(k.drop_first())));
        } else {
            assert(mid.lookup(k) == node.lookup(k));
        }
    }
    assert forall|k: Seq<u8>| !is_prefix(k, suffix) implies #[trigger] mid.lookup(k) == node.lookup(k) by {
        if k.len() == 0 {
            assert(suffix.take(0) =~= k);
        } else if k[0] == b {
            if is_prefix(k.drop_first(), rest) {
                assert(suffix.take(k.len() as int) =~= k) by {
                    assert forall|x: int| 0 <= x < k.len() implies suffix.take(k.len() as int)[x] == k[x] by {
                        if x > 0 {
                            assert(rest.take(k.drop_first().len() as int)[x - 1] == k.drop_first()[x - 1]);
                        }
                    }
                }
            }
            assert(nc.lookup(k.drop_first()) == oc.lookup(k.drop_first()));
        }
    }
}

/// Path-copying insert of `key[depth..] -> value` below `node`: returns the
/// new node (sharing every untouched subtree) and the value it replaced.
fn insert_rec<V: Clone>(node: &Node<V>, key: &[u8], depth: usize, value: V) -> (r: (Node<V>, Option<V>))
    requires
        node.wf(),
        depth <= key@.len(),
    ensures
        r.0.wf(),
        r.0.lookup(key@.skip(depth as int)) == Some(value),
        forall|k: Seq<u8>| k != key@.skip(depth as int) ==> cloned_opt(node.lookup(k), #[trigger] r.0.lookup(k)),
        forall|k: Seq<u8>| !is_prefix(k, key@.skip(depth as int)) ==> #[trigger] r.0.lookup(k) == node.lookup(k),
        cloned_opt(node.lookup(key@.skip(depth as int)), r.1),
    decreases key@.len() - depth,
{
    let ghost suffix = key@.skip(depth as int);
    proof {
        reveal_with_fuel(Node::wf, 2);
    }
    if depth == key.len() {
        let old = node.value.clone();
        let n = Node { children: copy_children(&node.children), value: Some(value) };
        proof {
            assert(suffix.len() == 0);
            assert(suffix =~= Seq::<u8>::empty());
            assert forall|k: Seq<u8>| k.len() > 0 implies #[trigger] n.lookup(k) == node.lookup(k) by {
                lemma_lookup_nonempty(n, k);
                lemma_lookup_nonempty(*node, k);
            }
            assert forall|k: Seq<u8>| k != suffix implies cloned_opt(node.lookup(k), #[trigger] n.lookup(k)) by {
                if k.len() == 0 {
                    assert(k =~= suffix);
                }
                assert(n.lookup(k) == node.lookup(k));
            }
            assert forall|k: Seq<u8>| !is_prefix(k, suffix) implies #[trigger] n.lookup(k) == node.lookup(k) by {
                if k.len() == 0 {
                    assert(suffix.take(0) =~= k);
                }
            }
        }
        (n, old)
    } else {
        let b = key[depth];
        let mut children = copy_children(&node.children);
        let old;
        let ghost rest = key@.skip(depth + 1);
        proof {
            assert(suffix[0] == b);
            assert(suffix.drop_first() =~= rest);
        }
        match find_child(&children, b) {
            Ok(i) => {
                let (nc, o) = insert_rec(&children[i].1, key, depth + 1, value);
                proof {
                    lemma_slot_unique(node.children@, i as int);
                }
                let ghost oc = kid(node.children@, i as int);
                children.set(i, (b, Arc::new(nc)));
                old = o;
                proof {
                    let ocs = node.children@;
                    let ncs = children@;
                    assert(ncs == ocs.update(i as int, (b, Arc::new(nc))));
                    assert(bytes_sorted(ncs)) by {
                        assert forall|x: int, y: int| 0 <= x < y < ncs.len() implies #[trigger] ncs[x].0 < #[trigger] ncs[y].0 by {
                            assert(ocs[x].0 < ocs[y].0);
                        }
                    }
                    lemma_slot_unique(ncs, i as int);
                    let n = Node { children, value: node.value };
                    assert forall|k: Seq<u8>| k.len() > 0 implies {
                        &&& (k[0] == b ==> #[trigger] n.lookup(k) == nc.lookup(k.drop_first()) && node.lookup(k) == oc.lookup(k.drop_first()))
                        &&& (k[0] != b ==> n.lookup(k) == node.lookup(k))
                    } by {
                        lemma_lookup_nonempty(n, k);
                        lemma_lookup_nonempty(*node, k);
                        if k[0] != b {
                            if has_byte(ocs, k[0]) {
                                let j = slot_of(ocs, k[0]);
                                assert(ocs[j].0 == k[0]);
                                assert(ncs[j].0 == k[0]);
                                lemma_slot_unique(ncs, j);
                            }
                            if has_byte(ncs, k[0]) {
                                let j = slot_of(ncs, k[0]);
                                assert(ncs[j].0 == k[0]);
                                assert(ocs[j].0 == k[0]);
                            }
                        }
                    }
                    lemma_chain_step(*node, n, nc, oc, suffix, b);
                    lemma_lookup_nonempty(*node, suffix);
                    assert(node.lookup(suffix) == oc.lookup(rest));
                }
            },
            Err(i) => {
                let chain = build_chain(key, depth + 1, value);
                children.insert(i, (b, Arc::new(chain)));
                old = None;
                proof {
                    let ocs = node.children@;
                    let ncs = children@;
                    assert(ncs == ocs.insert(i as int, (b, Arc::new(chain))));
                    assert(bytes_sorted(ncs)) by {
                        assert forall|x: int, y: int| 0 <= x < y < ncs.len() implies #[trigger] ncs[x].0 < #[trigger] ncs[y].0 by {
                            if y < i {
                                assert(ocs[x].0 < ocs[y].0);
                            } else if y == i {
                                assert(ocs[x].0 < b);
                            } else if x < i {
                                assert(ocs[x].0 < b);
                                assert(b < ocs[y - 1].0);
                            } else if x == i {
                                assert(b < ocs[y - 1].0);
                            } else {
                                assert(ocs[x - 1].0 < ocs[y - 1].0);
                            }
                        }
                    }
                    lemma_slot_unique(ncs, i as int);
                    assert(!has_byte(ocs, b));
                    assert forall|k: Seq<u8>| k.len() > 0 implies #[trigger] Node { children, value: node.value }.lookup(k) == (if k == suffix { Some(value) } else { node.lookup(k) }) by {
                        let n = Node { children, value: node.value };
                        lemma_lookup_nonempty(n, k);
                        lemma_lookup_nonempty(*node, k);
                        if k[0] == b {
                            if k.drop_first() == suffix.drop_first() {
                                lemma_head_tail_eq(k, suffix);
                            }
                            assert(k == suffix ==> k.drop_first() == suffix.drop_first());
                        } else {
                            if has_byte(ocs, k[0]) {
                                let j = slot_of(ocs, k[0]);
                                assert(ocs[j].0 == k[0]);
                                let j2 = if j < i { j } else { j + 1 };
                                assert(ncs[j2].0 == k[0]);
                                lemma_slot_unique(ncs, j2);
                            }
                            if has_byte(ncs, k[0]) {
                                let j = slot_of(ncs, k[0]);
                                assert(ncs[j].0 == k[0]);
                                let j2 = if j < i { j } else { j - 1 };
                                assert(ocs[j2].0 == k[0]);
                            }
                            assert(k != suffix);
                        }
                    }
                    lemma_lookup_nonempty(*node, suffix);
                    let mid = Node { children, value: node.value };
                    assert(mid.lookup(suffix) == Some(value));
                    assert forall|k: Seq<u8>| k != suffix implies cloned_opt(node.lookup(k), #[trigger] mid.lookup(k)) by {
                        if k.len() > 0 {
                            assert(mid.lookup(k) == node.lookup(k));
                        }
                    }
                    assert forall|k: Seq<u8>| !is_prefix(k, suffix) implies #[trigger] mid.lookup(k) == node.lookup(k) by {
                        if k.len() == 0 {
                            assert(suffix.take(0) =~= k);
                        }
                        if k == suffix {
                            assert(suffix.take(suffix.len() as int) =~= suffix);
                        }
                        assert(mid.lookup(k) == (if k == suffix { Some(value) } else { node.lookup(k) }));
                    }
                }
            },
        }
        let value_here = node.value.clone();
        let n = Node { children, value: value_here };
        proof {
            let mid = Node { children, value: node.value };
            assert(cloned_opt(node.value, n.value));
            assert forall|k: Seq<u8>| k.len() > 0 implies #[trigger] n.lookup(k) == mid.lookup(k) by {
                lemma_lookup_nonempty(n, k);
                lemma_lookup_nonempty(mid, k);
            }
            assert forall|k: Seq<u8>| k != suffix implies cloned_opt(node.lookup(k), #[trigger] n.lookup(k)) by {
                if k.len() > 0 {
                    assert(n.lookup(k) == mid.lookup(k));
                    assert(cloned_opt(node.lookup(k), mid.lookup(k)));
                }
            }
            assert forall|k: Seq<u8>| !is_prefix(k, suffix) implies #[trigger] n.lookup(k) == node.lookup(k) by {
                if k.len() == 0 {
                    assert(suffix.take(0) =~= k);
                }
                assert(n.lookup(k) == mid.lookup(k));
                assert(mid.lookup(k) == node.lookup(k));
            }
            assert(n.lookup(suffix) == mid.lookup(suffix));
        }
        (n, old)
    }
}

/// Append to `out`, in depth-first (ascending key) order, every entry below
/// `node` whose full key (`path` followed by the rest) lies in `[lo, hi]`.
fn collect<V: Clone>(node: &Node<V>, path: &mut Vec<u8>, lo: &[u8], hi: &[u8], out: &mut Vec<(Vec<u8>, V)>)
    requires
        node.wf(),
    ensures
        final(path)@ == old(path)@,
        final(out)@.len() >= old(out)@.len(),
        pairs_view(final(out)@).take(old(out)@.len() as int) == pairs_view(old(out)@),
        cloned_entries(
            in_range_entries(node.entries_under(old(path)@), lo@, hi@),
            pairs_view(final(out)@).skip(old(out)@.len() as int),
        ),
    decreases node,
{
    let ghost p0 = path@;
    let ghost out0 = pairs_view(out@);
    let ghost n0 = out@.len();
    let ghost cs = node.children@;
    proof {
        reveal_with_fuel(Node::wf, 2);
    }
    let ghost own = if node.value is Some {
        seq![(p0, node.value->0)]
    } else {
        Seq::<(Seq<u8>, V)>::empty()
    };
    if let Some(v) = &node.value {
        if compare_bytes(path.as_slice(), lo) >= 0 && compare_bytes(path.as_slice(), hi) <= 0 {
            let key = copy_bytes(path);
            let w = v.clone();
            proof {
                assert(cloned(*v, w));
            }
            out.push((key, w));
            proof {
                assert(in_range(p0, lo@, hi@));
                lemma_in_range_entries_single((p0, node.value->0), lo@, hi@);
                assert(pairs_view(out@).take(n0 as int) =~= out0);
                assert(pairs_view(out@).skip(n0 as int) =~= seq![(p0, w)]);
            }
        } else {
            proof {
                assert(!in_range(p0, lo@, hi@));
                lemma_in_range_entries_single((p0, node.value->0), lo@, hi@);
                assert(pairs_view(out@).take(n0 as int) =~= out0);
                assert(pairs_view(out@).skip(n0 as int) =~= Seq::<(Seq<u8>, V)>::empty());
            }
        }
    } else {
        proof {
            assert(in_range_entries(own, lo@, hi@) =~= Seq::<(Seq<u8>, V)>::empty());
            assert(pairs_view(out@).take(n0 as int) =~= out0);
            assert(pairs_view(out@).skip(n0 as int) =~= Seq::<(Seq<u8>, V)>::empty());
        }
    }
    proof {
        assert(Node::<V>::kids_entries(cs, p0, 0) =~= Seq::<(Seq<u8>, V)>::empty());
        assert(in_range_entries(Seq::<(Seq<u8>, V)>::empty(), lo@, hi@) =~= Seq::<(Seq<u8>, V)>::empty()) by {
            reveal(Seq::filter);
        }
        assert(in_range_entries(own, lo@, hi@) + in_range_entries(Node::<V>::kids_entries(cs, p0, 0), lo@, hi@)
            =~= in_range_entries(own, lo@, hi@));
    }
    let mut i: usize = 0;
    while i < node.children.len()
        invariant
            node.wf(),
            cs == node.children@,
            bytes_sorted(cs),
            forall|j: int| 0 <= j < cs.len() ==> (*cs[j].1).wf(),
            i <= cs.len(),
            path@ == p0,
            out@.len() >= n0,
            pairs_view(out@).take(n0 as int) == out0,
            cloned_entries(
                in_range_entries(own, lo@, hi@) + in_range_entries(Node::<V>::kids_entries(cs, p0, i as int), lo@, hi@),
                pairs_view(out@).skip(n0 as int),
            ),
        decreases cs.len() - i,
    {
        let b = node.children[i].0;
        let child: &Node<V> = &node.children[i].1;
        path.push(b);
        let ghost before = pairs_view(out@);
        let ghost blen = out@.len();
        let ghost mine = child.entries_under(p0.push(b));
        if subtree_may_hit(path, lo, hi) {
            collect(child, path, lo, hi, out);
        } else {
            proof {
                lemma_entries_sound(*child, p0.push(b));
                assert forall|x: int| 0 <= x < mine.len() implies !in_range(#[trigger] mine[x].0, lo@, hi@) by {
                    assert(entry_of(*child, p0.push(b), mine[x]));
                }
                lemma_in_range_entries_none(mine, lo@, hi@);
                assert(pairs_view(out@).take(blen as int) =~= before);
                assert(pairs_view(out@).skip(blen as int) =~= Seq::<(Seq<u8>, V)>::empty());
            }
        }
        path.pop();
        proof {
            assert(path@ =~= p0);
            let after = pairs_view(out@);
            let prev = Node::<V>::kids_entries(cs, p0, i as int);
            assert(Node::<V>::kids_entries(cs, p0, i + 1) == prev + mine);
            lemma_in_range_entries_add(prev, mine, lo@, hi@);
            assert(after.take(n0 as int) =~= before.take(n0 as int)) by {
                assert(after.take(blen as int) == before);
            }
            assert(after.skip(n0 as int) =~= before.skip(n0 as int) + after.skip(blen as int)) by {
                assert(after.take(blen as int) == before);
            }
            lemma_cloned_entries_add(
                in_range_entries(own, lo@, hi@) + in_range_entries(prev, lo@, hi@),
                in_range_entries(mine, lo@, hi@),
                before.skip(n0 as int),
                after.skip(blen as int),
            );
            assert(in_range_entries(own, lo@, hi@) + in_range_entries(prev + mine, lo@, hi@)
                =~= in_range_entries(own, lo@, hi@) + in_range_entries(prev, lo@, hi@) + in_range_entries(mine, lo@, hi@));
        }
        i = i + 1;
    }
    proof {
        lemma_in_range_entries_add(own, Node::<V>::kids_entries(cs, p0, cs.len() as int), lo@, hi@);
        assert(node.entries_under(p0) == own + Node::<V>::kids_entries(cs, p0, cs.len() as int));
    }
}

/// The depth-first in-range entries of a well-formed node seen from the
/// empty path are an ordered range of its content.
proof fn lemma_range_of_entries<V>(node: Node<V>, lo: Seq<u8>, hi: Seq<u8>)
    requires
        node.wf(),
    ensures
        is_ordered_range(in_range_entries(node.entries_under(Seq::empty()), lo, hi), node.content(), lo, hi),
{
    broadcast use vstd::seq_lib::group_filter_ensures;
    let path = Seq::<u8>::empty();
    let all = node.entries_under(path);
    let out = in_range_entries(all, lo, hi);
    let pred = |e: (Seq<u8>, V)| in_range(e.0, lo, hi);
    lemma_entries_sound(node, path);
    lemma_entries_complete(node, path);
    lemma_entries_sorted(node, path);
    lemma_in_range_entries_sorted(all, lo, hi);
    assert forall|i: int| 0 <= i < out.len() implies {
        let e = #[trigger] out[i];
        &&& in_range(e.0, lo, hi)
        &&& node.content().contains_key(e.0)
        &&& node.content()[e.0] == e.1
    } by {
        let e = out[i];
        assert(pred(e));
        all.lemma_filter_contains_rev(pred, e);
        let x = choose|x: int| 0 <= x < all.len() && all[x] == e;
        assert(entry_of(node, path, all[x]));
        assert(e.0.skip(0) =~= e.0);
    }
    assert forall|k: Seq<u8>| #[trigger] node.content().contains_key(k) && in_range(k, lo, hi)
        implies exists|i: int| 0 <= i < out.len() && out[i].0 == k by {
        assert(node.lookup(k) is Some);
        assert(path + k =~= k);
        let x = choose|x: int| 0 <= x < all.len() && all[x] == (path + k, node.lookup(k)->0);
        assert(pred(all[x]));
        assert(out.contains(all[x]));
    }
}

/// Number of keys below a node, counted structurally.
pub closed spec fn subtree_size<V>(node: Node<V>) -> nat
    decreases node, 1nat,
{
    (if node.value is Some { 1nat } else { 0nat }) + kids_size(node.children@, node.children@.len() as int)
}

pub closed spec fn kids_size<V>(cs: Seq<(u8, Arc<Node<V>>)>, n: int) -> nat
    decreases cs, 0nat, n,
{
    if n <= 0 || n > cs.len() {
        0
    } else {
        kids_size(cs, n - 1) + subtree_size(*cs[n - 1].1)
    }
}

/// Number of nodes in a subtree.
pub closed spec fn subtree_nodes<V>(node: Node<V>) -> nat
    decreases node, 1nat,
{
    1 + kids_nodes(node.children@, node.children@.len() as int)
}

pub closed spec fn kids_nodes<V>(cs: Seq<(u8, Arc<Node<V>>)>, n: int) -> nat
    decreases cs, 0nat, n,
{
    if n <= 0 || n > cs.len() {
        0
    } else {
        kids_nodes(cs, n - 1) + subtree_nodes(*cs[n - 1].1)
    }
}

proof fn lemma_size_is_entries<V>(node: Node<V>, path: Seq<u8>)
    ensures
        node.entries_under(path).len() == subtree_size(node),
    decreases node, 1nat,
{
    lemma_kids_size_is_entries(node.children@, path, node.children@.len() as int);
}

proof fn lemma_kids_size_is_entries<V>(cs: Seq<(u8, Arc<Node<V>>)>, path: Seq<u8>, n: int)
    ensures
        Node::<V>::kids_entries(cs, path, n).len() == kids_size(cs, n),
    decreases cs, 0nat, n,
{
    if 0 < n <= cs.len() {
        let c = *cs[n - 1].1;
        lemma_kids_size_is_entries(cs, path, n - 1);
        lemma_size_is_entries(c, path.push(cs[n - 1].0));
    }
}

proof fn lemma_kids_size_monotone<V>(cs: Seq<(u8, Arc<Node<V>>)>, i: int, n: int)
    requires
        0 <= i <= n <= cs.len(),
    ensures
        kids_size(cs, i) <= kids_size(cs, n),
    decreases n - i,
{
    if i < n {
        lemma_kids_size_monotone(cs, i, n - 1);
    }
}

proof fn lemma_kids_nodes_monotone<V>(cs: Seq<(u8, Arc<Node<V>>)>, i: int, n: int)
    requires
        0 <= i <= n <= cs.len(),
    ensures
        kids_nodes(cs, i) <= kids_nodes(cs, n),
    decreases n - i,
{
    if i < n {
        lemma_kids_nodes_monotone(cs, i, n - 1);
    }
}

/// Count the keys below `node` by walking it.
fn count<V>(node: &Node<V>) -> (n: usize)
    requires
        subtree_size(*node) <= usize::MAX,
    ensures
        n == subtree_size(*node),
    decreases node,
{
    let ghost cs = node.children@;
    let mut n: usize = if node.value.is_some() { 1 } else { 0 };
    let mut i: usize = 0;
    while i < node.children.len()
        invariant
            cs == node.children@,
            i <= cs.len(),
            subtree_size(*node) <= usize::MAX,
            n == (if node.value is Some { 1nat } else { 0nat }) + kids_size(cs, i as int),
        decreases cs.len() - i,
    {
        proof {
            lemma_kids_size_monotone(cs, i + 1, cs.len() as int);
        }
        let c = count(&node.children[i].1);
        n = n + c;
        i = i + 1;
    }
    n
}

/// Count the nodes of a subtree.
fn node_count_rec<V>(node: &Node<V>) -> (n: usize)
    requires
        subtree_nodes(*node) <= usize::MAX,
    ensures
        n == subtree_nodes(*node),
    decreases node,
{
    let ghost cs = node.children@;
    let mut n: usize = 1;
    let mut i: usize = 0;
    while i < node.children.len()
        invariant
            cs == node.children@,
            i <= cs.len(),
            subtree_nodes(*node) <= usize::MAX,
            n == 1 + kids_nodes(cs, i as int),
        decreases cs.len() - i,
    {
        proof {
            lemma_kids_nodes_monotone(cs, i + 1, cs.len() as int);
        }
        let c = node_count_rec(&node.children[i].1);
        n = n + c;
        i = i + 1;
    }
    n
}

/// The number of nodes of the subtree, or `None` where it exceeds a `usize`.
fn node_count_checked_rec<V>(node: &Node<V>) -> (r: Option<usize>)
    ensures
        r matches Some(n) ==> n == subtree_nodes(*node),
        r is None ==> subtree_nodes(*node) > usize::MAX,
    decreases node,
{
    let ghost cs = node.children@;
    let mut n: usize = 1;
    let mut i: usize = 0;
    while i < node.children.len()
        invariant
            cs == node.children@,
            i <= cs.len(),
            n == 1 + kids_nodes(cs, i as int),
        decreases cs.len() - i,
    {
        proof {
            lemma_kids_nodes_monotone(cs, i + 1, cs.len() as int);
        }
        let c = match node_count_checked_rec(&node.children[i].1) {
            Some(c) => c,
            None => {
                return None;
            },
        };
        match n.checked_add(c) {
            Some(x) => {
                n = x;
            },
            None => {
                return None;
            },
        }
        i = i + 1;
    }
    Some(n)
}

/// Persistent (copy-on-write) ordered radix map. Nodes are shared behind
/// `Arc`; updates path-copy, so a snapshot is an `Arc` clone of the root.
pub struct RadixOrderedMap<V> {
    root: Arc<Node<V>>,
    len: usize,
}

impl<V> RadixOrderedMap<V> {
    #[verifier::type_invariant]
    spec fn inv(self) -> bool {
        &&& self.root.wf()
        &&& self.root.content().dom().finite()
        &&& self.len == self.root.content().len()
    }

    /// The key/value content.
    pub closed spec fn content(&self) -> Map<Seq<u8>, V> {
        self.root.content()
    }

    spec fn root_node(&self) -> Node<V> {
        *self.root
    }

    /// The number of nodes of the tree.
    pub closed spec fn nodes(&self) -> nat {
        subtree_nodes(*self.root)
    }

    /// Visit every `(key, &value)` in `[lo, hi]` in ascending key order,
    /// without building a result vector.
    pub fn for_each_range<F: FnMut(&[u8], &V)>(&self, lo: &[u8], hi: &[u8], f: F)
        requires
            forall|k: &[u8], v: &V| in_range(k@, lo@, hi@) ==> #[trigger] call_requires(f, (k, v)),
        ensures
            forall|k: Seq<u8>| #[trigger] self.content().contains_key(k) && in_range(k, lo@, hi@)
                ==> called_on(f, (k, self.content()[k])),
    {
        let mut w = CallbackVisitor::new(f);
        self.visit_range(lo, hi, &mut w);
        proof {
            w.lemma_called();
            let got = w.seen().skip(0);
            assert(got =~= w.seen());
            assert forall|k: Seq<u8>| #[trigger] self.content().contains_key(k) && in_range(k, lo@, hi@)
                implies called_on(f, (k, self.content()[k])) by {
                let i = choose|i: int| 0 <= i < got.len() && got[i].0 == k;
                assert(got[i] == (k, self.content()[k]));
            }
        }
    }

    /// Hand `w` every entry with a key in `[lo, hi]`, one call each, in
    /// ascending key order (a key before the keys it is a prefix of): what
    /// `w` is handed is exactly the ordered range.
    pub fn visit_range<W: RangeVisitor<V>>(&self, lo: &[u8], hi: &[u8], w: &mut W)
        requires
            old(w).inv(),
            forall|k: &[u8], v: &V| in_range(k@, lo@, hi@) ==> #[trigger] old(w).accepts(k, v),
        ensures
            final(w).inv(),
            final(w).target() == old(w).target(),
            forall|k: &[u8], v: &V| #[trigger] final(w).accepts(k, v) == old(w).accepts(k, v),
            final(w).seen().len() >= old(w).seen().len(),
            final(w).seen().take(old(w).seen().len() as int) == old(w).seen(),
            is_ordered_range(final(w).seen().skip(old(w).seen().len() as int), self.content(), lo@, hi@),
    {
        proof {
            use_type_invariant(self);
        }
        let ghost s0 = w.seen();
        let mut path: Vec<u8> = Vec::new();
        proof {
            assert(path@ =~= Seq::<u8>::empty());
        }
        visit_rec(&self.root, &mut path, lo, hi, w);
        proof {
            let node = self.root_node();
            lemma_range_of_entries(node, lo@, hi@);
            assert(w.seen().take(s0.len() as int) =~= s0);
            assert(w.seen().skip(s0.len() as int) =~= in_range_entries(node.entries_under(Seq::empty()), lo@, hi@));
        }
    }
}

impl<V> Node<V> {
    /// A node with no value and no children.
    fn empty() -> (n: Node<V>)
        ensures
            n.wf(),
            n.content() == Map::<Seq<u8>, V>::empty(),
            n.children@.len() == 0,
    {
        let n = Node { children: Vec::new(), value: None };
        proof {
            assert forall|k: Seq<u8>| n.lookup(k) is None by {
                if k.len() > 0 {
                    assert(!has_byte(n.children@, k[0]));
                }
            }
            assert(n.content() =~= Map::<Seq<u8>, V>::empty());
        }
        n
    }
}

impl<V: Clone> RadixOrderedMap<V> {
    /// Create an empty map.
    pub fn new() -> (m: Self)
        ensures
            m.content() == Map::<Seq<u8>, V>::empty(),
            m.nodes() == 1,
    {
        let m = RadixOrderedMap { root: Arc::new(Node::empty()), len: 0 };
        proof {
            assert(kids_nodes(m.root.children@, 0) == 0);
            assert(subtree_nodes(*m.root) == 1);
        }
        m
    }

    /// Whether the number of nodes fits a `usize`: the condition under which
    /// `node_count` may be asked for.
    pub fn nodes_fit(&self) -> (b: bool)
        ensures
            b == (self.nodes() <= usize::MAX),
    {
        node_count_checked_rec(&self.root).is_some()
    }

    /// Number of allocated nodes.
    pub fn node_count(&self) -> (n: usize)
        requires
            self.nodes() <= usize::MAX,
        ensures
            n == self.nodes(),
    {
        node_count_rec(&self.root)
    }

    /// Recount the keys by walking the tree (agrees with the cached length).
    pub fn recount(&self) -> (n: usize)
        ensures
            n == self.content().len(),
    {
        proof {
            use_type_invariant(self);
            let root = self.root_node();
            let path = Seq::<u8>::empty();
            lemma_size_is_entries(root, path);
            lemma_entries_sound(root, path);
            lemma_entries_complete(root, path);
            lemma_entries_sorted(root, path);
            lemma_entries_enumerate_content(root);
        }
        count(&self.root)
    }
}

/// The depth-first entries of a well-formed node list its content once each:
/// the content's size is their number.
proof fn lemma_entries_enumerate_content<V>(node: Node<V>)
    requires
        node.wf(),
        node.content().dom().finite(),
    ensures
        node.content().len() == node.entries_under(Seq::empty()).len(),
{
    let path = Seq::<u8>::empty();
    let all = node.entries_under(path);
    lemma_entries_sound(node, path);
    lemma_entries_complete(node, path);
    lemma_entries_sorted(node, path);
    let keys = all.map_values(|e: (Seq<u8>, V)| e.0);
    assert(keys.no_duplicates()) by {
        assert forall|i: int, j: int| 0 <= i < keys.len() && 0 <= j < keys.len() && i != j implies keys[i] != keys[j] by {
            if i < j {
                assert(lex_lt(all[i].0, all[j].0));
            } else {
                assert(lex_lt(all[j].0, all[i].0));
            }
            crate::lex::lemma_lex_irreflexive(all[i].0);
        }
    }
    assert(keys.to_set() =~= node.content().dom()) by {
        assert forall|k: Seq<u8>| keys.to_set().contains(k) <==> node.content().dom().contains(k) by {
            if keys.to_set().contains(k) {
                assert(keys.contains(k));
                let x = choose|x: int| 0 <= x < keys.len() && keys[x] == k;
                assert(entry_of(node, path, all[x]));
                assert(all[x].0.skip(0) =~= all[x].0);
            }
            if node.content().dom().contains(k) {
                assert(node.lookup(k) is Some);
                assert(path + k =~= k);
                let x = choose|x: int| 0 <= x < all.len() && all[x] == (path + k, node.lookup(k)->0);
                assert(keys[x] == k);
            }
        }
    }
    keys.unique_seq_to_set();
}

/// The walk behind [`RadixOrderedMap::visit_range`]: hand `w`, in
/// ascending key order, every entry below `node` whose full key lies in
/// `[lo, hi]`; a node's own entry comes before those of its children.
fn visit_rec<V, W: RangeVisitor<V>>(node: &Node<V>, path: &mut Vec<u8>, lo: &[u8], hi: &[u8], w: &mut W)
    requires
        node.wf(),
        old(w).inv(),
        forall|k: &[u8], v: &V| in_range(k@, lo@, hi@) ==> #[trigger] old(w).accepts(k, v),
    ensures
        final(path)@ == old(path)@,
        final(w).inv(),
        final(w).target() == old(w).target(),
        forall|k: &[u8], v: &V| #[trigger] final(w).accepts(k, v) == old(w).accepts(k, v),
        final(w).seen() == old(w).seen() + in_range_entries(node.entries_under(old(path)@), lo@, hi@),
    decreases node,
{
    let ghost p0 = path@;
    let ghost s0 = w.seen();
    let ghost w0 = *w;
    let ghost cs = node.children@;
    proof {
        reveal_with_fuel(Node::wf, 2);
    }
    let ghost own = if node.value is Some {
        seq![(p0, node.value->0)]
    } else {
        Seq::<(Seq<u8>, V)>::empty()
    };
    if let Some(v) = &node.value {
        let ps = path.as_slice();
        proof {
            lemma_in_range_entries_single((p0, *v), lo@, hi@);
        }
        if compare_bytes(ps, lo) >= 0 && compare_bytes(ps, hi) <= 0 {
            w.visit(ps, v);
        } else {
            proof {
                assert(s0 + Seq::<(Seq<u8>, V)>::empty() =~= s0);
            }
        }
    } else {
        proof {
            lemma_in_range_entries_none(own, lo@, hi@);
            assert(s0 + Seq::<(Seq<u8>, V)>::empty() =~= s0);
        }
    }
    proof {
        assert(Node::<V>::kids_entries(cs, p0, 0) =~= Seq::<(Seq<u8>, V)>::empty());
        lemma_in_range_entries_none(Node::<V>::kids_entries(cs, p0, 0), lo@, hi@);
        assert(w.seen() + Seq::<(Seq<u8>, V)>::empty() =~= w.seen());
    }
    let mut i: usize = 0;
    while i < node.children.len()
        invariant
            node.wf(),
            cs == node.children@,
            forall|j: int| 0 <= j < cs.len() ==> (*cs[j].1).wf(),
            i <= cs.len(),
            path@ == p0,
            w.inv(),
            w.target() == w0.target(),
            forall|k: &[u8], v: &V| #[trigger] w.accepts(k, v) == w0.accepts(k, v),
            forall|k: &[u8], v: &V| in_range(k@, lo@, hi@) ==> #[trigger] w0.accepts(k, v),
            w.seen() == s0 + in_range_entries(own, lo@, hi@)
                + in_range_entries(Node::<V>::kids_entries(cs, p0, i as int), lo@, hi@),
        decreases cs.len() - i,
    {
        let b = node.children[i].0;
        let child: &Node<V> = &node.children[i].1;
        let ghost mine = child.entries_under(p0.push(b));
        let ghost before = w.seen();
        path.push(b);
        if subtree_may_hit(path, lo, hi) {
            visit_rec(child, path, lo, hi, w);
        } else {
            proof {
                lemma_entries_sound(*child, p0.push(b));
                assert forall|x: int| 0 <= x < mine.len() implies !in_range(#[trigger] mine[x].0, lo@, hi@) by {
                    assert(entry_of(*child, p0.push(b), mine[x]));
                }
                lemma_in_range_entries_none(mine, lo@, hi@);
                assert(w.seen() + Seq::<(Seq<u8>, V)>::empty() =~= w.seen());
            }
        }
        path.pop();
        proof {
            assert(path@ =~= p0);
            let prev = Node::<V>::kids_entries(cs, p0, i as int);
            assert(Node::<V>::kids_entries(cs, p0, i + 1) == prev + mine);
            lemma_in_range_entries_add(prev, mine, lo@, hi@);
            assert(w.seen() =~= s0 + in_range_entries(own, lo@, hi@)
                + in_range_entries(Node::<V>::kids_entries(cs, p0, i + 1), lo@, hi@));
        }
        i = i + 1;
    }
    proof {
        let kids = Node::<V>::kids_entries(cs, p0, cs.len() as int);
        assert(node.entries_under(p0) == own + kids);
        lemma_in_range_entries_add(own, kids, lo@, hi@);
        assert(w.seen() =~= s0 + in_range_entries(node.entries_under(p0), lo@, hi@));
    }
}

impl<V: Clone> Default for RadixOrderedMap<V> {
    fn default() -> (m: Self)
        ensures
            m.content() == Map::<Seq<u8>, V>::empty(),
    {
        Self::new()
    }
}

impl<V: Clone> Container for RadixOrderedMap<V> {
    open spec fn size(&self) -> nat {
        self.content().len()
    }

    fn len(&self) -> (n: usize) {
        proof {
            use_type_invariant(self);
        }
        self.len
    }
}

impl<V: Clone> Clearable for RadixOrderedMap<V> {
    /// Reset to empty: root and length together.
    fn clear(&mut self)
        ensures
            final(self).content() == Map::<Seq<u8>, V>::empty(),
    {
        *self = RadixOrderedMap { root: Arc::new(Node::empty()), len: 0 };
    }
}

impl<V: Clone> OrderedMap<V> for RadixOrderedMap<V> {
    open spec fn contents(&self) -> Map<Seq<u8>, V> {
        self.content()
    }

    open spec fn values_clone_exactly() -> bool {
        clone_preserves::<V>()
    }

    open spec fn copy_of(original: V, copy: V) -> bool {
        cloned(original, copy)
    }

    fn insert(&mut self, key: &[u8], value: V) -> (prev: Option<V>) {
        proof {
            use_type_invariant(&*self);
        }
        let (new_root, old) = insert_rec(&self.root, key, 0, value);
        let ghost before = self.content();
        proof {
            assert(key@.skip(0) =~= key@);
            let after = new_root.content();
            assert(after.dom() =~= before.dom().insert(key@)) by {
                assert forall|k: Seq<u8>| after.dom().contains(k) == before.dom().insert(key@).contains(k) by {
                    if k != key@ {
                        assert(cloned_opt(self.root_node().lookup(k), new_root.lookup(k)));
                    }
                }
            }
            assert forall|k: Seq<u8>| k != key@ && #[trigger] before.contains_key(k) implies cloned(before[k], after[k]) by {
                assert(cloned_opt(self.root_node().lookup(k), new_root.lookup(k)));
            }
            if clone_preserves::<V>() {
                assert forall|k: Seq<u8>| k != key@ && before.contains_key(k) implies #[trigger] after[k] == before[k] by {
                    assert(cloned(before[k], after[k]));
                }
                assert(after =~= before.insert(key@, value));
                if old is Some {
                    assert(cloned(before[key@], old->0));
                }
            }
        }
        let n = if old.is_none() { self.len + 1 } else { self.len };
        *self = RadixOrderedMap { root: Arc::new(new_root), len: n };
        old
    }

    fn get(&self, key: &[u8]) -> (r: Option<&V>) {
        proof {
            use_type_invariant(self);
        }
        get_rec(&self.root, key)
    }

    fn range(&self, lo: &[u8], hi: &[u8]) -> (out: Vec<(Vec<u8>, V)>) {
        proof {
            use_type_invariant(self);
        }
        let mut out: Vec<(Vec<u8>, V)> = Vec::new();
        let mut path: Vec<u8> = Vec::new();
        proof {
            assert(pairs_view(out@) =~= Seq::<(Seq<u8>, V)>::empty());
        }
        collect(&self.root, &mut path, lo, hi, &mut out);
        proof {
            let all = in_range_entries(self.root_node().entries_under(Seq::empty()), lo@, hi@);
            let got = pairs_view(out@);
            assert(got.skip(0) =~= got);
            lemma_range_of_entries(self.root_node(), lo@, hi@);
            assert(is_ordered_range(all, self.contents(), lo@, hi@));
            assert(cloned_entries(all, got));
            lemma_cloned_range(all, got, self.contents(), lo@, hi@);
            if clone_preserves::<V>() {
                lemma_cloned_entries_exact(all, got);
            }
        }
        out
    }

    fn len(&self) -> (n: usize) {
        proof {
            use_type_invariant(self);
        }
        self.len
    }
}

impl<V: Clone> SnapshotMap<V> for RadixOrderedMap<V> {
    type Snapshot = RadixOrderedMap<V>;

    /// Clone the root `Arc`: the snapshot shares every node with the live map,
    /// and later inserts path-copy without touching shared nodes.
    fn snapshot(&self) -> (s: RadixOrderedMap<V>) {
        proof {
            use_type_invariant(self);
        }
        RadixOrderedMap { root: Arc::clone(&self.root), len: self.len }
    }
}

} // verus!
