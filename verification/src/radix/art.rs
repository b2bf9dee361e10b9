use vstd::prelude::*;
use std::sync::Arc;

use crate::lex::{is_prefix, proper_prefix, compare_bytes, copy_bytes, bytes_between, lex_lt, strictly_sorted, in_range, subtree_may_hit};
use crate::primitives::{Clearable, Container, MapReadShim, MapRefKeyInsertShim, OrderedMap, SnapshotMap};
use crate::ranges::{called_on, CallbackVisitor, RangeVisitor, is_ordered_range, ref_pairs, in_range_entries, lemma_in_range_entries_add, lemma_in_range_entries_none, lemma_in_range_entries_single, lemma_in_range_entries_sorted};

verus! {

/// A tree node: a leaf holding a full key and its value, or an inner node
/// with a compressed prefix and an adaptive child container.
pub enum Node<V> {
    Leaf { key: Vec<u8>, value: V },
    Inner { prefix: Vec<u8>, children: Children<V> },
}

/// Adaptive child container. N4/N16 are sorted `(byte -> child)` arrays; N48
/// is a 256-entry index (`0` empty, else slot + 1) into a dense child list;
/// N256 is a direct 256-way array.
#[allow(inconsistent_fields)]
pub enum Children<V> {
    N4 { keys: Vec<u8>, kids: Vec<Arc<Node<V>>> },
    N16 { keys: Vec<u8>, kids: Vec<Arc<Node<V>>> },
    N48 { index: Vec<u8>, kids: Vec<Arc<Node<V>>> },
    N256 { kids: Vec<Option<Arc<Node<V>>>> },
}

/// The bytes strictly increase.
pub open spec fn sorted_bytes(s: Seq<u8>) -> bool {
    forall|i: int, j: int| 0 <= i < j < s.len() ==> #[trigger] s[i] < #[trigger] s[j]
}

/// `b` occurs in `s`.
pub open spec fn holds_byte(s: Seq<u8>, b: u8) -> bool {
    exists|i: int| 0 <= i < s.len() && #[trigger] s[i] == b
}

/// The position of `b` in `s`.
pub open spec fn pos_of(s: Seq<u8>, b: u8) -> int {
    choose|i: int| 0 <= i < s.len() && #[trigger] s[i] == b
}

proof fn lemma_pos_unique(s: Seq<u8>, j: int)
    requires
        sorted_bytes(s),
        0 <= j < s.len(),
    ensures
        holds_byte(s, s[j]),
        pos_of(s, s[j]) == j,
{
    let b = s[j];
    assert(s[j] == b);
    let p = pos_of(s, b);
    if p != j {
        if p < j {
            assert(s[p] < s[j]);
        } else {
            assert(s[j] < s[p]);
        }
    }
}

/// Some byte of an N48 index points at slot `s`.
pub open spec fn slot_taken(index: Seq<u8>, s: int) -> bool {
    exists|b: int| 0 <= b < index.len() && index[b] == s
}

impl<V> Children<V> {
    /// The child under byte `b`, if any.
    pub closed spec fn slot(self, b: u8) -> Option<Node<V>> {
        match self {
            Children::N4 { keys, kids } => if holds_byte(keys@, b) && pos_of(keys@, b) < kids@.len() {
                Some(*kids@[pos_of(keys@, b)])
            } else {
                None
            },
            Children::N16 { keys, kids } => if holds_byte(keys@, b) && pos_of(keys@, b) < kids@.len() {
                Some(*kids@[pos_of(keys@, b)])
            } else {
                None
            },
            Children::N48 { index, kids } => if 0 < index@[b as int] <= kids@.len() {
                Some(*kids@[index@[b as int] - 1])
            } else {
                None
            },
            Children::N256 { kids } => if (b as int) < kids@.len() {
                match kids@[b as int] {
                    Some(c) => Some(*c),
                    None => None,
                }
            } else {
                None
            },
        }
    }

    /// The container's own shape is consistent.
    pub closed spec fn cwf(self) -> bool {
        match self {
            Children::N4 { keys, kids } => keys@.len() == kids@.len() <= 4 && sorted_bytes(keys@),
            Children::N16 { keys, kids } => keys@.len() == kids@.len() <= 16 && sorted_bytes(keys@),
            Children::N48 { index, kids } => {
                &&& index@.len() == 256
                &&& kids@.len() <= 48
                &&& forall|b: int| 0 <= b < 256 ==> #[trigger] index@[b] <= kids@.len()
                &&& forall|b1: int, b2: int|
                    0 <= b1 < 256 && 0 <= b2 < 256 && b1 != b2 && #[trigger] index@[b1] != 0
                        ==> index@[b1] != #[trigger] index@[b2]
                &&& forall|s: int| 1 <= s <= kids@.len() ==> #[trigger] slot_taken(index@, s)
            },
            Children::N256 { kids } => kids@.len() == 256,
        }
    }

    /// At least two bytes have a child: the node is a real branch point.
    pub closed spec fn branching(self) -> bool {
        exists|b1: u8, b2: u8| b1 != b2 && #[trigger] self.slot(b1) is Some && #[trigger] self.slot(b2) is Some
    }
}

impl<V> Children<V> {
    /// Same container type with the same contents.
    pub closed spec fn same_view(self, other: Children<V>) -> bool {
        match (self, other) {
            (Children::N4 { keys: k1, kids: c1 }, Children::N4 { keys: k2, kids: c2 }) => k1@ == k2@ && c1@ == c2@,
            (Children::N16 { keys: k1, kids: c1 }, Children::N16 { keys: k2, kids: c2 }) => k1@ == k2@ && c1@ == c2@,
            (Children::N48 { index: k1, kids: c1 }, Children::N48 { index: k2, kids: c2 }) => k1@ == k2@ && c1@ == c2@,
            (Children::N256 { kids: c1 }, Children::N256 { kids: c2 }) => c1@ == c2@,
            _ => false,
        }
    }
}

impl<V> Node<V> {
    /// The compressed prefix of an inner node (empty for a leaf).
    pub closed spec fn prefix_of(self) -> Seq<u8> {
        match self {
            Node::Leaf { .. } => Seq::empty(),
            Node::Inner { prefix, .. } => prefix@,
        }
    }

    /// Well-formed below a node reached along `path`: every leaf key extends
    /// the path to it, every inner container is consistent and holds at
    /// least two children.
    pub closed spec fn wf_at(self, path: Seq<u8>) -> bool
        decreases self,
    {
        match self {
            Node::Leaf { key, value } => is_prefix(path, key@),
            Node::Inner { prefix, children } => {
                &&& children.cwf()
                &&& children.branching()
                &&& match children {
                    Children::N4 { keys, kids } => forall|i: int|
                        0 <= i < kids@.len() && i < keys@.len() ==> (*kids@[i]).wf_at(
                            (path + prefix@).push(#[trigger] keys@[i]),
                        ),
                    Children::N16 { keys, kids } => forall|i: int|
                        0 <= i < kids@.len() && i < keys@.len() ==> (*kids@[i]).wf_at(
                            (path + prefix@).push(#[trigger] keys@[i]),
                        ),
                    Children::N48 { index, kids } => forall|b: u8|
                        0 < #[trigger] index@[b as int] <= kids@.len() ==> (*kids@[index@[b as int]
                            - 1]).wf_at((path + prefix@).push(b)),
                    Children::N256 { kids } => forall|b: u8|
                        (#[trigger] kids@[b as int]) is Some ==> (*kids@[b as int]->0).wf_at(
                            (path + prefix@).push(b),
                        ),
                }
            },
        }
    }

    /// The value found for `key` by the search that starts at this node
    /// after `depth` bytes of the key.
    pub open spec fn lookup(self, key: Seq<u8>, depth: int) -> Option<V>
        decreases key.len() - depth,
    {
        match self {
            Node::Leaf { key: lk, value } => if lk@ == key {
                Some(value)
            } else {
                None
            },
            Node::Inner { prefix, children } => {
                let d = depth + prefix@.len();
                if depth < 0 || key.len() <= d || key.subrange(depth, d) != prefix@ {
                    None
                } else {
                    match children.slot(key[d]) {
                        Some(c) => c.lookup(key, d + 1),
                        None => None,
                    }
                }
            },
        }
    }

    /// The entries below this node in depth-first order: a leaf's own
    /// entry, or the children's entries in byte order.
    pub closed spec fn entries(self) -> Seq<(Seq<u8>, V)>
        decreases self, 257int,
    {
        match self {
            Node::Leaf { key, value } => seq![(key@, value)],
            Node::Inner { .. } => Self::entries_upto(self, 256),
        }
    }

    /// The entries of the children under the bytes below `b`.
    pub closed spec fn entries_upto(node: Node<V>, b: int) -> Seq<(Seq<u8>, V)>
        decreases node, b,
    {
        if b <= 0 || b > 256 || node is Leaf {
            Seq::empty()
        } else {
            let prev = Self::entries_upto(node, b - 1);
            match node->Inner_children.slot((b - 1) as u8) {
                Some(c) => {
                    proof {
                        lemma_slot_decreases(node, node->Inner_prefix, node->Inner_children, (b - 1) as u8);
                    }
                    prev + c.entries()
                },
                None => prev,
            }
        }
    }

    /// The key/value content of the tree rooted here.
    pub open spec fn content(self) -> Map<Seq<u8>, V> {
        Map::new(|k: Seq<u8>| self.lookup(k, 0) is Some, |k: Seq<u8>| self.lookup(k, 0)->0)
    }
}

/// Containers with the same contents behave alike, and inner nodes over
/// them are well-formed alike wherever they sit at the same place.
proof fn lemma_same_view<V>(a: Children<V>, b: Children<V>, pa: Vec<u8>, pb: Vec<u8>, path_a: Seq<u8>, path_b: Seq<u8>)
    requires
        a.same_view(b),
        path_a + pa@ == path_b + pb@,
    ensures
        forall|x: u8| #[trigger] a.slot(x) == b.slot(x),
        a.cwf() == b.cwf(),
        a.branching() == b.branching(),
        (Node::Inner { prefix: pa, children: a }).wf_at(path_a) == (Node::Inner { prefix: pb, children: b }).wf_at(path_b),
{
    lemma_same_view_slots(a, b);
}

proof fn lemma_same_view_slots<V>(a: Children<V>, b: Children<V>)
    requires
        a.same_view(b),
    ensures
        forall|x: u8| #[trigger] a.slot(x) == b.slot(x),
        a.cwf() == b.cwf(),
        a.branching() == b.branching(),
{
    assert forall|x: u8| #[trigger] a.slot(x) == b.slot(x) by {}
    if a.branching() {
        let (x, y) = choose|x: u8, y: u8| x != y && #[trigger] a.slot(x) is Some && #[trigger] a.slot(y) is Some;
        assert(b.slot(x) is Some && b.slot(y) is Some);
    }
    if b.branching() {
        let (x, y) = choose|x: u8, y: u8| x != y && #[trigger] b.slot(x) is Some && #[trigger] b.slot(y) is Some;
        assert(a.slot(x) is Some && a.slot(y) is Some);
    }
}

/// The child under byte `b` of a well-formed inner node is well-formed
/// along the extended path.
proof fn lemma_slot_wf<V>(prefix: Vec<u8>, children: Children<V>, path: Seq<u8>, b: u8)
    requires
        (Node::Inner { prefix, children }).wf_at(path),
        children.slot(b) is Some,
    ensures
        (children.slot(b)->0).wf_at((path + prefix@).push(b)),
{
    match children {
        Children::N4 { keys, kids } => {
            let i = pos_of(keys@, b);
            assert(keys@[i] == b);
        },
        Children::N16 { keys, kids } => {
            let i = pos_of(keys@, b);
            assert(keys@[i] == b);
        },
        Children::N48 { index, kids } => {
            assert(0 < index@[b as int] <= kids@.len());
        },
        Children::N256 { kids } => {
            assert(kids@[b as int] is Some);
        },
    }
}

/// A node and the child under one of its bytes.
proof fn lemma_slot_decreases<V>(node: Node<V>, prefix: Vec<u8>, children: Children<V>, b: u8)
    requires
        node == (Node::Inner { prefix, children }),
        children.slot(b) is Some,
    ensures
        decreases_to!(node => children.slot(b)->0),
{
    match children {
        Children::N4 { keys, kids } => {
            let i = pos_of(keys@, b);
            assert(keys@[i] == b);
            assert(decreases_to!(node => node->children));
            assert(decreases_to!(children => kids));
            assert(decreases_to!(kids => kids@));
            assert(decreases_to!(kids@ => kids@[i]));
        },
        Children::N16 { keys, kids } => {
            let i = pos_of(keys@, b);
            assert(keys@[i] == b);
            assert(decreases_to!(node => node->children));
            assert(decreases_to!(children => kids));
            assert(decreases_to!(kids => kids@));
            assert(decreases_to!(kids@ => kids@[i]));
        },
        Children::N48 { index, kids } => {
            let i = index@[b as int] - 1;
            assert(decreases_to!(node => node->children));
            assert(decreases_to!(children => kids));
            assert(decreases_to!(kids => kids@));
            assert(decreases_to!(kids@ => kids@[i]));
        },
        Children::N256 { kids } => {
            let o = kids@[b as int];
            assert(decreases_to!(node => node->children));
            assert(decreases_to!(children => kids));
            assert(decreases_to!(kids => kids@));
            assert(decreases_to!(kids@ => o));
            assert(decreases_to!(o => o->0));
        },
    }
}

/// Every well-formed subtree holds a leaf: a key that the search from the
/// node finds, and which extends the node's path and prefix.
proof fn lemma_some_leaf<V>(node: Node<V>, path: Seq<u8>) -> (k: Seq<u8>)
    requires
        node.wf_at(path),
    ensures
        node.lookup(k, path.len() as int) is Some,
        is_prefix(path + node.prefix_of(), k),
        node is Inner ==> k.len() > path.len() + node.prefix_of().len(),
    decreases node,
{
    match node {
        Node::Leaf { key, value } => {
            assert(path + node.prefix_of() =~= path);
            key@
        },
        Node::Inner { prefix, children } => {
            let (b, b2) = choose|b: u8, b2: u8| b != b2 && #[trigger] children.slot(b) is Some && #[trigger] children.slot(b2) is Some;
            let c = children.slot(b)->0;
            let p = (path + prefix@).push(b);
            lemma_slot_wf(prefix, children, path, b);
            lemma_slot_decreases(node, prefix, children, b);
            let k = lemma_some_leaf(c, p);
            assert(k.take(p.len() as int) == p);
            assert(k.take((path + prefix@).len() as int) =~= p.take((path + prefix@).len() as int));
            assert(p.take((path + prefix@).len() as int) =~= path + prefix@);
            let d: int = path.len() as int + prefix@.len() as int;
            assert(k[d] == p[d]);
            assert(k.subrange(path.len() as int, d) =~= prefix@) by {
                assert forall|i: int| 0 <= i < prefix@.len() implies k.subrange(path.len() as int, d)[i] == prefix@[i] by {
                    assert(k[path.len() + i] == k.take(p.len() as int)[path.len() + i]);
                }
            }
            k
        },
    }
}

/// A single leaf is a well-formed root.
pub(crate) proof fn lemma_leaf_root_wf<V>(leaf: Node<V>)
    requires
        leaf is Leaf,
    ensures
        leaf.wf_at(Seq::empty()),
{
    assert(leaf->Leaf_key@.take(0) =~= Seq::<u8>::empty());
}

/// A key found below a well-formed node extends the path to it and the
/// node's prefix.
proof fn lemma_found_key_extends<V>(node: Node<V>, path: Seq<u8>, k: Seq<u8>)
    requires
        node.wf_at(path),
        node.lookup(k, path.len() as int) is Some,
    ensures
        is_prefix(path + node.prefix_of(), k),
        is_prefix(path, k),
    decreases node,
{
    match node {
        Node::Leaf { key, value } => {
            assert(path + node.prefix_of() =~= path);
        },
        Node::Inner { prefix, children } => {
            let d: int = path.len() as int + prefix@.len() as int;
            let b = k[d];
            let c = children.slot(b)->0;
            let p = (path + prefix@).push(b);
            lemma_slot_wf(prefix, children, path, b);
            lemma_slot_decreases(node, prefix, children, b);
            lemma_found_key_extends(c, p, k);
            assert(k.take(p.len() as int) == p);
            assert(k.take(d) =~= p.take(d));
            assert(p.take(d) =~= path + prefix@);
            assert(k.take(path.len() as int) =~= (path + prefix@).take(path.len() as int));
            assert((path + prefix@).take(path.len() as int) =~= path);
        },
    }
}

/// A key extending `path`, `prefix` and `b` has them at their places.
proof fn lemma_prefix_parts(path: Seq<u8>, prefix: Seq<u8>, b: u8, k: Seq<u8>, depth: int)
    requires
        depth == path.len(),
        is_prefix((path + prefix).push(b), k),
    ensures
        k.len() > depth + prefix.len(),
        k.subrange(depth, depth + prefix.len()) == prefix,
        k[depth + prefix.len()] == b,
        is_prefix(path, k),
{
    let p = (path + prefix).push(b);
    assert(k.take(p.len() as int) == p);
    assert(k.subrange(depth, depth + prefix.len()) =~= prefix) by {
        assert forall|i: int| 0 <= i < prefix.len() implies k.subrange(depth, depth + prefix.len())[i] == prefix[i] by {
            assert(k[depth + i] == k.take(p.len() as int)[depth + i]);
        }
    }
    assert(k[depth + prefix.len()] == k.take(p.len() as int)[depth + prefix.len()]);
    assert(k.take(depth) =~= path) by {
        assert forall|i: int| 0 <= i < depth implies k.take(depth)[i] == path[i] by {
            assert(k[i] == k.take(p.len() as int)[i]);
        }
    }
}

/// Binary search of a sorted byte list: the position of `b`, if present.
fn search_bytes(keys: &Vec<u8>, b: u8) -> (r: Result<usize, usize>)
    requires
        sorted_bytes(keys@),
    ensures
        r matches Ok(i) ==> i < keys@.len() && keys@[i as int] == b,
        r matches Err(i) ==> i <= keys@.len() && (forall|j: int| 0 <= j < i ==> #[trigger] keys@[j] < b)
            && (forall|j: int| i <= j < keys@.len() ==> b < #[trigger] keys@[j]),
        r is Err <==> !holds_byte(keys@, b),
{
    let mut lo: usize = 0;
    let mut hi: usize = keys.len();
    while lo < hi
        invariant
            lo <= hi <= keys@.len(),
            sorted_bytes(keys@),
            forall|j: int| 0 <= j < lo ==> #[trigger] keys@[j] < b,
            forall|j: int| hi <= j < keys@.len() ==> b < #[trigger] keys@[j],
        decreases hi - lo,
    {
        let mid = lo + (hi - lo) / 2;
        let c = keys[mid];
        if c == b {
            return Ok(mid);
        } else if c < b {
            proof {
                assert forall|j: int| 0 <= j < mid + 1 implies #[trigger] keys@[j] < b by {
                    if j < mid {
                        assert(keys@[j] < keys@[mid as int]);
                    }
                }
            }
            lo = mid + 1;
        } else {
            proof {
                assert forall|j: int| mid <= j < keys@.len() implies b < #[trigger] keys@[j] by {
                    if j > mid {
                        assert(keys@[mid as int] < keys@[j]);
                    }
                }
            }
            hi = mid;
        }
    }
    proof {
        if holds_byte(keys@, b) {
            let j = pos_of(keys@, b);
            assert(keys@[j] == b);
        }
    }
    Err(lo)
}

impl<V> Children<V> {
    /// The child under byte `b`, if any.
    fn get(&self, byte: u8) -> (r: Option<&Arc<Node<V>>>)
        requires
            self.cwf(),
        ensures
            r matches Some(c) ==> self.slot(byte) == Some(**c),
            r is None ==> self.slot(byte) is None,
    {
        match self {
            Children::N4 { keys, kids } => match search_bytes(keys, byte) {
                Ok(i) => {
                    proof {
                        lemma_pos_unique(keys@, i as int);
                    }
                    Some(&kids[i])
                },
                Err(_) => None,
            },
            Children::N16 { keys, kids } => match search_bytes(keys, byte) {
                Ok(i) => {
                    proof {
                        lemma_pos_unique(keys@, i as int);
                    }
                    Some(&kids[i])
                },
                Err(_) => None,
            },
            Children::N48 { index, kids } => {
                let s = index[byte as usize];
                if s == 0 {
                    None
                } else {
                    Some(&kids[(s - 1) as usize])
                }
            },
            Children::N256 { kids } => kids[byte as usize].as_ref(),
        }
    }
}

/// Whether `key[depth..depth + prefix.len()]` equals `prefix`.
fn matches_at(key: &[u8], depth: usize, prefix: &Vec<u8>) -> (r: bool)
    requires
        depth + prefix@.len() <= key@.len(),
    ensures
        r == (key@.subrange(depth as int, depth + prefix@.len()) == prefix@),
{
    let mut i: usize = 0;
    let klen = key.len();
    while i < prefix.len()
        invariant
            klen == key@.len(),
            depth + prefix@.len() <= key@.len(),
            i <= prefix@.len(),
            forall|j: int| 0 <= j < i ==> key@[depth + j] == prefix@[j],
        decreases prefix@.len() - i,
    {
        if key[depth + i] != prefix[i] {
            proof {
                assert(key@.subrange(depth as int, depth + prefix@.len())[i as int] != prefix@[i as int]);
            }
            return false;
        }
        i = i + 1;
    }
    proof {
        assert(key@.subrange(depth as int, depth + prefix@.len()) =~= prefix@);
    }
    true
}

/// Point lookup of `key` below `node`, reached after `depth` bytes of it.
pub(crate) fn get_rec<'a, V>(node: &'a Node<V>, key: &[u8], depth: usize) -> (r: Option<&'a V>)
    requires
        depth <= key@.len(),
        node.wf_at(key@.take(depth as int)),
    ensures
        r matches Some(v) ==> node.lookup(key@, depth as int) == Some(*v),
        r is None ==> node.lookup(key@, depth as int) is None,
    decreases key@.len() - depth,
{
    match node {
        Node::Leaf { key: lk, value } => {
            if compare_bytes(lk.as_slice(), key) == 0 {
                Some(value)
            } else {
                None
            }
        },
        Node::Inner { prefix, children } => {
            if key.len() - depth < prefix.len() || !matches_at(key, depth, prefix) {
                return None;
            }
            let d = depth + prefix.len();
            proof {
                assert(key@.subrange(depth as int, d as int) == prefix@);
            }
            if key.len() == d {
                return None;
            }
            match children.get(key[d]) {
                Some(c) => {
                    proof {
                        let path = key@.take(depth as int);
                        lemma_slot_wf(*prefix, *children, path, key@[d as int]);
                        assert(key@.take(d + 1) =~= (path + prefix@).push(key@[d as int])) by {
                            assert forall|i: int| 0 <= i < d + 1 implies key@.take(d + 1)[i] == (path + prefix@).push(key@[d as int])[i] by {
                                if depth <= i < d {
                                    assert(key@.subrange(depth as int, d as int)[i - depth] == prefix@[i - depth]);
                                }
                            }
                        }
                    }
                    get_rec(c, key, d + 1)
                },
                None => None,
            }
        },
    }
}

/// Whether `a` is a proper prefix of `b`.
fn proper_prefix_of(a: &[u8], b: &[u8]) -> (r: bool)
    ensures
        r == proper_prefix(a@, b@),
{
    if a.len() >= b.len() {
        return false;
    }
    let n = common_prefix_len(a, b);
    proof {
        if n == a@.len() {
            assert(a@.take(n as int) =~= a@);
        } else {
            assert(b@.take(a@.len() as int)[n as int] == b@[n as int]);
        }
    }
    n == a.len()
}

/// Whether a key searched from `depth` below `node` neither extends nor is
/// extended by a stored key.
pub(crate) fn fit_rec<V>(node: &Node<V>, key: &[u8], depth: usize) -> (r: bool)
    requires
        depth <= key@.len(),
        node.wf_at(key@.take(depth as int)),
    ensures
        r == prefix_free_at(*node, key@, depth as int),
    decreases key@.len() - depth,
{
    let ghost path = key@.take(depth as int);
    match node {
        Node::Leaf { key: lk, .. } => {
            let ext = proper_prefix_of(key, lk.as_slice());
            let under = proper_prefix_of(lk.as_slice(), key);
            proof {
                assert(node.lookup(lk@, depth as int) is Some);
            }
            !ext && !under
        },
        Node::Inner { prefix, children } => {
            let ks = vstd::slice::slice_subrange(key, depth, key.len());
            let common = common_prefix_len(prefix.as_slice(), ks);
            if common < prefix.len() {
                if depth + common == key.len() {
                    proof {
                        let k = lemma_some_leaf(*node, path);
                        assert(key@ =~= path + prefix@.take(common as int)) by {
                            assert forall|i: int| 0 <= i < key@.len() implies key@[i] == (path + prefix@.take(common as int))[i] by {
                                if i >= depth {
                                    assert(ks@.take(common as int)[i - depth] == prefix@.take(common as int)[i - depth]);
                                }
                            }
                        }
                        assert(k.take(key@.len() as int) =~= key@) by {
                            assert forall|i: int| 0 <= i < key@.len() implies k.take(key@.len() as int)[i] == key@[i] by {
                                assert(k[i] == k.take((path + prefix@).len() as int)[i]);
                            }
                        }
                        assert(proper_prefix(key@, k));
                    }
                    return false;
                }
                proof {
                    let j: int = depth + common;
                    assert(ks@[common as int] == key@[j]);
                    assert forall|k: Seq<u8>| #[trigger] node.lookup(k, depth as int) is Some implies !proper_prefix(key@, k)
                        && !proper_prefix(k, key@) by {
                        lemma_found_key_extends(*node, path, k);
                        assert(k[j] == k.take((path + prefix@).len() as int)[j]);
                        assert(k[j] == prefix@[common as int]);
                        if proper_prefix(key@, k) {
                            assert(k.take(key@.len() as int)[j] == key@[j]);
                        }
                        if proper_prefix(k, key@) {
                            assert(key@.take(k.len() as int)[j] == k[j]);
                        }
                    }
                }
                return true;
            }
            let d = depth + prefix.len();
            proof {
                assert(key@.subrange(depth as int, d as int) =~= prefix@) by {
                    assert forall|i: int| 0 <= i < d - depth implies key@.subrange(depth as int, d as int)[i] == prefix@[i] by {
                        assert(ks@.take(common as int)[i] == prefix@.take(common as int)[i]);
                    }
                }
                assert(key@.take(d as int) =~= path + prefix@) by {
                    assert forall|i: int| 0 <= i < d implies key@.take(d as int)[i] == (path + prefix@)[i] by {
                        if i >= depth {
                            assert(key@.subrange(depth as int, d as int)[i - depth] == prefix@[i - depth]);
                        }
                    }
                }
            }
            if d == key.len() {
                proof {
                    let k = lemma_some_leaf(*node, path);
                    assert(key@ =~= path + prefix@);
                    assert(k.take(key@.len() as int) =~= key@);
                    assert(proper_prefix(key@, k));
                }
                return false;
            }
            let byte = key[d];
            match children.get(byte) {
                None => {
                    proof {
                        assert forall|k: Seq<u8>| #[trigger] node.lookup(k, depth as int) is Some implies !proper_prefix(key@, k)
                            && !proper_prefix(k, key@) by {
                            lemma_found_key_extends(*node, path, k);
                            assert(k.len() > d && children.slot(k[d as int]) is Some);
                            assert(k[d as int] != byte);
                            if proper_prefix(key@, k) {
                                assert(k.take(key@.len() as int)[d as int] == key@[d as int]);
                            }
                            if proper_prefix(k, key@) {
                                assert(key@.take(k.len() as int)[d as int] == k[d as int]);
                            }
                        }
                    }
                    true
                },
                Some(c) => {
                    let ghost p = (path + prefix@).push(byte);
                    proof {
                        lemma_slot_wf(*prefix, *children, path, byte);
                        lemma_slot_decreases(*node, *prefix, *children, byte);
                        assert(key@.take(d + 1) =~= p) by {
                            assert forall|i: int| 0 <= i < d + 1 implies key@.take(d + 1)[i] == p[i] by {
                                if i < d {
                                    assert(key@.take(d as int)[i] == key@[i]);
                                }
                            }
                        }
                    }
                    let r = fit_rec(c, key, d + 1);
                    proof {
                        assert forall|k: Seq<u8>| #[trigger] (**c).lookup(k, d + 1) is Some implies node.lookup(k, depth as int)
                            == (**c).lookup(k, d + 1) by {
                            lemma_found_key_extends(**c, p, k);
                            lemma_prefix_parts(path, prefix@, byte, k, depth as int);
                        }
                        assert forall|k: Seq<u8>|
                            #[trigger] node.lookup(k, depth as int) is Some && (proper_prefix(key@, k) || proper_prefix(k, key@))
                            implies (**c).lookup(k, d + 1) == node.lookup(k, depth as int) by {
                            lemma_found_key_extends(*node, path, k);
                            if proper_prefix(key@, k) {
                                assert(k.take(key@.len() as int)[d as int] == key@[d as int]);
                            }
                            if proper_prefix(k, key@) {
                                assert(key@.take(k.len() as int)[d as int] == k[d as int]);
                            }
                        }
                        if !r {
                            let k = choose|k: Seq<u8>| #[trigger] (**c).lookup(k, d + 1) is Some && !(!proper_prefix(key@, k) && !proper_prefix(k, key@));
                            assert(node.lookup(k, depth as int) is Some);
                        }
                    }
                    r
                },
            }
        },
    }
}

/// A copy of a child list, sharing every subtree.
fn copy_kids<V>(kids: &Vec<Arc<Node<V>>>) -> (r: Vec<Arc<Node<V>>>)
    ensures
        r@ == kids@,
{
    let mut r: Vec<Arc<Node<V>>> = Vec::with_capacity(kids.len());
    let mut i: usize = 0;
    while i < kids.len()
        invariant
            i <= kids@.len(),
            r@ == kids@.take(i as int),
        decreases kids@.len() - i,
    {
        r.push(Arc::clone(&kids[i]));
        proof {
            assert(kids@.take(i + 1) =~= kids@.take(i as int).push(kids@[i as int]));
        }
        i = i + 1;
    }
    proof {
        assert(kids@.take(i as int) =~= kids@);
    }
    r
}

/// A copy of a 256-way child array, sharing every subtree.
fn copy_slots<V>(kids: &Vec<Option<Arc<Node<V>>>>) -> (r: Vec<Option<Arc<Node<V>>>>)
    ensures
        r@ == kids@,
{
    let mut r: Vec<Option<Arc<Node<V>>>> = Vec::with_capacity(kids.len());
    let mut i: usize = 0;
    while i < kids.len()
        invariant
            i <= kids@.len(),
            r@ == kids@.take(i as int),
        decreases kids@.len() - i,
    {
        let c = match &kids[i] {
            Some(k) => Some(Arc::clone(k)),
            None => None,
        };
        r.push(c);
        proof {
            assert(kids@.take(i + 1) =~= kids@.take(i as int).push(kids@[i as int]));
        }
        i = i + 1;
    }
    proof {
        assert(kids@.take(i as int) =~= kids@);
    }
    r
}

/// A copy of a child container, sharing every subtree.
fn children_clone<V>(c: &Children<V>) -> (r: Children<V>)
    ensures
        r.same_view(*c),
{
    match c {
        Children::N4 { keys, kids } => Children::N4 { keys: copy_bytes(keys), kids: copy_kids(kids) },
        Children::N16 { keys, kids } => Children::N16 { keys: copy_bytes(keys), kids: copy_kids(kids) },
        Children::N48 { index, kids } => Children::N48 { index: copy_bytes(index), kids: copy_kids(kids) },
        Children::N256 { kids } => Children::N256 { kids: copy_slots(kids) },
    }
}

/// The N4 holding just `b0 -> c0` and `b1 -> c1`.
fn new_pair<V>(b0: u8, c0: Arc<Node<V>>, b1: u8, c1: Arc<Node<V>>) -> (r: Children<V>)
    requires
        b0 != b1,
    ensures
        r.cwf(),
        r.branching(),
        r is N4,
        forall|b: u8| #[trigger] r.slot(b) == (if b == b0 {
            Some(*c0)
        } else if b == b1 {
            Some(*c1)
        } else {
            None
        }),
{
    let (keys, kids) = if b0 < b1 {
        (vec![b0, b1], vec![c0, c1])
    } else {
        (vec![b1, b0], vec![c1, c0])
    };
    let r = Children::N4 { keys, kids };
    proof {
        lemma_pos_unique(keys@, 0);
        lemma_pos_unique(keys@, 1);
        assert forall|b: u8| #[trigger] r.slot(b) == (if b == b0 {
            Some(*c0)
        } else if b == b1 {
            Some(*c1)
        } else {
            None
        }) by {
            if b != b0 && b != b1 {
                if holds_byte(keys@, b) {
                    let i = pos_of(keys@, b);
                    assert(keys@[i] == b);
                }
            }
        }
        assert(r.slot(b0) is Some && r.slot(b1) is Some);
    }
    r
}

/// The sorted arrays with `byte -> child` inserted in order.
fn insert_sorted<V>(keys: &Vec<u8>, kids: &Vec<Arc<Node<V>>>, byte: u8, child: Arc<Node<V>>) -> (r: (Vec<u8>, Vec<Arc<Node<V>>>))
    requires
        sorted_bytes(keys@),
        keys@.len() == kids@.len(),
        !holds_byte(keys@, byte),
    ensures
        sorted_bytes(r.0@),
        r.0@.len() == r.1@.len() == keys@.len() + 1,
        forall|b: u8| #[trigger] holds_byte(r.0@, b) == (b == byte || holds_byte(keys@, b)),
        forall|b: u8| holds_byte(r.0@, b) ==> #[trigger] r.1@[pos_of(r.0@, b)] == (if b == byte {
            child
        } else {
            kids@[pos_of(keys@, b)]
        }),
{
    let pos = match search_bytes(keys, byte) {
        Ok(i) => i,
        Err(i) => i,
    };
    let mut k = copy_bytes(keys);
    let mut c = copy_kids(kids);
    k.insert(pos, byte);
    c.insert(pos, child);
    proof {
        let ok = keys@;
        let nk = k@;
        assert(nk == ok.insert(pos as int, byte));
        assert(sorted_bytes(nk)) by {
            assert forall|x: int, y: int| 0 <= x < y < nk.len() implies #[trigger] nk[x] < #[trigger] nk[y] by {
                if y < pos {
                    assert(ok[x] < ok[y]);
                } else if y == pos {
                    assert(ok[x] < byte);
                } else if x < pos {
                    assert(ok[x] < byte);
                    assert(byte < ok[y - 1]);
                } else if x == pos {
                    assert(byte < ok[y - 1]);
                } else {
                    assert(ok[x - 1] < ok[y - 1]);
                }
            }
        }
        lemma_pos_unique(nk, pos as int);
        assert forall|b: u8| #[trigger] holds_byte(nk, b) == (b == byte || holds_byte(ok, b)) by {
            if holds_byte(ok, b) {
                let j = pos_of(ok, b);
                assert(ok[j] == b);
                let j2 = if j < pos { j } else { j + 1 };
                assert(nk[j2] == b);
            }
            if holds_byte(nk, b) && b != byte {
                let j = pos_of(nk, b);
                assert(nk[j] == b);
                let j2 = if j < pos { j } else { j - 1 };
                assert(ok[j2] == b);
            }
        }
        assert forall|b: u8| holds_byte(nk, b) implies #[trigger] c@[pos_of(nk, b)] == (if b == byte {
            child
        } else {
            kids@[pos_of(ok, b)]
        }) by {
            if b != byte {
                let j = pos_of(ok, b);
                assert(ok[j] == b);
                let j2 = if j < pos { j } else { j + 1 };
                assert(nk[j2] == b);
                lemma_pos_unique(nk, j2);
            }
        }
    }
    (k, c)
}

/// N16 holding the same children as a full N4.
fn grow4_to_16<V>(keys: &Vec<u8>, kids: &Vec<Arc<Node<V>>>) -> (r: Children<V>)
    ensures
        r.same_view(Children::N16 { keys: *keys, kids: *kids }),
{
    Children::N16 { keys: copy_bytes(keys), kids: copy_kids(kids) }
}

/// N48 holding the same children as an N16.
fn grow16_to_48<V>(keys: &Vec<u8>, kids: &Vec<Arc<Node<V>>>) -> (r: Children<V>)
    requires
        (Children::N16 { keys: *keys, kids: *kids }).cwf(),
    ensures
        r.cwf(),
        r is N48,
        r->N48_kids@.len() == keys@.len(),
        forall|b: u8| #[trigger] r.slot(b) == (Children::N16 { keys: *keys, kids: *kids }).slot(b),
{
    let mut index: Vec<u8> = Vec::with_capacity(256);
    let mut x: usize = 0;
    while x < 256
        invariant
            x <= 256,
            index@.len() == x,
            forall|j: int| 0 <= j < x ==> #[trigger] index@[j] == 0,
        decreases 256 - x,
    {
        index.push(0);
        x = x + 1;
    }
    let mut nkids: Vec<Arc<Node<V>>> = Vec::with_capacity(keys.len());
    let mut i: usize = 0;
    while i < keys.len()
        invariant
            keys@.len() == kids@.len() <= 16,
            sorted_bytes(keys@),
            i <= keys@.len(),
            index@.len() == 256,
            nkids@ == kids@.take(i as int),
            forall|j: int| 0 <= j < i ==> #[trigger] index@[keys@[j] as int] == j + 1,
            forall|b: int| 0 <= b < 256 && !(exists|j: int| 0 <= j < i && keys@[j] == b) ==> #[trigger] index@[b] == 0,
            forall|b: int| 0 <= b < 256 ==> #[trigger] index@[b] <= i,
            forall|b: int| 0 <= b < 256 && #[trigger] index@[b] != 0 ==> keys@[index@[b] - 1] == b,
        decreases keys@.len() - i,
    {
        nkids.push(Arc::clone(&kids[i]));
        let slot = nkids.len() as u8;
        let ghost old_index = index@;
        index.set(keys[i] as usize, slot);
        proof {
            assert(kids@.take(i + 1) =~= kids@.take(i as int).push(kids@[i as int]));
            assert forall|j: int| 0 <= j < i + 1 implies #[trigger] index@[keys@[j] as int] == j + 1 by {
                if j < i {
                    assert(keys@[j] < keys@[i as int]);
                }
            }
            assert forall|b: int| 0 <= b < 256 && #[trigger] index@[b] != 0 implies keys@[index@[b] - 1] == b by {
                if b != keys@[i as int] {
                    assert(index@[b] == old_index[b]);
                }
            }
            assert forall|b: int| 0 <= b < 256 && !(exists|j: int| 0 <= j < i + 1 && keys@[j] == b) implies #[trigger] index@[b] == 0 by {
                assert(b != keys@[i as int]);
                if exists|j: int| 0 <= j < i && keys@[j] == b {
                    let j = choose|j: int| 0 <= j < i && keys@[j] == b;
                    assert(0 <= j < i + 1 && keys@[j] == b);
                }
            }
        }
        i = i + 1;
    }
    let r = Children::N48 { index, kids: nkids };
    proof {
        assert(kids@.take(i as int) =~= kids@);
        assert forall|s: int| 1 <= s <= nkids@.len() implies #[trigger] slot_taken(index@, s) by {
            assert(index@[keys@[s - 1] as int] == s);
        }
        assert forall|b1: int, b2: int|
            0 <= b1 < 256 && 0 <= b2 < 256 && b1 != b2 && #[trigger] index@[b1] != 0
                implies index@[b1] != #[trigger] index@[b2] by {
            if index@[b1] == index@[b2] {
                assert(keys@[index@[b1] - 1] == b1);
                assert(keys@[index@[b2] - 1] == b2);
            }
        }
        assert forall|b: u8| #[trigger] r.slot(b) == (Children::N16 { keys: *keys, kids: *kids }).slot(b) by {
            if holds_byte(keys@, b) {
                let j = pos_of(keys@, b);
                assert(keys@[j] == b);
                assert(index@[b as int] == j + 1);
            } else {
                if exists|j: int| 0 <= j < i && keys@[j] == b {
                    let j = choose|j: int| 0 <= j < i && keys@[j] == b;
                    assert(keys@[j] == b);
                }
                assert(index@[b as int] == 0);
            }
        }
    }
    r
}

/// N256 holding the same children as an N48.
fn grow48_to_256<V>(index: &Vec<u8>, kids: &Vec<Arc<Node<V>>>) -> (r: Children<V>)
    requires
        (Children::N48 { index: *index, kids: *kids }).cwf(),
    ensures
        r.cwf(),
        r is N256,
        forall|b: u8| #[trigger] r.slot(b) == (Children::N48 { index: *index, kids: *kids }).slot(b),
{
    let mut nkids: Vec<Option<Arc<Node<V>>>> = Vec::with_capacity(256);
    let mut b: usize = 0;
    while b < 256
        invariant
            b <= 256,
            index@.len() == 256,
            kids@.len() <= 48,
            forall|x: int| 0 <= x < 256 ==> #[trigger] index@[x] <= kids@.len(),
            nkids@.len() == b,
            forall|x: int| 0 <= x < b ==> #[trigger] nkids@[x] == (if index@[x] != 0 {
                Some(kids@[index@[x] - 1])
            } else {
                None
            }),
        decreases 256 - b,
    {
        let s = index[b];
        if s != 0 {
            nkids.push(Some(Arc::clone(&kids[(s - 1) as usize])));
        } else {
            nkids.push(None);
        }
        b = b + 1;
    }
    Children::N256 { kids: nkids }
}

impl<V> Children<V> {
    /// A copy with `byte` (not yet present) mapped to `child`, growing the
    /// container type when the current one is full.
    fn added(&self, byte: u8, child: Arc<Node<V>>) -> (r: Children<V>)
        requires
            self.cwf(),
            self.slot(byte) is None,
        ensures
            r.cwf(),
            forall|b: u8| #[trigger] r.slot(b) == (if b == byte { Some(*child) } else { self.slot(b) }),
            r.tag() == (if self.full() { self.tag() + 1 } else { self.tag() as int }),
        decreases (match self {
            Children::N4 { .. } => 3int,
            Children::N16 { .. } => 2int,
            Children::N48 { .. } => 1int,
            Children::N256 { .. } => 0int,
        }),
    {
        match self {
            Children::N4 { keys, kids } => {
                if keys.len() < 4 {
                    let (k, c) = insert_sorted(keys, kids, byte, child);
                    let r = Children::N4 { keys: k, kids: c };
                    proof {
                        assert forall|b: u8| #[trigger] r.slot(b) == (if b == byte { Some(*child) } else { self.slot(b) }) by {
                            assert(holds_byte(k@, b) == (b == byte || holds_byte(keys@, b)));
                        }
                    }
                    r
                } else {
                    let g = grow4_to_16(keys, kids);
                    proof {
                        let n16 = Children::N16 { keys: *keys, kids: *kids };
                        lemma_same_view_slots(g, n16);
                        assert forall|b: u8| #[trigger] n16.slot(b) == self.slot(b) by {}
                    }
                    g.added(byte, child)
                }
            },
            Children::N16 { keys, kids } => {
                if keys.len() < 16 {
                    let (k, c) = insert_sorted(keys, kids, byte, child);
                    let r = Children::N16 { keys: k, kids: c };
                    proof {
                        assert forall|b: u8| #[trigger] r.slot(b) == (if b == byte { Some(*child) } else { self.slot(b) }) by {
                            assert(holds_byte(k@, b) == (b == byte || holds_byte(keys@, b)));
                        }
                    }
                    r
                } else {
                    let g = grow16_to_48(keys, kids);
                    g.added(byte, child)
                }
            },
            Children::N48 { index, kids } => {
                if kids.len() < 48 {
                    let mut index = copy_bytes(index);
                    let mut kids = copy_kids(kids);
                    kids.push(child);
                    let slot = kids.len() as u8;
                    index.set(byte as usize, slot);
                    let r = Children::N48 { index, kids };
                    proof {
                        let oi = self->N48_index@;
                        assert(oi[byte as int] == 0);
                        assert forall|b: u8| #[trigger] r.slot(b) == (if b == byte { Some(*child) } else { self.slot(b) }) by {
                            if b != byte {
                                assert(index@[b as int] == oi[b as int]);
                            }
                        }
                        assert forall|x: int| 0 <= x < 256 implies #[trigger] index@[x] <= kids@.len() by {
                            if x != byte {
                                assert(index@[x] == oi[x]);
                            }
                        }
                        assert forall|t: int| 1 <= t <= kids@.len() implies #[trigger] slot_taken(index@, t) by {
                            if t == kids@.len() {
                                assert(index@[byte as int] == t);
                            } else {
                                assert(slot_taken(oi, t));
                                let w = choose|w: int| 0 <= w < oi.len() && oi[w] == t;
                                assert(w != byte);
                                assert(index@[w] == oi[w]);
                            }
                        }
                        assert forall|b1: int, b2: int|
                            0 <= b1 < 256 && 0 <= b2 < 256 && b1 != b2 && #[trigger] index@[b1] != 0
                                implies index@[b1] != #[trigger] index@[b2] by {
                            if b1 != byte && b2 != byte {
                                assert(index@[b1] == oi[b1]);
                                assert(index@[b2] == oi[b2]);
                            } else if b1 == byte {
                                assert(index@[b2] == oi[b2]);
                                assert(oi[b2] <= kids@.len() - 1);
                            } else {
                                assert(index@[b1] == oi[b1]);
                                assert(oi[b1] <= kids@.len() - 1);
                            }
                        }
                    }
                    r
                } else {
                    let g = grow48_to_256(index, kids);
                    g.added(byte, child)
                }
            },
            Children::N256 { kids } => {
                let mut kids = copy_slots(kids);
                kids.set(byte as usize, Some(child));
                Children::N256 { kids }
            },
        }
    }

    /// A copy with `byte` (already present) remapped to `child`.
    fn replaced(&self, byte: u8, child: Arc<Node<V>>) -> (r: Children<V>)
        requires
            self.cwf(),
            self.slot(byte) is Some,
        ensures
            r.cwf(),
            forall|b: u8| #[trigger] r.slot(b) == (if b == byte { Some(*child) } else { self.slot(b) }),
            r.tag() == self.tag(),
    {
        match self {
            Children::N4 { keys, kids } => {
                let i = match search_bytes(keys, byte) {
                    Ok(i) => i,
                    Err(i) => i,
                };
                let mut kids = copy_kids(kids);
                kids.set(i, child);
                let r = Children::N4 { keys: copy_bytes(keys), kids };
                proof {
                    lemma_pos_unique(keys@, i as int);
                    assert forall|b: u8| #[trigger] r.slot(b) == (if b == byte { Some(*child) } else { self.slot(b) }) by {
                        if b != byte && holds_byte(keys@, b) {
                            let j = pos_of(keys@, b);
                            assert(keys@[j] == b);
                        }
                    }
                }
                r
            },
            Children::N16 { keys, kids } => {
                let i = match search_bytes(keys, byte) {
                    Ok(i) => i,
                    Err(i) => i,
                };
                let mut kids = copy_kids(kids);
                kids.set(i, child);
                let r = Children::N16 { keys: copy_bytes(keys), kids };
                proof {
                    lemma_pos_unique(keys@, i as int);
                    assert forall|b: u8| #[trigger] r.slot(b) == (if b == byte { Some(*child) } else { self.slot(b) }) by {
                        if b != byte && holds_byte(keys@, b) {
                            let j = pos_of(keys@, b);
                            assert(keys@[j] == b);
                        }
                    }
                }
                r
            },
            Children::N48 { index, kids } => {
                let mut kids = copy_kids(kids);
                let s = index[byte as usize];
                kids.set((s - 1) as usize, child);
                let r = Children::N48 { index: copy_bytes(index), kids };
                proof {
                    assert forall|b: u8| #[trigger] r.slot(b) == (if b == byte { Some(*child) } else { self.slot(b) }) by {
                        if b != byte && 0 < index@[b as int] {
                            assert(index@[b as int] != index@[byte as int]);
                        }
                    }
                }
                r
            },
            Children::N256 { kids } => {
                let mut kids = copy_slots(kids);
                kids.set(byte as usize, Some(child));
                Children::N256 { kids }
            },
        }
    }
}

/// Length of the longest common prefix of two byte strings.
fn common_prefix_len(a: &[u8], b: &[u8]) -> (n: usize)
    ensures
        n <= a@.len(),
        n <= b@.len(),
        a@.take(n as int) == b@.take(n as int),
        n < a@.len() && n < b@.len() ==> a@[n as int] != b@[n as int],
{
    let mut n: usize = 0;
    while n < a.len() && n < b.len() && a[n] == b[n]
        invariant
            n <= a@.len(),
            n <= b@.len(),
            a@.take(n as int) == b@.take(n as int),
        decreases a@.len() - n,
    {
        proof {
            assert(a@.take(n + 1) =~= a@.take(n as int).push(a@[n as int]));
            assert(b@.take(n + 1) =~= b@.take(n as int).push(b@[n as int]));
        }
        n = n + 1;
    }
    n
}

/// `key` neither extends nor is extended by any key stored below `node`.
pub open spec fn prefix_free_at<V>(node: Node<V>, key: Seq<u8>, depth: int) -> bool {
    forall|k: Seq<u8>| #[trigger] node.lookup(k, depth) is Some ==> !proper_prefix(key, k) && !proper_prefix(k, key)
}

/// `c` holds a fresh leaf for `key` with `value`.
pub open spec fn is_new_leaf<V>(c: Option<Node<V>>, key: Seq<u8>, value: V) -> bool {
    c matches Some(Node::Leaf { key: k, value: v }) && k@ == key && v == value
}

/// `n` splits the leaf `old`, met after `depth` bytes of `key`, where the two
/// keys part: an inner node whose prefix is what they share from `depth` on,
/// over an N4 with `old` and a new leaf for `key` at their parting bytes.
pub open spec fn leaf_split_shape<V>(n: Node<V>, old: Node<V>, key: Seq<u8>, depth: int, value: V) -> bool {
    let lk = old->Leaf_key@;
    let d = depth + n->Inner_prefix@.len();
    &&& n is Inner
    &&& n->Inner_children is N4
    &&& d < key.len() && d < lk.len()
    &&& key.take(d) == lk.take(d)
    &&& key[d] != lk[d]
    &&& n->Inner_prefix@ == key.subrange(depth, d)
    &&& n->Inner_children.slot(lk[d]) == Some(old)
    &&& is_new_leaf(n->Inner_children.slot(key[d]), key, value)
    &&& forall|b: u8| b != lk[d] && b != key[d] ==> #[trigger] n->Inner_children.slot(b) is None
}

/// `n` splits the compressed prefix of the inner node `old`, met after
/// `depth` bytes of `key`, where `key` leaves it: an inner node with the
/// shared part of the prefix, over an N4 with `old` shortened past the
/// parting byte and a new leaf for `key`.
pub open spec fn prefix_split_shape<V>(n: Node<V>, old: Node<V>, key: Seq<u8>, depth: int, value: V) -> bool {
    let p = old->Inner_prefix@;
    let c = n->Inner_prefix@.len() as int;
    &&& n is Inner
    &&& n->Inner_children is N4
    &&& c < p.len()
    &&& depth + c < key.len()
    &&& n->Inner_prefix@ == p.take(c)
    &&& key.subrange(depth, depth + c) == p.take(c)
    &&& key[depth + c] != p[c]
    &&& n->Inner_children.slot(p[c]) matches Some(Node::Inner { prefix: sp, children: sc })
        && sp@ == p.subrange(c + 1, p.len() as int)
        && sc.tag() == old->Inner_children.tag()
        && forall|b: u8| #[trigger] sc.slot(b) == old->Inner_children.slot(b)
    &&& is_new_leaf(n->Inner_children.slot(key[depth + c]), key, value)
    &&& forall|b: u8| b != p[c] && b != key[depth + c] ==> #[trigger] n->Inner_children.slot(b) is None
}

/// `n` replaces the inner node `old` after an insert below its child under
/// `byte`: the same prefix, and the same container type, grown by one step
/// only where a new child had to be added to a full container.
pub open spec fn descended_shape<V>(n: Node<V>, old: Node<V>, byte: u8) -> bool {
    let oc = old->Inner_children;
    &&& n is Inner
    &&& n->Inner_prefix@ == old->Inner_prefix@
    &&& n->Inner_children.tag() == (if oc.slot(byte) is None && oc.full() { oc.tag() + 1 } else { oc.tag() as int })
}

/// What an insert below a node at `depth` does to the searches from it.
pub open spec fn inserted_at<V>(new: Node<V>, old: Node<V>, key: Seq<u8>, depth: int, value: V) -> bool {
    forall|k: Seq<u8>| #[trigger] new.lookup(k, depth) == (if k == key {
        Some(value)
    } else {
        old.lookup(k, depth)
    })
}

/// Splitting a leaf: the new inner node holds the old leaf and a new leaf for
/// `key` under the bytes where their keys first differ.
proof fn lemma_leaf_split<V>(
    old_leaf: Node<V>,
    new_leaf: Node<V>,
    prefix: Vec<u8>,
    children: Children<V>,
    key: Seq<u8>,
    depth: int,
    d: int,
    value: V,
)
    requires
        old_leaf is Leaf,
        new_leaf == (Node::Leaf { key: new_leaf->Leaf_key, value }),
        new_leaf->Leaf_key@ == key,
        0 <= depth <= d,
        d < key.len(),
        d < old_leaf->Leaf_key@.len(),
        old_leaf.wf_at(key.take(depth)),
        key.take(d) == old_leaf->Leaf_key@.take(d),
        key[d] != old_leaf->Leaf_key@[d],
        prefix@ == key.subrange(depth, d),
        children.cwf(),
        children.branching(),
        forall|b: u8| #[trigger] children.slot(b) == (if b == old_leaf->Leaf_key@[d] {
            Some(old_leaf)
        } else if b == key[d] {
            Some(new_leaf)
        } else {
            None
        }),
    ensures
        (Node::Inner { prefix, children }).wf_at(key.take(depth)),
        inserted_at(Node::Inner { prefix, children }, old_leaf, key, depth, value),
{
    let lk = old_leaf->Leaf_key@;
    let path = key.take(depth);
    let n = Node::Inner { prefix, children };
    let bo = lk[d];
    let bn = key[d];
    assert((path + prefix@).push(bo) =~= lk.take(d + 1));
    assert((path + prefix@).push(bn) =~= key.take(d + 1));
    assert(lk.take(d + 1).len() <= lk.len());
    assert(is_prefix(lk.take(d + 1), lk)) by {
        assert(lk.take(d + 1).take(d + 1) =~= lk.take(d + 1));
    }
    assert(is_prefix(key.take(d + 1), key)) by {
        assert(key.take(d + 1) =~= key.take(d + 1));
    }
    match children {
        Children::N4 { keys, kids } => {
            assert forall|i: int| 0 <= i < kids@.len() && i < keys@.len() implies (*kids@[i]).wf_at(
                (path + prefix@).push(#[trigger] keys@[i])) by {
                lemma_pos_unique(keys@, i);
                assert(children.slot(keys@[i]) == Some(*kids@[i]));
            }
        },
        Children::N16 { keys, kids } => {
            assert forall|i: int| 0 <= i < kids@.len() && i < keys@.len() implies (*kids@[i]).wf_at(
                (path + prefix@).push(#[trigger] keys@[i])) by {
                lemma_pos_unique(keys@, i);
                assert(children.slot(keys@[i]) == Some(*kids@[i]));
            }
        },
        Children::N48 { index, kids } => {
            assert forall|b: u8| 0 < #[trigger] index@[b as int] <= kids@.len() implies (*kids@[index@[b as int]
                - 1]).wf_at((path + prefix@).push(b)) by {
                assert(children.slot(b) is Some);
            }
        },
        Children::N256 { kids } => {
            assert forall|b: u8| (#[trigger] kids@[b as int]) is Some implies (*kids@[b as int]->0).wf_at(
                (path + prefix@).push(b)) by {
                assert(children.slot(b) is Some);
            }
        },
    }
    assert(lk.subrange(depth, d) =~= prefix@) by {
        assert forall|i: int| 0 <= i < d - depth implies lk.subrange(depth, d)[i] == prefix@[i] by {
            assert(lk[depth + i] == lk.take(d)[depth + i]);
            assert(key[depth + i] == key.take(d)[depth + i]);
        }
    }
    assert(lk != key) by {
        if lk == key {
            assert(lk[d] == key[d]);
        }
    }
    assert forall|k: Seq<u8>| #[trigger] n.lookup(k, depth) == (if k == key {
        Some(value)
    } else {
        old_leaf.lookup(k, depth)
    }) by {
        if k == key {
        } else if k == lk {
        } else {
            if k.len() > d && k.subrange(depth, d) == prefix@ {
                if k[d] == bo {
                    assert(old_leaf.lookup(k, d + 1) is None);
                } else if k[d] == bn {
                    assert(new_leaf.lookup(k, d + 1) is None);
                }
            }
        }
    }
}

/// An inner node is well-formed when its container is, and every child is
/// well-formed along its extended path.
proof fn lemma_wf_from_slots<V>(prefix: Vec<u8>, children: Children<V>, path: Seq<u8>)
    requires
        children.cwf(),
        children.branching(),
        forall|b: u8| #[trigger] children.slot(b) is Some ==> (children.slot(b)->0).wf_at((path + prefix@).push(b)),
    ensures
        (Node::Inner { prefix, children }).wf_at(path),
{
    match children {
        Children::N4 { keys, kids } => {
            assert forall|i: int| 0 <= i < kids@.len() && i < keys@.len() implies (*kids@[i]).wf_at(
                (path + prefix@).push(#[trigger] keys@[i])) by {
                lemma_pos_unique(keys@, i);
                assert(children.slot(keys@[i]) == Some(*kids@[i]));
            }
        },
        Children::N16 { keys, kids } => {
            assert forall|i: int| 0 <= i < kids@.len() && i < keys@.len() implies (*kids@[i]).wf_at(
                (path + prefix@).push(#[trigger] keys@[i])) by {
                lemma_pos_unique(keys@, i);
                assert(children.slot(keys@[i]) == Some(*kids@[i]));
            }
        },
        Children::N48 { index, kids } => {
            assert forall|b: u8| 0 < #[trigger] index@[b as int] <= kids@.len() implies (*kids@[index@[b as int]
                - 1]).wf_at((path + prefix@).push(b)) by {
                assert(children.slot(b) is Some);
            }
        },
        Children::N256 { kids } => {
            assert forall|b: u8| (#[trigger] kids@[b as int]) is Some implies (*kids@[b as int]->0).wf_at(
                (path + prefix@).push(b)) by {
                assert(children.slot(b) is Some);
            }
        },
    }
}

/// Splitting an inner node's prefix where `key` leaves it: the new inner node
/// holds the shortened old node and a new leaf for `key`.
proof fn lemma_prefix_split<V>(
    old: Node<V>,
    shortened: Node<V>,
    new_leaf: Node<V>,
    top_prefix: Vec<u8>,
    top_children: Children<V>,
    key: Seq<u8>,
    depth: int,
    common: int,
    value: V,
)
    requires
        old is Inner,
        shortened is Inner,
        shortened->Inner_children.same_view(old->Inner_children),
        0 <= depth,
        0 <= common < old->Inner_prefix@.len(),
        depth + common < key.len(),
        old.wf_at(key.take(depth)),
        key.subrange(depth, depth + common) == old->Inner_prefix@.take(common),
        key[depth + common] != old->Inner_prefix@[common],
        shortened->Inner_prefix@ == old->Inner_prefix@.subrange(common + 1, old->Inner_prefix@.len() as int),
        top_prefix@ == old->Inner_prefix@.take(common),
        new_leaf == (Node::Leaf { key: new_leaf->Leaf_key, value }),
        new_leaf->Leaf_key@ == key,
        top_children.cwf(),
        top_children.branching(),
        forall|b: u8| #[trigger] top_children.slot(b) == (if b == old->Inner_prefix@[common] {
            Some(shortened)
        } else if b == key[depth + common] {
            Some(new_leaf)
        } else {
            None
        }),
    ensures
        (Node::Inner { prefix: top_prefix, children: top_children }).wf_at(key.take(depth)),
        inserted_at(Node::Inner { prefix: top_prefix, children: top_children }, old, key, depth, value),
{
    let prefix = old->Inner_prefix@;
    let plen = prefix.len() as int;
    let path = key.take(depth);
    let dd = depth + common;
    let top = Node::Inner { prefix: top_prefix, children: top_children };
    let p_short = (path + top_prefix@).push(prefix[common]);
    assert(p_short + shortened->Inner_prefix@ =~= path + prefix);
    lemma_same_view(shortened->Inner_children, old->Inner_children, shortened->Inner_prefix, old->Inner_prefix, p_short, path);
    assert((path + top_prefix@).push(key[dd]) =~= key.take(dd + 1)) by {
        assert forall|i: int| 0 <= i < dd + 1 implies (path + top_prefix@).push(key[dd])[i] == key.take(dd + 1)[i] by {
            if depth <= i < dd {
                assert(key.subrange(depth, dd)[i - depth] == prefix.take(common)[i - depth]);
            }
        }
    }
    assert(is_prefix(key.take(dd + 1), key)) by {
        assert(key.take(dd + 1).take(dd + 1) =~= key.take(dd + 1));
    }
    lemma_wf_from_slots(top_prefix, top_children, path);
    assert forall|k: Seq<u8>| #[trigger] top.lookup(k, depth) == (if k == key {
        Some(value)
    } else {
        old.lookup(k, depth)
    }) by {
        let cond_o = k.len() > depth + plen && k.subrange(depth, depth + plen) == prefix;
        let cond_t = k.len() > dd && k.subrange(depth, dd) == top_prefix@;
        if cond_o {
            assert(cond_t && k[dd] == prefix[common]) by {
                assert(k.subrange(depth, dd) =~= top_prefix@) by {
                    assert forall|i: int| 0 <= i < common implies k.subrange(depth, dd)[i] == top_prefix@[i] by {
                        assert(k.subrange(depth, depth + plen)[i] == prefix[i]);
                    }
                }
                assert(k.subrange(depth, depth + plen)[common] == prefix[common]);
            }
            assert(k.subrange(dd + 1, depth + plen) =~= shortened->Inner_prefix@) by {
                assert forall|i: int| 0 <= i < plen - common - 1 implies k.subrange(dd + 1, depth + plen)[i] == shortened->Inner_prefix@[i] by {
                    assert(k.subrange(depth, depth + plen)[common + 1 + i] == prefix[common + 1 + i]);
                }
            }
            assert(k != key) by {
                if k == key {
                    assert(k[dd] == key[dd]);
                }
            }
            assert(top_children.slot(k[dd]) == Some(shortened));
            assert(top.lookup(k, depth) == shortened.lookup(k, dd + 1));
            assert(shortened->Inner_children.slot(k[depth + plen]) == children_slot_of(old, k[depth + plen]));
            assert(shortened.lookup(k, dd + 1) == old.lookup(k, depth));
        } else {
            if cond_t && k[dd] == prefix[common] {
                if k.len() > depth + plen && k.subrange(dd + 1, depth + plen) == shortened->Inner_prefix@ {
                    assert(k.subrange(depth, depth + plen) =~= prefix) by {
                        assert forall|i: int| 0 <= i < plen implies k.subrange(depth, depth + plen)[i] == prefix[i] by {
                            if i < common {
                                assert(k.subrange(depth, dd)[i] == top_prefix@[i]);
                            } else if i > common {
                                assert(k.subrange(dd + 1, depth + plen)[i - common - 1] == shortened->Inner_prefix@[i - common - 1]);
                            }
                        }
                    }
                }
                assert(k != key);
                assert(top_children.slot(k[dd]) == Some(shortened));
                assert(top.lookup(k, depth) == shortened.lookup(k, dd + 1));
                assert(shortened.lookup(k, dd + 1) is None);
                assert(old.lookup(k, depth) is None);
            } else if cond_t && k[dd] == key[dd] {
                assert(top_children.slot(k[dd]) == Some(new_leaf));
                assert(top.lookup(k, depth) == new_leaf.lookup(k, dd + 1));
                assert(old.lookup(k, depth) is None);
            } else {
                if k == key {
                    assert(key.subrange(depth, dd) == top_prefix@);
                }
                assert(top.lookup(k, depth) is None);
                assert(old.lookup(k, depth) is None);
            }
        }
    }
}

/// The child under `b` of an inner node.
spec fn children_slot_of<V>(n: Node<V>, b: u8) -> Option<Node<V>> {
    n->Inner_children.slot(b)
}

/// Descending into the child under `byte`: the new inner node keeps the
/// prefix and holds `x` under `byte`, where `x` is the child with the insert
/// applied (or a new leaf where there was no child).
proof fn lemma_descend<V>(
    old: Node<V>,
    new_prefix: Vec<u8>,
    new_children: Children<V>,
    x: Node<V>,
    key: Seq<u8>,
    depth: int,
    value: V,
)
    requires
        old is Inner,
        0 <= depth,
        depth + old->Inner_prefix@.len() < key.len(),
        key.subrange(depth, depth + old->Inner_prefix@.len()) == old->Inner_prefix@,
        old.wf_at(key.take(depth)),
        new_prefix@ == old->Inner_prefix@,
        new_children.cwf(),
        forall|b: u8| #[trigger] new_children.slot(b) == (if b == key[depth + old->Inner_prefix@.len()] {
            Some(x)
        } else {
            old->Inner_children.slot(b)
        }),
        x.wf_at(key.take(depth + old->Inner_prefix@.len() + 1)),
        forall|k: Seq<u8>| #[trigger] x.lookup(k, depth + old->Inner_prefix@.len() + 1) == (if k == key {
            Some(value)
        } else {
            match old->Inner_children.slot(key[depth + old->Inner_prefix@.len()]) {
                Some(c) => c.lookup(k, depth + old->Inner_prefix@.len() + 1),
                None => None,
            }
        }),
    ensures
        (Node::Inner { prefix: new_prefix, children: new_children }).wf_at(key.take(depth)),
        inserted_at(Node::Inner { prefix: new_prefix, children: new_children }, old, key, depth, value),
{
    let prefix = old->Inner_prefix@;
    let children = old->Inner_children;
    let d = depth + prefix.len();
    let byte = key[d];
    let path = key.take(depth);
    let n = Node::Inner { prefix: new_prefix, children: new_children };
    assert((path + prefix).push(byte) =~= key.take(d + 1)) by {
        assert forall|i: int| 0 <= i < d + 1 implies (path + prefix).push(byte)[i] == key.take(d + 1)[i] by {
            if depth <= i < d {
                assert(key.subrange(depth, d)[i - depth] == prefix[i - depth]);
            }
        }
    }
    assert(new_children.slot(byte) is Some);
    let (o1, o2) = choose|o1: u8, o2: u8| o1 != o2 && #[trigger] children.slot(o1) is Some && #[trigger] children.slot(o2) is Some;
    assert(new_children.slot(o1) is Some && new_children.slot(o2) is Some);
    assert forall|b: u8| #[trigger] new_children.slot(b) is Some implies (new_children.slot(b)->0).wf_at((path + new_prefix@).push(b)) by {
        if b != byte {
            lemma_slot_wf(old->Inner_prefix, children, path, b);
        }
    }
    lemma_wf_from_slots(new_prefix, new_children, path);
    assert forall|k: Seq<u8>| #[trigger] n.lookup(k, depth) == (if k == key {
        Some(value)
    } else {
        old.lookup(k, depth)
    }) by {
        let cond = k.len() > d && k.subrange(depth, d) == prefix;
        if cond {
            if k[d] == byte {
                assert(n.lookup(k, depth) == x.lookup(k, d + 1));
            } else {
                assert(k != key);
                assert(new_children.slot(k[d]) == children.slot(k[d]));
            }
        } else {
            assert(k != key);
        }
    }
}

/// The node behind a shared pointer.
pub open spec fn arc_node<V>(a: &Arc<Node<V>>) -> Node<V> {
    **a
}

/// Copy-on-write insert of `key -> value` below `node`, which sits after
/// `depth` bytes of the key, with a caller-chosen policy `replace(existing,
/// new)` for a key already present. Returns `None` when the insert is a
/// no-op (the key is present and `replace` keeps the existing value);
/// inserting a new key always produces a node.
#[verifier::rlimit(40)]
pub fn insert_rec_with<V, R: Fn(&V, &V) -> bool>(
    node: &Arc<Node<V>>,
    key: &[u8],
    depth: usize,
    value: V,
    replace: &R,
) -> (r: Option<Arc<Node<V>>>)
    requires
        depth <= key@.len(),
        (**node).wf_at(key@.take(depth as int)),
        prefix_free_at((**node), key@, depth as int),
        forall|a: &V, b: &V| #[trigger] call_requires(*replace, (a, b)),
    ensures
        match r {
            Some(n) => {
                &&& (*n).wf_at(key@.take(depth as int))
                &&& inserted_at(*n, (**node), key@, depth as int, value)
                &&& (**node).lookup(key@, depth as int) matches Some(o) ==> call_ensures(*replace, (&o, &value), true)
            },
            None => (**node).lookup(key@, depth as int) matches Some(o) && call_ensures(*replace, (&o, &value), false),
        },
        (**node) is Leaf && (**node)->Leaf_key@ != key@
            ==> (r matches Some(n) && leaf_split_shape(*n, (**node), key@, depth as int, value)),
        (**node) is Inner && !(depth + (**node)->Inner_prefix@.len() <= key@.len()
            && key@.subrange(depth as int, depth + (**node)->Inner_prefix@.len()) == (**node)->Inner_prefix@)
            ==> (r matches Some(n) && prefix_split_shape(*n, (**node), key@, depth as int, value)),
        (**node) is Inner && depth + (**node)->Inner_prefix@.len() < key@.len()
            && key@.subrange(depth as int, depth + (**node)->Inner_prefix@.len()) == (**node)->Inner_prefix@
            ==> (r matches Some(n) ==> descended_shape(*n, (**node), key@[depth + (**node)->Inner_prefix@.len()])),
    decreases key@.len() - depth,
{
    let ghost path = key@.take(depth as int);
    let ghost n0 = arc_node(node);
    match &**node {
        Node::Leaf { key: lk, value: lv } => {
            if compare_bytes(lk.as_slice(), key) == 0 {
                let keep_new = replace(lv, &value);
                if keep_new {
                    let n = Node::Leaf { key: copy_bytes(lk), value };
                    proof {
                        assert(n.wf_at(path));
                    }
                    return Some(Arc::new(n));
                } else {
                    return None;
                }
            }
            let lks = lk.as_slice();
            let a = vstd::slice::slice_subrange(lks, depth, lk.len());
            let b = vstd::slice::slice_subrange(key, depth, key.len());
            let common = common_prefix_len(a, b);
            let d = depth + common;
            proof {
                let l = lk@;
                assert(l.take(depth as int) == path);
                assert(l.take(d as int) =~= key@.take(d as int)) by {
                    assert forall|i: int| 0 <= i < d implies l.take(d as int)[i] == key@.take(d as int)[i] by {
                        if i < depth {
                            assert(l.take(depth as int)[i] == path[i]);
                        } else {
                            assert(a@.take(common as int)[i - depth] == b@.take(common as int)[i - depth]);
                        }
                    }
                }
                assert(node.lookup(l, depth as int) is Some);
                if d == l.len() {
                    assert(l.take(l.len() as int) =~= l);
                    assert(l.len() < key@.len()) by {
                        if l.len() == key@.len() {
                            assert(key@.take(d as int) =~= key@);
                        }
                    }
                    assert(key@.take(l.len() as int) == l);
                    assert(proper_prefix(l, key@));
                }
                if d == key@.len() {
                    assert(key@.take(key@.len() as int) =~= key@);
                    assert(proper_prefix(key@, l));
                }
            }
            let new_leaf = Node::Leaf { key: bytes_between(key, 0, key.len()), value };
            let ghost new_leaf_g = new_leaf;
            let prefix = bytes_between(lks, depth, d);
            let children = new_pair(lk[d], Arc::clone(node), key[d], Arc::new(new_leaf));
            proof {
                assert(key@.subrange(0, key@.len() as int) =~= key@);
                assert(prefix@ =~= key@.subrange(depth as int, d as int)) by {
                    assert forall|i: int| 0 <= i < d - depth implies prefix@[i] == key@.subrange(depth as int, d as int)[i] by {
                        assert(lk@[depth + i] == lk@.take(d as int)[depth + i]);
                    }
                }
                lemma_leaf_split(n0, new_leaf_g, prefix, children, key@, depth as int, d as int, value);
            }
            Some(Arc::new(Node::Inner { prefix, children }))
        },
        Node::Inner { prefix, children } => {
            let ks = vstd::slice::slice_subrange(key, depth, key.len());
            let common = common_prefix_len(prefix.as_slice(), ks);
            if common < prefix.len() {
                proof {
                    if depth + common == key@.len() {
                        let k = lemma_some_leaf(n0, path);
                        assert(key@ =~= path + prefix@.take(common as int)) by {
                            assert forall|i: int| 0 <= i < key@.len() implies key@[i] == (path + prefix@.take(common as int))[i] by {
                                if i >= depth {
                                    assert(ks@.take(common as int)[i - depth] == prefix@.take(common as int)[i - depth]);
                                }
                            }
                        }
                        assert(k.take(key@.len() as int) =~= key@) by {
                            assert forall|i: int| 0 <= i < key@.len() implies k.take(key@.len() as int)[i] == key@[i] by {
                                assert(k[i] == k.take((path + prefix@).len() as int)[i]);
                            }
                        }
                        assert(proper_prefix(key@, k));
                    }
                }
                let shortened = Node::Inner {
                    prefix: bytes_between(prefix.as_slice(), common + 1, prefix.len()),
                    children: children_clone(children),
                };
                let new_leaf = Node::Leaf { key: bytes_between(key, 0, key.len()), value };
                let ghost shortened_g = shortened;
                let ghost new_leaf_g = new_leaf;
                let top_prefix = bytes_between(prefix.as_slice(), 0, common);
                let ch = new_pair(prefix[common], Arc::new(shortened), key[depth + common], Arc::new(new_leaf));
                proof {
                    assert(key@.subrange(0, key@.len() as int) =~= key@);
                    assert(ks@[common as int] == key@[depth + common]);
                    assert(key@.subrange(depth as int, depth + common) =~= prefix@.take(common as int)) by {
                        assert forall|i: int| 0 <= i < common implies key@.subrange(depth as int, depth + common)[i] == prefix@.take(common as int)[i] by {
                            assert(ks@.take(common as int)[i] == prefix@.take(common as int)[i]);
                        }
                    }
                    assert(top_prefix@ =~= prefix@.take(common as int));
                    lemma_prefix_split(n0, shortened_g, new_leaf_g, top_prefix, ch, key@, depth as int, common as int, value);
                    assert(n0.lookup(key@, depth as int) is None) by {
                        if key@.len() > depth + prefix@.len() && key@.subrange(depth as int, depth + prefix@.len()) == prefix@ {
                            assert(key@.subrange(depth as int, depth + prefix@.len())[common as int] == prefix@[common as int]);
                        }
                    }
                }
                return Some(Arc::new(Node::Inner { prefix: top_prefix, children: ch }));
            }
            let d = depth + prefix.len();
            proof {
                assert(key@.subrange(depth as int, d as int) =~= prefix@) by {
                    assert forall|i: int| 0 <= i < prefix@.len() implies key@.subrange(depth as int, d as int)[i] == prefix@[i] by {
                        assert(ks@.take(common as int)[i] == prefix@.take(common as int)[i]);
                    }
                }
                if key@.len() == d {
                    let k = lemma_some_leaf(n0, path);
                    assert(key@ =~= path + prefix@) by {
                        assert forall|i: int| 0 <= i < key@.len() implies key@[i] == (path + prefix@)[i] by {
                            if i >= depth {
                                assert(key@.subrange(depth as int, d as int)[i - depth] == prefix@[i - depth]);
                            }
                        }
                    }
                    assert(k.take(key@.len() as int) == key@);
                    assert(proper_prefix(key@, k));
                }
            }
            let byte = key[d];
            match children.get(byte) {
                Some(child) => {
                    proof {
                        lemma_slot_wf(*prefix, *children, path, byte);
                        assert(key@.take(d + 1) =~= (path + prefix@).push(byte)) by {
                            assert forall|i: int| 0 <= i < d + 1 implies key@.take(d + 1)[i] == (path + prefix@).push(byte)[i] by {
                                if depth <= i < d {
                                    assert(key@.subrange(depth as int, d as int)[i - depth] == prefix@[i - depth]);
                                }
                            }
                        }
                        assert forall|k: Seq<u8>| #[trigger] arc_node(child).lookup(k, d + 1) is Some implies !proper_prefix(key@, k) && !proper_prefix(k, key@) by {
                            lemma_found_key_extends(arc_node(child), (path + prefix@).push(byte), k);
                            lemma_prefix_parts(path, prefix@, byte, k, depth as int);
                            assert(n0.lookup(k, depth as int) == arc_node(child).lookup(k, d + 1));
                        }
                    }
                    match insert_rec_with(child, key, d + 1, value, replace) {
                        Some(nc) => {
                            let ghost nc_g = arc_node(&nc);
                            let new_children = children.replaced(byte, nc);
                            let new_prefix = copy_bytes(prefix);
                            proof {
                                lemma_descend(n0, new_prefix, new_children, nc_g, key@, depth as int, value);
                                assert(n0.lookup(key@, depth as int) == arc_node(child).lookup(key@, d + 1));
                            }
                            Some(Arc::new(Node::Inner { prefix: new_prefix, children: new_children }))
                        },
                        None => {
                            proof {
                                assert(n0.lookup(key@, depth as int) == arc_node(child).lookup(key@, d + 1));
                            }
                            None
                        },
                    }
                },
                None => {
                    let leaf = Node::Leaf { key: bytes_between(key, 0, key.len()), value };
                    let ghost leaf_g = leaf;
                    let new_children = children.added(byte, Arc::new(leaf));
                    let new_prefix = copy_bytes(prefix);
                    proof {
                        assert(key@.subrange(0, key@.len() as int) =~= key@);
                        assert(is_prefix(key@.take(d + 1), key@)) by {
                            assert(key@.take(d + 1).take(d + 1) =~= key@.take(d + 1));
                        }
                        assert(leaf_g.wf_at(key@.take(d + 1)));
                        lemma_descend(n0, new_prefix, new_children, leaf_g, key@, depth as int, value);
                        assert(n0.lookup(key@, depth as int) is None);
                    }
                    Some(Arc::new(Node::Inner { prefix: new_prefix, children: new_children }))
                },
            }
        },
    }
}

/// `e` is found by the search from `node` along `path`, and extends the path.
pub open spec fn found_below<V>(node: Node<V>, path: Seq<u8>, e: (Seq<u8>, V)) -> bool {
    &&& is_prefix(path, e.0)
    &&& node.lookup(e.0, path.len() as int) == Some(e.1)
}

/// Facts about an entry of the children under the bytes below `b` of an
/// inner node reached along `path`.
pub open spec fn upto_entry<V>(node: Node<V>, path: Seq<u8>, b: int, e: (Seq<u8>, V)) -> bool {
    let d = path.len() as int + node->Inner_prefix@.len() as int;
    &&& is_prefix(path + node->Inner_prefix@, e.0)
    &&& e.0.len() > d
    &&& e.0[d] < b
    &&& node.lookup(e.0, path.len() as int) == Some(e.1)
}

proof fn lemma_art_entries_sound<V>(node: Node<V>, path: Seq<u8>)
    requires
        node.wf_at(path),
    ensures
        forall|x: int| 0 <= x < node.entries().len() ==> found_below(node, path, #[trigger] node.entries()[x]),
    decreases node, 257int,
{
    match node {
        Node::Leaf { key, value } => {},
        Node::Inner { prefix, children } => {
            lemma_upto_sound(node, path, 256);
            assert(node.entries() == Node::<V>::entries_upto(node, 256));
            assert forall|x: int| 0 <= x < node.entries().len() implies found_below(node, path, #[trigger] node.entries()[x]) by {
                let e = node.entries()[x];
                assert(upto_entry(node, path, 256, e));
                assert(e.0.take(path.len() as int) =~= e.0.take((path + prefix@).len() as int).take(path.len() as int));
                assert((path + prefix@).take(path.len() as int) =~= path);
            }
        },
    }
}

proof fn lemma_upto_sound<V>(node: Node<V>, path: Seq<u8>, b: int)
    requires
        node is Inner,
        node.wf_at(path),
        0 <= b <= 256,
    ensures
        forall|x: int| 0 <= x < Node::<V>::entries_upto(node, b).len()
            ==> upto_entry(node, path, b, #[trigger] Node::<V>::entries_upto(node, b)[x]),
    decreases node, b,
{
    if b > 0 {
        let prefix = node->Inner_prefix;
        let children = node->Inner_children;
        let prev = Node::<V>::entries_upto(node, b - 1);
        lemma_upto_sound(node, path, b - 1);
        let byte = (b - 1) as u8;
        let all = Node::<V>::entries_upto(node, b);
        match children.slot(byte) {
            Some(c) => {
                let p = (path + prefix@).push(byte);
                lemma_slot_wf(prefix, children, path, byte);
                lemma_slot_decreases(node, prefix, children, byte);
                lemma_art_entries_sound(c, p);
                assert(all == prev + c.entries());
                assert forall|x: int| 0 <= x < all.len() implies upto_entry(node, path, b, #[trigger] all[x]) by {
                    if x < prev.len() {
                        assert(all[x] == prev[x]);
                        assert(upto_entry(node, path, b - 1, prev[x]));
                    } else {
                        let e = all[x];
                        assert(e == c.entries()[x - prev.len()]);
                        assert(found_below(c, p, e));
                        lemma_prefix_parts(path, prefix@, byte, e.0, path.len() as int);
                        assert(e.0.take((path + prefix@).len() as int) =~= p.take((path + prefix@).len() as int)) by {
                            assert(e.0.take(p.len() as int) == p);
                        }
                        assert(p.take((path + prefix@).len() as int) =~= path + prefix@);
                    }
                }
            },
            None => {
                assert(all == prev);
                assert forall|x: int| 0 <= x < all.len() implies upto_entry(node, path, b, #[trigger] all[x]) by {
                    assert(upto_entry(node, path, b - 1, prev[x]));
                }
            },
        }
    }
}

proof fn lemma_art_entries_complete<V>(node: Node<V>, path: Seq<u8>)
    requires
        node.wf_at(path),
    ensures
        forall|k: Seq<u8>| #[trigger] node.lookup(k, path.len() as int) is Some
            ==> node.entries().contains((k, node.lookup(k, path.len() as int)->0)),
    decreases node, 257int,
{
    match node {
        Node::Leaf { key, value } => {
            assert forall|k: Seq<u8>| #[trigger] node.lookup(k, path.len() as int) is Some
                implies node.entries().contains((k, node.lookup(k, path.len() as int)->0)) by {
                assert(node.entries()[0] == (k, value));
            }
        },
        Node::Inner { prefix, children } => {
            lemma_upto_complete(node, path, 256);
            assert(node.entries() == Node::<V>::entries_upto(node, 256));
        },
    }
}

proof fn lemma_upto_complete<V>(node: Node<V>, path: Seq<u8>, b: int)
    requires
        node is Inner,
        node.wf_at(path),
        0 <= b <= 256,
    ensures
        forall|k: Seq<u8>| #[trigger] node.lookup(k, path.len() as int) is Some
            && k[path.len() as int + node->Inner_prefix@.len() as int] < b
            ==> Node::<V>::entries_upto(node, b).contains((k, node.lookup(k, path.len() as int)->0)),
    decreases node, b,
{
    if b > 0 {
        let prefix = node->Inner_prefix;
        let children = node->Inner_children;
        let d: int = path.len() as int + prefix@.len() as int;
        let prev = Node::<V>::entries_upto(node, b - 1);
        lemma_upto_complete(node, path, b - 1);
        let byte = (b - 1) as u8;
        let all = Node::<V>::entries_upto(node, b);
        assert forall|k: Seq<u8>| #[trigger] node.lookup(k, path.len() as int) is Some && k[d] < b
            implies all.contains((k, node.lookup(k, path.len() as int)->0)) by {
            let v = node.lookup(k, path.len() as int)->0;
            if k[d] < b - 1 {
                assert(prev.contains((k, v)));
                let y = choose|y: int| 0 <= y < prev.len() && prev[y] == (k, v);
                match children.slot(byte) {
                    Some(c) => {
                        assert(all == prev + c.entries());
                        assert(all[y] == (k, v));
                    },
                    None => {},
                }
            } else {
                assert(k[d] == byte);
                let c = children.slot(byte)->0;
                let p = (path + prefix@).push(byte);
                lemma_slot_wf(prefix, children, path, byte);
                lemma_slot_decreases(node, prefix, children, byte);
                lemma_art_entries_complete(c, p);
                assert(c.lookup(k, p.len() as int) == Some(v));
                let y = choose|y: int| 0 <= y < c.entries().len() && c.entries()[y] == (k, v);
                assert(all == prev + c.entries());
                assert(all[prev.len() + y] == (k, v));
            }
        }
    }
}

proof fn lemma_art_entries_sorted<V>(node: Node<V>, path: Seq<u8>)
    requires
        node.wf_at(path),
    ensures
        strictly_sorted(node.entries()),
    decreases node, 257int,
{
    match node {
        Node::Leaf { key, value } => {},
        Node::Inner { prefix, children } => {
            lemma_upto_sorted(node, path, 256);
            assert(node.entries() == Node::<V>::entries_upto(node, 256));
        },
    }
}

proof fn lemma_upto_sorted<V>(node: Node<V>, path: Seq<u8>, b: int)
    requires
        node is Inner,
        node.wf_at(path),
        0 <= b <= 256,
    ensures
        strictly_sorted(Node::<V>::entries_upto(node, b)),
    decreases node, b,
{
    if b > 0 {
        let prefix = node->Inner_prefix;
        let children = node->Inner_children;
        let d: int = path.len() as int + prefix@.len() as int;
        let prev = Node::<V>::entries_upto(node, b - 1);
        lemma_upto_sorted(node, path, b - 1);
        lemma_upto_sound(node, path, b - 1);
        let byte = (b - 1) as u8;
        let all = Node::<V>::entries_upto(node, b);
        match children.slot(byte) {
            Some(c) => {
                let p = (path + prefix@).push(byte);
                lemma_slot_wf(prefix, children, path, byte);
                lemma_slot_decreases(node, prefix, children, byte);
                lemma_art_entries_sorted(c, p);
                lemma_art_entries_sound(c, p);
                let mine = c.entries();
                assert(all == prev + mine);
                assert forall|x: int, y: int| 0 <= x < y < all.len() implies lex_lt(#[trigger] all[x].0, #[trigger] all[y].0) by {
                    if y < prev.len() {
                        assert(all[x] == prev[x] && all[y] == prev[y]);
                    } else if x >= prev.len() {
                        assert(all[x] == mine[x - prev.len()] && all[y] == mine[y - prev.len()]);
                    } else {
                        let e = prev[x];
                        let f = mine[y - prev.len()];
                        assert(all[x] == e && all[y] == f);
                        assert(upto_entry(node, path, b - 1, e));
                        assert(found_below(c, p, f));
                        lemma_prefix_parts(path, prefix@, byte, f.0, path.len() as int);
                        let q = path + prefix@;
                        assert(e.0.take(d) =~= q) by {
                            assert(e.0.take(q.len() as int) == q);
                        }
                        assert(f.0.take(d) =~= q) by {
                            assert(f.0.take(p.len() as int) == p);
                            assert forall|i: int| 0 <= i < d implies f.0.take(d)[i] == q[i] by {
                                assert(f.0[i] == f.0.take(p.len() as int)[i]);
                            }
                        }
                        crate::lex::lemma_lt_at(e.0, f.0, d);
                    }
                }
            },
            None => {
                assert(all == prev);
            },
        }
    }
}

impl<V> Children<V> {
    /// The next `(byte, child)` with `byte >= from`, in ascending byte order;
    /// a `from` of 256 or more means past the last byte.
    fn next_from(&self, from: u16) -> (r: Option<(u8, &Arc<Node<V>>)>)
        requires
            self.cwf(),
        ensures
            r matches Some((b, c)) ==> from <= b && self.slot(b) == Some(**c)
                && forall|x: u8| from <= x < b ==> #[trigger] self.slot(x) is None,
            r is None ==> forall|x: u8| from <= x ==> #[trigger] self.slot(x) is None,
    {
        match self {
            Children::N4 { keys, kids } => next_sorted(keys, kids, from),
            Children::N16 { keys, kids } => next_sorted(keys, kids, from),
            Children::N48 { index, kids } => {
                let mut b: u16 = from;
                while b < 256
                    invariant
                        from <= b,
                        b <= 256 || b == from,
                        self.cwf(),
                        *self == (Children::N48 { index: *index, kids: *kids }),
                        forall|x: u8| from <= x < b ==> #[trigger] self.slot(x) is None,
                    decreases 256 - b,
                {
                    let s = index[b as usize];
                    if s != 0 {
                        return Some((b as u8, &kids[(s - 1) as usize]));
                    }
                    b = b + 1;
                }
                None
            },
            Children::N256 { kids } => {
                let mut b: u16 = from;
                while b < 256
                    invariant
                        from <= b,
                        b <= 256 || b == from,
                        self.cwf(),
                        *self == (Children::N256 { kids: *kids }),
                        forall|x: u8| from <= x < b ==> #[trigger] self.slot(x) is None,
                    decreases 256 - b,
                {
                    match &kids[b as usize] {
                        Some(c) => {
                            return Some((b as u8, c));
                        },
                        None => {},
                    }
                    b = b + 1;
                }
                None
            },
        }
    }
}

/// The first key of a sorted byte list at or after `from`, with its child.
fn next_sorted<'a, V>(keys: &Vec<u8>, kids: &'a Vec<Arc<Node<V>>>, from: u16) -> (r: Option<(u8, &'a Arc<Node<V>>)>)
    requires
        keys@.len() == kids@.len(),
        sorted_bytes(keys@),
    ensures
        r matches Some((b, c)) ==> from <= b && holds_byte(keys@, b) && kids@[pos_of(keys@, b)] == *c
            && forall|x: u8| from <= x < b ==> !#[trigger] holds_byte(keys@, x),
        r is None ==> forall|x: u8| from <= x ==> !#[trigger] holds_byte(keys@, x),
{
    let mut i: usize = 0;
    while i < keys.len() && (keys[i] as u16) < from
        invariant
            i <= keys@.len(),
            forall|j: int| 0 <= j < i ==> (#[trigger] keys@[j] as u16) < from,
        decreases keys@.len() - i,
    {
        i = i + 1;
    }
    if i < keys.len() {
        proof {
            lemma_pos_unique(keys@, i as int);
            assert forall|x: u8| from <= x < keys@[i as int] implies !#[trigger] holds_byte(keys@, x) by {
                if holds_byte(keys@, x) {
                    let j = pos_of(keys@, x);
                    assert(keys@[j] == x);
                    if j < i {
                    } else if j > i {
                        assert(keys@[i as int] < keys@[j]);
                    }
                }
            }
        }
        Some((keys[i], &kids[i]))
    } else {
        proof {
            assert forall|x: u8| from <= x implies !#[trigger] holds_byte(keys@, x) by {
                if holds_byte(keys@, x) {
                    let j = pos_of(keys@, x);
                    assert(keys@[j] == x);
                }
            }
        }
        None
    }
}

/// Bytes with no child add no entries.
proof fn lemma_upto_gap<V>(node: Node<V>, a: int, b: int)
    requires
        node is Inner,
        0 <= a <= b <= 256,
        forall|x: u8| a <= x < b ==> #[trigger] node->Inner_children.slot(x) is None,
    ensures
        Node::<V>::entries_upto(node, b) == Node::<V>::entries_upto(node, a),
    decreases b - a,
{
    if a < b {
        assert(node->Inner_children.slot((b - 1) as u8) is None);
        lemma_upto_gap(node, a, b - 1);
    }
}

/// The walk behind `visit_range`: hand `w`, in ascending key order, every
/// entry below `node` whose key lies in `[lo, hi]`.
fn visit<V, W: RangeVisitor<V>>(node: &Node<V>, path: &mut Vec<u8>, lo: &[u8], hi: &[u8], w: &mut W)
    requires
        node.wf_at(old(path)@),
        old(w).inv(),
        forall|k: &[u8], v: &V| in_range(k@, lo@, hi@) ==> #[trigger] old(w).accepts(k, v),
    ensures
        final(path)@ == old(path)@,
        final(w).inv(),
        final(w).target() == old(w).target(),
        forall|k: &[u8], v: &V| #[trigger] final(w).accepts(k, v) == old(w).accepts(k, v),
        final(w).seen() == old(w).seen() + in_range_entries(node.entries(), lo@, hi@),
    decreases node,
{
    let ghost p0 = path@;
    let ghost s0 = w.seen();
    let ghost w0 = *w;
    match node {
        Node::Leaf { key, value } => {
            let ks = key.as_slice();
            proof {
                lemma_in_range_entries_single((key@, *value), lo@, hi@);
                assert(node.entries() == seq![(key@, *value)]);
            }
            if compare_bytes(ks, lo) >= 0 && compare_bytes(ks, hi) <= 0 {
                w.visit(ks, value);
            } else {
                proof {
                    assert(s0 + Seq::<(Seq<u8>, V)>::empty() =~= s0);
                }
            }
        },
        Node::Inner { prefix, children } => {
            let base = path.len();
            let mut i: usize = 0;
            while i < prefix.len()
                invariant
                    i <= prefix@.len(),
                    path@ == p0 + prefix@.take(i as int),
                decreases prefix@.len() - i,
            {
                path.push(prefix[i]);
                proof {
                    assert(prefix@.take(i + 1) =~= prefix@.take(i as int).push(prefix@[i as int]));
                }
                i = i + 1;
            }
            proof {
                assert(prefix@.take(i as int) =~= prefix@);
                assert(Node::<V>::entries_upto(*node, 0) =~= Seq::<(Seq<u8>, V)>::empty());
                lemma_in_range_entries_none(Node::<V>::entries_upto(*node, 0), lo@, hi@);
                assert(s0 + Seq::<(Seq<u8>, V)>::empty() =~= s0);
            }
            let mut cursor: u16 = 0;
            loop
                invariant
                    node.wf_at(p0),
                    *node == (Node::Inner { prefix: *prefix, children: *children }),
                    cursor <= 256,
                    path@ == p0 + prefix@,
                    w.inv(),
                    w.target() == w0.target(),
                    forall|k: &[u8], v: &V| #[trigger] w.accepts(k, v) == w0.accepts(k, v),
                    forall|k: &[u8], v: &V| in_range(k@, lo@, hi@) ==> #[trigger] w0.accepts(k, v),
                    w.seen() == s0 + in_range_entries(Node::<V>::entries_upto(*node, cursor as int), lo@, hi@),
                ensures
                    path@ == p0 + prefix@,
                    w.inv(),
                    w.target() == w0.target(),
                    forall|k: &[u8], v: &V| #[trigger] w.accepts(k, v) == w0.accepts(k, v),
                    w.seen() == s0 + in_range_entries(Node::<V>::entries_upto(*node, 256), lo@, hi@),
                decreases 256 - cursor,
            {
                match children.next_from(cursor) {
                    Some((b, child)) => {
                        proof {
                            lemma_slot_wf(*prefix, *children, p0, b);
                            lemma_slot_decreases(*node, *prefix, *children, b);
                            lemma_upto_gap(*node, cursor as int, b as int);
                        }
                        let ghost before = Node::<V>::entries_upto(*node, b as int);
                        let ghost kid = arc_node(child);
                        path.push(b);
                        if subtree_may_hit(path, lo, hi) {
                            visit(child, path, lo, hi, w);
                        } else {
                            proof {
                                lemma_art_entries_sound(kid, path@);
                                assert forall|x: int| 0 <= x < kid.entries().len()
                                    implies !in_range(#[trigger] kid.entries()[x].0, lo@, hi@) by {
                                    assert(found_below(kid, path@, kid.entries()[x]));
                                }
                                lemma_in_range_entries_none(kid.entries(), lo@, hi@);
                                assert(w.seen() + Seq::<(Seq<u8>, V)>::empty() =~= w.seen());
                            }
                        }
                        path.pop();
                        proof {
                            assert(path@ =~= p0 + prefix@);
                            let after = Node::<V>::entries_upto(*node, b + 1);
                            assert(after == before + kid.entries());
                            lemma_in_range_entries_add(before, kid.entries(), lo@, hi@);
                            assert(s0 + in_range_entries(after, lo@, hi@) =~= s0 + in_range_entries(before, lo@, hi@)
                                + in_range_entries(kid.entries(), lo@, hi@));
                        }
                        cursor = b as u16 + 1;
                    },
                    None => {
                        proof {
                            lemma_upto_gap(*node, cursor as int, 256);
                        }
                        break;
                    },
                }
            }
            path.truncate(base);
            proof {
                assert(path@ =~= p0);
                assert(node.entries() == Node::<V>::entries_upto(*node, 256));
            }
        },
    }
}

/// The in-range depth-first entries of a well-formed root are an ordered
/// range of its content.
proof fn lemma_art_range_of_entries<V>(node: Node<V>, lo: Seq<u8>, hi: Seq<u8>)
    requires
        node.wf_at(Seq::empty()),
    ensures
        is_ordered_range(in_range_entries(node.entries(), lo, hi), node.content(), lo, hi),
{
    broadcast use vstd::seq_lib::group_filter_ensures;
    let path = Seq::<u8>::empty();
    let all = node.entries();
    let out = in_range_entries(all, lo, hi);
    let pred = |e: (Seq<u8>, V)| in_range(e.0, lo, hi);
    lemma_art_entries_sound(node, path);
    lemma_art_entries_complete(node, path);
    lemma_art_entries_sorted(node, path);
    lemma_in_range_entries_sorted(all, lo, hi);
    assert forall|i: int| 0 <= i < out.len() implies {
        let e = #[trigger] out[i];
        &&& in_range(e.0, lo, hi)
        &&& node.content().contains_key(e.0)
        &&& node.content()[e.0] == e.1
    } by {
        let e = out[i];
        assert(pred(e));
        all.lemma_filter_contains_rev(pred, e);
        let x = choose|x: int| 0 <= x < all.len() && all[x] == e;
        assert(found_below(node, path, all[x]));
    }
    assert forall|k: Seq<u8>| #[trigger] node.content().contains_key(k) && in_range(k, lo, hi)
        implies exists|i: int| 0 <= i < out.len() && out[i].0 == k by {
        assert(node.lookup(k, 0) is Some);
        let x = choose|x: int| 0 <= x < all.len() && all[x] == (k, node.lookup(k, 0)->0);
        assert(pred(all[x]));
        assert(out.contains(all[x]));
    }
}

/// Plain copy-on-write insert: an existing value is always replaced.
fn insert_rec<V>(node: &Arc<Node<V>>, key: &[u8], depth: usize, value: V) -> (r: Arc<Node<V>>)
    requires
        depth <= key@.len(),
        arc_node(node).wf_at(key@.take(depth as int)),
        prefix_free_at(arc_node(node), key@, depth as int),
    ensures
        (*r).wf_at(key@.take(depth as int)),
        inserted_at(*r, arc_node(node), key@, depth as int, value),
{
    let always = |_old: &V, _new: &V| -> (b: bool)
        ensures
            b,
        { true };
    insert_rec_with(node, key, depth, value, &always).unwrap()
}

/// Path-compressed adaptive radix tree, copy-on-write, with O(1)
/// snapshots. Keys must be prefix-free: no key a proper prefix of another.
pub struct ArtOrderedMap<V> {
    root: Option<Arc<Node<V>>>,
    len: usize,
}

/// The content of an optional root.
pub open spec fn root_content<V>(root: Option<Arc<Node<V>>>) -> Map<Seq<u8>, V> {
    match root {
        Some(r) => (*r).content(),
        None => Map::empty(),
    }
}

/// An optional root is well-formed.
pub open spec fn root_wf<V>(root: Option<Arc<Node<V>>>) -> bool {
    match root {
        Some(r) => (*r).wf_at(Seq::empty()),
        None => true,
    }
}

impl<V> ArtOrderedMap<V> {
    #[verifier::type_invariant]
    spec fn inv(self) -> bool {
        &&& root_wf(self.root)
        &&& root_content(self.root).dom().finite()
        &&& self.len == root_content(self.root).len()
    }

    /// The key/value content.
    pub closed spec fn content(&self) -> Map<Seq<u8>, V> {
        root_content(self.root)
    }

    /// `key` neither extends nor is extended by a stored key.
    pub open spec fn prefix_free_with(&self, key: Seq<u8>) -> bool {
        forall|k: Seq<u8>| #[trigger] self.content().contains_key(k) ==> !proper_prefix(key, k) && !proper_prefix(k, key)
    }
}

impl<V: Clone> ArtOrderedMap<V> {
    /// Create an empty map.
    pub fn new() -> (m: Self)
        ensures
            m.content() == Map::<Seq<u8>, V>::empty(),
            forall|metric: Metric| #[trigger] m.metric_total(metric) == 0,
    {
        ArtOrderedMap { root: None, len: 0 }
    }
}

impl<V: Clone> Default for ArtOrderedMap<V> {
    fn default() -> (m: Self)
        ensures
            m.content() == Map::<Seq<u8>, V>::empty(),
    {
        Self::new()
    }
}

impl<V: Clone> Container for ArtOrderedMap<V> {
    open spec fn size(&self) -> nat {
        self.content().len()
    }

    fn len(&self) -> (n: usize) {
        proof {
            use_type_invariant(self);
        }
        self.len
    }
}

impl<V: Clone> Clearable for ArtOrderedMap<V> {
    /// Reset to empty: root and length together.
    fn clear(&mut self)
        ensures
            final(self).content() == Map::<Seq<u8>, V>::empty(),
    {
        *self = ArtOrderedMap { root: None, len: 0 };
    }
}

impl<V: Clone> MapReadShim<[u8], V> for ArtOrderedMap<V> {
    open spec fn stored(&self, key: &[u8]) -> Option<V> {
        self.content().get(key@)
    }

    fn get(&self, key: &[u8]) -> (r: Option<&V>) {
        proof {
            use_type_invariant(self);
        }
        match &self.root {
            Some(r) => {
                proof {
                    assert(key@.take(0) =~= Seq::<u8>::empty());
                }
                get_rec(r, key, 0)
            },
            None => None,
        }
    }

    fn contains_key(&self, key: &[u8]) -> (b: bool) {
        self.get(key).is_some()
    }
}

impl<V: Clone> MapRefKeyInsertShim<[u8], V> for ArtOrderedMap<V> {
    /// Keys must stay prefix-free, and the count must fit a `usize`.
    open spec fn may_insert(&self, key: &[u8]) -> bool {
        &&& self.prefix_free_with(key@)
        &&& self.content().len() < usize::MAX
    }

    fn insert(&mut self, key: &[u8], value: V) -> (prev: Option<V>)
        ensures
            final(self).content() == old(self).content().insert(key@, value),
            final(self).content().dom().finite(),
            final(self).size() == old(self).size() + (if prev is None { 1int } else { 0int }),
            prev is None <==> !old(self).content().contains_key(key@),
            prev matches Some(p) ==> cloned(old(self).content()[key@], p),
    {
        proof {
            use_type_invariant(&*self);
        }
        let old = match self.get(key) {
            Some(v) => Some(v.clone()),
            None => None,
        };
        let ghost before = self.content();
        let new_root = match &self.root {
            None => {
                let leaf = Node::Leaf { key: bytes_between(key, 0, key.len()), value };
                proof {
                    assert(key@.subrange(0, key@.len() as int) =~= key@);
                    assert(is_prefix(Seq::<u8>::empty(), key@)) by {
                        assert(key@.take(0) =~= Seq::<u8>::empty());
                    }
                    assert(leaf.content() =~= before.insert(key@, value));
                }
                Arc::new(leaf)
            },
            Some(r) => {
                proof {
                    assert(key@.take(0) =~= Seq::<u8>::empty());
                    assert forall|k: Seq<u8>| #[trigger] arc_node(r).lookup(k, 0) is Some implies !proper_prefix(key@, k) && !proper_prefix(k, key@) by {
                        assert(before.contains_key(k));
                    }
                }
                let n = insert_rec(r, key, 0, value);
                proof {
                    assert((*n).content() =~= before.insert(key@, value));
                }
                n
            },
        };
        let n = if old.is_none() { self.len + 1 } else { self.len };
        *self = ArtOrderedMap { root: Some(new_root), len: n };
        old
    }
}

impl<V> ArtOrderedMap<V> {
    /// Hand `w` every entry with a key in `[lo, hi]`, one call each, in
    /// ascending key order: what `w` is handed is exactly the ordered range.
    pub fn visit_range<W: RangeVisitor<V>>(&self, lo: &[u8], hi: &[u8], w: &mut W)
        requires
            old(w).inv(),
            forall|k: &[u8], v: &V| in_range(k@, lo@, hi@) ==> #[trigger] old(w).accepts(k, v),
        ensures
            final(w).inv(),
            final(w).target() == old(w).target(),
            forall|k: &[u8], v: &V| #[trigger] final(w).accepts(k, v) == old(w).accepts(k, v),
            final(w).seen().len() >= old(w).seen().len(),
            final(w).seen().take(old(w).seen().len() as int) == old(w).seen(),
            is_ordered_range(final(w).seen().skip(old(w).seen().len() as int), self.content(), lo@, hi@),
    {
        proof {
            use_type_invariant(self);
        }
        let ghost s0 = w.seen();
        match &self.root {
            Some(r) => {
                let mut path: Vec<u8> = Vec::new();
                proof {
                    assert(path@ =~= Seq::<u8>::empty());
                }
                visit(r, &mut path, lo, hi, w);
                proof {
                    let node = arc_node(r);
                    lemma_art_range_of_entries(node, lo@, hi@);
                    assert(w.seen().take(s0.len() as int) =~= s0);
                    assert(w.seen().skip(s0.len() as int) =~= in_range_entries(node.entries(), lo@, hi@));
                }
            },
            None => {
                proof {
                    assert(w.seen().take(s0.len() as int) =~= s0);
                    assert(w.seen().skip(s0.len() as int) =~= Seq::<(Seq<u8>, V)>::empty());
                    assert(self.content() =~= Map::<Seq<u8>, V>::empty());
                }
            },
        }
    }
}

impl<V> ArtOrderedMap<V> {
    /// A lazy walk over the entries with keys in `[lo, hi]`, in ascending key
    /// order, borrowing the values; subtrees outside the range are skipped.
    pub fn range_iter<'a>(&'a self, lo: &[u8], hi: &[u8]) -> (it: ArtRangeRef<'a, V>)
        ensures
            it.wf(),
            is_ordered_range(it.remaining(), self.content(), lo@, hi@),
    {
        proof {
            use_type_invariant(self);
        }
        match &self.root {
            Some(r) => {
                let n: &'a Node<V> = r;
                proof {
                    lemma_art_range_of_entries(arc_node(r), lo@, hi@);
                }
                ArtRangeRef::new(Some(n), lo, hi)
            },
            None => {
                let it = ArtRangeRef::new(None, lo, hi);
                proof {
                    assert(in_range_entries(Seq::<(Seq<u8>, V)>::empty(), lo@, hi@) =~= Seq::<(Seq<u8>, V)>::empty()) by {
                        reveal(Seq::filter);
                    }
                    assert(self.content() =~= Map::<Seq<u8>, V>::empty());
                }
                it
            },
        }
    }
}

impl<V: Clone> OrderedMap<V> for ArtOrderedMap<V> {
    open spec fn contents(&self) -> Map<Seq<u8>, V> {
        self.content()
    }

    fn range_ref<'a>(&'a self, lo: &[u8], hi: &[u8]) -> (out: Vec<(Vec<u8>, &'a V)>) {
        let mut it = self.range_iter(lo, hi);
        let ghost all = it.remaining();
        let mut out: Vec<(Vec<u8>, &'a V)> = Vec::new();
        proof {
            assert(ref_pairs(out@) + it.remaining() =~= all);
        }
        loop
            invariant
                it.wf(),
                ref_pairs(out@) + it.remaining() == all,
            ensures
                ref_pairs(out@) == all,
            decreases it.remaining().len(),
        {
            match it.next() {
                Some(item) => {
                    let ghost before = ref_pairs(out@);
                    out.push(item);
                    proof {
                        assert(ref_pairs(out@) =~= before.push((item.0@, *item.1)));
                        assert(ref_pairs(out@) + it.remaining() =~= before + (seq![(item.0@, *item.1)] + it.remaining()));
                    }
                },
                None => {
                    proof {
                        assert(ref_pairs(out@) + it.remaining() =~= ref_pairs(out@));
                    }
                    break;
                },
            }
        }
        out
    }

    fn for_each_range<F: FnMut(&[u8], &V)>(&self, lo: &[u8], hi: &[u8], f: F) {
        let mut w = CallbackVisitor::new(f);
        self.visit_range(lo, hi, &mut w);
        proof {
            w.lemma_called();
            let got = w.seen().skip(0);
            assert(got =~= w.seen());
            assert forall|k: Seq<u8>| #[trigger] self.contents().contains_key(k) && in_range(k, lo@, hi@)
                implies called_on(f, (k, self.contents()[k])) by {
                let i = choose|i: int| 0 <= i < got.len() && got[i].0 == k;
                assert(got[i] == (k, self.contents()[k]));
            }
        }
    }
}

impl<V: Clone> SnapshotMap<V> for ArtOrderedMap<V> {
    type Snapshot = ArtOrderedMap<V>;

    /// Clone the root `Arc`: O(1), sharing every node with the live map.
    fn snapshot(&self) -> (s: ArtOrderedMap<V>) {
        proof {
            use_type_invariant(self);
        }
        let root = match &self.root {
            Some(r) => Some(Arc::clone(r)),
            None => None,
        };
        ArtOrderedMap { root, len: self.len }
    }
}

/// What a tree walk adds up per node.
pub enum Metric {
    /// One per node.
    Nodes,
    /// One per inner node whose container has the given type tag
    /// (0: N4, 1: N16, 2: N48, 3: N256).
    InnerOfType(usize),
    /// Rough resident bytes of each node, for value and pointer sizes.
    Bytes(usize, usize),
    /// One per leaf.
    Leaves,
    /// The depth of each leaf, added up.
    LeafDepth,
    /// The depth of the deepest leaf (a maximum, not a sum).
    Deepest,
}

impl Metric {
    /// A leaf's contribution depends on how deep it sits.
    pub open spec fn by_depth(self) -> bool {
        self is LeafDepth || self is Deepest
    }

    /// Joins two partial results: the maximum for `Deepest`, else the sum.
    pub open spec fn join(self, a: int, b: int) -> int {
        if self is Deepest {
            if a < b { b } else { a }
        } else {
            a + b
        }
    }
}

impl<V> Children<V> {
    /// The container's type tag: 0 for N4, 1 for N16, 2 for N48, 3 for N256.
    pub open spec fn tag(self) -> usize {
        match self {
            Children::N4 { .. } => 0,
            Children::N16 { .. } => 1,
            Children::N48 { .. } => 2,
            Children::N256 { .. } => 3,
        }
    }

    /// The container holds as many children as its type allows (an N256
    /// never needs to grow).
    pub open spec fn full(self) -> bool {
        match self {
            Children::N4 { keys, .. } => keys@.len() >= 4,
            Children::N16 { keys, .. } => keys@.len() >= 16,
            Children::N48 { kids, .. } => kids@.len() >= 48,
            Children::N256 { .. } => false,
        }
    }

    fn type_tag(&self) -> (t: usize)
        ensures
            t == self.tag(),
    {
        match self {
            Children::N4 { .. } => 0,
            Children::N16 { .. } => 1,
            Children::N48 { .. } => 2,
            Children::N256 { .. } => 3,
        }
    }
}

/// Bytes a container of type `tag` takes, for pointer size `psz`.
pub open spec fn container_bytes(tag: usize, psz: int) -> int {
    if tag == 0 {
        4 + 4 * psz
    } else if tag == 1 {
        16 + 16 * psz
    } else if tag == 2 {
        256 + 48 * psz
    } else {
        256 * psz
    }
}

/// What one node at depth `d` adds under a metric.
pub open spec fn weight<V>(node: Node<V>, metric: Metric, d: int) -> int {
    match metric {
        Metric::Nodes => 1,
        Metric::InnerOfType(t) => match node {
            Node::Inner { children, .. } => if children.tag() == t { 1 } else { 0 },
            Node::Leaf { .. } => 0,
        },
        Metric::Bytes(vsz, psz) => match node {
            Node::Leaf { key, .. } => 24 + key@.len() + vsz,
            Node::Inner { prefix, children } => 24 + prefix@.len() + container_bytes(children.tag(), psz as int),
        },
        Metric::Leaves => if node is Leaf { 1 } else { 0 },
        Metric::LeafDepth => if node is Leaf { d } else { 0 },
        Metric::Deepest => if node is Leaf { d } else { 0 },
    }
}

impl<V> Node<V> {
    /// The metric joined over the whole subtree of a node at depth `d`
    /// (its children sit at depth `d + 1`).
    pub open spec fn total(self, metric: Metric, d: int) -> int
        decreases self, 257int,
    {
        metric.join(weight(self, metric, d), Self::total_upto(self, metric, d, 256))
    }

    /// The metric joined over the children under the bytes below `b`.
    pub closed spec fn total_upto(node: Node<V>, metric: Metric, d: int, b: int) -> int
        decreases node, b,
    {
        if b <= 0 || b > 256 || node is Leaf {
            0
        } else {
            let prev = Self::total_upto(node, metric, d, b - 1);
            match node->Inner_children.slot((b - 1) as u8) {
                Some(c) => {
                    proof {
                        lemma_slot_decreases(node, node->Inner_prefix, node->Inner_children, (b - 1) as u8);
                    }
                    metric.join(prev, c.total(metric, d + 1))
                },
                None => prev,
            }
        }
    }
}

proof fn lemma_total_nonneg<V>(node: Node<V>, metric: Metric, d: int)
    requires
        d >= 0,
    ensures
        node.total(metric, d) >= weight(node, metric, d) >= 0,
        node.total(metric, d) >= Node::<V>::total_upto(node, metric, d, 256),
    decreases node, 257int,
{
    lemma_total_upto_monotone(node, metric, d, 0, 256);
}

proof fn lemma_total_upto_monotone<V>(node: Node<V>, metric: Metric, d: int, a: int, b: int)
    requires
        d >= 0,
        0 <= a <= b <= 256,
    ensures
        0 <= Node::<V>::total_upto(node, metric, d, a) <= Node::<V>::total_upto(node, metric, d, b),
    decreases node, b,
{
    if b > 0 {
        if a < b {
            lemma_total_upto_monotone(node, metric, d, a, b - 1);
        } else {
            lemma_total_upto_monotone(node, metric, d, 0, b - 1);
        }
        if !(node is Leaf) {
            match node->Inner_children.slot((b - 1) as u8) {
                Some(c) => {
                    lemma_slot_decreases(node, node->Inner_prefix, node->Inner_children, (b - 1) as u8);
                    lemma_total_nonneg(c, metric, d + 1);
                },
                None => {},
            }
        }
    }
}

/// The child under a used byte adds at least its own total.
proof fn lemma_total_upto_child<V>(node: Node<V>, metric: Metric, d: int, b: u8)
    requires
        d >= 0,
        node is Inner,
        node->Inner_children.slot(b) is Some,
    ensures
        Node::<V>::total_upto(node, metric, d, 256) >= (node->Inner_children.slot(b)->0).total(metric, d + 1),
{
    lemma_slot_decreases(node, node->Inner_prefix, node->Inner_children, b);
    lemma_total_upto_monotone(node, metric, d, 0, b as int);
    lemma_total_upto_monotone(node, metric, d, b + 1, 256);
    lemma_total_nonneg(node->Inner_children.slot(b)->0, metric, d + 1);
}

proof fn lemma_total_upto_gap<V>(node: Node<V>, metric: Metric, d: int, a: int, b: int)
    requires
        node is Inner,
        0 <= a <= b <= 256,
        forall|x: u8| a <= x < b ==> #[trigger] node->Inner_children.slot(x) is None,
    ensures
        Node::<V>::total_upto(node, metric, d, b) == Node::<V>::total_upto(node, metric, d, a),
    decreases b - a,
{
    if a < b {
        assert(node->Inner_children.slot((b - 1) as u8) is None);
        lemma_total_upto_gap(node, metric, d, a, b - 1);
    }
}

/// A metric that ignores depth gives the same total at any depth.
proof fn lemma_total_depth_free<V>(node: Node<V>, metric: Metric, d1: int, d2: int)
    requires
        !metric.by_depth(),
    ensures
        node.total(metric, d1) == node.total(metric, d2),
    decreases node, 257int,
{
    lemma_upto_depth_free(node, metric, d1, d2, 256);
}

proof fn lemma_upto_depth_free<V>(node: Node<V>, metric: Metric, d1: int, d2: int, b: int)
    requires
        !metric.by_depth(),
    ensures
        Node::<V>::total_upto(node, metric, d1, b) == Node::<V>::total_upto(node, metric, d2, b),
    decreases node, b,
{
    if 0 < b <= 256 && !(node is Leaf) {
        lemma_upto_depth_free(node, metric, d1, d2, b - 1);
        match node->Inner_children.slot((b - 1) as u8) {
            Some(c) => {
                lemma_slot_decreases(node, node->Inner_prefix, node->Inner_children, (b - 1) as u8);
                lemma_total_depth_free(c, metric, d1 + 1, d2 + 1);
            },
            None => {},
        }
    }
}

/// In a well-formed subtree some leaf sits at depth `d` or deeper.
proof fn lemma_total_depth_floor<V>(node: Node<V>, metric: Metric, d: int, path: Seq<u8>)
    requires
        metric.by_depth(),
        d >= 0,
        node.wf_at(path),
    ensures
        node.total(metric, d) >= d,
    decreases node,
{
    lemma_total_nonneg(node, metric, d);
    match node {
        Node::Leaf { .. } => {},
        Node::Inner { prefix, children } => {
            let (b, b2) = choose|b: u8, b2: u8| b != b2 && #[trigger] children.slot(b) is Some && #[trigger] children.slot(b2) is Some;
            lemma_slot_wf(prefix, children, path, b);
            lemma_slot_decreases(node, prefix, children, b);
            lemma_total_depth_floor(children.slot(b)->0, metric, d + 1, (path + prefix@).push(b));
            lemma_total_upto_child(node, metric, d, b);
        },
    }
}

/// The weight of one node at depth `d`.
fn node_weight<V>(node: &Node<V>, metric: &Metric, d: usize) -> (w: usize)
    requires
        weight(*node, *metric, d as int) <= usize::MAX,
    ensures
        w == weight(*node, *metric, d as int),
{
    let leaf = match node {
        Node::Leaf { .. } => true,
        Node::Inner { .. } => false,
    };
    match metric {
        Metric::Nodes => 1,
        Metric::InnerOfType(t) => match node {
            Node::Inner { children, .. } => if children.type_tag() == *t { 1 } else { 0 },
            Node::Leaf { .. } => 0,
        },
        Metric::Bytes(vsz, psz) => match node {
            Node::Leaf { key, .. } => 24 + key.len() + *vsz,
            Node::Inner { prefix, children } => {
                let c: usize = match children {
                    Children::N4 { .. } => 4 + 4 * *psz,
                    Children::N16 { .. } => 16 + 16 * *psz,
                    Children::N48 { .. } => 256 + 48 * *psz,
                    Children::N256 { .. } => 256 * *psz,
                };
                24 + prefix.len() + c
            },
        },
        Metric::Leaves => if leaf { 1 } else { 0 },
        Metric::LeafDepth => if leaf { d } else { 0 },
        Metric::Deepest => if leaf { d } else { 0 },
    }
}

/// Join the metric over the subtree below `node`, which sits at depth `d`.
fn total_rec<V>(node: &Node<V>, metric: &Metric, d: usize, Ghost(path): Ghost<Seq<u8>>) -> (n: usize)
    requires
        node.wf_at(path),
        node.total(*metric, d as int) <= usize::MAX,
    ensures
        n == node.total(*metric, d as int),
    decreases node,
{
    proof {
        lemma_total_nonneg(*node, *metric, d as int);
    }
    let mut n = node_weight(node, metric, d);
    let deepest = match metric {
        Metric::Deepest => true,
        _ => false,
    };
    let by_depth = match metric {
        Metric::LeafDepth => true,
        Metric::Deepest => true,
        _ => false,
    };
    match node {
        Node::Leaf { .. } => {
            proof {
                assert(Node::<V>::total_upto(*node, *metric, d as int, 256) == 0);
            }
            n
        },
        Node::Inner { prefix, children } => {
            let mut cursor: u16 = 0;
            loop
                invariant
                    *node == (Node::Inner { prefix: *prefix, children: *children }),
                    node.wf_at(path),
                    cursor <= 256,
                    deepest == (*metric is Deepest),
                    by_depth == metric.by_depth(),
                    node.total(*metric, d as int) <= usize::MAX,
                    n == metric.join(weight(*node, *metric, d as int), Node::<V>::total_upto(*node, *metric, d as int, cursor as int)),
                ensures
                    n == node.total(*metric, d as int),
                decreases 256 - cursor,
            {
                match children.next_from(cursor) {
                    Some((b, child)) => {
                        proof {
                            lemma_total_upto_gap(*node, *metric, d as int, cursor as int, b as int);
                            lemma_slot_decreases(*node, *prefix, *children, b);
                            lemma_slot_wf(*prefix, *children, path, b);
                            lemma_total_upto_child(*node, *metric, d as int, b);
                            lemma_total_upto_monotone(*node, *metric, d as int, b + 1, 256);
                            lemma_total_nonneg(*node, *metric, d as int);
                            lemma_total_nonneg(arc_node(child), *metric, d + 1);
                        }
                        let c = if by_depth {
                            proof {
                                lemma_total_depth_floor(arc_node(child), *metric, d + 1, (path + prefix@).push(b));
                            }
                            total_rec(child, metric, d + 1, Ghost((path + prefix@).push(b)))
                        } else {
                            proof {
                                lemma_total_depth_free(arc_node(child), *metric, d + 1, d as int);
                            }
                            total_rec(child, metric, d, Ghost((path + prefix@).push(b)))
                        };
                        if deepest {
                            if n < c {
                                n = c;
                            }
                        } else {
                            n = n + c;
                        }
                        cursor = b as u16 + 1;
                    },
                    None => {
                        proof {
                            lemma_total_upto_gap(*node, *metric, d as int, cursor as int, 256);
                        }
                        break;
                    },
                }
            }
            n
        },
    }
}

/// The weight of one node at depth `d`, or `None` where it exceeds a `usize`.
fn node_weight_checked<V>(node: &Node<V>, metric: &Metric, d: usize) -> (w: Option<usize>)
    ensures
        w matches Some(x) ==> x == weight(*node, *metric, d as int),
        w is None ==> weight(*node, *metric, d as int) > usize::MAX,
{
    match metric {
        Metric::Bytes(vsz, psz) => {
            let p: u128 = *psz as u128;
            let x: u128 = match node {
                Node::Leaf { key, .. } => 24 + key.len() as u128 + *vsz as u128,
                Node::Inner { prefix, children } => {
                    let c: u128 = match children {
                        Children::N4 { .. } => 4 + 4 * p,
                        Children::N16 { .. } => 16 + 16 * p,
                        Children::N48 { .. } => 256 + 48 * p,
                        Children::N256 { .. } => 256 * p,
                    };
                    24 + prefix.len() as u128 + c
                },
            };
            if x <= usize::MAX as u128 {
                Some(x as usize)
            } else {
                None
            }
        },
        _ => Some(node_weight(node, metric, d)),
    }
}

/// The metric joined over the subtree below `node` at depth `d`, or `None`
/// where that total exceeds a `usize`.
fn total_checked_rec<V>(node: &Node<V>, metric: &Metric, d: usize, Ghost(path): Ghost<Seq<u8>>) -> (r: Option<usize>)
    requires
        node.wf_at(path),
    ensures
        r matches Some(n) ==> n == node.total(*metric, d as int),
        r is None ==> node.total(*metric, d as int) > usize::MAX,
    decreases node,
{
    proof {
        lemma_total_nonneg(*node, *metric, d as int);
    }
    let mut n = match node_weight_checked(node, metric, d) {
        Some(w) => w,
        None => {
            return None;
        },
    };
    let deepest = match metric {
        Metric::Deepest => true,
        _ => false,
    };
    let by_depth = match metric {
        Metric::LeafDepth => true,
        Metric::Deepest => true,
        _ => false,
    };
    match node {
        Node::Leaf { .. } => {
            proof {
                assert(Node::<V>::total_upto(*node, *metric, d as int, 256) == 0);
            }
            Some(n)
        },
        Node::Inner { prefix, children } => {
            let mut cursor: u16 = 0;
            loop
                invariant
                    *node == (Node::Inner { prefix: *prefix, children: *children }),
                    node.wf_at(path),
                    cursor <= 256,
                    deepest == (*metric is Deepest),
                    by_depth == metric.by_depth(),
                    n == metric.join(weight(*node, *metric, d as int), Node::<V>::total_upto(*node, *metric, d as int, cursor as int)),
                ensures
                    n == node.total(*metric, d as int),
                decreases 256 - cursor,
            {
                match children.next_from(cursor) {
                    Some((b, child)) => {
                        proof {
                            lemma_total_upto_gap(*node, *metric, d as int, cursor as int, b as int);
                            lemma_slot_decreases(*node, *prefix, *children, b);
                            lemma_slot_wf(*prefix, *children, path, b);
                            lemma_total_upto_child(*node, *metric, d as int, b);
                            lemma_total_upto_monotone(*node, *metric, d as int, b + 1, 256);
                            lemma_total_nonneg(*node, *metric, d as int);
                            lemma_total_nonneg(arc_node(child), *metric, d + 1);
                        }
                        let sub = if by_depth {
                            if d == usize::MAX {
                                proof {
                                    lemma_total_depth_floor(arc_node(child), *metric, d + 1, (path + prefix@).push(b));
                                }
                                return None;
                            }
                            total_checked_rec(child, metric, d + 1, Ghost((path + prefix@).push(b)))
                        } else {
                            proof {
                                lemma_total_depth_free(arc_node(child), *metric, d + 1, d as int);
                            }
                            total_checked_rec(child, metric, d, Ghost((path + prefix@).push(b)))
                        };
                        let c = match sub {
                            Some(c) => c,
                            None => {
                                return None;
                            },
                        };
                        if deepest {
                            if n < c {
                                n = c;
                            }
                        } else {
                            match n.checked_add(c) {
                                Some(x) => {
                                    n = x;
                                },
                                None => {
                                    return None;
                                },
                            }
                        }
                        cursor = b as u16 + 1;
                    },
                    None => {
                        proof {
                            lemma_total_upto_gap(*node, *metric, d as int, cursor as int, 256);
                        }
                        break;
                    },
                }
            }
            Some(n)
        },
    }
}

impl<V> ArtOrderedMap<V> {
    /// The metric joined over the whole tree, the root at depth 1
    /// (0 for an empty map).
    pub closed spec fn metric_total(&self, metric: Metric) -> int {
        match self.root {
            Some(r) => (*r).total(metric, 1),
            None => 0,
        }
    }

    fn root_total(&self, metric: &Metric) -> (n: usize)
        requires
            self.metric_total(*metric) <= usize::MAX,
        ensures
            n == self.metric_total(*metric),
    {
        proof {
            use_type_invariant(self);
        }
        match &self.root {
            Some(r) => total_rec(r, metric, 1, Ghost(Seq::empty())),
            None => 0,
        }
    }

    /// Whether the metric's total over the tree fits a `usize`: the
    /// condition under which the statistics below may be asked for.
    pub fn metric_fits(&self, metric: &Metric) -> (b: bool)
        ensures
            b == (self.metric_total(*metric) <= usize::MAX),
    {
        proof {
            use_type_invariant(self);
        }
        match &self.root {
            Some(r) => total_checked_rec(r, metric, 1, Ghost(Seq::empty())).is_some(),
            None => true,
        }
    }

    /// Number of nodes, inner and leaf.
    pub fn node_count(&self) -> (n: usize)
        requires
            self.metric_total(Metric::Nodes) <= usize::MAX,
        ensures
            n == self.metric_total(Metric::Nodes),
            self.content().len() <= n,
            self.content().len() == 0 ==> n == 0,
            self.content().len() > 0 ==> n < 2 * self.content().len(),
            self.content().len() >= 2 ==> n > self.content().len(),
    {
        proof {
            use_type_invariant(self);
            self.lemma_counts();
        }
        self.root_total(&Metric::Nodes)
    }

    /// Every node is a leaf or an inner node of one of the four container
    /// types, the leaves are the stored keys, and inner nodes, which all
    /// branch, are fewer than the keys.
    proof fn lemma_counts(&self)
        requires
            root_wf(self.root),
            root_content(self.root).dom().finite(),
        ensures
            self.metric_total(Metric::Nodes) == self.content().len() + self.metric_total(Metric::InnerOfType(0))
                + self.metric_total(Metric::InnerOfType(1)) + self.metric_total(Metric::InnerOfType(2))
                + self.metric_total(Metric::InnerOfType(3)),
            self.content().len() == 0 ==> self.metric_total(Metric::Nodes) == 0,
            self.content().len() > 0 ==> self.metric_total(Metric::Nodes) < 2 * self.content().len(),
            self.metric_total(Metric::Nodes) >= self.content().len(),
            self.content().len() >= 2 ==> self.metric_total(Metric::Nodes) > self.content().len(),
            self.content().len() == 1 ==> (self.root matches Some(r) && (*r) is Leaf),
    {
        match self.root {
            Some(r) => {
                let node = *r;
                lemma_nodes_split(node, 1);
                lemma_leaves_are_entries(node, 1);
                lemma_entries_count_content(node);
                lemma_inner_below_leaves(node, 1, Seq::empty());
                lemma_total_nonneg(node, Metric::Nodes, 1);
                lemma_total_nonneg(node, Metric::InnerOfType(0), 1);
                lemma_total_nonneg(node, Metric::InnerOfType(1), 1);
                lemma_total_nonneg(node, Metric::InnerOfType(2), 1);
                lemma_total_nonneg(node, Metric::InnerOfType(3), 1);
                if node is Leaf {
                    assert(node.entries().len() == 1);
                }
            },
            None => {},
        }
    }

    /// Leaf depths in node hops (the root at depth 1): the deepest, the sum,
    /// and the number of leaves.
    pub fn depth_totals(&self) -> (r: (usize, usize, usize))
        requires
            self.metric_total(Metric::LeafDepth) <= usize::MAX,
        ensures
            r.0 == self.metric_total(Metric::Deepest),
            r.1 == self.metric_total(Metric::LeafDepth),
            r.2 == self.metric_total(Metric::Leaves),
    {
        proof {
            use_type_invariant(self);
            lemma_root_depths(self.root);
        }
        let deepest = self.root_total(&Metric::Deepest);
        let sum = self.root_total(&Metric::LeafDepth);
        let leaves = self.root_total(&Metric::Leaves);
        (deepest, sum, leaves)
    }

    /// Inner nodes by container type: [N4, N16, N48, N256].
    pub fn node_type_histogram(&self) -> (h: [usize; 4])
        requires
            forall|t: usize| t < 4 ==> #[trigger] self.metric_total(Metric::InnerOfType(t)) <= usize::MAX,
        ensures
            forall|t: usize| t < 4 ==> h@[t as int] == #[trigger] self.metric_total(Metric::InnerOfType(t)),
            h@[0] + h@[1] + h@[2] + h@[3] + self.content().len() == self.metric_total(Metric::Nodes),
    {
        proof {
            use_type_invariant(self);
            self.lemma_counts();
        }
        let n4 = self.root_total(&Metric::InnerOfType(0));
        let n16 = self.root_total(&Metric::InnerOfType(1));
        let n48 = self.root_total(&Metric::InnerOfType(2));
        let n256 = self.root_total(&Metric::InnerOfType(3));
        let h = [n4, n16, n48, n256];
        proof {
            assert forall|t: usize| t < 4 implies h@[t as int] == #[trigger] self.metric_total(Metric::InnerOfType(t)) by {
                if t == 0 {
                } else if t == 1 {
                } else if t == 2 {
                } else {
                }
            }
        }
        h
    }

    /// Rough resident bytes: node structs, child arrays by container type,
    /// and leaf keys.
    pub fn approx_bytes(&self) -> (n: usize)
        requires
            self.metric_total(Metric::Bytes(core::mem::size_of::<V>(), core::mem::size_of::<Arc<Node<V>>>()))
                <= usize::MAX,
        ensures
            n == self.metric_total(Metric::Bytes(core::mem::size_of::<V>(), core::mem::size_of::<Arc<Node<V>>>())),
            self.content().len() == 1 ==> forall|k: Seq<u8>| #[trigger] self.content().contains_key(k)
                ==> n == 24 + k.len() + core::mem::size_of::<V>(),
    {
        proof {
            use_type_invariant(self);
            self.lemma_counts();
            if self.content().len() == 1 {
                let node = *self.root->0;
                let m = Metric::Bytes(core::mem::size_of::<V>(), core::mem::size_of::<Arc<Node<V>>>());
                assert(Node::<V>::total_upto(node, m, 1, 256) == 0);
                assert forall|k: Seq<u8>| #[trigger] self.content().contains_key(k) implies k == node->Leaf_key@ by {
                    assert(node.lookup(k, 0) is Some);
                }
            }
        }
        let vsz = core::mem::size_of::<V>();
        let psz = core::mem::size_of::<Arc<Node<V>>>();
        self.root_total(&Metric::Bytes(vsz, psz))
    }
}

/// Every node is a leaf or an inner node of one of the four container types.
proof fn lemma_nodes_split<V>(node: Node<V>, d: int)
    ensures
        node.total(Metric::Nodes, d) == node.total(Metric::Leaves, d) + node.total(Metric::InnerOfType(0), d)
            + node.total(Metric::InnerOfType(1), d) + node.total(Metric::InnerOfType(2), d)
            + node.total(Metric::InnerOfType(3), d),
    decreases node, 257int,
{
    lemma_upto_nodes_split(node, d, 256);
}

proof fn lemma_upto_nodes_split<V>(node: Node<V>, d: int, b: int)
    ensures
        Node::<V>::total_upto(node, Metric::Nodes, d, b) == Node::<V>::total_upto(node, Metric::Leaves, d, b)
            + Node::<V>::total_upto(node, Metric::InnerOfType(0), d, b)
            + Node::<V>::total_upto(node, Metric::InnerOfType(1), d, b)
            + Node::<V>::total_upto(node, Metric::InnerOfType(2), d, b)
            + Node::<V>::total_upto(node, Metric::InnerOfType(3), d, b),
    decreases node, b,
{
    if 0 < b <= 256 && !(node is Leaf) {
        lemma_upto_nodes_split(node, d, b - 1);
        match node->Inner_children.slot((b - 1) as u8) {
            Some(c) => {
                lemma_slot_decreases(node, node->Inner_prefix, node->Inner_children, (b - 1) as u8);
                lemma_nodes_split(c, d + 1);
            },
            None => {},
        }
    }
}

/// The leaves of a subtree are its entries.
proof fn lemma_leaves_are_entries<V>(node: Node<V>, d: int)
    ensures
        node.total(Metric::Leaves, d) == node.entries().len(),
    decreases node, 257int,
{
    lemma_upto_leaves_are_entries(node, d, 256);
    if node is Inner {
        assert(node.entries() == Node::<V>::entries_upto(node, 256));
    }
}

proof fn lemma_upto_leaves_are_entries<V>(node: Node<V>, d: int, b: int)
    ensures
        Node::<V>::total_upto(node, Metric::Leaves, d, b) == Node::<V>::entries_upto(node, b).len(),
    decreases node, b,
{
    if 0 < b <= 256 && !(node is Leaf) {
        lemma_upto_leaves_are_entries(node, d, b - 1);
        match node->Inner_children.slot((b - 1) as u8) {
            Some(c) => {
                lemma_slot_decreases(node, node->Inner_prefix, node->Inner_children, (b - 1) as u8);
                lemma_leaves_are_entries(c, d + 1);
            },
            None => {},
        }
    }
}

/// A well-formed tree holds one entry per key of its content.
proof fn lemma_entries_count_content<V>(node: Node<V>)
    requires
        node.wf_at(Seq::empty()),
        node.content().dom().finite(),
    ensures
        node.content().len() == node.entries().len(),
{
    let path = Seq::<u8>::empty();
    let all = node.entries();
    lemma_art_entries_sound(node, path);
    lemma_art_entries_complete(node, path);
    lemma_art_entries_sorted(node, path);
    let keys = all.map_values(|e: (Seq<u8>, V)| e.0);
    assert(keys.no_duplicates()) by {
        assert forall|i: int, j: int| 0 <= i < keys.len() && 0 <= j < keys.len() && i != j implies keys[i] != keys[j] by {
            if i < j {
                assert(lex_lt(all[i].0, all[j].0));
            } else {
                assert(lex_lt(all[j].0, all[i].0));
            }
            crate::lex::lemma_lex_irreflexive(all[i].0);
        }
    }
    assert(keys.to_set() =~= node.content().dom()) by {
        assert forall|k: Seq<u8>| keys.to_set().contains(k) <==> node.content().dom().contains(k) by {
            if keys.to_set().contains(k) {
                assert(keys.contains(k));
                let x = choose|x: int| 0 <= x < keys.len() && keys[x] == k;
                assert(found_below(node, path, all[x]));
            }
            if node.content().dom().contains(k) {
                assert(node.lookup(k, 0) is Some);
                let x = choose|x: int| 0 <= x < all.len() && all[x] == (k, node.lookup(k, 0)->0);
                assert(keys[x] == k);
            }
        }
    }
    keys.unique_seq_to_set();
}

/// Below a node at depth `d`, every inner node branches at least twice, so
/// inner nodes are fewer than leaves.
proof fn lemma_inner_below_leaves<V>(node: Node<V>, d: int, path: Seq<u8>)
    requires
        node.wf_at(path),
    ensures
        node.total(Metric::Nodes, d) + 1 <= 2 * node.total(Metric::Leaves, d),
    decreases node, 257int,
{
    match node {
        Node::Leaf { .. } => {
            assert(Node::<V>::total_upto(node, Metric::Nodes, d, 256) == 0);
            assert(Node::<V>::total_upto(node, Metric::Leaves, d, 256) == 0);
        },
        Node::Inner { prefix, children } => {
            let (b1, b2) = choose|b1: u8, b2: u8| b1 != b2 && #[trigger] children.slot(b1) is Some && #[trigger] children.slot(b2) is Some;
            lemma_upto_inner_below_leaves(node, d, path, 256, b1, b2);
        },
    }
}

/// The children under the bytes below `b`, each adding one more node than
/// it has leaves at most twice over; two chosen children are counted once
/// each as they come into the range.
proof fn lemma_upto_inner_below_leaves<V>(node: Node<V>, d: int, path: Seq<u8>, b: int, b1: u8, b2: u8)
    requires
        node is Inner,
        node.wf_at(path),
        0 <= b <= 256,
        b1 != b2,
        node->Inner_children.slot(b1) is Some,
        node->Inner_children.slot(b2) is Some,
    ensures
        Node::<V>::total_upto(node, Metric::Nodes, d, b) + (if b1 < b { 1int } else { 0int })
            + (if b2 < b { 1int } else { 0int }) <= 2 * Node::<V>::total_upto(node, Metric::Leaves, d, b),
    decreases node, b,
{
    if b > 0 {
        lemma_upto_inner_below_leaves(node, d, path, b - 1, b1, b2);
        let x = (b - 1) as u8;
        match node->Inner_children.slot(x) {
            Some(c) => {
                lemma_slot_decreases(node, node->Inner_prefix, node->Inner_children, x);
                lemma_slot_wf(node->Inner_prefix, node->Inner_children, path, x);
                lemma_inner_below_leaves(c, d + 1, (path + node->Inner_prefix@).push(x));
            },
            None => {},
        }
    }
}

proof fn lemma_root_depths<V>(root: Option<Arc<Node<V>>>)
    requires
        root_wf(root),
    ensures
        root matches Some(r) ==> (*r).total(Metric::Deepest, 1) <= (*r).total(Metric::LeafDepth, 1)
            && (*r).total(Metric::Leaves, 1) <= (*r).total(Metric::LeafDepth, 1),
{
    if let Some(r) = root {
        lemma_deepest_within_sum(arc_node(&r), 1, Seq::empty());
        lemma_leaves_within_depths(arc_node(&r), 1);
    }
}

/// The deepest leaf is no deeper than the leaf depths added up.
proof fn lemma_deepest_within_sum<V>(node: Node<V>, d: int, path: Seq<u8>)
    requires
        d >= 0,
        node.wf_at(path),
    ensures
        node.total(Metric::Deepest, d) <= node.total(Metric::LeafDepth, d),
    decreases node,
{
    lemma_upto_deepest_within_sum(node, d, path, 256);
    lemma_total_upto_monotone(node, Metric::LeafDepth, d, 0, 256);
}

proof fn lemma_upto_deepest_within_sum<V>(node: Node<V>, d: int, path: Seq<u8>, b: int)
    requires
        d >= 0,
        node.wf_at(path),
    ensures
        Node::<V>::total_upto(node, Metric::Deepest, d, b) <= Node::<V>::total_upto(node, Metric::LeafDepth, d, b),
    decreases node, b,
{
    if 0 < b <= 256 && !(node is Leaf) {
        lemma_upto_deepest_within_sum(node, d, path, b - 1);
        lemma_total_upto_monotone(node, Metric::LeafDepth, d, 0, b - 1);
        match node->Inner_children.slot((b - 1) as u8) {
            Some(c) => {
                lemma_slot_decreases(node, node->Inner_prefix, node->Inner_children, (b - 1) as u8);
                lemma_slot_wf(node->Inner_prefix, node->Inner_children, path, (b - 1) as u8);
                lemma_deepest_within_sum(c, d + 1, (path + node->Inner_prefix@).push((b - 1) as u8));
                lemma_total_nonneg(c, Metric::LeafDepth, d + 1);
            },
            None => {},
        }
    }
}

/// Below depth 1 every leaf adds at least 1 to the depth sum.
proof fn lemma_leaves_within_depths<V>(node: Node<V>, d: int)
    requires
        d >= 1,
    ensures
        node.total(Metric::Leaves, d) <= node.total(Metric::LeafDepth, d),
    decreases node,
{
    lemma_upto_leaves_within_depths(node, d, 256);
    lemma_total_upto_monotone(node, Metric::LeafDepth, d, 0, 256);
}

proof fn lemma_upto_leaves_within_depths<V>(node: Node<V>, d: int, b: int)
    requires
        d >= 1,
    ensures
        Node::<V>::total_upto(node, Metric::Leaves, d, b) <= Node::<V>::total_upto(node, Metric::LeafDepth, d, b),
    decreases node, b,
{
    if 0 < b <= 256 && !(node is Leaf) {
        lemma_upto_leaves_within_depths(node, d, b - 1);
        match node->Inner_children.slot((b - 1) as u8) {
            Some(c) => {
                lemma_slot_decreases(node, node->Inner_prefix, node->Inner_children, (b - 1) as u8);
                lemma_leaves_within_depths(c, d + 1);
            },
            None => {},
        }
    }
}

/// The entries of the children of `node` under the bytes from `c` on, in
/// byte order.
pub closed spec fn entries_from<V>(node: Node<V>, c: int) -> Seq<(Seq<u8>, V)>
    decreases node, 256 - c,
{
    if c < 0 || c >= 256 || node is Leaf {
        Seq::empty()
    } else {
        match node->Inner_children.slot(c as u8) {
            Some(ch) => {
                proof {
                    lemma_slot_decreases(node, node->Inner_prefix, node->Inner_children, c as u8);
                }
                ch.entries() + entries_from(node, c + 1)
            },
            None => entries_from(node, c + 1),
        }
    }
}

proof fn lemma_from_split<V>(node: Node<V>, c: int)
    requires
        node is Inner,
        0 <= c <= 256,
    ensures
        Node::<V>::entries_upto(node, c) + entries_from(node, c) == Node::<V>::entries_upto(node, 256),
    decreases 256 - c,
{
    if c == 256 {
        assert(Node::<V>::entries_upto(node, c) + entries_from(node, c) =~= Node::<V>::entries_upto(node, c));
    } else {
        lemma_from_split(node, c + 1);
        match node->Inner_children.slot(c as u8) {
            Some(ch) => {
                assert(Node::<V>::entries_upto(node, c + 1) == Node::<V>::entries_upto(node, c) + ch.entries());
                assert(Node::<V>::entries_upto(node, c) + entries_from(node, c) =~= Node::<V>::entries_upto(node, c + 1)
                    + entries_from(node, c + 1));
            },
            None => {},
        }
    }
}

proof fn lemma_from_gap<V>(node: Node<V>, a: int, b: int)
    requires
        node is Inner,
        0 <= a <= b <= 256,
        forall|x: u8| a <= x < b ==> #[trigger] node->Inner_children.slot(x) is None,
    ensures
        entries_from(node, a) == entries_from(node, b),
    decreases b - a,
{
    if a < b {
        assert(node->Inner_children.slot(a as u8) is None);
        lemma_from_gap(node, a + 1, b);
    }
}

/// The nodes below the children under the bytes from `c` on.
pub open spec fn nodes_from<V>(node: Node<V>, c: int) -> int {
    Node::<V>::total_upto(node, Metric::Nodes, 0, 256) - Node::<V>::total_upto(node, Metric::Nodes, 0, c)
}

/// A lazy in-order walk over the entries of a tree whose keys lie in
/// `[lo, hi]`, yielding `(owned key, &value)`; subtrees that cannot meet the
/// range are skipped.
pub struct ArtRangeRef<'a, V> {
    lo: Vec<u8>,
    hi: Vec<u8>,
    /// The inner nodes being walked: the node, the next child byte to visit,
    /// and the path length to cut back to when the node is done.
    stack: Vec<(&'a Node<V>, u16, usize)>,
    /// The bytes down the stack: each node's prefix and child byte.
    path: Vec<u8>,
    /// The root, visited on the first call of `next`.
    pending: Option<&'a Node<V>>,
    /// The path at which each stacked node sits.
    trail: Ghost<Seq<Seq<u8>>>,
}

/// The entries still to visit below a stack of frames, the top first.
pub open spec fn stack_rest<V>(frames: Seq<(&Node<V>, u16, usize)>) -> Seq<(Seq<u8>, V)>
    decreases frames.len(),
{
    if frames.len() == 0 {
        Seq::empty()
    } else {
        entries_from(*frames.last().0, frames.last().1 as int) + stack_rest(frames.drop_last())
    }
}

/// The nodes still to visit below a stack of frames.
pub open spec fn stack_work<V>(frames: Seq<(&Node<V>, u16, usize)>) -> int
    decreases frames.len(),
{
    if frames.len() == 0 {
        0
    } else {
        nodes_from(*frames.last().0, frames.last().1 as int) + stack_work(frames.drop_last())
    }
}

/// The path below frame `i`'s node: where it sits, then its prefix.
pub open spec fn frame_below<V>(frames: Seq<(&Node<V>, u16, usize)>, trail: Seq<Seq<u8>>, i: int) -> Seq<u8> {
    trail[i] + (*frames[i].0)->Inner_prefix@
}

/// A stack of frames is consistent: inner, well-formed nodes, each sitting
/// under a child byte of the one before, the first at the root.
pub open spec fn frames_ok<V>(frames: Seq<(&Node<V>, u16, usize)>, trail: Seq<Seq<u8>>) -> bool {
    &&& trail.len() == frames.len()
    &&& forall|i: int| 0 <= i < frames.len() ==> {
        &&& (*(#[trigger] frames[i]).0) is Inner
        &&& (*frames[i].0).wf_at(trail[i])
        &&& frames[i].1 <= 256
    }
    &&& frames.len() > 0 ==> trail[0] == Seq::<u8>::empty() && frames[0].2 == 0
    &&& forall|i: int| 0 < i < frames.len() ==> {
        &&& (#[trigger] frames[i]).2 == frame_below(frames, trail, i - 1).len()
        &&& trail[i].len() == frames[i].2 + 1
        &&& trail[i].take(frames[i].2 as int) == frame_below(frames, trail, i - 1)
    }
}

proof fn lemma_frames_push<V>(frames: Seq<(&Node<V>, u16, usize)>, trail: Seq<Seq<u8>>, node: &Node<V>, fork: usize, p: Seq<u8>)
    requires
        frames_ok(frames, trail),
        (*node) is Inner,
        node.wf_at(p),
        frames.len() == 0 ==> fork == 0 && p.len() == 0,
        frames.len() > 0 ==> fork == frame_below(frames, trail, frames.len() - 1).len() && p.len() == fork + 1
            && p.take(fork as int) == frame_below(frames, trail, frames.len() - 1),
    ensures
        frames_ok(frames.push((node, 0u16, fork)), trail.push(p)),
        stack_rest(frames.push((node, 0u16, fork))) == entries_from(*node, 0) + stack_rest(frames),
        stack_work(frames.push((node, 0u16, fork))) == nodes_from(*node, 0) + stack_work(frames),
        frame_below(frames.push((node, 0u16, fork)), trail.push(p), frames.len() as int) == p + node->Inner_prefix@,
{
    let f2 = frames.push((node, 0u16, fork));
    let t2 = trail.push(p);
    assert(f2.drop_last() =~= frames);
    if frames.len() == 0 {
        assert(p =~= Seq::<u8>::empty());
    }
    assert forall|i: int| 0 <= i < frames.len() implies frame_below(f2, t2, i) == frame_below(frames, trail, i) by {
        assert(f2[i] == frames[i]);
    }
    assert forall|i: int| 0 <= i < f2.len() implies {
        &&& (*(#[trigger] f2[i]).0) is Inner
        &&& (*f2[i].0).wf_at(t2[i])
        &&& f2[i].1 <= 256
    } by {
        if i < frames.len() {
            assert(f2[i] == frames[i]);
        }
    }
    assert forall|i: int| 0 < i < f2.len() implies {
        &&& (#[trigger] f2[i]).2 == frame_below(f2, t2, i - 1).len()
        &&& t2[i].len() == f2[i].2 + 1
        &&& t2[i].take(f2[i].2 as int) == frame_below(f2, t2, i - 1)
    } by {
        if i < frames.len() {
            assert(f2[i] == frames[i]);
        }
    }
}

proof fn lemma_frames_set_cursor<V>(frames: Seq<(&Node<V>, u16, usize)>, trail: Seq<Seq<u8>>, c: u16)
    requires
        frames_ok(frames, trail),
        frames.len() > 0,
        c <= 256,
    ensures
        frames_ok(frames.update(frames.len() - 1, (frames.last().0, c, frames.last().2)), trail),
        forall|i: int| 0 <= i < frames.len() ==> frame_below(frames.update(frames.len() - 1, (frames.last().0, c, frames.last().2)), trail, i)
            == #[trigger] frame_below(frames, trail, i),
        stack_rest(frames.update(frames.len() - 1, (frames.last().0, c, frames.last().2))) == entries_from(*frames.last().0, c as int)
            + stack_rest(frames.drop_last()),
        stack_work(frames.update(frames.len() - 1, (frames.last().0, c, frames.last().2))) == nodes_from(*frames.last().0, c as int)
            + stack_work(frames.drop_last()),
{
    let f2 = frames.update(frames.len() - 1, (frames.last().0, c, frames.last().2));
    assert(f2.drop_last() =~= frames.drop_last());
    assert forall|i: int| 0 <= i < frames.len() implies frame_below(f2, trail, i) == #[trigger] frame_below(frames, trail, i) by {
        assert(f2[i].0 == frames[i].0);
    }
    assert forall|i: int| 0 <= i < f2.len() implies {
        &&& (*(#[trigger] f2[i]).0) is Inner
        &&& (*f2[i].0).wf_at(trail[i])
        &&& f2[i].1 <= 256
    } by {
        assert(f2[i].0 == frames[i].0);
    }
    assert forall|i: int| 0 < i < f2.len() implies {
        &&& (#[trigger] f2[i]).2 == frame_below(f2, trail, i - 1).len()
        &&& trail[i].len() == f2[i].2 + 1
        &&& trail[i].take(f2[i].2 as int) == frame_below(f2, trail, i - 1)
    } by {
        assert(f2[i].2 == frames[i].2);
        assert(frame_below(f2, trail, i - 1) == frame_below(frames, trail, i - 1));
    }
}

proof fn lemma_stack_work_nonneg<V>(frames: Seq<(&Node<V>, u16, usize)>)
    requires
        forall|i: int| 0 <= i < frames.len() ==> (#[trigger] frames[i]).1 <= 256,
    ensures
        stack_work(frames) >= 0,
    decreases frames.len(),
{
    if frames.len() > 0 {
        let f = frames.last();
        assert(frames[frames.len() - 1] == f);
        lemma_total_upto_monotone(*f.0, Metric::Nodes, 0, f.1 as int, 256);
        assert forall|i: int| 0 <= i < frames.drop_last().len() implies (#[trigger] frames.drop_last()[i]).1 <= 256 by {
            assert(frames.drop_last()[i] == frames[i]);
        }
        lemma_stack_work_nonneg(frames.drop_last());
    }
}

proof fn lemma_frames_pop<V>(frames: Seq<(&Node<V>, u16, usize)>, trail: Seq<Seq<u8>>)
    requires
        frames_ok(frames, trail),
        frames.len() > 0,
    ensures
        frames_ok(frames.drop_last(), trail.drop_last()),
        forall|i: int| 0 <= i < frames.len() - 1 ==> frame_below(frames.drop_last(), trail.drop_last(), i)
            == #[trigger] frame_below(frames, trail, i),
{
    let f2 = frames.drop_last();
    let t2 = trail.drop_last();
    assert forall|i: int| 0 <= i < f2.len() implies frame_below(f2, t2, i) == #[trigger] frame_below(frames, trail, i) by {
        assert(f2[i] == frames[i]);
    }
    assert forall|i: int| 0 <= i < f2.len() implies {
        &&& (*(#[trigger] f2[i]).0) is Inner
        &&& (*f2[i].0).wf_at(t2[i])
        &&& f2[i].1 <= 256
    } by {
        assert(f2[i] == frames[i]);
    }
    assert forall|i: int| 0 < i < f2.len() implies {
        &&& (#[trigger] f2[i]).2 == frame_below(f2, t2, i - 1).len()
        &&& t2[i].len() == f2[i].2 + 1
        &&& t2[i].take(f2[i].2 as int) == frame_below(f2, t2, i - 1)
    } by {
        assert(f2[i] == frames[i]);
        assert(frame_below(f2, t2, i - 1) == frame_below(frames, trail, i - 1));
    }
}

impl<'a, V> ArtRangeRef<'a, V> {
    /// Ready for `next`.
    pub closed spec fn wf(&self) -> bool {
        &&& frames_ok(self.stack@, self.trail@)
        &&& self.stack@.len() > 0 ==> self.path@ == frame_below(self.stack@, self.trail@, self.stack@.len() - 1)
        &&& self.stack@.len() == 0 ==> self.path@.len() == 0
        &&& self.pending matches Some(r) ==> self.stack@.len() == 0 && (*r).wf_at(Seq::empty())
    }

    /// The entries, in key order, that the walk has still to yield.
    pub closed spec fn remaining(&self) -> Seq<(Seq<u8>, V)> {
        let pend = match self.pending {
            Some(r) => (*r).entries(),
            None => Seq::empty(),
        };
        in_range_entries(pend + stack_rest(self.stack@), self.lo@, self.hi@)
    }

    /// A walk over the entries below `root` with keys in `[lo, hi]`.
    fn new(root: Option<&'a Node<V>>, lo: &[u8], hi: &[u8]) -> (r: Self)
        requires
            root matches Some(n) ==> (*n).wf_at(Seq::empty()),
        ensures
            r.wf(),
            r.remaining() == in_range_entries(
                match root {
                    Some(n) => (*n).entries(),
                    None => Seq::empty(),
                },
                lo@,
                hi@,
            ),
    {
        let r = ArtRangeRef {
            lo: bytes_between(lo, 0, lo.len()),
            hi: bytes_between(hi, 0, hi.len()),
            stack: Vec::new(),
            path: Vec::new(),
            pending: root,
            trail: Ghost(Seq::empty()),
        };
        proof {
            assert(lo@.subrange(0, lo@.len() as int) =~= lo@);
            assert(hi@.subrange(0, hi@.len() as int) =~= hi@);
            let pend = match root {
                Some(n) => (*n).entries(),
                None => Seq::<(Seq<u8>, V)>::empty(),
            };
            assert(pend + stack_rest(r.stack@) =~= pend);
        }
        r
    }

    /// Visit `node`, whose incoming byte (if any) sits on `path` at `fork`.
    /// A leaf in range is yielded (and the byte dropped); an inner node is
    /// stacked, its prefix added to `path`.
    fn enter(&mut self, node: &'a Node<V>, fork: usize) -> (r: Option<(Vec<u8>, &'a V)>)
        requires
            frames_ok(old(self).stack@, old(self).trail@),
            old(self).pending is None,
            node.wf_at(old(self).path@),
            old(self).stack@.len() == 0 ==> fork == 0 && old(self).path@.len() == 0,
            old(self).stack@.len() > 0 ==> {
                &&& fork == frame_below(old(self).stack@, old(self).trail@, old(self).stack@.len() - 1).len()
                &&& old(self).path@.len() == fork + 1
                &&& old(self).path@.take(fork as int) == frame_below(old(self).stack@, old(self).trail@, old(self).stack@.len() - 1)
            },
        ensures
            final(self).wf(),
            final(self).lo == old(self).lo,
            final(self).hi == old(self).hi,
            final(self).pending is None,
            stack_work(final(self).stack@) == stack_work(old(self).stack@) + (if node is Leaf { 0 } else { nodes_from(*node, 0) }),
            node is Leaf ==> final(self).stack@ == old(self).stack@,
            node is Leaf ==> final(self).path@ == old(self).path@.take(fork as int),
            node is Inner ==> final(self).stack@ == old(self).stack@.push((node, 0u16, fork)),
            node is Inner ==> final(self).path@ == old(self).path@ + node.prefix_of(),
            node is Inner ==> r is None,
            in_range_entries(node.entries() + stack_rest(old(self).stack@), old(self).lo@, old(self).hi@) == match r {
                Some(item) => seq![(item.0@, *item.1)] + final(self).remaining(),
                None => final(self).remaining(),
            },
    {
        let ghost rest0 = stack_rest(self.stack@);
        let ghost old_path = self.path@;
        match node {
            Node::Leaf { key, value } => {
                proof {
                    lemma_in_range_entries_add(node.entries(), rest0, self.lo@, self.hi@);
                    lemma_in_range_entries_single((key@, *value), self.lo@, self.hi@);
                    assert(Seq::<(Seq<u8>, V)>::empty() + rest0 =~= rest0);
                }
                self.path.truncate(fork);
                proof {
                    if self.stack@.len() > 0 {
                        assert(self.path@ =~= old_path.take(fork as int));
                    }
                }
                if compare_bytes(key.as_slice(), self.lo.as_slice()) >= 0 && compare_bytes(key.as_slice(), self.hi.as_slice()) <= 0 {
                    Some((copy_bytes(key), value))
                } else {
                    None
                }
            },
            Node::Inner { prefix, .. } => {
                let mut i: usize = 0;
                while i < prefix.len()
                    invariant
                        i <= prefix@.len(),
                        self.path@ == old_path + prefix@.take(i as int),
                        self.stack@ == old(self).stack@,
                        self.trail@ == old(self).trail@,
                        self.lo == old(self).lo,
                        self.hi == old(self).hi,
                        self.pending is None,
                    decreases prefix@.len() - i,
                {
                    self.path.push(prefix[i]);
                    proof {
                        assert(prefix@.take(i + 1) =~= prefix@.take(i as int).push(prefix@[i as int]));
                    }
                    i = i + 1;
                }
                proof {
                    assert(prefix@.take(i as int) =~= prefix@);
                    lemma_frames_push(self.stack@, self.trail@, node, fork, old_path);
                    lemma_from_split(*node, 0);
                    assert(Node::<V>::entries_upto(*node, 0) =~= Seq::<(Seq<u8>, V)>::empty());
                    assert(entries_from(*node, 0) =~= node.entries());
                    self.trail@ = self.trail@.push(old_path);
                    assert(Seq::<(Seq<u8>, V)>::empty() + (entries_from(*node, 0) + rest0) =~= node.entries() + rest0);
                }
                self.stack.push((node, 0, fork));
                None
            },
        }
    }

    /// The next entry in range, in ascending key order.
    #[verifier::rlimit(30)]
    pub fn next(&mut self) -> (r: Option<(Vec<u8>, &'a V)>)
        requires
            old(self).wf(),
        ensures
            final(self).wf(),
            match r {
                Some(item) => old(self).remaining() == seq![(item.0@, *item.1)] + final(self).remaining(),
                None => old(self).remaining() == Seq::<(Seq<u8>, V)>::empty() && final(self).remaining() == Seq::<
                    (Seq<u8>, V),
                >::empty(),
            },
    {
        let ghost start = self.remaining();
        match self.pending.take() {
            Some(root) => {
                proof {
                    assert(stack_rest(self.stack@) =~= Seq::<(Seq<u8>, V)>::empty());
                    assert(root.entries() + stack_rest(self.stack@) =~= root.entries());
                    assert(self.path@ =~= Seq::<u8>::empty());
                }
                let item = self.enter(root, 0);
                if item.is_some() {
                    return item;
                }
            },
            None => {
                proof {
                    assert(Seq::<(Seq<u8>, V)>::empty() + stack_rest(self.stack@) =~= stack_rest(self.stack@));
                }
            },
        }
        loop
            invariant
                self.wf(),
                self.pending is None,
                start == old(self).remaining(),
                start == in_range_entries(stack_rest(self.stack@), self.lo@, self.hi@),
                self.remaining() == start,
            decreases stack_work(self.stack@), self.stack@.len(),
        {
            let depth = self.stack.len();
            if depth == 0 {
                proof {
                    assert(stack_rest(self.stack@) =~= Seq::<(Seq<u8>, V)>::empty());
                    assert(Seq::<(Seq<u8>, V)>::empty() + Seq::<(Seq<u8>, V)>::empty() =~= Seq::<(Seq<u8>, V)>::empty());
                    assert(in_range_entries(Seq::<(Seq<u8>, V)>::empty(), self.lo@, self.hi@) =~= Seq::<(Seq<u8>, V)>::empty()) by {
                        reveal(Seq::filter);
                    }
                }
                return None;
            }
            let (node, cursor, base) = self.stack[depth - 1];
            let ghost frames = self.stack@;
            let ghost t: int = depth - 1;
            let ghost rest_below = stack_rest(frames.drop_last());
            let ghost here = frame_below(frames, self.trail@, t);
            proof {
                assert(frames[t] == (node, cursor, base));
                assert(stack_rest(frames) == entries_from(*node, cursor as int) + rest_below);
                assert(stack_work(frames) == nodes_from(*node, cursor as int) + stack_work(frames.drop_last()));
            }
            let children = match node {
                Node::Inner { children, .. } => children,
                Node::Leaf { .. } => {
                    proof {
                        assert(false);
                    }
                    return None;
                },
            };
            match children.next_from(cursor) {
                Some((b, child)) => {
                    proof {
                        lemma_from_gap(*node, cursor as int, b as int);
                        lemma_slot_wf(node->Inner_prefix, *children, self.trail@[t], b);
                        lemma_slot_decreases(*node, node->Inner_prefix, *children, b);
                        lemma_total_upto_gap(*node, Metric::Nodes, 0, cursor as int, b as int);
                        lemma_total_upto_monotone(*node, Metric::Nodes, 0, b + 1, 256);
                        lemma_total_nonneg(arc_node(child), Metric::Nodes, 1);
                        lemma_total_depth_free(arc_node(child), Metric::Nodes, 1, 0);
                        lemma_total_nonneg(arc_node(child), Metric::Nodes, 0);
                        lemma_frames_set_cursor(frames, self.trail@, (b + 1) as u16);
                        assert(Node::<V>::total_upto(*node, Metric::Nodes, 0, b + 1) == Node::<V>::total_upto(*node, Metric::Nodes, 0, b as int)
                            + arc_node(child).total(Metric::Nodes, 1));
                        assert(nodes_from(*node, b + 1) < nodes_from(*node, cursor as int));
                        assert(entries_from(*node, cursor as int) == arc_node(child).entries() + entries_from(*node, b + 1));
                    }
                    self.stack.set(depth - 1, (node, b as u16 + 1, base));
                    let fork = self.path.len();
                    self.path.push(b);
                    let ghost cp = self.path@;
                    let ghost after = entries_from(*node, b + 1) + rest_below;
                    proof {
                        assert(self.stack@ == frames.update(frames.len() - 1, (frames.last().0, (b + 1) as u16, frames.last().2)));
                        assert(stack_work(self.stack@) < stack_work(frames));
                        assert(frame_below(self.stack@, self.trail@, t) == here);
                        assert(cp == (self.trail@[t] + node->Inner_prefix@).push(b));
                        assert(stack_rest(frames) =~= arc_node(child).entries() + after);
                        lemma_in_range_entries_add(arc_node(child).entries(), after, self.lo@, self.hi@);
                    }
                    if !subtree_may_hit(&self.path, self.lo.as_slice(), self.hi.as_slice()) {
                        proof {
                            let ce = arc_node(child).entries();
                            lemma_art_entries_sound(arc_node(child), cp);
                            assert forall|x: int| 0 <= x < ce.len() implies !in_range(#[trigger] ce[x].0, self.lo@, self.hi@) by {
                                assert(found_below(arc_node(child), cp, ce[x]));
                            }
                            lemma_in_range_entries_none(ce, self.lo@, self.hi@);
                            assert(Seq::<(Seq<u8>, V)>::empty() + in_range_entries(after, self.lo@, self.hi@)
                                =~= in_range_entries(after, self.lo@, self.hi@));
                            assert(Seq::<(Seq<u8>, V)>::empty() + stack_rest(self.stack@) =~= stack_rest(self.stack@));
                        }
                        self.path.pop();
                        proof {
                            assert(self.path@ =~= here);
                            lemma_stack_work_nonneg(self.stack@);
                        }
                        continue;
                    }
                    let child: &'a Node<V> = child;
                    proof {
                        assert(self.path@.take(fork as int) =~= here);
                        assert(child.entries() + stack_rest(self.stack@) =~= stack_rest(frames));
                    }
                    let item = self.enter(child, fork);
                    if item.is_some() {
                        return item;
                    }
                    proof {
                        assert(Seq::<(Seq<u8>, V)>::empty() + stack_rest(self.stack@) =~= stack_rest(self.stack@));
                        lemma_stack_work_nonneg(self.stack@);
                    }
                },
                None => {
                    proof {
                        lemma_from_gap(*node, cursor as int, 256);
                        lemma_total_upto_gap(*node, Metric::Nodes, 0, cursor as int, 256);
                        lemma_frames_pop(frames, self.trail@);
                    }
                    self.path.truncate(base);
                    self.stack.pop();
                    proof {
                        self.trail@ = self.trail@.drop_last();
                        assert(self.stack@ =~= frames.drop_last());
                        assert(entries_from(*node, cursor as int) =~= Seq::<(Seq<u8>, V)>::empty());
                        assert(stack_rest(frames) =~= stack_rest(self.stack@));
                        assert(Seq::<(Seq<u8>, V)>::empty() + stack_rest(self.stack@) =~= stack_rest(self.stack@));
                        if t > 0 {
                            assert(self.path@ =~= frame_below(self.stack@, self.trail@, t - 1));
                        } else {
                            assert(self.path@.len() == 0);
                        }
                        lemma_stack_work_nonneg(self.stack@);
                    }
                },
            }
        }
    }
}

} // verus!
