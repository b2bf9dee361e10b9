use portable_collections::lex::subtree_may_hit;
use portable_collections::primitives::{Clearable, Container};
use portable_collections::radix::{OrderedMap, SnapshotMap};
use portable_collections::RadixOrderedMap;

#[test]
fn insert_get_overwrite_len() {
    let mut m: RadixOrderedMap<u32> = RadixOrderedMap::new();
    assert_eq!(m.insert(b"abc", 1), None);
    assert_eq!(m.insert(b"abd", 2), None);
    assert_eq!(m.insert(b"abc", 9), Some(1));
    assert_eq!(m.get(b"abc"), Some(&9));
    assert_eq!(m.get(b"abz"), None);
    assert_eq!(OrderedMap::len(&m), 2);
    assert_eq!(m.recount(), 2);
}

#[test]
fn ordered_range() {
    let mut m: RadixOrderedMap<u32> = RadixOrderedMap::new();
    for (k, v) in [(b"50", 50u32), (b"10", 10), (b"30", 30), (b"20", 20)] {
        m.insert(k, v);
    }
    let got: Vec<u32> = m.range(b"00", b"99").into_iter().map(|(_, v)| v).collect();
    assert_eq!(got, [10, 20, 30, 50]);
}

#[test]
fn snapshot_is_isolated_and_o1() {
    let mut m: RadixOrderedMap<u32> = RadixOrderedMap::new();
    m.insert(b"k", 1);
    let snap = m.snapshot(); // O(1)
    m.insert(b"k", 2);
    m.insert(b"new", 3);
    assert_eq!(snap.get(b"k"), Some(&1)); // snapshot unchanged
    assert_eq!(snap.get(b"new"), None);
    assert_eq!(m.get(b"k"), Some(&2));
    assert_eq!(m.get(b"new"), Some(&3));
}

#[test]
fn cow_container_clear_and_len() {
    let mut m: RadixOrderedMap<u32> = RadixOrderedMap::new();
    m.insert(b"a", 1);
    m.insert(b"b", 2);
    assert_eq!(Container::len(&m), 2);
    assert!(!Container::is_empty(&m));
    Clearable::clear(&mut m);
    assert_eq!(Container::len(&m), 0);
    assert!(Container::is_empty(&m));
    assert_eq!(m.get(b"a"), None);
    assert_eq!(m.recount(), 0);
}

#[test]
fn cow_prefix_keys_and_empty_key() {
    // Unlike the ART, the byte-radix map takes keys that are prefixes of one
    // another, and the empty key.
    let mut m: RadixOrderedMap<u32> = RadixOrderedMap::default();
    m.insert(b"ab", 1);
    m.insert(b"abc", 2);
    m.insert(b"", 0);
    assert_eq!(m.get(b""), Some(&0));
    assert_eq!(m.get(b"ab"), Some(&1));
    assert_eq!(m.get(b"abc"), Some(&2));
    assert_eq!(m.get(b"a"), None);
    let got: Vec<(Vec<u8>, u32)> = m.range(b"", b"abc");
    assert_eq!(got, vec![(b"".to_vec(), 0), (b"ab".to_vec(), 1), (b"abc".to_vec(), 2)]);
    assert!(!OrderedMap::is_empty(&m));
}

#[test]
fn cow_node_count_and_for_each_range() {
    let mut m: RadixOrderedMap<u32> = RadixOrderedMap::new();
    assert_eq!(m.node_count(), 1); // the empty root
    m.insert(b"ab", 1);
    m.insert(b"ac", 2);
    // root -> 'a' -> {'b', 'c'}
    assert_eq!(m.node_count(), 4);
    let mut seen = Vec::new();
    m.for_each_range(b"ab", b"ab", |k, v| seen.push((k.to_vec(), *v)));
    assert_eq!(seen, vec![(b"ab".to_vec(), 1)]);
}

#[test]
fn subtree_pruning_by_prefix() {
    // "ab" lies between "aa" and "ac" on prefixes of its length.
    assert!(subtree_may_hit(&b"ab".to_vec(), b"aa", b"ac"));
    // Every key under "b" is above "az".
    assert!(!subtree_may_hit(&b"b".to_vec(), b"a", b"az"));
    // Every key under "a" is below "b".
    assert!(!subtree_may_hit(&b"a".to_vec(), b"b", b"c"));
    // The empty path may reach anything.
    assert!(subtree_may_hit(&Vec::new(), b"x", b"y"));
}

#[test]
fn nodes_fit_before_node_count() {
    let mut m: RadixOrderedMap<u32> = RadixOrderedMap::new();
    assert!(m.nodes_fit());
    assert_eq!(m.node_count(), 1);
    m.insert(b"ab", 1);
    assert!(m.nodes_fit());
    assert_eq!(m.node_count(), 3);
}
