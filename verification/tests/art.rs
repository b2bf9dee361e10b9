use std::sync::Arc;
use portable_collections::radix::art::{insert_rec_with, Children, Node};
use portable_collections::radix::art::Metric;
use std::collections::BTreeMap;

use portable_collections::primitives::{Clearable, Container, MapReadShim, MapRefKeyInsertShim, OrderedMap, SnapshotMap};
use portable_collections::ArtOrderedMap;

fn k(a: u64, b: u64) -> [u8; 16] {
    let mut x = [0u8; 16];
    x[0..8].copy_from_slice(&a.to_be_bytes());
    x[8..16].copy_from_slice(&b.to_be_bytes());
    x
}

#[test]
fn basics() {
    let mut m: ArtOrderedMap<u32> = ArtOrderedMap::new();
    assert_eq!(m.insert(&k(1, 1), 10), None);
    assert_eq!(m.insert(&k(1, 2), 20), None);
    assert_eq!(m.insert(&k(1, 1), 99), Some(10));
    assert_eq!(m.get(&k(1, 1)), Some(&99));
    assert_eq!(m.get(&k(9, 9)), None);
    assert_eq!(Container::len(&m), 2);
}

#[test]
fn snapshot_isolated() {
    let mut m: ArtOrderedMap<u32> = ArtOrderedMap::new();
    m.insert(&k(1, 1), 1);
    let s = m.snapshot();
    m.insert(&k(1, 1), 2);
    m.insert(&k(2, 2), 3);
    assert_eq!(s.get(&k(1, 1)), Some(&1));
    assert_eq!(s.get(&k(2, 2)), None);
    assert_eq!(m.get(&k(1, 1)), Some(&2));
}

#[test]
fn art_container_clear_and_len() {
    let mut m: ArtOrderedMap<u32> = ArtOrderedMap::new();
    m.insert(&k(1, 1), 1);
    m.insert(&k(2, 2), 2);
    assert_eq!(Container::len(&m), 2);
    Clearable::clear(&mut m);
    assert_eq!(Container::len(&m), 0);
    assert!(Container::is_empty(&m));
    assert_eq!(m.get(&k(1, 1)), None);
}

#[test]
fn range_ref_lazy_ordered_and_pruned() {
    let mut m: ArtOrderedMap<u32> = ArtOrderedMap::new();
    // Three inodes; range over the middle inode must skip the others.
    for (a, b, v) in [(1u64, 5u64, 15u32), (2, 9, 29), (2, 1, 21), (2, 7, 27), (3, 0, 30)] {
        m.insert(&k(a, b), v);
    }
    let lo = k(2, 0);
    let hi = k(2, u64::MAX);
    // range_ref: borrows values, ascending, single-inode after pruning.
    let got: Vec<u32> = m.range_ref(&lo, &hi).into_iter().map(|(_, v)| *v).collect();
    assert_eq!(got, [21, 27, 29]); // ascending by the second key word
    // lazy first element without materializing the rest.
    assert_eq!(m.range_iter(&lo, &hi).next().map(|(_, v)| *v), Some(21));
    // for_each_range agrees.
    let mut seen = Vec::new();
    m.for_each_range(&lo, &hi, |_, v| seen.push(*v));
    assert_eq!(seen, [21, 27, 29]);
}

#[test]
fn differential_vs_btreemap_with_node_growth() {
    // Insert enough keys under one inode to force N4->N16->N48->N256 growth.
    let mut art: ArtOrderedMap<u64> = ArtOrderedMap::new();
    let mut bt: BTreeMap<[u8; 16], u64> = BTreeMap::new();
    let mut x = 0x1234_5678u64;
    for _ in 0..6000 {
        x = x.wrapping_mul(6364136223846793005).wrapping_add(1);
        let key = k(x % 4, x); // 4 inodes, random second word -> wide fan-out
        art.insert(&key, x);
        bt.insert(key, x);
    }
    // point lookups match
    for (key, v) in &bt {
        assert_eq!(art.get(key), Some(v), "lookup mismatch");
    }
    assert_eq!(Container::len(&art), bt.len());
    // range (one inode) matches BTreeMap
    let lo = k(2, 0);
    let hi = k(2, u64::MAX);
    let mut a: Vec<u64> = art.range(&lo, &hi).into_iter().map(|(_, v)| v).collect();
    let mut b: Vec<u64> = bt.range(lo..=hi).map(|(_, v)| *v).collect();
    a.sort_unstable();
    b.sort_unstable();
    assert_eq!(a, b, "range mismatch");
    // node growth actually happened
    let h = art.node_type_histogram();
    assert!(h[3] > 0 || h[2] > 0, "expected wide nodes (N48/N256), got {h:?}");
}

#[test]
fn art_range_iter_walks_everything_in_order() {
    let mut m: ArtOrderedMap<u32> = ArtOrderedMap::default();
    for (a, b) in [(3u64, 3u64), (1, 2), (2, 2), (1, 1)] {
        m.insert(&k(a, b), (a * 10 + b) as u32);
    }
    let mut it = m.range_iter(&[], &[0xff; 17]);
    let mut got = Vec::new();
    while let Some((key, v)) = it.next() {
        got.push((key, *v));
    }
    let expect: Vec<(Vec<u8>, u32)> = vec![
        (k(1, 1).to_vec(), 11),
        (k(1, 2).to_vec(), 12),
        (k(2, 2).to_vec(), 22),
        (k(3, 3).to_vec(), 33),
    ];
    assert_eq!(got, expect);
    assert!(it.next().is_none());
    // An empty map walks nothing.
    let e: ArtOrderedMap<u32> = ArtOrderedMap::new();
    assert!(e.range_iter(&[], &[0xff]).next().is_none());
}

#[test]
fn art_contains_key_and_empty_range() {
    let mut m: ArtOrderedMap<u8> = ArtOrderedMap::new();
    m.insert(&k(5, 5), 1);
    assert!(m.contains_key(&k(5, 5)));
    assert!(!m.contains_key(&k(5, 6)));
    // lo above hi: nothing in range.
    assert!(m.range_ref(&k(6, 0), &k(4, 0)).is_empty());
}

#[test]
fn art_metrics_small_tree() {
    let mut m: ArtOrderedMap<u32> = ArtOrderedMap::new();
    assert_eq!(m.node_count(), 0);
    assert_eq!(m.depth_totals(), (0, 0, 0));
    assert_eq!(m.approx_bytes(), 0);
    m.insert(&k(1, 1), 1);
    // A single leaf at the root.
    assert_eq!(m.node_count(), 1);
    assert_eq!(m.depth_totals(), (1, 1, 1));
    assert_eq!(m.node_type_histogram(), [0, 0, 0, 0]);
    let vsz = std::mem::size_of::<u32>();
    assert_eq!(m.approx_bytes(), 24 + 16 + vsz);
    m.insert(&k(1, 2), 2);
    // One N4 inner node over two leaves, sharing a 15-byte prefix.
    assert_eq!(m.node_count(), 3);
    assert_eq!(m.depth_totals(), (2, 4, 2));
    assert_eq!(m.node_type_histogram(), [1, 0, 0, 0]);
    let psz = std::mem::size_of::<usize>();
    assert_eq!(m.approx_bytes(), (24 + 15 + 4 + 4 * psz) + 2 * (24 + 16 + vsz));
}

#[test]
fn lookup_of_a_branch_prefix_is_absent() {
    let mut m: ArtOrderedMap<u32> = ArtOrderedMap::new();
    m.insert(&[1, 2, 3], 10);
    m.insert(&[1, 2, 4], 20);
    // [1, 2] runs out exactly where the two stored keys part.
    assert_eq!(m.get(&[1, 2]), None);
    assert!(!m.contains_key(&[1, 2]));
    assert_eq!(m.get(&[1]), None);
    assert_eq!(m.get(&[1, 2, 3]), Some(&10));
    // for_each_range visits each in-range entry.
    let mut seen = Vec::new();
    m.for_each_range(&[0], &[9], |key, v| seen.push((key.to_vec(), *v)));
    assert_eq!(seen, vec![(vec![1, 2, 3], 10), (vec![1, 2, 4], 20)]);
}

#[test]
fn metric_fits_before_statistics() {
    let mut m: ArtOrderedMap<u32> = ArtOrderedMap::new();
    assert!(m.metric_fits(&Metric::Nodes));
    m.insert(&k(1, 1), 10);
    m.insert(&k(1, 2), 20);
    assert!(m.metric_fits(&Metric::Nodes));
    assert!(m.metric_fits(&Metric::LeafDepth));
    assert!(m.metric_fits(&Metric::Bytes(4, 8)));
    assert_eq!(m.node_count(), 3);
    // Byte sizes near the top of `usize` do not fit once added up.
    assert!(!m.metric_fits(&Metric::Bytes(usize::MAX, 8)));
}

fn leaf_of(n: &Node<u32>) -> (Vec<u8>, u32) {
    match n {
        Node::Leaf { key, value } => (key.clone(), *value),
        Node::Inner { .. } => panic!("expected a leaf"),
    }
}

#[test]
fn insert_split_of_a_leaf_builds_an_n4() {
    let node = Arc::new(Node::Leaf { key: vec![1, 2], value: 1u32 });
    // A new key always splits, whatever the replace policy says.
    let r = insert_rec_with(&node, &[1, 3], 0, 2, &|_: &u32, _: &u32| false).unwrap();
    match &*r {
        Node::Inner { prefix, children: Children::N4 { keys, kids } } => {
            assert_eq!(prefix, &vec![1]);
            assert_eq!(keys, &vec![2, 3]);
            assert_eq!(leaf_of(&kids[0]), (vec![1, 2], 1));
            assert_eq!(leaf_of(&kids[1]), (vec![1, 3], 2));
        },
        _ => panic!("expected an inner N4"),
    }
}

#[test]
fn insert_split_of_a_prefix_shortens_the_old_node() {
    let l1 = Arc::new(Node::Leaf { key: vec![1, 2, 3], value: 10u32 });
    let l2 = Arc::new(Node::Leaf { key: vec![1, 2, 4], value: 20u32 });
    let node = Arc::new(Node::Inner {
        prefix: vec![1, 2],
        children: Children::N4 { keys: vec![3, 4], kids: vec![l1, l2] },
    });
    let r = insert_rec_with(&node, &[1, 9, 0], 0, 30, &|_: &u32, _: &u32| true).unwrap();
    match &*r {
        Node::Inner { prefix, children: Children::N4 { keys, kids } } => {
            assert_eq!(prefix, &vec![1]);
            assert_eq!(keys, &vec![2, 9]);
            match &*kids[0] {
                Node::Inner { prefix, children: Children::N4 { keys, kids } } => {
                    assert!(prefix.is_empty());
                    assert_eq!(keys, &vec![3, 4]);
                    assert_eq!(leaf_of(&kids[0]), (vec![1, 2, 3], 10));
                    assert_eq!(leaf_of(&kids[1]), (vec![1, 2, 4], 20));
                },
                _ => panic!("expected the shortened inner N4"),
            }
            assert_eq!(leaf_of(&kids[1]), (vec![1, 9, 0], 30));
        },
        _ => panic!("expected an inner N4"),
    }
}
