use portable_collections::primitives::{Bimap, Clearable, Container, ScopedRollback};
use portable_collections::{Checkpoint, FlatRadixBimap, InsertError};

#[test]
fn flat_insert_and_both_lookups() {
    let mut m: FlatRadixBimap<u32, u32> = FlatRadixBimap::new();
    m.insert(10, 0).unwrap();
    m.insert(20, 1).unwrap();
    assert_eq!(m.get(&10), Some(&0));
    assert_eq!(m.get_key(&1), Some(&20));
    assert_eq!(m.get(&30), None); // out of range → None, no panic
    assert_eq!(m.get_key(&9), None);
    assert_eq!(m.len(), 2);
    assert!(!m.is_empty());
}

#[test]
fn flat_rejects_duplicate_key_or_value_without_mutating() {
    let mut m: FlatRadixBimap<u32, u32> = FlatRadixBimap::new();
    m.insert(10, 0).unwrap();
    assert!(matches!(m.insert(10, 9), Err(InsertError::DuplicateKey(10, 9))));
    assert!(matches!(m.insert(99, 0), Err(InsertError::DuplicateValue(99, 0))));
    assert_eq!(m.len(), 1);
    assert_eq!(m.get(&99), None);
}

#[test]
fn flat_truncate_rolls_back_both_directions_and_order() {
    let mut m: FlatRadixBimap<u32, u32> = FlatRadixBimap::new();
    m.insert(10, 0).unwrap();
    let scope = m.checkpoint();
    m.insert(11, 1).unwrap();
    m.insert(12, 2).unwrap();
    assert_eq!(m.len(), 3);
    m.truncate(scope);
    assert_eq!(m.len(), 1);
    assert_eq!(m.get(&11), None);
    assert_eq!(m.get(&12), None);
    assert_eq!(m.get_key(&1), None);
    assert_eq!(m.get_key(&2), None);
    assert_eq!(m.get(&10), Some(&0));
    assert_eq!(m.entries(), &[(10, 0)]);
}

#[test]
fn flat_reintern_after_truncate_gets_a_fresh_value() {
    let mut m: FlatRadixBimap<u32, u32> = FlatRadixBimap::new();
    let scope = m.checkpoint();
    m.insert(7, 36).unwrap();
    m.truncate(scope);
    assert_eq!(m.get(&7), None);
    m.insert(7, 5).unwrap();
    assert_eq!(m.get(&7), Some(&5));
    assert_eq!(m.get_key(&5), Some(&7));
    assert_eq!(m.get_key(&36), None);
}

#[test]
fn flat_iteration_is_in_insertion_order() {
    let mut m: FlatRadixBimap<u32, u32> = FlatRadixBimap::new();
    m.insert(30, 0).unwrap();
    m.insert(10, 1).unwrap();
    m.insert(20, 2).unwrap();
    let ks: Vec<u32> = m.keys().into_iter().copied().collect();
    let vs: Vec<u32> = m.values().into_iter().copied().collect();
    assert_eq!(ks, [30, 10, 20]);
    assert_eq!(vs, [0, 1, 2]);
}

#[test]
fn flat_bimap_trait_path() {
    let mut m: FlatRadixBimap<u32, u32> = FlatRadixBimap::new();
    Bimap::insert(&mut m, 1, 10).unwrap();
    Bimap::insert(&mut m, 2, 20).unwrap();
    assert_eq!(Bimap::get_by_key(&m, &1), Some(&10));
    assert_eq!(Bimap::get_by_value(&m, &20), Some(&2));
    assert_eq!(Container::len(&m), 2);
    assert!(!Container::is_empty(&m));
    let pairs: Vec<(u32, u32)> = Bimap::iter(&m).into_iter().map(|(&k, &v)| (k, v)).collect();
    assert_eq!(pairs, [(1, 10), (2, 20)]);
    let mark: Checkpoint = ScopedRollback::checkpoint(&m);
    Bimap::insert(&mut m, 3, 30).unwrap();
    ScopedRollback::rollback_to(&mut m, mark);
    assert_eq!(Container::len(&m), 2);
    assert_eq!(Bimap::get_by_key(&m, &3), None);
    Clearable::clear(&mut m);
    assert!(Container::is_empty(&m));
}

#[test]
fn flat_small_index_types_and_wide_values() {
    let mut m: FlatRadixBimap<u8, u16> = FlatRadixBimap::default();
    m.insert(255, 1000).unwrap();
    m.insert(0, 7).unwrap();
    assert_eq!(m.get(&255), Some(&1000));
    assert_eq!(m.get_key(&7), Some(&0));
    assert!(m.contains_key(&0));
    assert!(!m.contains_value(&8));
    assert_eq!(m.checkpoint_mark(), Checkpoint::from_len(2));
}

#[test]
fn flat_radix_bimap_clone_is_independent() {
    let mut m: FlatRadixBimap<u32, u32> = FlatRadixBimap::new();
    assert!(m.insert(1, 10).is_ok());
    let mut c = m.clone();
    assert!(c.insert(2, 20).is_ok());
    assert_eq!(c.get(&2), Some(&20));
    assert_eq!(m.get(&2), None);
    assert_eq!(m.get(&1), Some(&10));
}
