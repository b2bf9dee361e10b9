use portable_collections::primitives::{Bimap, Clearable, Container, ScopedRollback};
use portable_collections::{BTreeBimap, Checkpoint, InsertError};

#[test]
fn btree_insert_and_both_lookups() {
    let mut m: BTreeBimap<u32, u32> = BTreeBimap::new();
    m.insert(10, 0).unwrap();
    m.insert(20, 1).unwrap();
    assert_eq!(m.get(&10), Some(&0));
    assert_eq!(m.get(&20), Some(&1));
    assert_eq!(m.get_key(&0), Some(&10));
    assert_eq!(m.get_key(&1), Some(&20));
    assert_eq!(m.get(&30), None);
    assert_eq!(m.get_key(&2), None);
    assert_eq!(m.len(), 2);
    assert!(!m.is_empty());
}

#[test]
fn btree_rejects_duplicate_key_or_value_without_mutating() {
    let mut m: BTreeBimap<u32, u32> = BTreeBimap::new();
    m.insert(10, 0).unwrap();
    assert!(matches!(m.insert(10, 9), Err(InsertError::DuplicateKey(10, 9))));
    assert!(matches!(m.insert(99, 0), Err(InsertError::DuplicateValue(99, 0))));
    assert_eq!(m.len(), 1);
    assert_eq!(m.get(&10), Some(&0));
    assert_eq!(m.get(&99), None);
    assert_eq!(m.get_key(&9), None);
}

#[test]
fn btree_truncate_rolls_back_both_directions_and_order() {
    let mut m: BTreeBimap<u32, u32> = BTreeBimap::new();
    m.insert(10, 0).unwrap();
    let scope = m.checkpoint();
    m.insert(11, 1).unwrap();
    m.insert(12, 2).unwrap();
    assert_eq!(m.len(), 3);
    m.truncate(scope);
    assert_eq!(m.len(), 1);
    assert_eq!(m.get(&11), None);
    assert_eq!(m.get(&12), None);
    assert_eq!(m.get_key(&1), None);
    assert_eq!(m.get_key(&2), None);
    assert_eq!(m.get(&10), Some(&0));
    assert_eq!(m.get_key(&0), Some(&10));
    assert_eq!(m.entries(), &[(10, 0)]);
}

#[test]
fn btree_reintern_after_truncate_gets_a_fresh_value() {
    let mut m: BTreeBimap<u32, u32> = BTreeBimap::new();
    let scope = m.checkpoint();
    m.insert(7, 36).unwrap();
    assert_eq!(m.get(&7), Some(&36));
    m.truncate(scope);
    assert_eq!(m.get(&7), None);
    m.insert(7, 5).unwrap();
    assert_eq!(m.get(&7), Some(&5));
    assert_eq!(m.get_key(&5), Some(&7));
    assert_eq!(m.get_key(&36), None);
}

#[test]
fn btree_nested_scopes() {
    let mut m: BTreeBimap<u32, u32> = BTreeBimap::new();
    m.insert(1, 10).unwrap();
    let s1 = m.checkpoint();
    m.insert(2, 20).unwrap();
    let s2 = m.checkpoint();
    m.insert(3, 30).unwrap();
    assert_eq!(m.len(), 3);
    m.truncate(s2);
    assert_eq!(m.len(), 2);
    assert_eq!(m.get(&3), None);
    assert_eq!(m.get(&2), Some(&20));
    m.truncate(s1);
    assert_eq!(m.len(), 1);
    assert_eq!(m.get(&2), None);
    assert_eq!(m.get(&1), Some(&10));
}

#[test]
fn btree_truncate_past_end_is_noop_and_to_zero_clears() {
    let mut m: BTreeBimap<u32, u32> = BTreeBimap::new();
    m.insert(1, 10).unwrap();
    m.insert(2, 20).unwrap();
    m.truncate(99);
    assert_eq!(m.len(), 2);
    m.truncate(0);
    assert!(m.is_empty());
    assert_eq!(m.get(&1), None);
    assert_eq!(m.get_key(&10), None);
    assert_eq!(m.entries(), &[]);
}

#[test]
fn btree_clear_empties_all_three() {
    let mut m: BTreeBimap<u32, u32> = BTreeBimap::new();
    m.insert(1, 10).unwrap();
    m.insert(2, 20).unwrap();
    m.clear();
    assert!(m.is_empty());
    assert_eq!(m.get(&1), None);
    assert_eq!(m.get_key(&20), None);
}

#[test]
fn btree_iteration_is_in_insertion_order() {
    let mut m: BTreeBimap<u32, u32> = BTreeBimap::new();
    m.insert(30, 0).unwrap();
    m.insert(10, 1).unwrap();
    m.insert(20, 2).unwrap();
    let ks: Vec<u32> = m.keys().into_iter().copied().collect();
    let vs: Vec<u32> = m.values().into_iter().copied().collect();
    assert_eq!(ks, [30, 10, 20]);
    assert_eq!(vs, [0, 1, 2]);
}

#[test]
fn btree_works_with_non_integer_keys() {
    let mut m: BTreeBimap<&'static str, u8> = BTreeBimap::new();
    m.insert("x", 0).unwrap();
    m.insert("y", 1).unwrap();
    assert_eq!(m.get(&"x"), Some(&0));
    assert_eq!(m.get_key(&1), Some(&"y"));
}

#[test]
fn btree_scoped_rollback_trait_path_satisfies_contract() {
    let mut m: BTreeBimap<u32, u32> = BTreeBimap::new();
    m.insert(10, 0).unwrap();
    let mark: Checkpoint = ScopedRollback::checkpoint(&m);
    m.insert(11, 1).unwrap();
    m.insert(12, 2).unwrap();
    ScopedRollback::rollback_to(&mut m, mark);
    assert_eq!(m.len(), 1);
    assert_eq!(m.get(&11), None);
    assert_eq!(m.get(&12), None);
    assert_eq!(m.get_key(&1), None);
    assert_eq!(m.get_key(&2), None);
    assert_eq!(m.get(&10), Some(&0));
    assert_eq!(m.get_key(&0), Some(&10));
    ScopedRollback::rollback_to(&mut m, mark);
    assert_eq!(m.len(), 1);
    ScopedRollback::rollback_to(&mut m, Checkpoint::from_len(999));
    assert_eq!(m.len(), 1);
    ScopedRollback::rollback_to(&mut m, Checkpoint::origin());
    assert!(m.is_empty());
    assert_eq!(m.get(&10), None);
    assert_eq!(m.get_key(&0), None);
}

#[test]
fn btree_checkpoint_mark_agrees_with_inherent_and_trait_clear_empties() {
    let mut m: BTreeBimap<u32, u32> = BTreeBimap::new();
    m.insert(1, 10).unwrap();
    m.insert(2, 20).unwrap();
    assert_eq!(m.checkpoint_mark(), Checkpoint::from_len(m.checkpoint()));
    Clearable::clear(&mut m);
    assert!(m.is_empty());
    assert_eq!(m.get(&1), None);
    assert_eq!(m.get_key(&20), None);
}

#[test]
fn btree_bimap_trait_path() {
    let mut m: BTreeBimap<u32, u32> = BTreeBimap::new();
    Bimap::insert(&mut m, 1, 10).unwrap();
    Bimap::insert(&mut m, 2, 20).unwrap();
    assert_eq!(Bimap::get_by_key(&m, &1), Some(&10));
    assert_eq!(Bimap::get_by_value(&m, &20), Some(&2));
    assert_eq!(Container::len(&m), 2);
    assert!(!Container::is_empty(&m));
    let pairs: Vec<(u32, u32)> = Bimap::iter(&m).into_iter().map(|(&k, &v)| (k, v)).collect();
    assert_eq!(pairs, [(1, 10), (2, 20)]);
    let mark: Checkpoint = ScopedRollback::checkpoint(&m);
    Bimap::insert(&mut m, 3, 30).unwrap();
    ScopedRollback::rollback_to(&mut m, mark);
    assert_eq!(Container::len(&m), 2);
    assert_eq!(Bimap::get_by_key(&m, &3), None);
    Clearable::clear(&mut m);
    assert!(Container::is_empty(&m));
}

#[test]
fn btree_contains_and_error_text() {
    let mut m: BTreeBimap<u32, u32> = BTreeBimap::default();
    m.insert(4, 40).unwrap();
    assert!(m.contains_key(&4));
    assert!(!m.contains_key(&40));
    assert!(m.contains_value(&40));
    assert!(!m.contains_value(&4));
    let e = m.insert(4, 41).unwrap_err();
    assert_eq!(e.describe(), "key already mapped (bijection violation)");
    let e = m.insert(5, 40).unwrap_err();
    assert_eq!(e.describe(), "value already mapped (bijection violation)");
}

#[test]
fn btree_bimap_clone_is_independent() {
    let mut m: BTreeBimap<u32, u32> = BTreeBimap::new();
    assert!(m.insert(1, 10).is_ok());
    let mut c = m.clone();
    assert!(c.insert(2, 20).is_ok());
    assert_eq!(c.get(&2), Some(&20));
    assert_eq!(m.get(&2), None);
    assert_eq!(m.get(&1), Some(&10));
}
