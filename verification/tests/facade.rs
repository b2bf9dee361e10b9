use std::collections::{BTreeMap, BTreeSet, HashMap, HashSet};

use portable_collections::primitives::{Clearable, Container, MapFacade, SetFacade};

#[test]
fn btree_map_through_the_facade() {
    let mut m: BTreeMap<u32, &str> = BTreeMap::new();
    assert_eq!(MapFacade::insert(&mut m, 1, "a"), None);
    assert_eq!(MapFacade::insert(&mut m, 2, "b"), None);
    assert_eq!(MapFacade::insert(&mut m, 1, "c"), Some("a"));
    assert_eq!(MapFacade::get(&m, &1), Some(&"c"));
    assert!(MapFacade::contains_key(&m, &2));
    assert!(!MapFacade::contains_key(&m, &3));
    if let Some(v) = MapFacade::get_mut(&mut m, &2) {
        *v = "z";
    }
    assert_eq!(MapFacade::get(&m, &2), Some(&"z"));
    assert_eq!(MapFacade::remove(&mut m, &2), Some("z"));
    assert_eq!(MapFacade::remove(&mut m, &2), None);
    assert_eq!(Container::len(&m), 1);
    Clearable::clear(&mut m);
    assert!(Container::is_empty(&m));
}

#[test]
fn btree_set_through_the_facade() {
    let mut s: BTreeSet<u32> = BTreeSet::new();
    assert!(SetFacade::insert(&mut s, 1));
    assert!(SetFacade::insert(&mut s, 2));
    assert!(!SetFacade::insert(&mut s, 2));
    assert_eq!(SetFacade::get(&s, &1), Some(&1));
    assert!(SetFacade::contains(&s, &2));
    assert_eq!(SetFacade::replace(&mut s, 2), Some(2));
    assert_eq!(SetFacade::replace(&mut s, 3), None);
    let other: BTreeSet<u32> = [1, 2, 3, 4].into_iter().collect();
    let far: BTreeSet<u32> = [9].into_iter().collect();
    assert!(SetFacade::is_subset(&s, &other));
    assert!(SetFacade::is_superset(&other, &s));
    assert!(SetFacade::is_disjoint(&s, &far));
    assert!(!SetFacade::is_disjoint(&s, &other));
    assert_eq!(SetFacade::take(&mut s, &1), Some(1));
    assert_eq!(SetFacade::take(&mut s, &1), None);
    assert!(SetFacade::remove(&mut s, &2));
    assert!(!SetFacade::remove(&mut s, &2));
    assert_eq!(Container::len(&s), 1);
}

#[test]
fn hash_map_through_the_facade() {
    let mut m: HashMap<String, u32> = HashMap::new();
    assert_eq!(MapFacade::insert(&mut m, "k".to_string(), 1), None);
    assert_eq!(MapFacade::insert(&mut m, "k".to_string(), 2), Some(1));
    assert_eq!(MapFacade::get(&m, &"k".to_string()), Some(&2));
    if let Some(v) = MapFacade::get_mut(&mut m, &"k".to_string()) {
        *v += 1;
    }
    assert_eq!(MapFacade::remove(&mut m, &"k".to_string()), Some(3));
    assert!(!MapFacade::contains_key(&m, &"k".to_string()));
    assert!(Container::is_empty(&m));
}

#[test]
fn hash_set_through_the_facade() {
    let mut s: HashSet<u8> = HashSet::new();
    assert!(SetFacade::insert(&mut s, 7));
    assert!(!SetFacade::insert(&mut s, 7));
    assert_eq!(SetFacade::replace(&mut s, 7), Some(7));
    let big: HashSet<u8> = [7, 8].into_iter().collect();
    assert!(SetFacade::is_subset(&s, &big));
    assert!(!SetFacade::is_superset(&s, &big));
    assert_eq!(SetFacade::take(&mut s, &7), Some(7));
    assert!(Container::is_empty(&s));
    SetFacade::insert(&mut s, 1);
    Clearable::clear(&mut s);
    assert_eq!(Container::len(&s), 0);
}
