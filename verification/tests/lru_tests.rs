use std::collections::HashMap;
use tinylfu_cache::lru::{new_lru, new_slru, StoreItem};

struct User {
    name: String,
}

#[test]
fn test_lru() {
    let mut data: HashMap<u64, StoreItem<User>> = HashMap::new();
    let mut a = new_lru(100);
    let name = "Ferris".to_string();
    let v = StoreItem {
        stage: 0,
        key: 0,
        conflict: 0,
        value: User { name: name.clone() },
    };
    if let Some(ret) = a.add(v, &mut data) {
        assert_eq!(name, ret.value.name)
    }
}

#[test]
fn test_lru2() {}

#[test]
fn window_evicts_strictly_lru() {
    let mut data: HashMap<u64, StoreItem<u32>> = HashMap::new();
    let mut w = new_lru(2);
    assert!(w
        .add(StoreItem { stage: 0, key: 1, conflict: 0, value: 10 }, &mut data)
        .is_none());
    assert!(w
        .add(StoreItem { stage: 0, key: 2, conflict: 0, value: 20 }, &mut data)
        .is_none());
    // a hit on the older key saves it; key 2 becomes the tail
    w.get(1);
    let ev = w
        .add(StoreItem { stage: 0, key: 3, conflict: 0, value: 30 }, &mut data)
        .unwrap();
    assert_eq!(ev.key, 2);
    assert_eq!(ev.value, 20);
    assert!(data.contains_key(&1) && data.contains_key(&3) && !data.contains_key(&2));
}

#[test]
fn probation_evicts_its_tail_when_full() {
    let mut data: HashMap<u64, StoreItem<u32>> = HashMap::new();
    let mut s = new_slru(1, 1);
    s.add(StoreItem { stage: 0, key: 1, conflict: 0, value: 1 }, &mut data);
    assert!(s.victim().is_none());
    s.add(StoreItem { stage: 0, key: 2, conflict: 0, value: 2 }, &mut data);
    // both stages' room is used: the probationary tail is the victim
    assert_eq!(s.victim(), Some(1));
    let evicted = s.add(StoreItem { stage: 0, key: 3, conflict: 0, value: 3 }, &mut data);
    assert_eq!(evicted, Some(1));
    assert!(!data.contains_key(&1));
    assert_eq!(data.get(&2).map(|i| i.stage), Some(1));
    assert_eq!(data.get(&3).map(|i| i.stage), Some(1));
}

#[test]
fn promotion_moves_between_stages() {
    let mut data: HashMap<u64, StoreItem<u32>> = HashMap::new();
    let mut s = new_slru(2, 1);
    s.add(StoreItem { stage: 0, key: 1, conflict: 0, value: 1 }, &mut data);
    s.add(StoreItem { stage: 0, key: 2, conflict: 0, value: 2 }, &mut data);
    // promote key 1: the protected stage has room
    s.get(1, &mut data);
    assert_eq!(data.get(&1).map(|i| i.stage), Some(2));
    assert_eq!(data.get(&2).map(|i| i.stage), Some(1));
    // promote key 2: the protected stage is full, so key 1 is demoted
    s.get(2, &mut data);
    assert_eq!(data.get(&2).map(|i| i.stage), Some(2));
    assert_eq!(data.get(&1).map(|i| i.stage), Some(1));
}
