use tinylfu_cache::cache::Cache;

#[test]
fn test_key_to_hash() {
    let a = 12314u64;
    let c = Cache::<u64>::new(100);
    let (h1, h2) = c.key_to_hash(&a);
    assert_eq!(h1, 3962117728473627647);
    assert_eq!(h2, 9330451337157661844);

    let a = "hello ferris".to_string();
    let c = Cache::<u64>::new(100);
    let (h1, h2) = c.key_to_hash(&a);
    assert_eq!(h1, 12643562960511582310);
    assert_eq!(h2, 17903442243031495094);
}

#[test]
fn set_then_get_round_trips() {
    let mut c = Cache::<u64>::new(100);
    assert!(c.set(&1u64, 111));
    assert_eq!(c.get(&1u64), Some(111));
    assert_eq!(c.get(&2u64), None);
    // a second set swaps the value in place
    assert!(c.set(&1u64, 222));
    assert_eq!(c.get(&1u64), Some(222));
    assert_eq!(c.len(), 1);
}

#[test]
fn del_returns_the_stored_conflict() {
    let mut c = Cache::<u64>::new(100);
    c.set(&5u64, 50);
    let (_, conflict) = c.key_to_hash(&5u64);
    assert_eq!(c.del(&5u64), Some(conflict));
    assert_eq!(c.get(&5u64), None);
    assert_eq!(c.del(&5u64), None);
    assert_eq!(c.len(), 0);
}

#[test]
fn collision_mismatch_reads_as_miss() {
    let mut c = Cache::<u64>::new(100);
    c.set(&9u64, 90);
    let (kh, ch) = c.key_to_hash(&9u64);
    assert_eq!(c.get_hashed(kh, ch), Some(90));
    // the same primary hash with another conflict hash is a miss
    assert_eq!(c.get_hashed(kh, ch.wrapping_add(1)), None);
    assert_eq!(c.del_hashed(kh, ch.wrapping_add(1)), None);
    assert!(!c.set_hashed(kh, ch.wrapping_add(1), 91));
    assert_eq!(c.get_hashed(kh, ch), Some(90));
}

#[test]
fn admission_keeps_the_hot_key() {
    let mut c = Cache::<u64>::new(100);
    let hot = 4242u64;
    c.set(&hot, 1);
    for i in 0..200u64 {
        c.set(&(100000 + i), i);
        if i % 4 == 0 {
            c.set(&hot, 1);
            c.get(&hot);
        }
    }
    assert_eq!(c.get(&hot), Some(1));
    assert!(c.len() <= 100);
}

#[test]
fn reaching_the_threshold_ages_the_state() {
    let mut c = Cache::<u64>::new(100);
    c.set(&7u64, 70);
    let (kh, _) = c.key_to_hash(&7u64);
    // three hits leave a count of three in the sketch
    c.get(&7u64);
    c.get(&7u64);
    c.get(&7u64);
    assert_eq!(c.c.estimate(kh), 3);
    assert!(c.watch_dog.may_exist(kh as u32));
    // the next tick reaches the threshold: the sketch is halved and the
    // doorkeeper cleared before the hit is counted again
    c.threshold = c.t + 1;
    c.get(&7u64);
    assert_eq!(c.t, 0);
    assert_eq!(c.c.estimate(kh), 2);
    assert!(c.watch_dog.may_exist(kh as u32));
}

#[test]
fn sizing_splits_the_slots() {
    let c = Cache::<u64>::new(100);
    assert_eq!(c.lru.cap, 1);
    assert_eq!(c.slru.stage_one_cap, 19);
    assert_eq!(c.slru.stage_two_cap, 80);
    assert_eq!(c.watch_dog.k, 6);
    assert_eq!(c.c.mask, 127);
}
