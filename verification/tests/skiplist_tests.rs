use rand::Rng;
use tinylfu_cache::entry::new_entry;
use tinylfu_cache::keys::compare_keys;
use tinylfu_cache::skiplist::{key_with_ts, new_skip_list, parse_key, parse_ts, same_key};

fn gen_key(len: usize) -> String {
    let mut rng = rand::thread_rng();
    let mut bytes = vec![0; len];
    for i in 0..len {
        let b = rng.gen_range(97..123) as u8;
        bytes[i] = b;
    }
    String::from_utf8(bytes).unwrap()
}

#[test]
fn test_skip_list() {
    let mut list = new_skip_list(10000);
    let k1 = gen_key(10);
    let v1 = "111111";
    let entry1 = new_entry(k1.as_bytes(), v1.as_bytes());
    list.add(entry1);
    let value = list.search(k1.as_bytes());
    assert_eq!(*v1.as_bytes(), *value.v);

    let k2 = gen_key(10);
    let v2 = "222222";
    let entry2 = new_entry(k2.as_bytes(), v2.as_bytes());
    list.add(entry2);
    let value = list.search(k1.as_bytes());

    assert_eq!(*v1.as_bytes(), *value.v);

    list.search(gen_key(10).as_bytes());
    println!("{:?}", list.area.get_buf());
}

#[test]
fn test_iterator() {
    let mut list = new_skip_list(10000);
    let k1 = gen_key(10);
    let v1 = "111111";
    let entry1 = new_entry(k1.as_bytes(), v1.as_bytes());
    list.add(entry1);

    let k2 = gen_key(10);
    let _v2 = "222222";
    let entry1 = new_entry(k1.as_bytes(), v1.as_bytes());
    list.add(entry1);

    let _k3 = gen_key(10);
    let v3 = "333333";
    let entry1 = new_entry(k1.as_bytes(), v1.as_bytes());
    list.add(entry1);

    let mut it = list.iter();
    let mut i = 0;
    while let Some(e) = it.next() {
        match i {
            1 => assert_eq!(k1, String::from_utf8(e.key).unwrap()),
            2 => assert_eq!(k2, String::from_utf8(e.key).unwrap()),
            3 => assert_eq!(v3, String::from_utf8(e.value).unwrap()),
            x => assert_eq!(x, 0),
        }
        i += 1;
    }
}

#[test]
fn upsert_keeps_one_node() {
    let mut list = new_skip_list(100000);
    let k = "same key 9"; // ten bytes, suffix included in equality
    list.add(new_entry(k.as_bytes(), b"first"));
    list.add(new_entry(k.as_bytes(), b"second"));
    let value = list.search(k.as_bytes());
    assert_eq!(value.v, b"second".to_vec());

    // walk the base level: the head, then exactly one node
    let mut it = list.iter();
    let mut seen = 0;
    while let Some(e) = it.next() {
        if !e.key.is_empty() {
            assert_eq!(e.key, k.as_bytes().to_vec());
            seen += 1;
        }
    }
    assert_eq!(seen, 1);
}

#[test]
fn search_miss_yields_default() {
    let mut list = new_skip_list(10000);
    list.add(new_entry(b"aaaaaaaaaa", b"1"));
    let miss = list.search(b"zzzzzzzzzz");
    assert_eq!(miss.meta, 0);
    assert_eq!(miss.expires_at, 0);
    assert!(miss.v.is_empty());
}

#[test]
fn ordered_iteration() {
    let mut list = new_skip_list(100000);
    let mut keys: Vec<String> = (0..20).map(|_| gen_key(12)).collect();
    for k in &keys {
        list.add(new_entry(k.as_bytes(), b"v"));
    }
    keys.sort();
    keys.dedup();
    let mut it = list.iter();
    let mut walked: Vec<String> = Vec::new();
    while let Some(e) = it.next() {
        if !e.key.is_empty() {
            walked.push(String::from_utf8(e.key).unwrap());
        }
    }
    assert_eq!(walked, keys);
}

#[test]
fn key_framing_round_trip() {
    let framed = key_with_ts(b"user", 77);
    assert_eq!(framed.len(), 12);
    assert_eq!(parse_key(&framed), b"user");
    assert_eq!(parse_ts(&framed), 77);
    assert!(same_key(&framed, &key_with_ts(b"user", 99)));
    assert!(!same_key(&framed, &key_with_ts(b"usur", 77)));
    // a newer timestamp sorts before an older one
    let newer = key_with_ts(b"user", 100);
    let older = key_with_ts(b"user", 5);
    assert!(compare_keys(&newer, &older) < 0);
    assert!(compare_keys(b"aaaaaaaaaa", b"aaaaaaaaab") < 0);
    assert_eq!(compare_keys(b"aaaaaaaaaa", b"aaaaaaaaaa"), 0);
}

#[test]
fn cursor_validity_and_items() {
    let list = tinylfu_cache::skiplist::new_skip_list(10000);
    let mut it = list.iter();
    assert!(!it.valid());
    assert!(it.item().is_none());
    // the first step lands on the head sentinel: an empty key
    let head_entry = it.next().unwrap();
    assert!(head_entry.key.is_empty());
    assert!(it.valid());
    // an empty list ends right after the sentinel
    assert!(it.next().is_none());
    assert!(!it.valid());
}
