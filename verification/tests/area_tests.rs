use tinylfu_cache::area::Area;
use tinylfu_cache::entry::Value;

#[test]
fn test_area() {
    let height = 20;
    let k = Vec::from("key_1");
    let v = Value {
        meta: 1,
        v: Vec::from("no step,no miles"),
        expires_at: 1234567890,
        version: 1,
    };
    let mut area = Area::new(1000);

    let node_offset = area.put_node(height);

    let key_offset = area.put_key(k.clone());
    let key_size = k.len();

    let value_offset = area.put_value(&v);
    let value_size = v.encoded_size();

    let node_target = area.get_node(node_offset).unwrap();
    assert_eq!(height, node_target.tower.len());
    let key_target = area.get_key(key_offset, key_size as u16);
    let value_target = area.get_value(value_offset, value_size as u32);
    assert_eq!(k, key_target);
    assert_eq!(v.v, value_target.v);
}

#[test]
fn allocations_are_increasing_and_disjoint() {
    let mut area = Area::new(256);
    let a = area.allocate(10);
    let b = area.allocate(5);
    let c = area.allocate(1);
    assert_eq!(a, 1);
    assert_eq!(b, 11);
    assert_eq!(c, 16);
    assert_eq!(area.size(), 17);
}

#[test]
fn keys_survive_later_writes() {
    let mut area = Area::new(256);
    let first = area.put_key(Vec::from("first key"));
    let _second = area.put_key(Vec::from("second key"));
    let v = Value { meta: 3, v: Vec::from("xyz"), expires_at: 0, version: 0 };
    let _third = area.put_value(&v);
    assert_eq!(area.get_key(first, 9), Vec::from("first key"));
}
