use tinylfu_cache::bloom::init_filter;

// The integer sizing that the float closed form m = -n ln(p) / (ln 2)^2
// gives for the tested parameters, computed here where floats are free.
fn sizing(num_entries: usize, false_positive: f64) -> (usize, u8) {
    let ln2 = std::f64::consts::LN_2;
    let bits = -((num_entries as f64) * false_positive.ln()) / (ln2 * ln2);
    let bits_per_key = (bits / num_entries as f64).ceil().max(0.0) as usize;
    let k = (bits_per_key as f64 * ln2) as u8;
    (bits_per_key, k)
}

#[test]
fn test_bloom() {
    let (bits_per_key, k) = sizing(1000, 0.01);
    let mut bf = init_filter(1000, bits_per_key, k);
    let k1 = "大西洋海底来的人".as_bytes();
    let k2 = "加里森敢死队".as_bytes();
    let k3 = "狗安偷生".as_bytes();
    bf.allow_key(k1);
    bf.allow_key(k2);

    let exist1 = bf.may_exist_key(k1);
    let exist2 = bf.may_exist_key(k2);
    let exist3 = bf.may_exist_key(k3);
    assert!(exist1);
    assert!(exist2);
    assert!(!exist3);
}

#[test]
fn allow_reports_repeat_visits() {
    let mut bf = init_filter(1000, 10, 6);
    assert!(!bf.allow(12345));
    assert!(bf.allow(12345));
    assert!(bf.may_exist(12345));
}

#[test]
fn reset_clears_the_bitset() {
    let mut bf = init_filter(1000, 10, 6);
    bf.allow(777);
    assert!(bf.may_exist(777));
    bf.reset();
    assert!(!bf.may_exist(777));
}

#[test]
fn sizing_clamps_probe_count() {
    let bf = init_filter(10, 10, 200);
    assert_eq!(bf.k, 30);
    let bf2 = init_filter(10, 10, 0);
    assert_eq!(bf2.k, 1);
}
