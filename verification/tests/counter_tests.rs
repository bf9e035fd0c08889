use tinylfu_cache::counter;

#[test]
fn test_counter() {
    let mut c = counter::new(100);
    let h = 1234567890;
    c.increment(h);
    c.increment(h);
    c.increment(h);
    let v = c.estimate(h);
    assert_eq!(v, 3)
}

#[test]
fn counters_saturate_at_fifteen() {
    let mut c = counter::new(64);
    let h = 42;
    for _ in 0..40 {
        c.increment(h);
    }
    assert_eq!(c.estimate(h), 15);
}

#[test]
fn reset_halves_and_clear_zeroes() {
    let mut c = counter::new(64);
    let h = 99;
    for _ in 0..6 {
        c.increment(h);
    }
    assert_eq!(c.estimate(h), 6);
    c.reset();
    assert_eq!(c.estimate(h), 3);
    c.reset();
    assert_eq!(c.estimate(h), 1);
    c.clear();
    assert_eq!(c.estimate(h), 0);
}

#[test]
fn next_power_of_two_rounds_up() {
    assert_eq!(counter::next_power_of_two(1), 1);
    assert_eq!(counter::next_power_of_two(2), 2);
    assert_eq!(counter::next_power_of_two(3), 4);
    assert_eq!(counter::next_power_of_two(100), 128);
    assert_eq!(counter::next_power_of_two(1 << 20), 1 << 20);
}

#[test]
fn width_is_the_next_power_of_two() {
    let c = counter::new(100);
    assert_eq!(c.mask, 127);
    let c2 = counter::new(128);
    assert_eq!(c2.mask, 127);
    let c3 = counter::new(129);
    assert_eq!(c3.mask, 255);
}
