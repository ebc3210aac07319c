use sakuramml_player::utils::RandomXorShift32;

#[test]
fn test_xorshift_sequence() {
    let mut rng = RandomXorShift32::new(1);
    let a = rng.next_u32();
    let b = rng.next_u32();
    assert_ne!(a, b);
    assert_ne!(a, 0);
}

#[test]
fn test_xorshift_seed_0() {
    let mut rng = RandomXorShift32::new(0);
    assert_ne!(rng.next_u32(), 0);
}

#[test]
fn xorshift_first_value_from_seed_1() {
    // 1 ^ (1 << 13) = 0x2001; ^ (>> 17) unchanged; ^ (<< 5) = 0x2001 ^ 0x40020 = 0x42021
    let mut rng = RandomXorShift32::new(1);
    assert_eq!(rng.next_u32(), 0x42021);
    let mut z = RandomXorShift32::new(0);
    assert_eq!(z.next_u32(), 0x42021);
}

#[test]
fn xorshift_never_repeats_consecutively() {
    let mut rng = RandomXorShift32::new(12345);
    let mut prev = rng.next_u32();
    for _ in 0..10_000 {
        let v = rng.next_u32();
        assert_ne!(v, prev);
        assert_ne!(v, 0);
        prev = v;
    }
}
