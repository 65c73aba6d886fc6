use wallfacer::util::Rng;

#[test]
fn rng_first_values_from_seed_one() {
    let mut r = Rng::new(1);
    assert_eq!(r.next_u64(), 0x4082_2041);
    assert_eq!(r.next_u64(), 0x1000_4106_0c01_1441);
    assert_eq!(r.next_u64(), 0x9b1e_842f_6e86_2629);
}

#[test]
fn rng_zero_seed_behaves_like_seed_one() {
    let mut a = Rng::new(0);
    let mut b = Rng::new(1);
    for _ in 0..10 {
        assert_eq!(a.next_u64(), b.next_u64());
    }
}

#[test]
fn rng_is_deterministic() {
    let mut a = Rng::new(0xDEAD_BEEF);
    let mut b = Rng::new(0xDEAD_BEEF);
    for _ in 0..100 {
        assert_eq!(a.next_u32(), b.next_u32());
    }
}

#[test]
fn rng_u32_is_low_bits_and_u8_is_top_byte() {
    let mut r = Rng::new(12345);
    assert_eq!(r.next_u32(), 976_821_785);
    let mut s = Rng::new(1);
    s.next_u64();
    // second state 0x1000_4106_0c01_1441 has top byte 0x10
    assert_eq!(s.next_u8(), 0x10);
}

#[test]
fn rng_range_i32_stays_in_range() {
    let mut r = Rng::new(99);
    for _ in 0..1000 {
        let v = r.range_i32(-5, 7);
        assert!((-5..=7).contains(&v));
    }
}

#[test]
fn rng_range_i32_exact_values() {
    let mut r = Rng::new(1);
    assert_eq!(r.range_i32(0, 9), 1);
    let mut s = Rng::new(12345);
    assert_eq!(s.range_i32(-10, 10), -1);
}

#[test]
fn rng_range_i32_degenerate_range_does_not_advance() {
    let mut r = Rng::new(1);
    assert_eq!(r.range_i32(4, 4), 4);
    // the state is unchanged, so the next draw is the first of the sequence
    assert_eq!(r.next_u64(), 0x4082_2041);
}
