use worldgen::rng::{hash2, seed_u32, splitmix32, splitmix64, Rng};

#[test]
fn splitmix64_known_values() {
    assert_eq!(splitmix64(0), 0xE220_A839_7B1D_CDAF);
    assert_eq!(splitmix64(42), 0xBDD7_3226_2FEB_6E95);
    assert_eq!(splitmix64(u64::MAX), 0xE4D9_7177_1B65_2C20);
}

#[test]
fn splitmix32_known_values() {
    assert_eq!(splitmix32(0), 0x01FC_E552);
    assert_eq!(splitmix32(1), 0x9F50_5634);
    assert_eq!(splitmix32(u32::MAX), 0xA4F7_896C);
}

#[test]
fn seed_u32_is_low_half_of_mixed_xor() {
    assert_eq!(seed_u32(42, 0x6120_7700_CAFE_0002), 0xAE90_28FA);
    assert_eq!(seed_u32(7, 9), splitmix64(7 ^ 9) as u32);
}

#[test]
fn seed_u32_separates_salts() {
    assert_ne!(seed_u32(42, 1), seed_u32(42, 2));
}

#[test]
fn hash2_known_values() {
    assert_eq!(hash2(0, 0, 0), 0x80A7_4E20);
    assert_eq!(hash2(-1, 5, 7), 0xC697_8EFE);
    assert_eq!(hash2(3, -4, 0xDEAD_BEEF), 0xC919_0B0C);
    assert_eq!(hash2(i32::MIN, i32::MAX, 1), 0x92B1_5247);
}

#[test]
fn rng_advances_by_one_mix_per_draw() {
    let mut r = Rng::new(42);
    assert_eq!(r.state, 42);
    assert_eq!(r.next_u64(), 0xBDD7_3226_2FEB_6E95);
    assert_eq!(r.state, 0xBDD7_3226_2FEB_6E95);
    assert_eq!(r.next_u32(), 0x6510_7204);
    assert_eq!(r.state, 0x57E1_FABA_6510_7204);
    assert_eq!(r.range_usize(10), 0);
    assert_eq!(r.state, 0x6310_BF04_D820_7F46);
}

#[test]
fn rng_is_reproducible() {
    let mut a = Rng::new(123);
    let mut b = Rng::new(123);
    for _ in 0..100 {
        assert_eq!(a.next_u64(), b.next_u64());
    }
}

#[test]
fn range_usize_stays_below_bound() {
    let mut r = Rng::new(5);
    for max in 1..50usize {
        let v = r.range_usize(max);
        assert!(v < max);
    }
    let mut one = Rng::new(99);
    assert_eq!(one.range_usize(1), 0);
}
