use worldgen::climate::{compute_temperature, isqrt};
use worldgen::grid::Grid;

#[test]
fn square_roots_round_down() {
    assert_eq!(isqrt(0), 0);
    assert_eq!(isqrt(1), 1);
    assert_eq!(isqrt(2), 1);
    assert_eq!(isqrt(3), 1);
    assert_eq!(isqrt(4), 2);
    assert_eq!(isqrt(99), 9);
    assert_eq!(isqrt(100), 10);
    assert_eq!(isqrt(65536 * 65536), 65536);
    assert_eq!(isqrt(65536 * 65536 - 1), 65535);
    assert_eq!(isqrt(u64::MAX), 0xFFFF_FFFF);
    for n in 0..5000u64 {
        let r = isqrt(n);
        assert!(r * r <= n && n < (r + 1) * (r + 1));
    }
}

fn weather(x: usize, y: usize, w: usize, h: usize, seed: u64) -> i64 {
    let noise_seed = worldgen::rng::seed_u32(seed, 0xC11_CAFE_0001);
    let u = (x as i64 * 8 * 65536) / w as i64;
    let v = (y as i64 * 8 * 65536) / h as i64;
    let n = worldgen::noise::fbm(u, v, noise_seed, 4, 65536, 131072, 32768);
    (n * 2000).div_euclid(65536)
}

#[test]
fn temperature_falls_from_the_equator_to_the_poles() {
    let w = 8;
    let h = 16;
    let sea: Grid<i32> = Grid::filled(w, h, -100_000);
    let t = compute_temperature(&sea, 42);
    assert_eq!((t.w, t.h), (w, h));
    // the equator row: latitude zero, thirty degrees and the weather
    assert_eq!(t.get(3, 8), 30000 + weather(3, 8, w, h, 42));
    // the first row: latitude one, thirty below
    assert_eq!(t.get(3, 0), -30000 + weather(3, 0, w, h, 42));
    // half way: latitude one half, whose power of one and a half is 0.35355
    let lat = 32768u64;
    let root = isqrt(lat * 65536);
    assert_eq!(root, 46340);
    let bent = lat * root / 65536;
    let base = 30000 - (60000 * bent / 65536) as i64;
    assert_eq!(base, 8788);
    assert_eq!(t.get(5, 4), base + weather(5, 4, w, h, 42));
    assert_eq!(t.get(5, 12), base + weather(5, 12, w, h, 42));
}

#[test]
fn temperature_falls_with_height() {
    let w = 4;
    let h = 4;
    let mut land: Grid<i32> = Grid::filled(w, h, 0);
    // two thousand metres
    land.set(1, 2, 200_000_000);
    let t = compute_temperature(&land, 9);
    let flat = compute_temperature(&Grid::filled(w, h, 0), 9);
    // thirteen degrees colder, and the same everywhere else
    assert_eq!(t.get(1, 2), flat.get(1, 2) - 13000);
    for y in 0..h {
        for x in 0..w {
            if (x, y) != (1, 2) {
                assert_eq!(t.get(x, y), flat.get(x, y));
            }
        }
    }
    // the sea is no colder for being deep
    let deep = compute_temperature(&Grid::filled(w, h, -900_000_000), 9);
    assert_eq!(deep.data, flat.data);
}

#[test]
fn weather_is_small_and_depends_on_the_seed() {
    let w = 32;
    let h = 16;
    let sea: Grid<i32> = Grid::filled(w, h, 0);
    let a = compute_temperature(&sea, 1);
    let b = compute_temperature(&sea, 2);
    assert_ne!(a.data, b.data);
    for i in 0..w * h {
        assert!((a.data[i] - b.data[i]).abs() <= 8200);
        assert!(a.data[i] >= -34200 && a.data[i] <= 34200);
    }
}
