use worldgen::noise::{fbm, gradient_noise, ridged_fbm, value_noise, ONE};
use worldgen::rng::hash2;

#[test]
fn noise_is_zero_on_lattice_points() {
    for (ix, iy) in [(0, 0), (5, -3), (-1000, 77), (i32::MAX, i32::MIN)] {
        for seed in [0u32, 1, 0xDEAD_BEEF] {
            assert_eq!(gradient_noise(ix, iy, 0, 0, seed), 0);
        }
    }
}

#[test]
fn noise_stays_within_two() {
    let mut state = 17u64;
    for _ in 0..2000 {
        state = worldgen::rng::splitmix64(state);
        let ix = (state >> 40) as i32 - 5000;
        let iy = (state >> 20) as i32 & 0xFFF;
        let fx = (state & 0xFFFF) as u32;
        let fy = ((state >> 8) & 0xFFFF) as u32;
        let n = gradient_noise(ix, iy, fx, fy, 99);
        assert!(n >= -2 * 65536 && n <= 2 * 65536);
    }
}

#[test]
fn noise_near_a_lattice_point_follows_its_gradient() {
    // one 65536th east of the lattice point: the ramp of that corner is its gradient's
    // first component over 65536, and the fade of so small a step is zero
    let seed = 5;
    let k = hash2(3, 4, seed) & 15;
    let gx: [i64; 16] = [
        65536, 60555, 46334, 25100, 0, -25100, -46334, -60555, -65536, -60555, -46334, -25100, 0,
        25100, 46334, 60555,
    ];
    let ramp = gx[k as usize].div_euclid(65536);
    let expected = (ramp * 1414).div_euclid(1000);
    assert_eq!(gradient_noise(3, 4, 1, 0, seed) as i64, expected);
}

#[test]
fn noise_in_the_middle_of_a_cell_blends_four_corners() {
    let seed = 11;
    let (ix, iy) = (-2, 9);
    let gx: [i64; 16] = [
        65536, 60555, 46334, 25100, 0, -25100, -46334, -60555, -65536, -60555, -46334, -25100, 0,
        25100, 46334, 60555,
    ];
    let ramp = |cx: i32, cy: i32, dx: i64, dy: i64| -> i64 {
        let k = (hash2(cx, cy, seed) & 15) as usize;
        (gx[k] * dx + gx[(k + 12) % 16] * dy).div_euclid(65536)
    };
    let half = 32768i64;
    let v00 = ramp(ix, iy, half, half);
    let v10 = ramp(ix + 1, iy, half - 65536, half);
    let v01 = ramp(ix, iy + 1, half, half - 65536);
    let v11 = ramp(ix + 1, iy + 1, half - 65536, half - 65536);
    // the fade curve at one half is one half
    let s = 32768i64;
    let a = v00 + ((v10 - v00) * s).div_euclid(65536);
    let b = v01 + ((v11 - v01) * s).div_euclid(65536);
    let m = a + ((b - a) * s).div_euclid(65536);
    let expected = (m * 1414).div_euclid(1000);
    assert_eq!(gradient_noise(ix, iy, 32768, 32768, seed) as i64, expected);
}

#[test]
fn noise_is_continuous_across_cells() {
    // just west of a lattice line and on it: the values differ by little
    let seed = 3;
    for iy in 0..5 {
        let before = gradient_noise(6, iy, 65535, 20000, seed);
        let on = gradient_noise(7, iy, 0, 20000, seed);
        assert!((before - on).abs() <= 8);
    }
}

#[test]
fn value_noise_is_gradient_noise() {
    assert_eq!(value_noise(1, 2, 300, 40000, 8), gradient_noise(1, 2, 300, 40000, 8));
}

#[test]
fn noise_depends_on_the_seed() {
    let a: Vec<i32> = (0..16).map(|i| gradient_noise(i, 0, 30000, 30000, 1)).collect();
    let b: Vec<i32> = (0..16).map(|i| gradient_noise(i, 0, 30000, 30000, 2)).collect();
    assert_ne!(a, b);
}


#[test]
fn no_octaves_no_noise() {
    assert_eq!(fbm(12345, 6789, 1, 0, ONE, 2 * ONE, ONE / 2), 0);
    assert_eq!(ridged_fbm(12345, 6789, 1, 0, ONE, 2 * ONE, ONE / 2), 0);
}

#[test]
fn one_octave_is_the_noise_at_the_scaled_point() {
    let seed = 21;
    // the point (1.25, 2.5) at frequency 3: the sample lies at (3.75, 7.5)
    let x = ONE + ONE / 4;
    let y = 2 * ONE + ONE / 2;
    let n = gradient_noise(3, 7, 49152, 32768, seed) as i64;
    // one octave of amplitude one: the sum over the norm is the noise itself
    assert_eq!(fbm(x, y, seed, 1, 3 * ONE, 2 * ONE, ONE / 2), n);
    assert_eq!(ridged_fbm(x, y, seed, 1, 3 * ONE, 2 * ONE, ONE / 2), ONE - n.abs());
}

#[test]
fn two_octaves_are_weighted_by_their_amplitudes() {
    let seed = 8;
    let x = 5 * ONE + 100;
    let y = -3 * ONE + 40000;
    // first octave at frequency one, amplitude one
    let n0 = gradient_noise(5, -3, 100, 40000, seed) as i64;
    // the point is turned by thirty degrees, the frequency doubles, the amplitude halves
    let rx = (x * 56756 - y * 32768).div_euclid(ONE);
    let ry = (x * 32768 + y * 56756).div_euclid(ONE);
    let cx = (rx * 2 * ONE).div_euclid(ONE);
    let cy = (ry * 2 * ONE).div_euclid(ONE);
    let n1 = gradient_noise(
        cx.div_euclid(ONE) as i32,
        cy.div_euclid(ONE) as i32,
        cx.rem_euclid(ONE) as u32,
        cy.rem_euclid(ONE) as u32,
        seed + 1,
    ) as i64;
    let sum = n0 + (n1 * (ONE / 2)).div_euclid(ONE);
    let norm = ONE + ONE / 2;
    assert_eq!(fbm(x, y, seed, 2, ONE, 2 * ONE, ONE / 2), (sum * ONE).div_euclid(norm));
}

#[test]
fn fractal_sums_stay_small() {
    let mut state = 5u64;
    for _ in 0..500 {
        state = worldgen::rng::splitmix64(state);
        let x = (state >> 32) as i64 % (100 * ONE);
        let y = (state & 0xFFFF_FFFF) as i64 % (100 * ONE) - 50 * ONE;
        let v = fbm(x, y, 77, 5, 4 * ONE, 2 * ONE + ONE / 10, ONE / 2);
        assert!(v.abs() <= 2 * ONE + 8);
        let r = ridged_fbm(x, y, 77, 4, 6 * ONE, 2 * ONE + ONE / 10, 29491);
        assert!(r >= -ONE - 8 && r <= ONE + 8);
    }
}

#[test]
fn a_gain_of_zero_leaves_the_first_octave() {
    let seed = 2;
    let x = 7 * ONE + 9;
    let y = ONE / 3;
    assert_eq!(
        fbm(x, y, seed, 6, ONE, 2 * ONE, 0),
        fbm(x, y, seed, 1, ONE, 2 * ONE, 0)
    );
}

#[test]
fn huge_arguments_are_held_and_do_no_harm() {
    let v = fbm(i64::MAX, i64::MIN, 1, 20, i64::MAX, i64::MAX, i64::MAX);
    assert!(v.abs() <= 1 << 57);
    let r = ridged_fbm(i64::MIN, i64::MAX, 1, 20, i64::MIN, i64::MIN, i64::MIN);
    assert!(r.abs() <= 1 << 57);
}
