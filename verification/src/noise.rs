//! Gradient noise on the integer lattice, in fixed point.
//!
//! A point is given by the lattice cell it lies in and by its place inside
//! that cell, in 65536ths. Values are in 65536ths too.

use vstd::prelude::*;
use crate::rng::{add_mod32, hash2, lattice_hash};

verus! {

/// One, in the fixed-point units of this module.
pub const ONE: i64 = 65536;

/// First component of gradient `k`, of sixteen unit vectors spaced 22.5
/// degrees apart, in 65536ths.
pub open spec fn gradient_x(k: int) -> int {
    if k == 0 {
        65536
    } else if k == 1 || k == 15 {
        60555
    } else if k == 2 || k == 14 {
        46334
    } else if k == 3 || k == 13 {
        25100
    } else if k == 4 || k == 12 {
        0
    } else if k == 5 || k == 11 {
        -25100
    } else if k == 6 || k == 10 {
        -46334
    } else if k == 7 || k == 9 {
        -60555
    } else {
        -65536
    }
}

/// Second component of gradient `k`: the first component a quarter turn on.
pub open spec fn gradient_y(k: int) -> int {
    gradient_x((k + 12) % 16)
}

/// The gradient that a hash picks, applied to the offset `(dx, dy)`.
#[verifier::opaque]
pub open spec fn ramp(hash: u32, dx: int, dy: int) -> int {
    (gradient_x((hash & 15) as int) * dx + gradient_y((hash & 15) as int) * dy) / 65536
}

/// The ramp of the lattice point `(ix, iy)` at the offset `(dx, dy)` from
/// it: the gradient that the hash of the lattice point picks.
#[verifier::opaque]
pub open spec fn corner_ramp(ix: i32, iy: i32, dx: int, dy: int, seed: u32) -> int {
    ramp(lattice_hash(ix, iy, seed), dx, dy)
}

/// The fade curve `6 t^5 - 15 t^4 + 10 t^3`, held to one.
#[verifier::opaque]
pub open spec fn fade(t: int) -> int {
    let s = t * t * t * (t * (6 * t - 15 * 65536) + 10 * 65536 * 65536) / 0x1_0000_0000_0000_0000;
    if s > 65536 {
        65536
    } else {
        s
    }
}

/// The value a share `s` of the way from `a` to `b`.
#[verifier::opaque]
pub open spec fn blend(a: int, b: int, s: int) -> int {
    a + (b - a) * s / 65536
}

/// Gradient noise at the point `(ix + fx / 65536, iy + fy / 65536)`: the
/// ramps of the four corners of the lattice cell, blended along the fade
/// curve and stretched by 1.414.
pub open spec fn noise_at(ix: i32, iy: i32, fx: int, fy: int, seed: u32) -> int {
    let ix1 = next_cell(ix);
    let iy1 = next_cell(iy);
    let v00 = corner_ramp(ix, iy, fx, fy, seed);
    let v10 = corner_ramp(ix1, iy, fx - 65536, fy, seed);
    let v01 = corner_ramp(ix, iy1, fx, fy - 65536, seed);
    let v11 = corner_ramp(ix1, iy1, fx - 65536, fy - 65536, seed);
    let a = blend(v00, v10, fade(fx));
    let b = blend(v01, v11, fade(fx));
    blend(a, b, fade(fy)) * 1414 / 1000
}

/// The lattice cell after `i`; the lattice closes on itself at its end.
pub open spec fn next_cell(i: i32) -> i32 {
    if i == i32::MAX {
        i32::MIN
    } else {
        (i + 1) as i32
    }
}

/// Magnitude of `v`.
pub open spec fn reach(v: int) -> int {
    if v < 0 {
        -v
    } else {
        v
    }
}

/// `v` over 65536, rounded down.
fn floor_q16(v: i64) -> (r: i64)
    requires
        -0x4000_0000_0000_0000 <= v <= 0x4000_0000_0000_0000,
    ensures
        r as int == v as int / 65536,
{
    if v >= 0 {
        v / 65536
    } else {
        let m: i64 = -v;
        let q: i64 = m / 65536;
        let rem: i64 = m % 65536;
        proof {
            if rem == 0 {
                vstd::arithmetic::div_mod::lemma_fundamental_div_mod_converse(
                    v as int,
                    65536,
                    -(q as int),
                    0,
                );
            } else {
                vstd::arithmetic::div_mod::lemma_fundamental_div_mod_converse(
                    v as int,
                    65536,
                    -(q as int) - 1,
                    65536 - rem as int,
                );
            }
        }
        if rem == 0 {
            -q
        } else {
            -q - 1
        }
    }
}

/// The components of a gradient, computed.
fn gradient(k: u32) -> (g: (i64, i64))
    requires
        k < 16,
    ensures
        g.0 as int == gradient_x(k as int),
        g.1 as int == gradient_y(k as int),
        -65536 <= g.0 <= 65536,
        -65536 <= g.1 <= 65536,
        reach(g.0 as int) + reach(g.1 as int) <= 92668,
{
    let x: i64 = component(k);
    let y: i64 = component((k + 12) % 16);
    (x, y)
}

/// One component of a gradient, computed.
fn component(k: u32) -> (c: i64)
    requires
        k < 16,
    ensures
        c as int == gradient_x(k as int),
        -65536 <= c <= 65536,
{
    if k == 0 {
        65536
    } else if k == 1 || k == 15 {
        60555
    } else if k == 2 || k == 14 {
        46334
    } else if k == 3 || k == 13 {
        25100
    } else if k == 4 || k == 12 {
        0
    } else if k == 5 || k == 11 {
        -25100
    } else if k == 6 || k == 10 {
        -46334
    } else if k == 7 || k == 9 {
        -60555
    } else {
        -65536
    }
}

/// The ramp of one corner, computed.
fn corner(hash: u32, dx: i64, dy: i64) -> (r: i64)
    requires
        -65536 <= dx <= 65536,
        -65536 <= dy <= 65536,
    ensures
        r as int == ramp(hash, dx as int, dy as int),
        -92668 <= r <= 92668,
        dx == 0 && dy == 0 ==> r == 0,
{
    reveal(ramp);
    let k: u32 = hash & 15;
    assert(k < 16) by (bit_vector)
        requires
            k == hash & 15,
    ;
    let g: (i64, i64) = gradient(k);
    assert(-65536 * 65536 <= g.0 * dx <= 65536 * 65536) by (nonlinear_arith)
        requires
            -65536 <= g.0 <= 65536,
            -65536 <= dx <= 65536,
    ;
    assert(-65536 * 65536 <= g.1 * dy <= 65536 * 65536) by (nonlinear_arith)
        requires
            -65536 <= g.1 <= 65536,
            -65536 <= dy <= 65536,
    ;
    assert(dx == 0 ==> g.0 * dx == 0) by (nonlinear_arith);
    assert(dy == 0 ==> g.1 * dy == 0) by (nonlinear_arith);
    assert(-reach(g.0 as int) * 65536 <= g.0 * dx <= reach(g.0 as int) * 65536) by (nonlinear_arith)
        requires
            -65536 <= dx <= 65536,
    ;
    assert(-reach(g.1 as int) * 65536 <= g.1 * dy <= reach(g.1 as int) * 65536) by (nonlinear_arith)
        requires
            -65536 <= dy <= 65536,
    ;
    let sum: i64 = g.0 * dx + g.1 * dy;
    proof {
        assert(-92668 * 65536 <= sum <= 92668 * 65536);
        vstd::arithmetic::div_mod::lemma_div_is_ordered(sum as int, 6073090048int, 65536);
        vstd::arithmetic::div_mod::lemma_div_is_ordered(-6073090048int, sum as int, 65536);
        vstd::arithmetic::div_mod::lemma_fundamental_div_mod_converse(
            6073090048int,
            65536,
            92668,
            0,
        );
        vstd::arithmetic::div_mod::lemma_fundamental_div_mod_converse(
            -6073090048int,
            65536,
            -92668,
            0,
        );
    }
    floor_q16(sum)
}

/// The ramp of a lattice point, computed.
fn corner_at(ix: i32, iy: i32, dx: i64, dy: i64, seed: u32) -> (r: i64)
    requires
        -65536 <= dx <= 65536,
        -65536 <= dy <= 65536,
    ensures
        r as int == corner_ramp(ix, iy, dx as int, dy as int, seed),
        -92668 <= r <= 92668,
        dx == 0 && dy == 0 ==> r == 0,
{
    reveal(corner_ramp);
    corner(hash2(ix, iy, seed), dx, dy)
}

/// The fade curve, computed.
fn fade_of(t: u32) -> (s: i64)
    requires
        t < 65536,
    ensures
        s as int == fade(t as int),
        0 <= s <= 65536,
        t == 0 ==> s == 0,
{
    reveal(fade);
    let x: i128 = t as i128;
    // 6 t^2 - 15 t + 10 has no root: it is (2 t - 2.5)^2 * 1.5 + 0.625
    assert(x * (6 * x - 15 * 65536) + 10 * 65536 * 65536 >= 0) by (nonlinear_arith)
        requires
            0 <= x < 65536,
    ;
    assert(x * (6 * x - 15 * 65536) + 10 * 65536 * 65536 <= 10 * 65536 * 65536)
        by (nonlinear_arith)
        requires
            0 <= x < 65536,
    ;
    assert(-15 * 65536 * 65536 <= x * (6 * x - 15 * 65536) <= 0) by (nonlinear_arith)
        requires
            0 <= x < 65536,
    ;
    let inner: i128 = x * (6 * x - 15 * 65536) + 10 * 65536 * 65536;
    assert(0 <= x * x <= 65536 * 65536) by (nonlinear_arith)
        requires
            0 <= x < 65536,
    ;
    assert(0 <= x * x * x <= 65536 * 65536 * 65536) by (nonlinear_arith)
        requires
            0 <= x < 65536,
            0 <= x * x <= 65536 * 65536,
    ;
    let cube: i128 = x * x * x;
    assert(0 <= cube * inner <= 0xA_0000_0000_0000_0000_0000) by (nonlinear_arith)
        requires
            0 <= cube <= 0x1_0000_0000_0000,
            0 <= inner <= 0xA_0000_0000,
    ;
    assert(x == 0 ==> cube * inner == 0) by (nonlinear_arith)
        requires
            cube == x * x * x,
    ;
    let s: i128 = cube * inner / 0x1_0000_0000_0000_0000;
    if s > 65536 {
        65536
    } else {
        s as i64
    }
}

/// A blend, computed.
fn mix(a: i64, b: i64, s: i64) -> (r: i64)
    requires
        -0x100_0000 <= a <= 0x100_0000,
        -0x100_0000 <= b <= 0x100_0000,
        0 <= s <= 65536,
    ensures
        r as int == blend(a as int, b as int, s as int),
        a <= b ==> a <= r <= b,
        b <= a ==> b <= r <= a,
        s == 0 ==> r == a,
{
    reveal(blend);
    assert(s == 0 ==> (b - a) * s == 0) by (nonlinear_arith);
    assert(-0x200_0000 * 65536 <= (b - a) * s <= 0x200_0000 * 65536) by (nonlinear_arith)
        requires
            -0x200_0000 <= b - a <= 0x200_0000,
            0 <= s <= 65536,
    ;
    let step: i64 = floor_q16((b - a) * s);
    proof {
        if a <= b {
            assert(0 <= (b - a) * s <= (b - a) * 65536) by (nonlinear_arith)
                requires
                    0 <= b - a,
                    0 <= s <= 65536,
            ;
            vstd::arithmetic::div_mod::lemma_div_is_ordered(0, ((b - a) * s) as int, 65536);
            vstd::arithmetic::div_mod::lemma_div_is_ordered(
                ((b - a) * s) as int,
                ((b - a) * 65536) as int,
                65536,
            );
            vstd::arithmetic::div_mod::lemma_fundamental_div_mod_converse(
                ((b - a) * 65536) as int,
                65536,
                (b - a) as int,
                0,
            );
        } else {
            assert((b - a) * 65536 <= (b - a) * s <= 0) by (nonlinear_arith)
                requires
                    b - a <= 0,
                    0 <= s <= 65536,
            ;
            vstd::arithmetic::div_mod::lemma_div_is_ordered(((b - a) * s) as int, 0, 65536);
            vstd::arithmetic::div_mod::lemma_div_is_ordered(
                ((b - a) * 65536) as int,
                ((b - a) * s) as int,
                65536,
            );
            vstd::arithmetic::div_mod::lemma_fundamental_div_mod_converse(
                ((b - a) * 65536) as int,
                65536,
                (b - a) as int,
                0,
            );
        }
    }
    a + step
}

/// `m` times 1.414, rounded down.
fn stretch(m: i64) -> (n: i64)
    requires
        -92668 <= m <= 92668,
    ensures
        n as int == m as int * 1414 / 1000,
        -2 * 65536 <= n <= 2 * 65536,
        m == 0 ==> n == 0,
{
    let wide: i64 = m * 1414;
    if wide >= 0 {
        wide / 1000
    } else {
        let up: i64 = -wide;
        let q: i64 = up / 1000;
        let rem: i64 = up % 1000;
        proof {
            if rem == 0 {
                vstd::arithmetic::div_mod::lemma_fundamental_div_mod_converse(
                    wide as int,
                    1000,
                    -(q as int),
                    0,
                );
            } else {
                vstd::arithmetic::div_mod::lemma_fundamental_div_mod_converse(
                    wide as int,
                    1000,
                    -(q as int) - 1,
                    1000 - rem as int,
                );
            }
        }
        if rem == 0 {
            -q
        } else {
            -q - 1
        }
    }
}

/// Gradient noise at a point of the plane, given by its lattice cell
/// `(ix, iy)` and its place `(fx, fy)` inside the cell in 65536ths. The
/// noise is zero on every lattice point and stays within two either way.
pub fn gradient_noise(ix: i32, iy: i32, fx: u32, fy: u32, seed: u32) -> (n: i32)
    requires
        fx < 65536,
        fy < 65536,
    ensures
        n as int == noise_at(ix, iy, fx as int, fy as int, seed),
        -2 * 65536 <= n <= 2 * 65536,
        fx == 0 && fy == 0 ==> n == 0,
{
    let ix1: i32 = if ix == i32::MAX {
        i32::MIN
    } else {
        ix + 1
    };
    let iy1: i32 = if iy == i32::MAX {
        i32::MIN
    } else {
        iy + 1
    };
    let dx: i64 = fx as i64;
    let dy: i64 = fy as i64;
    let v00: i64 = corner_at(ix, iy, dx, dy, seed);
    let v10: i64 = corner_at(ix1, iy, dx - 65536, dy, seed);
    let v01: i64 = corner_at(ix, iy1, dx, dy - 65536, seed);
    let v11: i64 = corner_at(ix1, iy1, dx - 65536, dy - 65536, seed);
    let sx: i64 = fade_of(fx);
    let sy: i64 = fade_of(fy);
    let a: i64 = mix(v00, v10, sx);
    let b: i64 = mix(v01, v11, sx);
    let m: i64 = mix(a, b, sy);
    let n: i64 = stretch(m);
    n as i32
}

/// Gradient noise under its older name.
pub fn value_noise(ix: i32, iy: i32, fx: u32, fy: u32, seed: u32) -> (n: i32)
    requires
        fx < 65536,
        fy < 65536,
    ensures
        n as int == noise_at(ix, iy, fx as int, fy as int, seed),
        -2 * 65536 <= n <= 2 * 65536,
        fx == 0 && fy == 0 ==> n == 0,
{
    gradient_noise(ix, iy, fx, fy, seed)
}

/// Largest magnitude that the fractal sums let any of their numbers
/// reach: two to the power 40, which is 16 777 216 in fixed point.
pub const CAP: i64 = 0x100_0000_0000;

/// `v` held within [`CAP`] either way.
pub open spec fn held(v: int) -> int {
    if v > CAP {
        CAP as int
    } else if v < -CAP {
        -CAP
    } else {
        v
    }
}

/// The fixed-point product of `a` and `b`, rounded down and held.
pub open spec fn times(a: int, b: int) -> int {
    held(a * b / 65536)
}

/// What a fractal sum holds between two octaves.
pub struct Octaves {
    /// Sum of the octaves so far, each weighted with its amplitude.
    pub sum: int,
    /// Amplitude of the next octave.
    pub amp: int,
    /// Frequency of the next octave.
    pub freq: int,
    /// Sum of the amplitudes so far.
    pub norm: int,
    /// The sample point, turned once for every octave so far.
    pub px: int,
    /// Second coordinate of the sample point.
    pub py: int,
}

/// Gradient noise at the fixed-point coordinates `(cx, cy)`.
pub open spec fn noise_of(cx: int, cy: int, seed: u32) -> int {
    noise_at((cx / 65536) as i32, (cy / 65536) as i32, cx % 65536, cy % 65536, seed)
}

/// What octave `i` adds to the sum for a noise value `n`: the value
/// itself, or for ridged sums one less its magnitude.
pub open spec fn octave_value(n: int, ridged: bool) -> int {
    if ridged {
        65536 - reach(n)
    } else {
        n
    }
}

/// One octave, the `i`-th: the noise at the sample point times the
/// frequency is added with the amplitude; then the amplitude is taken
/// times the gain, the frequency times the lacunarity, and the sample
/// point is turned by thirty degrees.
pub open spec fn octave(s: Octaves, i: u32, seed: u32, lac: int, gain: int, ridged: bool) -> Octaves {
    let n = noise_of(times(s.px, s.freq), times(s.py, s.freq), add_mod32(seed, i));
    Octaves {
        sum: held(s.sum + times(octave_value(n, ridged), s.amp)),
        amp: times(s.amp, gain),
        freq: times(s.freq, lac),
        norm: held(s.norm + s.amp),
        px: held((s.px * 56756 - s.py * 32768) / 65536),
        py: held((s.px * 32768 + s.py * 56756) / 65536),
    }
}

/// The fractal sum after the first `k` octaves.
pub open spec fn octaves_run(
    s0: Octaves,
    k: nat,
    seed: u32,
    lac: int,
    gain: int,
    ridged: bool,
) -> Octaves
    decreases k,
{
    if k == 0 {
        s0
    } else {
        octave(
            octaves_run(s0, (k - 1) as nat, seed, lac, gain, ridged),
            (k - 1) as u32,
            seed,
            lac,
            gain,
            ridged,
        )
    }
}

/// The fractal sum before its first octave: amplitude one, at the given
/// point and frequency.
pub open spec fn octaves_start(x: int, y: int, freq0: int) -> Octaves {
    Octaves { sum: 0, amp: 65536, freq: held(freq0), norm: 0, px: held(x), py: held(y) }
}

/// The value of a fractal sum: the sum over the sum of the amplitudes, and
/// zero where the amplitudes do not add up to more than zero.
pub open spec fn fractal_value(s: Octaves) -> int {
    if s.norm > 0 {
        s.sum * 65536 / s.norm
    } else {
        0
    }
}

/// The fractal sum of `octaves` octaves at `(x, y)`.
pub open spec fn fractal(
    x: int,
    y: int,
    seed: u32,
    octaves: u32,
    freq0: int,
    lac: int,
    gain: int,
    ridged: bool,
) -> int {
    fractal_value(
        octaves_run(octaves_start(x, y, freq0), octaves as nat, seed, held(lac), held(gain), ridged),
    )
}

/// `v` held within the cap, computed.
pub fn hold(v: i128) -> (r: i64)
    ensures
        r as int == held(v as int),
        -CAP <= r <= CAP,
{
    if v > CAP as i128 {
        CAP
    } else if v < -(CAP as i128) {
        -CAP
    } else {
        v as i64
    }
}

/// `v` over `d`, rounded down.
pub fn floor_div(v: i128, d: i128) -> (r: i128)
    requires
        0 < d,
        -0x4000_0000_0000_0000_0000_0000_0000_0000 < v,
    ensures
        r as int == v as int / d as int,
{
    if v >= 0 {
        v / d
    } else {
        let m: i128 = -v;
        let q: i128 = m / d;
        let rem: i128 = m % d;
        proof {
            vstd::arithmetic::div_mod::lemma_fundamental_div_mod(m as int, d as int);
            assert(d as int * q as int == q as int * d as int) by (nonlinear_arith);
            if rem == 0 {
                assert(v as int == (-(q as int)) * d as int + 0) by (nonlinear_arith)
                    requires
                        -(v as int) == q as int * d as int + rem as int,
                        rem == 0,
                ;
                vstd::arithmetic::div_mod::lemma_fundamental_div_mod_converse(
                    v as int,
                    d as int,
                    -(q as int),
                    0,
                );
            } else {
                assert(v as int == (-(q as int) - 1) * d as int + (d as int - rem as int))
                    by (nonlinear_arith)
                    requires
                        -(v as int) == q as int * d as int + rem as int,
                ;
                vstd::arithmetic::div_mod::lemma_fundamental_div_mod_converse(
                    v as int,
                    d as int,
                    -(q as int) - 1,
                    d as int - rem as int,
                );
            }
            assert(0 <= q <= m) by (nonlinear_arith)
                requires
                    m == q * d + rem,
                    0 <= rem,
                    0 < d,
                    0 <= q,
            ;
        }
        if rem == 0 {
            -q
        } else {
            -q - 1
        }
    }
}

/// A fixed-point product, computed.
pub fn product(a: i64, b: i64) -> (r: i64)
    requires
        -CAP <= a <= CAP,
        -CAP <= b <= CAP,
    ensures
        r as int == times(a as int, b as int),
        -CAP <= r <= CAP,
{
    assert(-0x100_0000_0000 * 0x100_0000_0000 <= (a as i128) * (b as i128) <= 0x100_0000_0000
        * 0x100_0000_0000) by (nonlinear_arith)
        requires
            -0x100_0000_0000 <= a as i128 <= 0x100_0000_0000,
            -0x100_0000_0000 <= b as i128 <= 0x100_0000_0000,
    ;
    hold(floor_div((a as i128) * (b as i128), 65536))
}

/// Gradient noise at fixed-point coordinates, computed.
fn sample(cx: i64, cy: i64, seed: u32) -> (n: i64)
    requires
        -CAP <= cx <= CAP,
        -CAP <= cy <= CAP,
    ensures
        n as int == noise_of(cx as int, cy as int, seed),
        -2 * 65536 <= n <= 2 * 65536,
{
    let ix: i128 = floor_div(cx as i128, 65536);
    let iy: i128 = floor_div(cy as i128, 65536);
    proof {
        vstd::arithmetic::div_mod::lemma_fundamental_div_mod(cx as int, 65536);
        vstd::arithmetic::div_mod::lemma_fundamental_div_mod(cy as int, 65536);
        vstd::arithmetic::div_mod::lemma_mod_bound(cx as int, 65536);
        vstd::arithmetic::div_mod::lemma_mod_bound(cy as int, 65536);
    }
    let fx: i128 = cx as i128 - ix * 65536;
    let fy: i128 = cy as i128 - iy * 65536;
    gradient_noise(ix as i32, iy as i32, fx as u32, fy as u32, seed) as i64
}

/// One octave, computed.
fn next_octave(
    sum: i64,
    amp: i64,
    freq: i64,
    norm: i64,
    px: i64,
    py: i64,
    i: u32,
    seed: u32,
    lac: i64,
    gain: i64,
    ridged: bool,
) -> (r: (i64, i64, i64, i64, i64, i64))
    requires
        -CAP <= sum <= CAP,
        -CAP <= amp <= CAP,
        -CAP <= freq <= CAP,
        -CAP <= norm <= CAP,
        -CAP <= px <= CAP,
        -CAP <= py <= CAP,
        -CAP <= lac <= CAP,
        -CAP <= gain <= CAP,
    ensures
        as_octaves(r) == octave(
            as_octaves((sum, amp, freq, norm, px, py)),
            i,
            seed,
            lac as int,
            gain as int,
            ridged,
        ),
        -CAP <= r.0 <= CAP,
        -CAP <= r.1 <= CAP,
        -CAP <= r.2 <= CAP,
        -CAP <= r.3 <= CAP,
        -CAP <= r.4 <= CAP,
        -CAP <= r.5 <= CAP,
{
    let n: i64 = sample(product(px, freq), product(py, freq), seed.wrapping_add(i));
    let value: i64 = if ridged {
        if n < 0 {
            65536 + n
        } else {
            65536 - n
        }
    } else {
        n
    };
    let term: i64 = product(value, amp);
    let sum1: i64 = hold(sum as i128 + term as i128);
    let norm1: i64 = hold(norm as i128 + amp as i128);
    let amp1: i64 = product(amp, gain);
    let freq1: i64 = product(freq, lac);
    assert(-0x100_0000_0000 * 56756 <= (px as i128) * 56756 <= 0x100_0000_0000 * 56756);
    assert(-0x100_0000_0000 * 32768 <= (px as i128) * 32768 <= 0x100_0000_0000 * 32768);
    let rx: i64 = hold(floor_div((px as i128) * 56756 - (py as i128) * 32768, 65536));
    let ry: i64 = hold(floor_div((px as i128) * 32768 + (py as i128) * 56756, 65536));
    (sum1, amp1, freq1, norm1, rx, ry)
}

/// The fractal sum that six numbers stand for.
pub open spec fn as_octaves(r: (i64, i64, i64, i64, i64, i64)) -> Octaves {
    Octaves {
        sum: r.0 as int,
        amp: r.1 as int,
        freq: r.2 as int,
        norm: r.3 as int,
        px: r.4 as int,
        py: r.5 as int,
    }
}

/// A fractal sum, plain or ridged, computed.
fn fractal_sum(
    x: i64,
    y: i64,
    seed: u32,
    octaves: u32,
    freq0: i64,
    lac: i64,
    gain: i64,
    ridged: bool,
) -> (r: i64)
    ensures
        r as int == fractal(
            x as int,
            y as int,
            seed,
            octaves,
            freq0 as int,
            lac as int,
            gain as int,
            ridged,
        ),
        octaves == 0 ==> r == 0,
        -0x200_0000_0000_0000 <= r <= 0x200_0000_0000_0000,
{
    let lac_held: i64 = hold(lac as i128);
    let gain_held: i64 = hold(gain as i128);
    let mut s: (i64, i64, i64, i64, i64, i64) = (
        0,
        65536,
        hold(freq0 as i128),
        0,
        hold(x as i128),
        hold(y as i128),
    );
    let ghost s0 = octaves_start(x as int, y as int, freq0 as int);
    let mut i: u32 = 0;
    while i < octaves
        invariant
            i <= octaves,
            -CAP <= lac_held <= CAP,
            -CAP <= gain_held <= CAP,
            -CAP <= s.0 <= CAP,
            -CAP <= s.1 <= CAP,
            -CAP <= s.2 <= CAP,
            -CAP <= s.3 <= CAP,
            -CAP <= s.4 <= CAP,
            -CAP <= s.5 <= CAP,
            as_octaves(s) == octaves_run(
                s0,
                i as nat,
                seed,
                lac_held as int,
                gain_held as int,
                ridged,
            ),
        decreases octaves - i,
    {
        s = next_octave(s.0, s.1, s.2, s.3, s.4, s.5, i, seed, lac_held, gain_held, ridged);
        i += 1;
    }
    if s.3 > 0 {
        let q: i128 = floor_div((s.0 as i128) * 65536, s.3 as i128);
        proof {
            // the quotient of a held sum by a norm of one or more is held by the sum's range
            vstd::arithmetic::div_mod::lemma_fundamental_div_mod((s.0 * 65536) as int, s.3 as int);
            vstd::arithmetic::div_mod::lemma_mod_bound((s.0 * 65536) as int, s.3 as int);
            assert(-0x100_0000_0000 * 65536 - 1 <= q <= 0x100_0000_0000 * 65536) by (nonlinear_arith)
                requires
                    s.0 * 65536 == s.3 * q + ((s.0 * 65536) as int % s.3 as int),
                    0 <= ((s.0 * 65536) as int % s.3 as int) < s.3,
                    1 <= s.3,
                    -0x100_0000_0000 <= s.0 <= 0x100_0000_0000,
            ;
        }
        q as i64
    } else {
        0
    }
}

/// Fractal Brownian motion: `octaves` octaves of gradient noise, the
/// frequency growing by `lac` and the amplitude by `gain` from one to the
/// next, the sample point turned by thirty degrees each time, divided by
/// the sum of the amplitudes. All numbers are in 65536ths.
pub fn fbm(x: i64, y: i64, seed: u32, octaves: u32, freq0: i64, lac: i64, gain: i64) -> (r: i64)
    ensures
        r as int == fractal(
            x as int,
            y as int,
            seed,
            octaves,
            freq0 as int,
            lac as int,
            gain as int,
            false,
        ),
        octaves == 0 ==> r == 0,
        -0x200_0000_0000_0000 <= r <= 0x200_0000_0000_0000,
{
    fractal_sum(x, y, seed, octaves, freq0, lac, gain, false)
}

/// Ridged fractal Brownian motion: as [`fbm`], with every octave turned
/// into one less the magnitude of its noise, so that the zero crossings of
/// the noise become ridges.
pub fn ridged_fbm(x: i64, y: i64, seed: u32, octaves: u32, freq0: i64, lac: i64, gain: i64) -> (r:
    i64)
    ensures
        r as int == fractal(
            x as int,
            y as int,
            seed,
            octaves,
            freq0 as int,
            lac as int,
            gain as int,
            true,
        ),
        octaves == 0 ==> r == 0,
        -0x200_0000_0000_0000 <= r <= 0x200_0000_0000_0000,
{
    fractal_sum(x, y, seed, octaves, freq0, lac, gain, true)
}

} // verus!
