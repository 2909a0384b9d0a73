//! Temperature from latitude, height and a little noise, in fixed point.
//!
//! Temperatures are in thousandths of a degree Celsius, heights in
//! 100 000ths of a metre.

use vstd::prelude::*;
use crate::grid::Grid;
use crate::noise::{fbm, fractal, held, hold};
use crate::rng::{seed_u32, stage_seed};

verus! {

/// Salt of the noise in the temperature field.
pub const SALT_TEMP: u64 = 0xC11_CAFE_0001;

/// Whether `r` is the square root of `n`, rounded down.
pub open spec fn is_sqrt(n: int, r: int) -> bool {
    0 <= r && r * r <= n < (r + 1) * (r + 1)
}

/// The square root of `n`, rounded down.
pub fn isqrt(n: u64) -> (r: u64)
    ensures
        is_sqrt(n as int, r as int),
        r <= 0xFFFF_FFFF,
{
    let mut lo: u64 = 0;
    let mut hi: u64 = 0x1_0000_0000;
    assert(0x1_0000_0000 * 0x1_0000_0000 > n) by (nonlinear_arith)
        requires
            n <= 0xFFFF_FFFF_FFFF_FFFF,
    ;
    while hi - lo > 1
        invariant
            lo < hi <= 0x1_0000_0000,
            lo * lo <= n,
            n < hi * hi,
        decreases hi - lo,
    {
        let mid: u64 = lo + (hi - lo) / 2;
        assert(mid as u128 * mid as u128 <= 0xFFFF_FFFF * 0xFFFF_FFFF) by (nonlinear_arith)
            requires
                mid <= 0xFFFF_FFFF,
        ;
        if mid as u128 * mid as u128 <= n as u128 {
            lo = mid;
        } else {
            hi = mid;
        }
    }
    lo
}

/// Latitude of row `y` of `h` rows in 65536ths: zero at the equator, one
/// at the poles.
pub open spec fn latitude(y: int, h: int) -> int {
    (if 2 * y >= h {
        2 * y - h
    } else {
        h - 2 * y
    }) * 65536 / h
}

/// The temperature at sea level on a row of latitude `lat`, for the square
/// root `root` of the latitude: thirty degrees at the equator, falling
/// with the latitude to the power of one and a half to thirty below at the
/// poles.
pub open spec fn sea_level_temperature(lat: int, root: int) -> int {
    30000 - 60000 * (lat * root / 65536) / 65536
}

/// What height takes off the temperature: six and a half degrees for
/// every thousand metres above the sea.
pub open spec fn lapse(e: int) -> int {
    if e > 0 {
        13 * e / 200000
    } else {
        0
    }
}

/// What noise adds to the temperature of cell `(x, y)`: two degrees
/// either way at most, from four octaves over eight lattice cells.
pub open spec fn weather(x: int, y: int, w: int, h: int, noise_seed: u32) -> int {
    held(
        fractal(
            x * 8 * 65536 / w,
            y * 8 * 65536 / h,
            noise_seed,
            4,
            65536int,
            131072int,
            32768int,
            false,
        ),
    ) * 2000 / 65536
}

/// Whether `t` is the temperature of cell `(x, y)` at height `e`.
pub open spec fn is_temperature(t: int, e: int, x: int, y: int, w: int, h: int, seed: u64) -> bool {
    exists|root: int|
        #![trigger is_sqrt(latitude(y, h) * 65536, root)]
        is_sqrt(latitude(y, h) * 65536, root) && t == sea_level_temperature(latitude(y, h), root)
            - lapse(e) + weather(x, y, w, h, stage_seed(seed, SALT_TEMP))
}

/// The temperature of every cell of a height field.
pub fn compute_temperature(height: &Grid<i32>, seed: u64) -> (temp: Grid<i64>)
    requires
        height.wf(),
        0 < height.w <= 0xFF_FFFF,
        0 < height.h <= 0xFF_FFFF,
    ensures
        temp.wf(),
        temp.w == height.w,
        temp.h == height.h,
        forall|x: int, y: int|
            0 <= x < height.w && 0 <= y < height.h ==> is_temperature(
                #[trigger] temp.at(x, y) as int,
                height.at(x, y) as int,
                x,
                y,
                height.w as int,
                height.h as int,
                seed,
            ),
{
    let w: usize = height.w;
    let h: usize = height.h;
    let noise_seed: u32 = seed_u32(seed, SALT_TEMP);
    assert(height.data@.len() == height.data.len());
    let mut data: Vec<i64> = Vec::new();
    let mut y: usize = 0;
    while y < h
        invariant
            height.wf(),
            0 < w <= 0xFF_FFFF,
            0 < h <= 0xFF_FFFF,
            w == height.w,
            h == height.h,
            noise_seed == stage_seed(seed, SALT_TEMP),
            y <= h,
            data@.len() == y as int * w as int,
            forall|cx: int, cy: int|
                0 <= cx < w && 0 <= cy < y ==> is_temperature(
                    #[trigger] data@[cy * w as int + cx] as int,
                    height.at(cx, cy) as int,
                    cx,
                    cy,
                    w as int,
                    h as int,
                    seed,
                ),
        decreases h - y,
    {
        let off: u64 = if 2 * y >= h {
            (2 * y - h) as u64
        } else {
            (h - 2 * y) as u64
        };
        let lat: u64 = off * 65536 / h as u64;
        proof {
            vstd::arithmetic::div_mod::lemma_div_is_ordered(
                (off * 65536) as int,
                (h * 65536) as int,
                h as int,
            );
            vstd::arithmetic::div_mod::lemma_div_by_multiple(65536, h as int);
            assert(h as int * 65536 == 65536 * h as int) by (nonlinear_arith);
        }
        let root: u64 = isqrt(lat * 65536);
        assert(root <= 65536) by (nonlinear_arith)
            requires
                root * root <= lat * 65536,
                lat <= 65536,
                0 <= root,
        ;
        assert(lat * root <= 65536 * 65536) by (nonlinear_arith)
            requires
                0 <= lat <= 65536,
                0 <= root <= 65536,
        ;
        let bent: u64 = lat * root / 65536;
        let base: i64 = 30000 - (60000 * bent / 65536) as i64;
        let v: i64 = (y as i64 * 8 * 65536) / h as i64;
        let mut x: usize = 0;
        while x < w
            invariant
                height.wf(),
                0 < w <= 0xFF_FFFF,
                0 < h <= 0xFF_FFFF,
                w == height.w,
                h == height.h,
                noise_seed == stage_seed(seed, SALT_TEMP),
                y < h,
                x <= w,
                lat as int == latitude(y as int, h as int),
                is_sqrt(lat as int * 65536, root as int),
                base as int == sea_level_temperature(lat as int, root as int),
                -30000 <= base <= 30000,
                v as int == y as int * 8 * 65536 / h as int,
                data@.len() == y as int * w as int + x as int,
                forall|cx: int, cy: int|
                    0 <= cx < w && (0 <= cy < y || (cy == y && cx < x)) ==> is_temperature(
                        #[trigger] data@[cy * w as int + cx] as int,
                        height.at(cx, cy) as int,
                        cx,
                        cy,
                        w as int,
                        h as int,
                        seed,
                    ),
            decreases w - x,
        {
            let e: i64 = height.get(x, y) as i64;
            let drop: i64 = if e > 0 {
                13 * e / 200000
            } else {
                0
            };
            let u: i64 = (x as i64 * 8 * 65536) / w as i64;
            let n: i64 = hold(fbm(u, v, noise_seed, 4, 65536, 131072, 32768) as i128);
            let wide: i128 = crate::noise::floor_div(n as i128 * 2000, 65536);
            proof {
                vstd::arithmetic::div_mod::lemma_fundamental_div_mod((n * 2000) as int, 65536);
                vstd::arithmetic::div_mod::lemma_mod_bound((n * 2000) as int, 65536);
            }
            let t: i64 = base - drop + wide as i64;
            let ghost before = data@;
            data.push(t);
            proof {
                assert forall|cx: int, cy: int|
                    0 <= cx < w && (0 <= cy < y || (cy == y && cx < x + 1)) implies is_temperature(
                    #[trigger] data@[cy * w as int + cx] as int,
                    height.at(cx, cy) as int,
                    cx,
                    cy,
                    w as int,
                    h as int,
                    seed,
                ) by {
                    if cy == y as int && cx == x as int {
                        assert(is_sqrt(latitude(cy, h as int) * 65536, root as int));
                    } else {
                        assert(0 <= cy * w as int + cx < y as int * w as int + x as int)
                            by (nonlinear_arith)
                            requires
                                0 <= cx < w as int,
                                0 <= cy < y as int || (cy == y as int && cx < x as int),
                        ;
                        assert(data@[cy * w as int + cx] == before[cy * w as int + cx]);
                    }
                }
            }
            x += 1;
        }
        assert((y as int + 1) * w as int == y as int * w as int + w as int) by (nonlinear_arith);
        y += 1;
    }
    assert(h as int * w as int == w as int * h as int) by (nonlinear_arith);
    Grid { data, w, h }
}

} // verus!
