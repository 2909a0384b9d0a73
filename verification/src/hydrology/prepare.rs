//! Fine heights for routing: the coarse heights refined by bilinear
//! interpolation and roughened by a little noise, so that rivers meander.
//!
//! Heights are in 100 000ths of a metre.

use vstd::prelude::*;
use crate::grid::{wrap_col, wrap_x, Grid};
use crate::noise::{fbm, floor_div, fractal, held, hold};
use crate::rng::{seed_u32, stage_seed};

verus! {

/// Height units in one metre.
pub const METRE: i64 = 100_000;

/// Salt of the noise that makes rivers meander.
pub const SALT_MEANDER: u64 = 0xD1A_CAFE_0001;

/// Twice the place of the fine cell `d` among the coarse cells, the centre
/// of coarse cell zero being zero: the centre of a fine cell lies at
/// `(d + 1/2) / scale - 1/2`.
pub open spec fn twice_place(d: int, scale: int) -> int {
    2 * d + 1 - scale
}

/// The coarse column west of fine column `dx`, before the wrap.
pub open spec fn west_column(dx: int, scale: int) -> int {
    twice_place(dx, scale) / (2 * scale)
}

/// The coarse row north of fine row `dy`, held between the poles.
pub open spec fn north_row(dy: int, scale: int, h: int) -> int {
    let r = twice_place(dy, scale) / (2 * scale);
    if r < 0 {
        0
    } else if r > h - 1 {
        h - 1
    } else {
        r
    }
}

/// The height of fine cell `(dx, dy)` by bilinear interpolation between
/// the four coarse cells round it; columns wrap, rows are held at the
/// poles. Weights are in `2 * scale`-ths.
pub open spec fn bilinear_at(src: Seq<i32>, w: int, h: int, scale: int, dx: int, dy: int) -> int {
    let den = 2 * scale;
    let col = west_column(dx, scale);
    let fx = twice_place(dx, scale) - col * den;
    let x0 = wrap_col(col, w);
    let x1 = wrap_col(x0 + 1, w);
    let y0 = north_row(dy, scale, h);
    let y1 = if y0 + 1 < h {
        y0 + 1
    } else {
        h - 1
    };
    let fy = twice_place(dy, scale) - y0 * den;
    let top = src[y0 * w + x0] * (den - fx) + src[y0 * w + x1] * fx;
    let bottom = src[y1 * w + x0] * (den - fx) + src[y1 * w + x1] * fx;
    (top * (den - fy) + bottom * fy) / (den * den)
}

/// The height `e` of the fine land cell `(x, y)` with its meander noise: a
/// sweep 200 cells long and a wiggle 60 cells long, 15 metres strong on
/// the plains and fading with height, and never below half a metre.
pub open spec fn meandered(e: int, x: int, y: int, noise_seed: u32) -> int {
    let large = held(
        fractal(x * 65536 / 200, y * 65536 / 200, noise_seed, 3, 65536int, 131072int, 32768int, false),
    );
    let small = held(
        fractal(
            x * 65536 / 60,
            y * 65536 / 60,
            noise_seed ^ 0xFF,
            2,
            65536int,
            131072int,
            32768int,
            false,
        ),
    );
    let amp = 6000 * METRE * METRE / (400 * METRE + e);
    let moved = e + amp * ((7 * large + 3 * small) / 10) / 65536;
    if moved < METRE / 2 {
        METRE as int / 2
    } else {
        moved
    }
}

/// A height held within the range that routing over `cells` cells can
/// take: every cell may still be raised once.
pub open spec fn with_headroom(v: int, cells: int) -> int {
    let top = i32::MAX - cells;
    if v > top {
        top
    } else if v < -top {
        -top
    } else {
        v
    }
}

/// The fine height of cell `(dx, dy)` as routing takes it: interpolated,
/// on land roughened, and held within the headroom.
pub open spec fn prepared_at(
    src: Seq<i32>,
    w: int,
    h: int,
    scale: int,
    dx: int,
    dy: int,
    noise_seed: u32,
) -> int {
    let e = bilinear_at(src, w, h, scale, dx, dy);
    with_headroom(
        if e > 0 {
            meandered(e, dx, dy, noise_seed)
        } else {
            e
        },
        (w * scale) * (h * scale),
    )
}

/// One fine height by interpolation, computed.
fn bilinear_cell(src: &Grid<i32>, scale: usize, dx: usize, dy: usize) -> (v: i64)
    requires
        src.wf(),
        0 < src.w <= i32::MAX,
        0 < src.h <= i32::MAX,
        0 < scale <= 8,
        src.w as int * scale as int <= i32::MAX,
        src.h as int * scale as int <= i32::MAX,
        dx < src.w * scale,
        dy < src.h * scale,
    ensures
        v as int == bilinear_at(
            src.data@,
            src.w as int,
            src.h as int,
            scale as int,
            dx as int,
            dy as int,
        ),
        -0x100_0000_0001 <= v <= 0x100_0000_0000,
{
    let w: usize = src.w;
    let h: usize = src.h;
    let den: i64 = 2 * scale as i64;
    assert(src.w * scale <= 8 * 0x7FFF_FFFF && src.h * scale <= 8 * 0x7FFF_FFFF) by (nonlinear_arith)
        requires
            0 < src.w <= 0x7FFF_FFFF,
            0 < src.h <= 0x7FFF_FFFF,
            0 < scale <= 8,
    ;
    let tx: i64 = 2 * dx as i64 + 1 - scale as i64;
    let ty: i64 = 2 * dy as i64 + 1 - scale as i64;
    let col: i128 = floor_div(tx as i128, den as i128);
    let row: i128 = floor_div(ty as i128, den as i128);
    proof {
        vstd::arithmetic::div_mod::lemma_fundamental_div_mod(tx as int, den as int);
        vstd::arithmetic::div_mod::lemma_mod_bound(tx as int, den as int);
        vstd::arithmetic::div_mod::lemma_fundamental_div_mod(ty as int, den as int);
        vstd::arithmetic::div_mod::lemma_mod_bound(ty as int, den as int);
        assert(-1 <= col <= 0x8000_0000) by (nonlinear_arith)
            requires
                tx == den * col + (tx as int % den as int),
                0 <= (tx as int % den as int) < den,
                2 <= den <= 16,
                -den < tx <= 0x1_0000_0000,
        ;
        assert(-1 <= row <= 0x10_0000_0000) by (nonlinear_arith)
            requires
                ty == den * row + (ty as int % den as int),
                0 <= (ty as int % den as int) < den,
                2 <= den <= 16,
                -den < ty <= 0x10_0000_0000,
        ;
        assert(-16 <= col * den <= 0x100_0000_0000) by (nonlinear_arith)
            requires
                -1 <= col <= 0x8000_0000,
                2 <= den <= 16,
        ;
        assert(0 <= (h - 1) * den <= 0x8_0000_0000) by (nonlinear_arith)
            requires
                0 < h <= 0x7FFF_FFFF,
                2 <= den <= 16,
        ;
        assert(row >= 0 ==> 0 <= row * den <= ty) by (nonlinear_arith)
            requires
                ty == den * row + (ty as int % den as int),
                0 <= (ty as int % den as int) < den,
                2 <= den <= 16,
        ;
    }
    let fx: i64 = (tx as i128 - col * den as i128) as i64;
    let x0: usize = wrap_x(col as i64, w);
    let x1: usize = wrap_x(x0 as i64 + 1, w);
    let y0: usize = if row < 0 {
        0
    } else if row > (h - 1) as i128 {
        h - 1
    } else {
        row as usize
    };
    let y1: usize = if y0 + 1 < h {
        y0 + 1
    } else {
        h - 1
    };
    assert(0 <= (y0 as i128) * (den as i128) <= 0x8_0000_0000) by (nonlinear_arith)
        requires
            0 <= y0 as i128 <= 0x7FFF_FFFF,
            2 <= den as i128 <= 16,
    ;
    let fy: i64 = (ty as i128 - (y0 as i128) * den as i128) as i64;
    proof {
        // a fine row lies within one coarse row of the coarse row it is counted from
        if row < 0 {
            assert(ty < 0) by (nonlinear_arith)
                requires
                    ty == den * row + (ty as int % den as int),
                    (ty as int % den as int) < den,
                    row <= -1,
                    2 <= den,
            ;
        } else if row > h - 1 {
            assert(ty < h * den) by (nonlinear_arith)
                requires
                    ty == 2 * dy + 1 - scale,
                    dy < h * scale,
                    den == 2 * scale,
                    0 < scale,
            ;
            assert((h - 1) * den == h * den - den) by (nonlinear_arith);
            assert(ty >= h * den) by (nonlinear_arith)
                requires
                    ty == den * row + (ty as int % den as int),
                    0 <= (ty as int % den as int),
                    row >= h,
                    2 <= den,
            ;
        } else {
            assert(row * den == den * row) by (nonlinear_arith);
        }
        assert(fy == ty - y0 * den);
        assert(-den <= fy <= den);
    }
    let v00: i64 = src.get(x0, y0) as i64;
    let v10: i64 = src.get(x1, y0) as i64;
    let v01: i64 = src.get(x0, y1) as i64;
    let v11: i64 = src.get(x1, y1) as i64;
    assert(-0x8000_0000 * 16 <= v00 * (den - fx) <= 0x8000_0000 * 16) by (nonlinear_arith)
        requires
            -0x8000_0000 <= v00 <= 0x8000_0000,
            0 <= den - fx <= 16,
    ;
    assert(-0x8000_0000 * 16 <= v10 * fx <= 0x8000_0000 * 16) by (nonlinear_arith)
        requires
            -0x8000_0000 <= v10 <= 0x8000_0000,
            0 <= fx <= 16,
    ;
    assert(-0x8000_0000 * 16 <= v01 * (den - fx) <= 0x8000_0000 * 16) by (nonlinear_arith)
        requires
            -0x8000_0000 <= v01 <= 0x8000_0000,
            0 <= den - fx <= 16,
    ;
    assert(-0x8000_0000 * 16 <= v11 * fx <= 0x8000_0000 * 16) by (nonlinear_arith)
        requires
            -0x8000_0000 <= v11 <= 0x8000_0000,
            0 <= fx <= 16,
    ;
    let top: i64 = v00 * (den - fx) + v10 * fx;
    let bottom: i64 = v01 * (den - fx) + v11 * fx;
    proof {
        // each side is a weighted mean times the denominator
        assert(-0x8000_0000 * den <= top <= 0x8000_0000 * den) by (nonlinear_arith)
            requires
                top == v00 * (den - fx) + v10 * fx,
                -0x8000_0000 <= v00 <= 0x8000_0000,
                -0x8000_0000 <= v10 <= 0x8000_0000,
                0 <= fx <= den,
        ;
        assert(-0x8000_0000 * den <= bottom <= 0x8000_0000 * den) by (nonlinear_arith)
            requires
                bottom == v01 * (den - fx) + v11 * fx,
                -0x8000_0000 <= v01 <= 0x8000_0000,
                -0x8000_0000 <= v11 <= 0x8000_0000,
                0 <= fx <= den,
        ;
    }
    assert(4 <= den * den <= 256) by (nonlinear_arith)
        requires
            2 <= den <= 16,
    ;
    let lean: i64 = den - fy;
    assert(-0x200_0000_0000 <= top * lean <= 0x200_0000_0000) by (nonlinear_arith)
        requires
            -0x8_0000_0000 <= top <= 0x8_0000_0000,
            0 <= lean <= 32,
    ;
    assert(-0x200_0000_0000 <= bottom * fy <= 0x200_0000_0000) by (nonlinear_arith)
        requires
            -0x8_0000_0000 <= bottom <= 0x8_0000_0000,
            -16 <= fy <= 16,
    ;
    let sum: i64 = top * lean + bottom * fy;
    assert(4 <= den * den <= 256) by (nonlinear_arith)
        requires
            2 <= den <= 16,
    ;
    let q: i128 = floor_div(sum as i128, (den * den) as i128);
    proof {
        let dd = (den * den) as int;
        assert(4 <= dd <= 256) by (nonlinear_arith)
            requires
                2 <= den <= 16,
                dd == den * den,
        ;
        vstd::arithmetic::div_mod::lemma_fundamental_div_mod(sum as int, dd);
        vstd::arithmetic::div_mod::lemma_mod_bound(sum as int, dd);
        assert(-0x100_0000_0001 <= q <= 0x100_0000_0000) by (nonlinear_arith)
            requires
                sum == dd * q + (sum as int % dd),
                0 <= (sum as int % dd) < dd,
                4 <= dd <= 256,
                -0x400_0000_0000 <= sum <= 0x400_0000_0000,
        ;
    }
    q as i64
}

/// The meander noise on one fine land cell, computed.
fn meander(e: i64, x: usize, y: usize, noise_seed: u32) -> (r: i64)
    requires
        0 < e <= 0x100_0000_0000,
        x <= 0x7FFF_FFFF,
        y <= 0x7FFF_FFFF,
    ensures
        r as int == meandered(e as int, x as int, y as int, noise_seed),
        METRE / 2 <= r <= 0x4000_0000_0000,
{
    let large: i64 = hold(
        fbm(
            x as i64 * 65536 / 200,
            y as i64 * 65536 / 200,
            noise_seed,
            3,
            65536,
            131072,
            32768,
        ) as i128,
    );
    let small: i64 = hold(
        fbm(
            x as i64 * 65536 / 60,
            y as i64 * 65536 / 60,
            noise_seed ^ 0xFF,
            2,
            65536,
            131072,
            32768,
        ) as i128,
    );
    let amp: i64 = 6000 * METRE * METRE / (400 * METRE + e);
    assert(0 <= amp <= 1_500_000) by {
        vstd::arithmetic::div_mod::lemma_div_is_ordered_by_denominator(
            60_000_000_000_000,
            40_000_000,
            400 * METRE as int + e as int,
        );
        vstd::arithmetic::div_mod::lemma_div_pos_is_pos(
            60_000_000_000_000,
            400 * METRE as int + e as int,
        );
    }
    let blendq: i128 = floor_div(7 * large as i128 + 3 * small as i128, 10);
    proof {
        vstd::arithmetic::div_mod::lemma_fundamental_div_mod(
            (7 * large + 3 * small) as int,
            10,
        );
        vstd::arithmetic::div_mod::lemma_mod_bound((7 * large + 3 * small) as int, 10);
    }
    assert(-1_500_000 * 0x100_0000_0001 <= (amp as i128) * blendq <= 1_500_000 * 0x100_0000_0001)
        by (nonlinear_arith)
        requires
            0 <= amp as i128 <= 1_500_000,
            -0x100_0000_0001 <= blendq <= 0x100_0000_0001,
    ;
    let delta: i128 = floor_div((amp as i128) * blendq, 65536);
    proof {
        vstd::arithmetic::div_mod::lemma_fundamental_div_mod(((amp as i128) * blendq) as int, 65536);
        vstd::arithmetic::div_mod::lemma_mod_bound(((amp as i128) * blendq) as int, 65536);
    }
    let moved: i128 = e as i128 + delta;
    if moved < (METRE / 2) as i128 {
        METRE / 2
    } else {
        moved as i64
    }
}

/// The fine heights that routing takes: the coarse heights refined `scale`
/// times by bilinear interpolation, the land roughened by meander noise,
/// and every height held within the headroom that routing needs.
pub fn prepare_heights(src: &Grid<i32>, scale: usize, seed: u64) -> (fine: Vec<i32>)
    requires
        src.wf(),
        0 < src.w,
        0 < src.h,
        0 < scale <= 8,
        (src.w as int * scale as int) * (src.h as int * scale as int) <= 0x3FFF_FFFF,
    ensures
        fine@.len() == (src.w as int * scale as int) * (src.h as int * scale as int),
        forall|dx: int, dy: int|
            0 <= dx < src.w as int * scale as int && 0 <= dy < src.h as int * scale as int
                ==> #[trigger] fine@[dy * (src.w as int * scale as int) + dx] as int == prepared_at(
                src.data@,
                src.w as int,
                src.h as int,
                scale as int,
                dx,
                dy,
                stage_seed(seed, SALT_MEANDER),
            ),
        forall|i: int| 0 <= i < fine@.len() ==> #[trigger] fine@[i] + fine@.len() <= i32::MAX,
{
    let noise_seed: u32 = seed_u32(seed, SALT_MEANDER);
    proof {
        assert(src.w as int <= src.w as int * scale as int && src.h as int <= src.h as int
            * scale as int) by (nonlinear_arith)
            requires
                0 < src.w,
                0 < src.h,
                0 < scale,
        ;
        assert(src.w as int * scale as int <= (src.w as int * scale as int) * (src.h as int
            * scale as int)) by (nonlinear_arith)
            requires
                0 < src.w as int * scale as int,
                0 < src.h as int * scale as int,
        ;
        assert(src.h as int * scale as int <= (src.w as int * scale as int) * (src.h as int
            * scale as int)) by (nonlinear_arith)
            requires
                0 < src.w as int * scale as int,
                0 < src.h as int * scale as int,
        ;
        assert(0 < src.w as int * scale as int && 0 < src.h as int * scale as int)
            by (nonlinear_arith)
            requires
                0 < src.w,
                0 < src.h,
                0 < scale,
        ;
    }
    let dw: usize = src.w * scale;
    let dh: usize = src.h * scale;
    let cells: usize = dw * dh;
    let top: i64 = i32::MAX as i64 - cells as i64;
    let mut fine: Vec<i32> = Vec::with_capacity(cells);
    let mut dy: usize = 0;
    while dy < dh
        invariant
            src.wf(),
            0 < src.w <= i32::MAX,
            0 < src.h <= i32::MAX,
            0 < scale <= 8,
            dw as int == src.w as int * scale as int,
            dh as int == src.h as int * scale as int,
            cells as int == dw as int * dh as int,
            cells <= 0x3FFF_FFFF,
            dw <= cells,
            dh <= cells,
            top == i32::MAX - cells,
            noise_seed == stage_seed(seed, SALT_MEANDER),
            dy <= dh,
            fine@.len() == dy as int * dw as int,
            forall|cx: int, cy: int|
                0 <= cx < dw as int && 0 <= cy < dy as int ==> #[trigger] fine@[cy * (dw as int)
                    + cx] as int == prepared_at(
                    src.data@,
                    src.w as int,
                    src.h as int,
                    scale as int,
                    cx,
                    cy,
                    noise_seed,
                ),
            forall|i: int| 0 <= i < fine@.len() ==> #[trigger] fine@[i] + cells <= i32::MAX,
        decreases dh - dy,
    {
        let mut dx: usize = 0;
        while dx < dw
            invariant
                src.wf(),
                0 < src.w <= i32::MAX,
                0 < src.h <= i32::MAX,
                0 < scale <= 8,
                dw as int == src.w as int * scale as int,
                dh as int == src.h as int * scale as int,
                cells as int == dw as int * dh as int,
                cells <= 0x3FFF_FFFF,
                dw <= cells,
                dh <= cells,
                top == i32::MAX - cells,
                noise_seed == stage_seed(seed, SALT_MEANDER),
                dy < dh,
                dx <= dw,
                fine@.len() == dy as int * dw as int + dx as int,
                forall|cx: int, cy: int|
                    0 <= cx < dw as int && (0 <= cy < dy as int || (cy == dy as int && cx
                        < dx as int)) ==> #[trigger] fine@[cy * (dw as int) + cx] as int
                        == prepared_at(
                        src.data@,
                        src.w as int,
                        src.h as int,
                        scale as int,
                        cx,
                        cy,
                        noise_seed,
                    ),
                forall|i: int| 0 <= i < fine@.len() ==> #[trigger] fine@[i] + cells <= i32::MAX,
            decreases dw - dx,
        {
            let e: i64 = bilinear_cell(src, scale, dx, dy);
            let rough: i64 = if e > 0 {
                meander(e, dx, dy, noise_seed)
            } else {
                e
            };
            let v: i64 = if rough > top {
                top
            } else if rough < -top {
                -top
            } else {
                rough
            };
            let ghost before = fine@;
            fine.push(v as i32);
            proof {
                assert forall|cx: int, cy: int|
                    0 <= cx < dw as int && (0 <= cy < dy as int || (cy == dy as int && cx
                        < dx as int + 1)) implies #[trigger] fine@[cy * (dw as int) + cx] as int
                    == prepared_at(
                    src.data@,
                    src.w as int,
                    src.h as int,
                    scale as int,
                    cx,
                    cy,
                    noise_seed,
                ) by {
                    if cy == dy as int && cx == dx as int {
                    } else {
                        assert(0 <= cy * (dw as int) + cx < dy as int * dw as int + dx as int)
                            by (nonlinear_arith)
                            requires
                                0 <= cx < dw as int,
                                0 <= cy < dy as int || (cy == dy as int && cx < dx as int),
                        ;
                        assert(fine@[cy * (dw as int) + cx] == before[cy * (dw as int) + cx]);
                    }
                }
                assert forall|i: int| 0 <= i < fine@.len() implies #[trigger] fine@[i] + cells
                    <= i32::MAX by {
                    if i < before.len() {
                        assert(fine@[i] == before[i]);
                    }
                }
            }
            dx += 1;
        }
        assert((dy as int + 1) * dw as int == dy as int * dw as int + dw as int)
            by (nonlinear_arith);
        dy += 1;
    }
    assert(dh as int * dw as int == dw as int * dh as int) by (nonlinear_arith);
    fine
}

} // verus!
