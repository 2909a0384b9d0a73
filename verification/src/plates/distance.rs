//! Nearest-boundary propagation by jump flooding on the cylinder.
//!
//! Every cell ends up with the coordinates of a boundary cell close to it.
//! Distances are squared and exact; across the east-west seam the shorter
//! way round counts.

use vstd::prelude::*;
use crate::grid::{
    lemma_index_in_range, lemma_index_split, step_dx, step_dy, wrap_col, wrap_x, Grid,
};

verus! {

/// Coordinate value of a cell that knows no boundary cell yet.
pub const UNSET: u16 = 65535;

/// Squared distance of a cell that knows no boundary cell: larger than any
/// squared distance on a grid.
pub const UNREACHED: u64 = 0xFFFF_FFFF_FFFF_FFFF;

/// Squared distance from `(x, y)` to `(bx, by)` on a cylinder `w` cells
/// round.
pub open spec fn wrapped_dist_sq(x: int, y: int, bx: int, by: int, w: int) -> int {
    let raw = if x >= bx {
        x - bx
    } else {
        bx - x
    };
    let dx = if raw <= w - raw {
        raw
    } else {
        w - raw
    };
    dx * dx + (y - by) * (y - by)
}

/// Squared distance from cell `i` to the boundary cell `(bx, by)` it knows,
/// or [`UNREACHED`] where it knows none.
pub open spec fn reach(i: int, bx: u16, by: u16, w: int) -> int {
    if bx == UNSET {
        UNREACHED as int
    } else {
        wrapped_dist_sq(i % w, i / w, bx as int, by as int, w)
    }
}

/// The store position `s` steps from cell `i` in direction `d`, if the jump
/// stays between the poles.
pub open spec fn jump_index(i: int, d: int, s: int, w: int, h: int) -> Option<int> {
    if 0 <= i / w + step_dy(d) * s < h {
        Some((i / w + step_dy(d) * s) * w + wrap_col(i % w + step_dx(d) * s, w))
    } else {
        None
    }
}

/// `best`, or what the cell `s` steps away in direction `d` knows, where
/// that boundary cell is strictly nearer to cell `i`.
pub open spec fn take_nearer(
    best: (u16, u16),
    near_x: Seq<u16>,
    near_y: Seq<u16>,
    i: int,
    d: int,
    s: int,
    w: int,
    h: int,
) -> (u16, u16) {
    match jump_index(i, d, s, w, h) {
        None => best,
        Some(n) => if near_x[n] != UNSET && wrapped_dist_sq(
            i % w,
            i / w,
            near_x[n] as int,
            near_y[n] as int,
            w,
        ) < reach(i, best.0, best.1, w) {
            (near_x[n], near_y[n])
        } else {
            best
        },
    }
}

/// What cell `i` knows after it has asked its eight neighbours at jump `s`:
/// the four edge directions first, then the four corners.
pub open spec fn nearest_known(
    near_x: Seq<u16>,
    near_y: Seq<u16>,
    i: int,
    s: int,
    w: int,
    h: int,
) -> (u16, u16) {
    let a = take_nearer((near_x[i], near_y[i]), near_x, near_y, i, 3, s, w, h);
    let b = take_nearer(a, near_x, near_y, i, 4, s, w, h);
    let c = take_nearer(b, near_x, near_y, i, 1, s, w, h);
    let e = take_nearer(c, near_x, near_y, i, 6, s, w, h);
    let f = take_nearer(e, near_x, near_y, i, 0, s, w, h);
    let g = take_nearer(f, near_x, near_y, i, 2, s, w, h);
    let k = take_nearer(g, near_x, near_y, i, 5, s, w, h);
    take_nearer(k, near_x, near_y, i, 7, s, w, h)
}

/// The field after the first `t` cells of one sweep at jump `s`. The sweep
/// runs in store order and every cell sees what the cells before it have
/// already learnt.
pub open spec fn swept(
    near_x: Seq<u16>,
    near_y: Seq<u16>,
    s: int,
    w: int,
    h: int,
    t: nat,
) -> (Seq<u16>, Seq<u16>)
    decreases t,
{
    if t == 0 {
        (near_x, near_y)
    } else {
        let p = swept(near_x, near_y, s, w, h, (t - 1) as nat);
        let b = nearest_known(p.0, p.1, t - 1, s, w, h);
        (p.0.update(t - 1, b.0), p.1.update(t - 1, b.1))
    }
}

/// The field after sweeps at jump `s`, then half of it, and so on down to 1.
pub open spec fn cascade(near_x: Seq<u16>, near_y: Seq<u16>, s: int, w: int, h: int) -> (
    Seq<u16>,
    Seq<u16>,
)
    decreases s,
{
    if s < 1 {
        (near_x, near_y)
    } else {
        let p = swept(near_x, near_y, s, w, h, near_x.len());
        cascade(p.0, p.1, s / 2, w, h)
    }
}

/// The first of the doublings of `p` that is no smaller than `m`.
pub open spec fn doubled_up_to(p: nat, m: nat) -> nat
    decreases
            (if m > p {
                m - p
            } else {
                0
            }),
{
    if p >= m || p == 0 {
        p
    } else {
        doubled_up_to(2 * p, m)
    }
}

/// The largest jump of the flood: half the smallest power of two that is no
/// smaller than the longer side of the grid.
pub open spec fn first_jump(w: int, h: int) -> int {
    let longer = if w >= h {
        w
    } else {
        h
    };
    (doubled_up_to(1, longer as nat) / 2) as int
}

/// The starting field: a boundary cell knows itself, any other cell nothing.
pub open spec fn seeded(btype: Seq<u8>, w: int) -> (Seq<u16>, Seq<u16>) {
    (
        Seq::new(
            btype.len(),
            |i: int|
                if btype[i] != 0 {
                    (i % w) as u16
                } else {
                    UNSET
                },
        ),
        Seq::new(
            btype.len(),
            |i: int|
                if btype[i] != 0 {
                    (i / w) as u16
                } else {
                    UNSET
                },
        ),
    )
}

/// The flooded field: the cascade from the largest jump, then one more
/// sweep at jump 2 and one at jump 1.
pub open spec fn jump_flood(btype: Seq<u8>, w: int, h: int) -> (Seq<u16>, Seq<u16>) {
    let s0 = seeded(btype, w);
    let c = cascade(s0.0, s0.1, first_jump(w, h), w, h);
    let tidied = swept(c.0, c.1, 2, w, h, btype.len());
    swept(tidied.0, tidied.1, 1, w, h, btype.len())
}

/// What a cell knows is either nothing or a boundary cell of the grid.
pub open spec fn names_boundary(btype: Seq<u8>, bx: u16, by: u16, w: int, h: int) -> bool {
    bx != UNSET ==> (bx as int) < w && (by as int) < h && btype[by as int * w + bx as int] != 0
}

/// The field is sound: what any cell knows is a boundary cell, and every
/// boundary cell knows itself.
pub open spec fn field_sound(
    btype: Seq<u8>,
    near_x: Seq<u16>,
    near_y: Seq<u16>,
    w: int,
    h: int,
) -> bool {
    &&& near_x.len() == btype.len()
    &&& near_y.len() == btype.len()
    &&& forall|i: int|
        0 <= i < btype.len() ==> names_boundary(btype, #[trigger] near_x[i], near_y[i], w, h)
    &&& forall|i: int|
        0 <= i < btype.len() && #[trigger] btype[i] != 0 ==> near_x[i] as int == i % w
            && near_y[i] as int == i / w
}

/// A squared distance is never negative, and zero from a cell to itself.
pub proof fn lemma_dist_sq_bounds(x: int, y: int, bx: int, by: int, w: int)
    requires
        0 <= x < w <= 65535,
        0 <= bx <= 65535,
        0 <= y <= 65535,
        0 <= by <= 65535,
    ensures
        0 <= wrapped_dist_sq(x, y, bx, by, w) <= 2 * 65535 * 65535,
        wrapped_dist_sq(x, y, x, y, w) == 0,
{
    let raw = if x >= bx {
        x - bx
    } else {
        bx - x
    };
    let dx = if raw <= w - raw {
        raw
    } else {
        w - raw
    };
    assert(-65535 <= dx <= 65535);
    assert(0 <= dx * dx <= 65535 * 65535) by (nonlinear_arith)
        requires
            -65535 <= dx <= 65535,
    ;
    assert(0 <= (y - by) * (y - by) <= 65535 * 65535) by (nonlinear_arith)
        requires
            -65535 <= y - by <= 65535,
    ;
}

/// Squared distance from `(x, y)` to `(bx, by)` with the east-west wrap.
pub fn dist_sq(x: usize, y: usize, bx: u16, by: u16, w: usize) -> (r: u64)
    requires
        x < w <= 65535,
        y <= 65535,
    ensures
        r as int == wrapped_dist_sq(x as int, y as int, bx as int, by as int, w as int),
        r <= 2 * 65535 * 65535,
{
    proof {
        lemma_dist_sq_bounds(x as int, y as int, bx as int, by as int, w as int);
    }
    let xi: i64 = x as i64;
    let bi: i64 = bx as i64;
    let raw: i64 = if xi >= bi {
        xi - bi
    } else {
        bi - xi
    };
    let other: i64 = w as i64 - raw;
    let dx: i64 = if raw <= other {
        raw
    } else {
        other
    };
    let dy: i64 = y as i64 - by as i64;
    assert(0 <= dx * dx <= 65535 * 65535) by (nonlinear_arith)
        requires
            -65535 <= dx <= 65535,
    ;
    assert(0 <= dy * dy <= 65535 * 65535) by (nonlinear_arith)
        requires
            -65535 <= dy <= 65535,
    ;
    (dx * dx + dy * dy) as u64
}

/// The cell `s` steps from cell `i` in direction `d`.
fn jump_to(i: usize, d: u8, s: usize, w: usize, h: usize) -> (r: Option<usize>)
    requires
        0 < w <= 65535,
        h <= 65535,
        (i as int) < w as int * h as int,
        d < 8,
        s <= 65536,
    ensures
        match r {
            Some(n) => jump_index(i as int, d as int, s as int, w as int, h as int) == Some(
                n as int,
            ) && (n as int) < w as int * h as int,
            None => jump_index(i as int, d as int, s as int, w as int, h as int).is_none(),
        },
{
    let x: usize = i % w;
    let y: usize = i / w;
    proof {
        vstd::arithmetic::div_mod::lemma_fundamental_div_mod(i as int, w as int);
        assert(y < h) by (nonlinear_arith)
            requires
                (i as int) < w as int * h as int,
                i as int == w as int * y as int + x as int,
                0 <= x,
                0 < w,
        ;
        assert(w as int * h as int <= 65535 * 65535) by (nonlinear_arith)
            requires
                0 < w <= 65535,
                0 <= h <= 65535,
        ;
    }
    let si: i64 = s as i64;
    let jx: i64 = if d == 0 || d == 3 || d == 5 {
        -si
    } else if d == 1 || d == 6 {
        0
    } else {
        si
    };
    let jy: i64 = if d <= 2 {
        -si
    } else if d <= 4 {
        0
    } else {
        si
    };
    let ny: i64 = y as i64 + jy;
    if ny < 0 || ny >= h as i64 {
        return None;
    }
    let nx: usize = wrap_x(x as i64 + jx, w);
    proof {
        lemma_index_in_range(nx as int, ny as int, w as int, h as int);
        assert(0 <= ny as int * w as int) by (nonlinear_arith)
            requires
                0 <= ny,
                0 < w,
        ;
    }
    Some(ny as usize * w + nx)
}

/// Asking one neighbour keeps what a cell knows sound.
proof fn lemma_take_nearer_sound(
    btype: Seq<u8>,
    best: (u16, u16),
    near_x: Seq<u16>,
    near_y: Seq<u16>,
    i: int,
    d: int,
    s: int,
    w: int,
    h: int,
)
    requires
        0 < w <= 65535,
        0 <= h <= 65535,
        btype.len() == w * h,
        0 <= i < btype.len(),
        0 <= s,
        field_sound(btype, near_x, near_y, w, h),
        names_boundary(btype, best.0, best.1, w, h),
        btype[i] != 0 ==> best.0 as int == i % w && best.1 as int == i / w,
    ensures
        names_boundary(btype, take_nearer(best, near_x, near_y, i, d, s, w, h).0, take_nearer(best, near_x, near_y, i, d, s, w, h).1, w, h),
        btype[i] != 0 ==> take_nearer(best, near_x, near_y, i, d, s, w, h) == best,
{
    match jump_index(i, d, s, w, h) {
        None => {},
        Some(n) => {
            let x = wrap_col(i % w + step_dx(d) * s, w);
            let y = i / w + step_dy(d) * s;
            lemma_index_in_range(x, y, w, h);
            assert(0 <= i / w < h) by {
                vstd::arithmetic::div_mod::lemma_fundamental_div_mod(i, w);
                assert(i / w < h) by (nonlinear_arith)
                    requires
                        i < w * h,
                        i == w * (i / w) + i % w,
                        0 <= i % w,
                        0 < w,
                ;
                assert(0 <= i / w) by (nonlinear_arith)
                    requires
                        0 <= i,
                        i == w * (i / w) + i % w,
                        i % w < w,
                        0 < w,
                ;
            }
            if near_x[n] != UNSET {
                assert(names_boundary(btype, near_x[n], near_y[n], w, h));
                lemma_dist_sq_bounds(i % w, i / w, near_x[n] as int, near_y[n] as int, w);
                if btype[i] != 0 {
                    lemma_dist_sq_bounds(i % w, i / w, i % w, i / w, w);
                }
            }
        },
    }
}

/// A store position names the cell whose row is the quotient and whose
/// column is the remainder by the width.
pub proof fn lemma_cell_of_index(i: int, w: int, h: int)
    requires
        0 < w,
        0 <= i < w * h,
    ensures
        0 <= i / w < h,
        0 <= i % w < w,
        (i / w) * w + i % w == i,
{
    vstd::arithmetic::div_mod::lemma_fundamental_div_mod(i, w);
    assert(i / w < h) by (nonlinear_arith)
        requires
            i < w * h,
            i == w * (i / w) + i % w,
            0 <= i % w,
            0 < w,
    ;
    assert(0 <= i / w) by (nonlinear_arith)
        requires
            0 <= i,
            i == w * (i / w) + i % w,
            i % w < w,
            0 < w,
    ;
    assert((i / w) * w == w * (i / w)) by (nonlinear_arith);
}

/// Whether `n` is one, doubled some number of times.
pub open spec fn is_doubling(n: int) -> bool
    decreases n,
{
    n == 1 || (n > 1 && n % 2 == 0 && is_doubling(n / 2))
}

/// A jump that stays between the poles ends on a cell of the grid.
proof fn lemma_jump_inside(i: int, d: int, s: int, w: int, h: int)
    requires
        0 < w,
        0 <= i < w * h,
    ensures
        jump_index(i, d, s, w, h) matches Some(n) ==> 0 <= n < w * h,
{
    if jump_index(i, d, s, w, h).is_some() {
        vstd::arithmetic::div_mod::lemma_mod_bound(i % w + step_dx(d) * s, w);
        lemma_index_in_range(wrap_col(i % w + step_dx(d) * s, w), i / w + step_dy(d) * s, w, h);
    }
}

/// What one sweep at jump `s` does for what cells know: a cell that knew a
/// boundary cell knows one still, and a cell knows one if any of the eight
/// cells at the jump from it knew one.
pub open spec fn pass_known(before: Seq<u16>, after: Seq<u16>, s: int, w: int, h: int) -> bool {
    &&& after.len() == before.len()
    &&& forall|c: int| 0 <= c < before.len() && before[c] != UNSET ==> #[trigger] after[c] != UNSET
    &&& forall|c: int, d: int|
        0 <= c < before.len() && 0 <= d < 8 ==> (#[trigger] jump_index(c, d, s, w, h) matches Some(
            m,
        ) ==> before[m] != UNSET ==> after[c] != UNSET)
}

/// The store position `kx` jumps east and `ky` jumps south of cell `b`.
pub open spec fn jumps_from(b: int, kx: int, ky: int, s: int, w: int) -> int {
    (b / w + ky * s) * w + (b % w + kx * s)
}

/// Whether every cell that lies up to `m - 1` jumps of `s` from a boundary
/// cell, along the rows and along the columns, knows a boundary cell.
pub open spec fn covered(btype: Seq<u8>, near_x: Seq<u16>, s: int, m: int, w: int, h: int) -> bool {
    forall|b: int, kx: int, ky: int|
        0 <= b < btype.len() && btype[b] != 0 && -m < kx < m && -m < ky < m && 0 <= b % w + kx * s
            < w && 0 <= b / w + ky * s < h ==> near_x[#[trigger] jumps_from(b, kx, ky, s, w)]
            != UNSET
}

/// Half of `k`, rounded towards zero.
pub open spec fn half(k: int) -> int {
    if k >= 0 {
        k / 2
    } else {
        -((-k) / 2)
    }
}

/// The direction of the step `(dx, dy)`.
pub open spec fn direction_of(dx: int, dy: int) -> int {
    if dy < 0 {
        dx + 1
    } else if dy == 0 {
        if dx < 0 {
            3
        } else {
            4
        }
    } else {
        dx + 6
    }
}

/// A sweep at half the jump doubles how far the boundary cells are known.
proof fn lemma_pass_covers(
    btype: Seq<u8>,
    before: Seq<u16>,
    after: Seq<u16>,
    s: int,
    m: int,
    w: int,
    h: int,
)
    requires
        0 < w,
        0 <= h,
        btype.len() == w * h,
        before.len() == btype.len(),
        1 <= s,
        1 <= m,
        covered(btype, before, 2 * s, m, w, h),
        pass_known(before, after, s, w, h),
    ensures
        covered(btype, after, s, 2 * m, w, h),
{
    assert forall|b: int, kx: int, ky: int|
        0 <= b < btype.len() && btype[b] != 0 && -(2 * m) < kx < 2 * m && -(2 * m) < ky < 2 * m && 0
            <= b % w + kx * s < w && 0 <= b / w + ky * s < h implies after[#[trigger] jumps_from(
        b,
        kx,
        ky,
        s,
        w,
    )] != UNSET by {
        let hx = half(kx);
        let hy = half(ky);
        let jx = kx - 2 * hx;
        let jy = ky - 2 * hy;
        let bx = b % w;
        let by = b / w;
        let tx = bx + kx * s;
        let ty = by + ky * s;
        let t = jumps_from(b, kx, ky, s, w);
        lemma_cell_of_index(b, w, h);
        assert(hx * (2 * s) == kx * s - jx * s) by (nonlinear_arith)
            requires
                jx == kx - 2 * hx,
        ;
        assert(hy * (2 * s) == ky * s - jy * s) by (nonlinear_arith)
            requires
                jy == ky - 2 * hy,
        ;
        // the half-way cell lies between the boundary cell and the cell itself
        assert(jx == 1 ==> kx * s >= s) by (nonlinear_arith)
            requires
                jx == 1 ==> kx >= 1,
                s >= 1,
        ;
        assert(jx == -1 ==> kx * s <= -s) by (nonlinear_arith)
            requires
                jx == -1 ==> kx <= -1,
                s >= 1,
        ;
        assert(jy == 1 ==> ky * s >= s) by (nonlinear_arith)
            requires
                jy == 1 ==> ky >= 1,
                s >= 1,
        ;
        assert(jy == -1 ==> ky * s <= -s) by (nonlinear_arith)
            requires
                jy == -1 ==> ky <= -1,
                s >= 1,
        ;
        assert(jx * s == (if jx == 1 {
            s
        } else if jx == -1 {
            -s
        } else {
            0
        })) by (nonlinear_arith)
            requires
                -1 <= jx <= 1,
        ;
        assert(jy * s == (if jy == 1 {
            s
        } else if jy == -1 {
            -s
        } else {
            0
        })) by (nonlinear_arith)
            requires
                -1 <= jy <= 1,
        ;
        let px = bx + hx * (2 * s);
        let py = by + hy * (2 * s);
        assert(0 <= px < w && 0 <= py < h);
        let t2 = jumps_from(b, hx, hy, 2 * s, w);
        assert(before[t2] != UNSET);
        lemma_index_in_range(px, py, w, h);
        lemma_index_in_range(tx, ty, w, h);
        lemma_index_split(tx, ty, w);
        if jx == 0 && jy == 0 {
            assert(t2 == t);
        } else {
            let d = direction_of(-jx, -jy);
            assert(0 <= d < 8 && step_dx(d) == -jx && step_dy(d) == -jy);
            assert(step_dx(d) * s == -(jx * s) && step_dy(d) * s == -(jy * s)) by (nonlinear_arith)
                requires
                    step_dx(d) == -jx,
                    step_dy(d) == -jy,
            ;
            vstd::arithmetic::div_mod::lemma_small_mod(px as nat, w as nat);
            assert(jump_index(t, d, s, w, h) == Some(t2));
        }
    }
}

/// What the boundary cells are known to, they stay known to when cells
/// only ever learn.
proof fn lemma_covered_kept(
    btype: Seq<u8>,
    before: Seq<u16>,
    after: Seq<u16>,
    s: int,
    m: int,
    w: int,
    h: int,
)
    requires
        0 < w,
        0 <= h,
        btype.len() == w * h,
        before.len() == btype.len(),
        after.len() == before.len(),
        covered(btype, before, s, m, w, h),
        forall|c: int| 0 <= c < before.len() && before[c] != UNSET ==> #[trigger] after[c] != UNSET,
    ensures
        covered(btype, after, s, m, w, h),
{
    assert forall|b: int, kx: int, ky: int|
        0 <= b < btype.len() && btype[b] != 0 && -m < kx < m && -m < ky < m && 0 <= b % w + kx * s
            < w && 0 <= b / w + ky * s < h implies after[#[trigger] jumps_from(b, kx, ky, s, w)]
        != UNSET by {
        lemma_index_in_range(b % w + kx * s, b / w + ky * s, w, h);
        assert(before[jumps_from(b, kx, ky, s, w)] != UNSET);
    }
}

/// `best`, or what the neighbour at jump `s` in direction `d` knows, where
/// that is strictly nearer.
fn nearer(
    best: (u16, u16),
    near_x: &Vec<u16>,
    near_y: &Vec<u16>,
    i: usize,
    d: u8,
    s: usize,
    w: usize,
    h: usize,
    Ghost(btype): Ghost<Seq<u8>>,
) -> (r: (u16, u16))
    requires
        0 < w <= 65535,
        h <= 65535,
        btype.len() == w as int * h as int,
        i < btype.len(),
        d < 8,
        s <= 65536,
        field_sound(btype, near_x@, near_y@, w as int, h as int),
        names_boundary(btype, best.0, best.1, w as int, h as int),
        btype[i as int] != 0 ==> best.0 as int == i as int % w as int && best.1 as int == i as int
            / w as int,
    ensures
        r == take_nearer(best, near_x@, near_y@, i as int, d as int, s as int, w as int, h as int),
        names_boundary(btype, r.0, r.1, w as int, h as int),
        btype[i as int] != 0 ==> r == best,
        best.0 != UNSET ==> r.0 != UNSET,
        jump_index(i as int, d as int, s as int, w as int, h as int) matches Some(n) ==> near_x@[n]
            != UNSET ==> r.0 != UNSET,
{
    proof {
        lemma_take_nearer_sound(
            btype,
            best,
            near_x@,
            near_y@,
            i as int,
            d as int,
            s as int,
            w as int,
            h as int,
        );
        lemma_cell_of_index(i as int, w as int, h as int);
    }
    match jump_to(i, d, s, w, h) {
        None => best,
        Some(n) => {
            let cx: u16 = near_x[n];
            if cx == UNSET {
                return best;
            }
            let cy: u16 = near_y[n];
            let x: usize = i % w;
            let y: usize = i / w;
            let cand: u64 = dist_sq(x, y, cx, cy, w);
            let cur: u64 = if best.0 == UNSET {
                UNREACHED
            } else {
                dist_sq(x, y, best.0, best.1, w)
            };
            if cand < cur {
                (cx, cy)
            } else {
                best
            }
        },
    }
}

/// Lets cell `i` ask its eight neighbours at jump `s`.
fn flood_cell(
    near_x: &mut Vec<u16>,
    near_y: &mut Vec<u16>,
    i: usize,
    s: usize,
    w: usize,
    h: usize,
    Ghost(btype): Ghost<Seq<u8>>,
)
    requires
        0 < w <= 65535,
        h <= 65535,
        btype.len() == w as int * h as int,
        i < btype.len(),
        s <= 65536,
        field_sound(btype, old(near_x)@, old(near_y)@, w as int, h as int),
    ensures
        final(near_x)@ == old(near_x)@.update(
            i as int,
            nearest_known(old(near_x)@, old(near_y)@, i as int, s as int, w as int, h as int).0,
        ),
        final(near_y)@ == old(near_y)@.update(
            i as int,
            nearest_known(old(near_x)@, old(near_y)@, i as int, s as int, w as int, h as int).1,
        ),
        field_sound(btype, final(near_x)@, final(near_y)@, w as int, h as int),
        old(near_x)@[i as int] != UNSET ==> final(near_x)@[i as int] != UNSET,
        forall|d: int|
            0 <= d < 8 ==> (#[trigger] jump_index(i as int, d, s as int, w as int, h as int) matches Some(
                n,
            ) ==> old(near_x)@[n] != UNSET ==> final(near_x)@[i as int] != UNSET),
{
    let start: (u16, u16) = (near_x[i], near_y[i]);
    assert(names_boundary(btype, near_x@[i as int], near_y@[i as int], w as int, h as int));
    let a: (u16, u16) = nearer(start, near_x, near_y, i, 3, s, w, h, Ghost(btype));
    let b: (u16, u16) = nearer(a, near_x, near_y, i, 4, s, w, h, Ghost(btype));
    let c: (u16, u16) = nearer(b, near_x, near_y, i, 1, s, w, h, Ghost(btype));
    let e: (u16, u16) = nearer(c, near_x, near_y, i, 6, s, w, h, Ghost(btype));
    let f: (u16, u16) = nearer(e, near_x, near_y, i, 0, s, w, h, Ghost(btype));
    let g: (u16, u16) = nearer(f, near_x, near_y, i, 2, s, w, h, Ghost(btype));
    let k: (u16, u16) = nearer(g, near_x, near_y, i, 5, s, w, h, Ghost(btype));
    let r: (u16, u16) = nearer(k, near_x, near_y, i, 7, s, w, h, Ghost(btype));
    near_x.set(i, r.0);
    near_y.set(i, r.1);
}

/// One sweep over the whole field at jump `s`.
fn flood_pass(
    near_x: &mut Vec<u16>,
    near_y: &mut Vec<u16>,
    s: usize,
    w: usize,
    h: usize,
    Ghost(btype): Ghost<Seq<u8>>,
)
    requires
        0 < w <= 65535,
        h <= 65535,
        btype.len() == w as int * h as int,
        s <= 65536,
        field_sound(btype, old(near_x)@, old(near_y)@, w as int, h as int),
    ensures
        (final(near_x)@, final(near_y)@) == swept(
            old(near_x)@,
            old(near_y)@,
            s as int,
            w as int,
            h as int,
            btype.len(),
        ),
        field_sound(btype, final(near_x)@, final(near_y)@, w as int, h as int),
        pass_known(old(near_x)@, final(near_x)@, s as int, w as int, h as int),
{
    let n: usize = near_x.len();
    let ghost x0 = near_x@;
    let ghost y0 = near_y@;
    let mut i: usize = 0;
    while i < n
        invariant
            0 < w <= 65535,
            h <= 65535,
            btype.len() == w as int * h as int,
            s <= 65536,
            n == btype.len(),
            i <= n,
            field_sound(btype, near_x@, near_y@, w as int, h as int),
            (near_x@, near_y@) == swept(x0, y0, s as int, w as int, h as int, i as nat),
            x0.len() == n,
            forall|c: int| 0 <= c < n && x0[c] != UNSET ==> #[trigger] near_x@[c] != UNSET,
            forall|c: int, d: int|
                0 <= c < i && 0 <= d < 8 ==> (#[trigger] jump_index(c, d, s as int, w as int, h as int) matches Some(
                    m,
                ) ==> x0[m] != UNSET ==> near_x@[c] != UNSET),
        decreases n - i,
    {
        proof {
            assert forall|d: int| 0 <= d < 8 implies (#[trigger] jump_index(
                i as int,
                d,
                s as int,
                w as int,
                h as int,
            ) matches Some(m) ==> 0 <= m < n) by {
                lemma_jump_inside(i as int, d, s as int, w as int, h as int);
            }
        }
        flood_cell(near_x, near_y, i, s, w, h, Ghost(btype));
        i += 1;
    }
}

/// The smallest power of two that is no smaller than `m`.
fn power_of_two_over(m: usize) -> (p: usize)
    requires
        m <= 65535,
    ensures
        p as nat == doubled_up_to(1, m as nat),
        1 <= p <= 131072,
        p >= m,
        is_doubling(p as int),
{
    let mut p: usize = 1;
    while p < m
        invariant
            1 <= p <= 131072,
            m <= 65535,
            is_doubling(p as int),
            doubled_up_to(p as nat, m as nat) == doubled_up_to(1, m as nat),
        decreases 131072 - p,
    {
        p = p * 2;
    }
    p
}

/// Finds for every cell a boundary cell close to it. Returns the squared
/// distance to that cell, with the east-west wrap, and its column and row.
/// Where the field has a boundary, every cell is reached; where it has
/// none at all, the distance is [`UNREACHED`] and both coordinates are
/// [`UNSET`].
pub fn boundary_distance_field(btype: &Grid<u8>) -> (r: (Grid<u64>, Grid<u16>, Grid<u16>))
    requires
        btype.wf(),
        0 < btype.w <= 65535,
        btype.h <= 65535,
    ensures
        r.0.wf() && r.0.w == btype.w && r.0.h == btype.h,
        r.1.wf() && r.1.w == btype.w && r.1.h == btype.h,
        r.2.wf() && r.2.w == btype.w && r.2.h == btype.h,
        (r.1.data@, r.2.data@) == jump_flood(btype.data@, btype.w as int, btype.h as int),
        field_sound(btype.data@, r.1.data@, r.2.data@, btype.w as int, btype.h as int),
        forall|i: int|
            0 <= i < btype.data@.len() ==> #[trigger] r.0.data@[i] as int == reach(
                i,
                r.1.data@[i],
                r.2.data@[i],
                btype.w as int,
            ),
        forall|b: int, t: int|
            0 <= b < btype.data@.len() && #[trigger] btype.data@[b] != 0 && 0 <= t
                < btype.data@.len() ==> #[trigger] r.1.data@[t] != UNSET,
{
    let w: usize = btype.w;
    let h: usize = btype.h;
    assert(btype.data@.len() == btype.data.len());
    let n: usize = btype.data.len();
    let ghost cells = btype.data@;
    let mut near_x: Vec<u16> = Vec::with_capacity(n);
    let mut near_y: Vec<u16> = Vec::with_capacity(n);
    let mut i: usize = 0;
    while i < n
        invariant
            btype.wf(),
            0 < w <= 65535,
            h <= 65535,
            w == btype.w,
            h == btype.h,
            cells == btype.data@,
            n == cells.len(),
            i <= n,
            near_x@.len() == i as int,
            near_y@.len() == i as int,
            forall|k: int|
                0 <= k < i as int ==> #[trigger] near_x@[k] == seeded(cells, w as int).0[k],
            forall|k: int|
                0 <= k < i as int ==> #[trigger] near_y@[k] == seeded(cells, w as int).1[k],
        decreases n - i,
    {
        proof {
            lemma_cell_of_index(i as int, w as int, h as int);
        }
        if btype.data[i] != 0 {
            near_x.push((i % w) as u16);
            near_y.push((i / w) as u16);
        } else {
            near_x.push(UNSET);
            near_y.push(UNSET);
        }
        i += 1;
    }
    proof {
        assert(near_x@ =~= seeded(cells, w as int).0);
        assert(near_y@ =~= seeded(cells, w as int).1);
        assert forall|k: int| 0 <= k < cells.len() implies names_boundary(
            cells,
            #[trigger] near_x@[k],
            near_y@[k],
            w as int,
            h as int,
        ) by {
            lemma_cell_of_index(k, w as int, h as int);
        }
        assert forall|k: int| 0 <= k < cells.len() && #[trigger] cells[k] != 0 implies near_x@[k] as int
            == k % (w as int) && near_y@[k] as int == k / (w as int) by {
            lemma_cell_of_index(k, w as int, h as int);
        }
    }
    let longer: usize = if w >= h {
        w
    } else {
        h
    };
    let whole: usize = power_of_two_over(longer);
    let mut step: usize = whole / 2;
    let ghost x0 = near_x@;
    let ghost y0 = near_y@;
    let ghost s0 = step as int;
    let ghost mut cur: int = whole as int;
    let ghost mut many: int = 1;
    proof {
        assert forall|b: int, kx: int, ky: int|
            0 <= b < cells.len() && cells[b] != 0 && -1 < kx < 1 && -1 < ky < 1 && 0 <= b % (
            w as int) + kx * cur < w && 0 <= b / (w as int) + ky * cur < h implies near_x@[#[trigger] jumps_from(
            b,
            kx,
            ky,
            cur,
            w as int,
        )] != UNSET by {
            lemma_cell_of_index(b, w as int, h as int);
            assert(kx * cur == 0 && ky * cur == 0) by (nonlinear_arith)
                requires
                    kx == 0,
                    ky == 0,
            ;
        }
        assert(1 * cur == whole as int);
    }
    while step >= 1
        invariant
            0 < w <= 65535,
            h <= 65535,
            cells.len() == w as int * h as int,
            step <= 65536,
            near_x@.len() == cells.len(),
            is_doubling(cur),
            1 <= many,
            many * cur == whole as int,
            cur == 1 ==> step == 0,
            cur > 1 ==> 2 * step == cur,
            covered(cells, near_x@, cur, many, w as int, h as int),
            field_sound(cells, near_x@, near_y@, w as int, h as int),
            cascade(near_x@, near_y@, step as int, w as int, h as int) == cascade(
                x0,
                y0,
                s0,
                w as int,
                h as int,
            ),
        decreases step,
    {
        let ghost before = near_x@;
        flood_pass(&mut near_x, &mut near_y, step, w, h, Ghost(cells));
        proof {
            lemma_pass_covers(cells, before, near_x@, step as int, many, w as int, h as int);
            assert((2 * many) * step as int == many * (2 * step as int)) by (nonlinear_arith);
            assert(cur / 2 == step as int);
            assert(is_doubling(step as int));
            assert(step > 1 ==> step as int % 2 == 0);
            cur = step as int;
            many = 2 * many;
        }
        step = step / 2;
    }
    let ghost flooded = near_x@;
    flood_pass(&mut near_x, &mut near_y, 2, w, h, Ghost(cells));
    let ghost tidied = near_x@;
    flood_pass(&mut near_x, &mut near_y, 1, w, h, Ghost(cells));
    proof {
        assert(cur == 1 && many == whole as int) by {
            assert(many * 1 == many);
        }
        lemma_covered_kept(cells, flooded, tidied, 1, many, w as int, h as int);
        lemma_covered_kept(cells, tidied, near_x@, 1, many, w as int, h as int);
        assert forall|b: int, t: int|
            0 <= b < cells.len() && #[trigger] cells[b] != 0 && 0 <= t < cells.len() implies #[trigger] near_x@[t]
            != UNSET by {
            lemma_cell_of_index(b, w as int, h as int);
            lemma_cell_of_index(t, w as int, h as int);
            let kx = t % (w as int) - b % (w as int);
            let ky = t / (w as int) - b / (w as int);
            assert(kx * 1 == kx && ky * 1 == ky);
            assert(jumps_from(b, kx, ky, 1, w as int) == t);
        }
    }
    let ghost reached = near_x@;
    let mut dist: Vec<u64> = Vec::with_capacity(n);
    let mut j: usize = 0;
    while j < n
        invariant
            0 < w <= 65535,
            h <= 65535,
            cells.len() == w as int * h as int,
            n == cells.len(),
            near_x@.len() == cells.len(),
            near_y@.len() == cells.len(),
            near_x@ == reached,
            j <= n,
            dist@.len() == j as int,
            forall|k: int|
                0 <= k < j as int ==> #[trigger] dist@[k] as int == reach(
                    k,
                    near_x@[k],
                    near_y@[k],
                    w as int,
                ),
        decreases n - j,
    {
        proof {
            lemma_cell_of_index(j as int, w as int, h as int);
        }
        let d: u64 = if near_x[j] == UNSET {
            UNREACHED
        } else {
            dist_sq(j % w, j / w, near_x[j], near_y[j], w)
        };
        dist.push(d);
        j += 1;
    }
    (Grid { data: dist, w, h }, Grid { data: near_x, w, h }, Grid { data: near_y, w, h })
}

} // verus!
