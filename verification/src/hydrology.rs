//! The discrete part of river routing: the working resolution, steepest
//! descent over eight neighbours, and accumulation of flow along it.
//!
//! Heights are fixed-point integers, sea level at zero; flow is a count of
//! fixed-point rainfall units.

use rayon::slice::ParallelSliceMut;
use vstd::prelude::*;
use crate::hydrology::prepare::{prepare_heights, prepared_at, SALT_MEANDER};
use crate::rng::stage_seed;
use crate::hydrology::rivers::{
    apply_threshold, extend_rivers, flow_threshold, growth, grown, is_threshold,
    label_components, labelled, sweeps, thresholded,
};
use crate::grid::{
    Grid, is_diagonal, lemma_index_in_range, lemma_neighbor_inside, neighbor_index, neighbor_of,
};

pub mod flood;
pub mod prepare;
pub mod rivers;

verus! {

/// Value that marks a cell without a downhill neighbour.
pub const NO_FLOW: u8 = 255;

/// Whether a `w` by `h` grid refined `k` times in each direction stays
/// within the cell budget of the routing stage.
pub open spec fn fits_budget(w: int, h: int, k: int) -> bool {
    w * h * k * k <= 256_000_000
}

/// Whether `s` is the refinement factor of routing on a `w` by `h` grid:
/// the largest of 1 to 8 whose refined grid fits the cell budget, and 1
/// where none does.
pub open spec fn is_hydro_scale(w: int, h: int, s: int) -> bool {
    &&& 1 <= s <= 8
    &&& (s > 1 ==> fits_budget(w, h, s))
    &&& forall|k: int| s < k <= 8 ==> !fits_budget(w, h, k)
}

/// The refinement factor of the routing stage: the largest of 1 to 8 whose
/// refined grid fits the cell budget, and 1 where none does.
pub fn hydro_scale(w: usize, h: usize) -> (s: usize)
    ensures
        is_hydro_scale(w as int, h as int, s as int),
{
    assert(0 <= w as int * h as int <= 0xFFFF_FFFF_FFFF_FFFF * 0xFFFF_FFFF_FFFF_FFFF)
        by (nonlinear_arith)
        requires
            0 <= w as int <= 0xFFFF_FFFF_FFFF_FFFF,
            0 <= h as int <= 0xFFFF_FFFF_FFFF_FFFF,
    ;
    let base: u128 = (w as u128) * (h as u128);
    if base > 256_000_000u128 {
        assert forall|k: int| 1 < k <= 8 implies !fits_budget(w as int, h as int, k) by {
            assert(w as int * h as int * k * k >= w as int * h as int) by (nonlinear_arith)
                requires
                    w as int * h as int >= 0,
                    k >= 1,
            ;
        }
        return 1;
    }
    let mut s: usize = 8;
    while s > 1
        invariant
            1 <= s <= 8,
            base as int == w as int * h as int,
            base <= 256_000_000,
            forall|k: int| s < k <= 8 ==> !fits_budget(w as int, h as int, k),
        decreases s,
    {
        let k: u128 = s as u128;
        assert(base * k * k <= 256_000_000 * 64) by (nonlinear_arith)
            requires
                0 <= base <= 256_000_000,
                0 <= k <= 8,
        ;
        assert(0 <= base * k <= 256_000_000 * 8) by (nonlinear_arith)
            requires
                0 <= base <= 256_000_000,
                0 <= k <= 8,
        ;
        if base * k * k <= 256_000_000u128 {
            return s;
        }
        s -= 1;
    }
    s
}

/// How steeply a drop of `drop` height units falls over one step, on a
/// scale that orders edge and corner steps exactly: twice the squared drop
/// over an edge, the squared drop over a corner, and zero where the
/// neighbour is not lower.
pub open spec fn steepness(drop: int, diagonal: bool) -> int {
    if drop <= 0 {
        0
    } else if diagonal {
        drop * drop
    } else {
        2 * drop * drop
    }
}

/// Steepness of the step from cell `i` in direction `d`; zero where the
/// step leaves the grid.
pub open spec fn steepness_toward(elev: Seq<i32>, i: int, d: int, w: int, h: int) -> int {
    match neighbor_index(i, d, w, h) {
        Some(n) => steepness(elev[i] - elev[n], is_diagonal(d)),
        None => 0,
    }
}

/// Whether `dir` is the steepest-descent direction of cell `i`: the first of
/// the eight directions whose step is steepest, or the no-flow mark where no
/// neighbour is lower.
pub open spec fn is_steepest(elev: Seq<i32>, i: int, dir: int, w: int, h: int) -> bool {
    if dir == NO_FLOW as int {
        forall|d: int| 0 <= d < 8 ==> steepness_toward(elev, i, d, w, h) == 0
    } else {
        &&& 0 <= dir < 8
        &&& steepness_toward(elev, i, dir, w, h) > 0
        &&& forall|d: int|
            0 <= d < 8 ==> steepness_toward(elev, i, d, w, h) <= steepness_toward(
                elev,
                i,
                dir,
                w,
                h,
            )
        &&& forall|d: int|
            0 <= d < dir ==> steepness_toward(elev, i, d, w, h) < steepness_toward(
                elev,
                i,
                dir,
                w,
                h,
            )
    }
}

/// Steepness of one step of cell `i`, computed.
fn step_steepness(elev: &Vec<i32>, i: usize, d: u8, w: usize, h: usize) -> (s: u128)
    requires
        0 < w <= i32::MAX,
        h <= i32::MAX,
        elev@.len() == w as int * h as int,
        i < elev@.len(),
        d < 8,
    ensures
        s as int == steepness_toward(elev@, i as int, d as int, w as int, h as int),
{
    assert(elev@.len() == elev.len());
    match neighbor_of(i, d, w, h) {
        Some(n) => {
            let drop: i64 = elev[i] as i64 - elev[n] as i64;
            if drop <= 0 {
                0
            } else {
                let m: u128 = drop as u128;
                assert(m * m <= 0x1_0000_0000 * 0x1_0000_0000) by (nonlinear_arith)
                    requires
                        0 <= m <= 0x1_0000_0000,
                ;
                let diagonal: bool = d == 0 || d == 2 || d == 5 || d == 7;
                if diagonal {
                    m * m
                } else {
                    assert(2 * m * m == 2 * (m * m)) by (nonlinear_arith);
                    2 * m * m
                }
            }
        },
        None => 0,
    }
}

/// The steepest-descent direction of one cell.
pub fn cell_flow_direction(elev: &Vec<i32>, i: usize, w: usize, h: usize) -> (dir: u8)
    requires
        0 < w <= i32::MAX,
        h <= i32::MAX,
        elev@.len() == w as int * h as int,
        i < elev@.len(),
    ensures
        is_steepest(elev@, i as int, dir as int, w as int, h as int),
{
    let mut best_dir: u8 = NO_FLOW;
    let mut best: u128 = 0;
    let mut d: u8 = 0;
    while d < 8
        invariant
            0 < w <= i32::MAX,
            h <= i32::MAX,
            elev@.len() == w as int * h as int,
            i < elev@.len(),
            d <= 8,
            best_dir == NO_FLOW || best_dir < d,
            best_dir == NO_FLOW ==> best == 0,
            best_dir != NO_FLOW ==> best > 0 && best as int == steepness_toward(
                elev@,
                i as int,
                best_dir as int,
                w as int,
                h as int,
            ),
            forall|k: int|
                0 <= k < d ==> steepness_toward(elev@, i as int, k, w as int, h as int)
                    <= best as int,
            forall|k: int|
                0 <= k < best_dir && k < d ==> steepness_toward(
                    elev@,
                    i as int,
                    k,
                    w as int,
                    h as int,
                ) < best as int || best == 0,
        decreases 8 - d,
    {
        let s: u128 = step_steepness(elev, i, d, w, h);
        if s > best {
            best = s;
            best_dir = d;
        }
        d += 1;
    }
    best_dir
}

/// Steepest-descent direction of every cell of a `w` by `h` height field.
pub fn compute_flow_direction(elev: &Vec<i32>, w: usize, h: usize) -> (dirs: Vec<u8>)
    requires
        0 < w <= i32::MAX,
        h <= i32::MAX,
        elev@.len() == w as int * h as int,
    ensures
        dirs@.len() == elev@.len(),
        forall|i: int|
            0 <= i < dirs@.len() ==> is_steepest(elev@, i, #[trigger] dirs@[i] as int, w as int, h as int),
{
    let n: usize = elev.len();
    let mut dirs: Vec<u8> = Vec::with_capacity(n);
    let mut i: usize = 0;
    while i < n
        invariant
            0 < w <= i32::MAX,
            h <= i32::MAX,
            n == elev@.len(),
            elev@.len() == w as int * h as int,
            i <= n,
            dirs@.len() == i as int,
            forall|k: int|
                0 <= k < i as int ==> is_steepest(
                    elev@,
                    k,
                    #[trigger] dirs@[k] as int,
                    w as int,
                    h as int,
                ),
        decreases n - i,
    {
        let d: u8 = cell_flow_direction(elev, i, w, h);
        dirs.push(d);
        i += 1;
    }
    dirs
}

/// Sum of two flows, held at the largest value where it would pass it.
pub open spec fn capped_sum(a: u64, b: u64) -> u64 {
    if a + b > u64::MAX {
        u64::MAX
    } else {
        (a + b) as u64
    }
}

/// The flows after cell `i` has handed its flow to the cell it drains to.
pub open spec fn hand_down(flow: Seq<u64>, dirs: Seq<u8>, i: int, w: int, h: int) -> Seq<u64> {
    match neighbor_index(i, dirs[i] as int, w, h) {
        Some(n) => flow.update(n, capped_sum(flow[n], flow[i])),
        None => flow,
    }
}

/// The flows after the first `t` cells of `order` have handed down, starting
/// from the rain that fell on each cell.
pub open spec fn accumulated(
    rain: Seq<u64>,
    dirs: Seq<u8>,
    order: Seq<u32>,
    w: int,
    h: int,
    t: nat,
) -> Seq<u64>
    decreases t,
{
    if t == 0 {
        rain
    } else {
        hand_down(
            accumulated(rain, dirs, order, w, h, (t - 1) as nat),
            dirs,
            order[t - 1] as int,
            w,
            h,
        )
    }
}

/// Every entry of `order` names a cell of a grid of `n` cells.
pub open spec fn names_cells(order: Seq<u32>, n: int) -> bool {
    forall|k: int| 0 <= k < order.len() ==> (#[trigger] order[k] as int) < n
}

/// `order` visits every cell before the cell it drains to.
pub open spec fn upstream_first(dirs: Seq<u8>, order: Seq<u32>, w: int, h: int) -> bool {
    forall|p: int, q: int|
        0 <= p < order.len() && 0 <= q < order.len() && neighbor_index(
            #[trigger] order[p] as int,
            dirs[order[p] as int] as int,
            w,
            h,
        ) == Some(#[trigger] order[q] as int) ==> p < q
}

/// Handing down changes no length.
pub proof fn lemma_accumulated_len(
    rain: Seq<u64>,
    dirs: Seq<u8>,
    order: Seq<u32>,
    w: int,
    h: int,
    t: nat,
)
    requires
        0 < w,
        rain.len() == w * h,
        names_cells(order, w * h),
        t <= order.len(),
    ensures
        accumulated(rain, dirs, order, w, h, t).len() == rain.len(),
    decreases t,
{
    if t > 0 {
        lemma_accumulated_len(rain, dirs, order, w, h, (t - 1) as nat);
        lemma_neighbor_inside(order[t - 1] as int, dirs[order[t - 1] as int] as int, w, h);
    }
}

/// Flow never shrinks downstream: where the cells are visited upstream
/// first, a visited cell carries no more flow than the cell it drains to.
pub proof fn lemma_flow_grows_downstream(
    rain: Seq<u64>,
    dirs: Seq<u8>,
    order: Seq<u32>,
    w: int,
    h: int,
    t: nat,
    p: int,
)
    requires
        0 < w,
        rain.len() == w * h,
        dirs.len() == w * h,
        names_cells(order, w * h),
        upstream_first(dirs, order, w, h),
        t <= order.len(),
        0 <= p < t,
    ensures
        neighbor_index(order[p] as int, dirs[order[p] as int] as int, w, h) matches Some(n)
            ==> accumulated(rain, dirs, order, w, h, t)[order[p] as int] <= accumulated(
            rain,
            dirs,
            order,
            w,
            h,
            t,
        )[n],
    decreases t,
{
    let before = accumulated(rain, dirs, order, w, h, (t - 1) as nat);
    let after = accumulated(rain, dirs, order, w, h, t);
    let cur = order[t - 1] as int;
    let k = order[p] as int;
    lemma_accumulated_len(rain, dirs, order, w, h, (t - 1) as nat);
    lemma_neighbor_inside(cur, dirs[cur] as int, w, h);
    lemma_neighbor_inside(k, dirs[k] as int, w, h);
    assert(after == hand_down(before, dirs, cur, w, h));
    match neighbor_index(k, dirs[k] as int, w, h) {
        Some(n) => {
            if p < t - 1 {
                lemma_flow_grows_downstream(rain, dirs, order, w, h, (t - 1) as nat, p);
                match neighbor_index(cur, dirs[cur] as int, w, h) {
                    Some(m) => {
                        // the cell that receives now was not visited before
                        assert(m != k) by {
                            if m == k {
                                assert(neighbor_index(order[t - 1] as int, dirs[order[t - 1] as int] as int, w, h)
                                    == Some(order[p] as int));
                            }
                        }
                        assert(after[k] == before[k]);
                        assert(after[n] >= before[n]);
                    },
                    None => {},
                }
            } else {
                assert(k == cur);
                assert(n != k) by {
                    if n == k {
                        assert(neighbor_index(order[p] as int, dirs[order[p] as int] as int, w, h)
                            == Some(order[p] as int));
                    }
                }
                assert(after[n] == capped_sum(before[n], before[k]));
                assert(after[k] == before[k]);
            }
        },
        None => {},
    }
}

/// Accumulates flow: every cell starts with its own rain, and the cells of
/// `sorted`, taken in turn, each add what they carry to the cell they drain
/// to.
pub fn flow_accumulation(
    flow_dir: &Vec<u8>,
    rain: &Vec<u64>,
    sorted: &Vec<u32>,
    w: usize,
    h: usize,
) -> (flow: Vec<u64>)
    requires
        0 < w <= i32::MAX,
        h <= i32::MAX,
        flow_dir@.len() == w as int * h as int,
        rain@.len() == w as int * h as int,
        names_cells(sorted@, w as int * h as int),
    ensures
        flow@ == accumulated(rain@, flow_dir@, sorted@, w as int, h as int, sorted@.len()),
        flow@.len() == rain@.len(),
{
    let n: usize = rain.len();
    let mut flow: Vec<u64> = Vec::with_capacity(n);
    let mut i: usize = 0;
    while i < n
        invariant
            n == rain@.len(),
            i <= n,
            flow@ == rain@.subrange(0, i as int),
        decreases n - i,
    {
        flow.push(rain[i]);
        i += 1;
    }
    assert(flow@ == rain@);
    let mut t: usize = 0;
    while t < sorted.len()
        invariant
            0 < w <= i32::MAX,
            h <= i32::MAX,
            n == rain@.len(),
            flow_dir@.len() == w as int * h as int,
            rain@.len() == w as int * h as int,
            names_cells(sorted@, w as int * h as int),
            t <= sorted@.len(),
            flow@.len() == rain@.len(),
            flow@ == accumulated(rain@, flow_dir@, sorted@, w as int, h as int, t as nat),
        decreases sorted@.len() - t,
    {
        let cell: usize = sorted[t] as usize;
        match neighbor_of(cell, flow_dir[cell], w, h) {
            Some(m) => {
                let a: u64 = flow[m];
                let b: u64 = flow[cell];
                let sum: u64 = if a > u64::MAX - b {
                    u64::MAX
                } else {
                    a + b
                };
                flow.set(m, sum);
            },
            None => {},
        }
        t += 1;
    }
    flow
}

/// Store position, in a fine grid `fine_w` cells wide, of the cell at
/// offset `(dx, dy)` inside the block that coarse cell `(bx, by)` covers.
pub open spec fn fine_index(fine_w: int, scale: int, bx: int, by: int, dx: int, dy: int) -> int {
    (by * scale + dy) * fine_w + (bx * scale + dx)
}

/// Whether `v` is the largest flow in the `scale` by `scale` block of fine
/// cells that coarse cell `(bx, by)` covers.
pub open spec fn block_max(flow: Seq<u64>, fine_w: int, scale: int, bx: int, by: int, v: u64) -> bool {
    &&& forall|dx: int, dy: int|
        0 <= dx < scale && 0 <= dy < scale ==> flow[#[trigger] fine_index(
            fine_w,
            scale,
            bx,
            by,
            dx,
            dy,
        )] <= v
    &&& exists|dx: int, dy: int|
        0 <= dx < scale && 0 <= dy < scale && flow[#[trigger] fine_index(
            fine_w,
            scale,
            bx,
            by,
            dx,
            dy,
        )] == v
}

/// A block offset lies inside the fine grid.
proof fn lemma_fine_index_inside(
    fine_w: int,
    fine_h: int,
    scale: int,
    bx: int,
    by: int,
    dx: int,
    dy: int,
)
    requires
        0 < scale,
        0 <= bx < fine_w / scale,
        0 <= by < fine_h / scale,
        0 <= dx < scale,
        0 <= dy < scale,
        0 <= fine_w,
        0 <= fine_h,
    ensures
        0 <= bx * scale + dx < fine_w,
        0 <= by * scale + dy < fine_h,
        0 <= (by * scale + dy) * fine_w,
        0 <= fine_index(fine_w, scale, bx, by, dx, dy) < fine_w * fine_h,
{
    lemma_index_in_range(dx, bx, scale, fine_w / scale);
    lemma_index_in_range(dy, by, scale, fine_h / scale);
    vstd::arithmetic::div_mod::lemma_fundamental_div_mod(fine_w, scale);
    vstd::arithmetic::div_mod::lemma_fundamental_div_mod(fine_h, scale);
    assert(0 <= fine_w % scale && 0 <= fine_h % scale);
    lemma_index_in_range(bx * scale + dx, by * scale + dy, fine_w, fine_h);
    assert(0 <= (by * scale + dy) * fine_w) by (nonlinear_arith)
        requires
            0 <= by * scale + dy,
            0 <= fine_w,
    ;
}

/// The largest flow in the block of fine cells under one coarse cell.
fn block_maximum(
    flow: &Vec<u64>,
    hi_w: usize,
    hi_h: usize,
    scale: usize,
    bx: usize,
    by: usize,
) -> (m: u64)
    requires
        0 < scale,
        flow@.len() == hi_w as int * hi_h as int,
        bx < hi_w / scale,
        by < hi_h / scale,
    ensures
        block_max(flow@, hi_w as int, scale as int, bx as int, by as int, m),
{
    let mut m: u64 = 0;
    let ghost mut wx: int = 0;
    let ghost mut wy: int = 0;
    let mut dy: usize = 0;
    assert(flow@.len() == flow.len());
    while dy < scale
        invariant
            0 < scale,
            flow@.len() == hi_w as int * hi_h as int,
            flow@.len() <= usize::MAX,
            bx < hi_w / scale,
            by < hi_h / scale,
            dy <= scale,
            forall|ex: int, ey: int|
                0 <= ex < scale && 0 <= ey < dy ==> flow@[#[trigger] fine_index(
                    hi_w as int,
                    scale as int,
                    bx as int,
                    by as int,
                    ex,
                    ey,
                )] <= m,
            (dy == 0 && m == 0) || (0 <= wx < scale && 0 <= wy < scale && flow@[fine_index(
                hi_w as int,
                scale as int,
                bx as int,
                by as int,
                wx,
                wy,
            )] == m),
        decreases scale - dy,
    {
        let mut dx: usize = 0;
        while dx < scale
            invariant
                0 < scale,
                flow@.len() == hi_w as int * hi_h as int,
                flow@.len() <= usize::MAX,
                bx < hi_w / scale,
                by < hi_h / scale,
                dy < scale,
                dx <= scale,
                forall|ex: int, ey: int|
                    0 <= ex < scale && (0 <= ey < dy || (ey == dy && ex < dx)) ==> flow@[#[trigger] fine_index(
                        hi_w as int,
                        scale as int,
                        bx as int,
                        by as int,
                        ex,
                        ey,
                    )] <= m,
                (dy == 0 && dx == 0 && m == 0) || (0 <= wx < scale && 0 <= wy < scale
                    && flow@[fine_index(
                    hi_w as int,
                    scale as int,
                    bx as int,
                    by as int,
                    wx,
                    wy,
                )] == m),
            decreases scale - dx,
        {
            proof {
                lemma_fine_index_inside(
                    hi_w as int,
                    hi_h as int,
                    scale as int,
                    bx as int,
                    by as int,
                    dx as int,
                    dy as int,
                );
            }
            let hx: usize = bx * scale + dx;
            let hy: usize = by * scale + dy;
            let v: u64 = flow[hy * hi_w + hx];
            proof {
                if v >= m {
                    wx = dx as int;
                    wy = dy as int;
                }
            }
            if v > m {
                m = v;
            }
            dx += 1;
        }
        dy += 1;
    }
    m
}

/// Brings a fine flow field down to the coarse grid: every coarse cell
/// takes the largest flow of the `scale` by `scale` fine cells it covers.
pub fn downsample_max(flow: &Vec<u64>, hi_w: usize, hi_h: usize, scale: usize) -> (out: Vec<u64>)
    requires
        0 < scale,
        flow@.len() == hi_w as int * hi_h as int,
    ensures
        out@.len() == (hi_w / scale) as int * (hi_h / scale) as int,
        forall|bx: int, by: int|
            0 <= bx < (hi_w / scale) as int && 0 <= by < (hi_h / scale) as int ==> block_max(
                flow@,
                hi_w as int,
                scale as int,
                bx,
                by,
                #[trigger] out@[by * ((hi_w / scale) as int) + bx],
            ),
{
    let base_w: usize = hi_w / scale;
    let base_h: usize = hi_h / scale;
    let mut out: Vec<u64> = Vec::new();
    let mut by: usize = 0;
    while by < base_h
        invariant
            0 < scale,
            flow@.len() == hi_w as int * hi_h as int,
            base_w == hi_w / scale,
            base_h == hi_h / scale,
            by <= base_h,
            out@.len() == by as int * base_w as int,
            forall|cx: int, cy: int|
                0 <= cx < base_w as int && 0 <= cy < by as int ==> block_max(
                    flow@,
                    hi_w as int,
                    scale as int,
                    cx,
                    cy,
                    #[trigger] out@[cy * (base_w as int) + cx],
                ),
        decreases base_h - by,
    {
        let mut bx: usize = 0;
        while bx < base_w
            invariant
                0 < scale,
                flow@.len() == hi_w as int * hi_h as int,
                base_w == hi_w / scale,
                base_h == hi_h / scale,
                by < base_h,
                bx <= base_w,
                out@.len() == by as int * base_w as int + bx as int,
                forall|cx: int, cy: int|
                    0 <= cx < base_w as int && (0 <= cy < by as int || (cy == by as int && cx
                        < bx as int)) ==> block_max(
                        flow@,
                        hi_w as int,
                        scale as int,
                        cx,
                        cy,
                        #[trigger] out@[cy * (base_w as int) + cx],
                    ),
            decreases base_w - bx,
        {
            let m: u64 = block_maximum(flow, hi_w, hi_h, scale, bx, by);
            let ghost before = out@;
            out.push(m);
            proof {
                assert forall|cx: int, cy: int|
                    0 <= cx < base_w as int && (0 <= cy < by as int || (cy == by as int && cx
                        < bx as int + 1)) implies block_max(
                    flow@,
                    hi_w as int,
                    scale as int,
                    cx,
                    cy,
                    #[trigger] out@[cy * (base_w as int) + cx],
                ) by {
                    if cy == by as int && cx == bx as int {
                        assert(out@[cy * (base_w as int) + cx] == m);
                    } else {
                        lemma_index_in_range(cx, cy, base_w as int, by as int + 1);
                        assert(cy * (base_w as int) + cx < by as int * base_w as int + bx as int)
                            by (nonlinear_arith)
                            requires
                                0 <= cx < base_w as int,
                                0 <= cy < by as int || (cy == by as int && cx < bx as int),
                        ;
                        assert(out@[cy * (base_w as int) + cx] == before[cy * (base_w as int)
                            + cx]);
                    }
                }
            }
            bx += 1;
        }
        assert((by as int + 1) * base_w as int == by as int * base_w as int + base_w as int)
            by (nonlinear_arith);
        by += 1;
    }
    assert(base_h as int * base_w as int == base_w as int * base_h as int) by (nonlinear_arith);
    out
}

/// Refines a field `scale` times in each direction: every fine cell takes
/// the value of the coarse cell it lies in.
pub fn upscale_nearest<T: Copy>(src: &Grid<T>, scale: usize) -> (dst: Grid<T>)
    requires
        src.wf(),
        0 < scale,
        src.w as int * scale as int <= usize::MAX as int,
        src.h as int * scale as int <= usize::MAX as int,
        (src.w as int * scale as int) * (src.h as int * scale as int) <= usize::MAX as int,
    ensures
        dst.wf(),
        dst.w as int == src.w as int * scale as int,
        dst.h as int == src.h as int * scale as int,
        forall|x: int, y: int|
            0 <= x < dst.w as int && 0 <= y < dst.h as int ==> #[trigger] dst.at(x, y) == src.at(
                x / scale as int,
                y / scale as int,
            ),
{
    assert(src.data@.len() == src.data.len());
    let w: usize = src.w;
    let dw: usize = src.w * scale;
    let dh: usize = src.h * scale;
    let mut data: Vec<T> = Vec::new();
    let mut dy: usize = 0;
    while dy < dh
        invariant
            src.wf(),
            0 < scale,
            w == src.w,
            dw as int == src.w as int * scale as int,
            dh as int == src.h as int * scale as int,
            dw as int * dh as int <= usize::MAX as int,
            dy <= dh,
            data@.len() == dy as int * dw as int,
            forall|cx: int, cy: int|
                0 <= cx < dw as int && 0 <= cy < dy as int ==> #[trigger] data@[cy * (dw as int)
                    + cx] == src.at(cx / scale as int, cy / scale as int),
        decreases dh - dy,
    {
        let sy: usize = dy / scale;
        let mut dx: usize = 0;
        while dx < dw
            invariant
                src.wf(),
                0 < scale,
                w == src.w,
                dw as int == src.w as int * scale as int,
                dh as int == src.h as int * scale as int,
                dw as int * dh as int <= usize::MAX as int,
                dy < dh,
                sy == dy / scale,
                dx <= dw,
                data@.len() == dy as int * dw as int + dx as int,
                forall|cx: int, cy: int|
                    0 <= cx < dw as int && (0 <= cy < dy as int || (cy == dy as int && cx
                        < dx as int)) ==> #[trigger] data@[cy * (dw as int) + cx] == src.at(
                        cx / scale as int,
                        cy / scale as int,
                    ),
            decreases dw - dx,
        {
            let sx: usize = dx / scale;
            proof {
                vstd::arithmetic::div_mod::lemma_fundamental_div_mod(dx as int, scale as int);
                vstd::arithmetic::div_mod::lemma_fundamental_div_mod(dy as int, scale as int);
                assert(sx < src.w) by (nonlinear_arith)
                    requires
                        (dx as int) < src.w as int * scale as int,
                        dx as int == scale as int * sx as int + dx as int % scale as int,
                        0 <= dx as int % scale as int,
                        0 < scale,
                ;
                assert(sy < src.h) by (nonlinear_arith)
                    requires
                        (dy as int) < src.h as int * scale as int,
                        dy as int == scale as int * sy as int + dy as int % scale as int,
                        0 <= dy as int % scale as int,
                        0 < scale,
                ;
            }
            let v: T = src.get(sx, sy);
            let ghost before = data@;
            data.push(v);
            proof {
                assert forall|cx: int, cy: int|
                    0 <= cx < dw as int && (0 <= cy < dy as int || (cy == dy as int && cx
                        < dx as int + 1)) implies #[trigger] data@[cy * (dw as int) + cx]
                    == src.at(cx / scale as int, cy / scale as int) by {
                    if cy == dy as int && cx == dx as int {
                    } else {
                        assert(0 <= cy * (dw as int) + cx < dy as int * dw as int + dx as int)
                            by (nonlinear_arith)
                            requires
                                0 <= cx < dw as int,
                                0 <= cy < dy as int || (cy == dy as int && cx < dx as int),
                        ;
                        assert(data@[cy * (dw as int) + cx] == before[cy * (dw as int) + cx]);
                    }
                }
                assert(dy as int * dw as int + dx as int + 1 <= dw as int * dh as int)
                    by (nonlinear_arith)
                    requires
                        0 <= dx < dw,
                        0 <= dy < dh,
                ;
            }
            dx += 1;
        }
        assert((dy as int + 1) * dw as int == dy as int * dw as int + dw as int)
            by (nonlinear_arith);
        dy += 1;
    }
    assert(dh as int * dw as int == dw as int * dh as int) by (nonlinear_arith);
    Grid { data, w: dw, h: dh }
}

/// The cells of `order` stand in descending order of height.
pub open spec fn highest_first(elev: Seq<i32>, order: Seq<u32>) -> bool {
    forall|i: int, j: int|
        0 <= i <= j < order.len() ==> elev[#[trigger] order[i] as int] >= elev[#[trigger] order[j] as int]
}

/// The cells `0, 1, ..` of a grid of `n` cells, each once.
pub open spec fn all_cells(n: nat) -> Seq<u32> {
    Seq::new(n, |i: int| i as u32)
}

/// Sorts cell indices by the height of their cells, lowest first, with
/// rayon's `ParallelSliceMut::par_sort_unstable_by_key`, which sorts the
/// slice in place and in parallel by the key that the closure picks.
/// Trusted: afterwards the vector holds the indices it held before, each
/// as often as before, and the heights of their cells never fall along it.
/// Nothing is claimed of the order among cells of equal height.
#[verifier::external_body]
fn sort_cells_by_height(order: &mut Vec<u32>, elev: &Vec<i32>)
    requires
        names_cells(old(order)@, elev@.len() as int),
    ensures
        final(order)@.to_multiset() == old(order)@.to_multiset(),
        forall|i: int, j: int|
            0 <= i <= j < final(order)@.len() ==> elev@[#[trigger] final(order)@[i] as int]
                <= elev@[#[trigger] final(order)@[j] as int],
{
    order.par_sort_unstable_by_key(|c| elev[*c as usize]);
}

/// The cells of a height field from the highest to the lowest.
pub fn argsort_descending(elev: &Vec<i32>) -> (order: Vec<u32>)
    requires
        elev@.len() <= u32::MAX,
    ensures
        order@.len() == elev@.len(),
        names_cells(order@, elev@.len() as int),
        highest_first(elev@, order@),
        order@.to_multiset() == all_cells(elev@.len()).to_multiset(),
{
    let n: usize = elev.len();
    let mut asc: Vec<u32> = Vec::with_capacity(n);
    let mut i: usize = 0;
    while i < n
        invariant
            n == elev@.len(),
            n <= u32::MAX,
            i <= n,
            asc@.len() == i,
            forall|k: int| 0 <= k < i ==> #[trigger] asc@[k] == k as u32,
        decreases n - i,
    {
        asc.push(i as u32);
        i += 1;
    }
    assert(asc@ =~= all_cells(n as nat));
    let ghost plain = asc@;
    sort_cells_by_height(&mut asc, elev);
    proof {
        vstd::seq_lib::to_multiset_len(plain);
        vstd::seq_lib::to_multiset_len(asc@);
        assert forall|k: int| 0 <= k < asc@.len() implies (#[trigger] asc@[k] as int) < n by {
            vstd::seq_lib::to_multiset_contains(asc@, asc@[k]);
            vstd::seq_lib::to_multiset_contains(plain, asc@[k]);
            assert(asc@.contains(asc@[k]));
            let at = choose|at: int| 0 <= at < plain.len() && plain[at] == asc@[k];
        }
    }
    let mut order: Vec<u32> = Vec::with_capacity(n);
    let mut j: usize = 0;
    while j < n
        invariant
            n == asc@.len(),
            j <= n,
            order@.len() == j,
            forall|k: int| 0 <= k < j ==> #[trigger] order@[k] == asc@[n - 1 - k],
        decreases n - j,
    {
        order.push(asc[n - 1 - j]);
        j += 1;
    }
    proof {
        assert(order@ =~= asc@.reverse());
        asc@.lemma_reverse_to_multiset();
    }
    order
}

/// What routing makes of a height field: `filled` is `elev` with its
/// depressions filled: every cell stands at the lowest level from which
/// it drains to an outlet, so that the sea is untouched, land is only
/// raised, and then to one unit above a neighbour, and every land cell
/// between the polar rows has a lower neighbour;
/// `dirs` is the steepest descent on `filled`; and `flow` is the rain run
/// down `dirs` from the highest cell to the lowest, every cell once, so
/// that flow never shrinks downstream.
pub open spec fn routed(
    elev: Seq<i32>,
    filled: Seq<i32>,
    rain: Seq<u64>,
    dirs: Seq<u8>,
    flow: Seq<u64>,
    w: int,
    h: int,
) -> bool {
    &&& filled.len() == elev.len()
    &&& forall|i: int| 0 <= i < elev.len() ==> #[trigger] filled[i] >= elev[i]
    &&& forall|i: int| 0 <= i < elev.len() && #[trigger] elev[i] <= 0 ==> filled[i] == elev[i]
    &&& forall|i: int|
        w <= i < elev.len() - w && #[trigger] elev[i] > 0 ==> flood::has_lower_neighbor(
            filled,
            i,
            w,
            h,
        )
    &&& forall|i: int|
        0 <= i < elev.len() && #[trigger] filled[i] > elev[i] ==> flood::one_above_neighbor(
            filled,
            i,
            w,
            h,
        )
    &&& forall|i: int| 0 <= i < elev.len() ==> #[trigger] flood::filled_to_outlet(elev, filled, i, w, h)
    &&& dirs.len() == rain.len()
    &&& flow.len() == rain.len()
    &&& forall|i: int| 0 <= i < dirs.len() ==> is_steepest(filled, i, #[trigger] dirs[i] as int, w, h)
    &&& exists|order: Seq<u32>|
        #![trigger highest_first(filled, order)]
        highest_first(filled, order) && order.to_multiset() == all_cells(rain.len()).to_multiset()
            && flow == accumulated(rain, dirs, order, w, h, order.len())
    &&& forall|i: int|
        0 <= i < flow.len() ==> (#[trigger] neighbor_index(i, dirs[i] as int, w, h) matches Some(m)
            ==> flow[i] <= flow[m])
}

/// What routing makes of a height field and the rain on it.
pub struct Routing {
    /// Steepest-descent direction of every cell of the filled field.
    pub dirs: Vec<u8>,
    /// Flow through every cell: its own rain and all that drains into it.
    pub flow: Vec<u64>,
}

/// Fills the depressions of a height field, finds the steepest descent of
/// every cell, and lets the rain run down it from the highest cell to the
/// lowest. Flow never shrinks downstream.
pub fn route_flow(elev: &mut Vec<i32>, rain: &Vec<u64>, w: usize, h: usize) -> (r: Routing)
    requires
        0 < w <= i32::MAX,
        0 < h <= i32::MAX,
        old(elev)@.len() == w as int * h as int,
        old(elev)@.len() <= u32::MAX,
        rain@.len() == old(elev)@.len(),
        forall|i: int|
            0 <= i < old(elev)@.len() ==> #[trigger] old(elev)@[i] + old(elev)@.len() <= i32::MAX,
    ensures
        routed(old(elev)@, final(elev)@, rain@, r.dirs@, r.flow@, w as int, h as int),
{
    flood::priority_flood(elev, w, h);
    let dirs: Vec<u8> = compute_flow_direction(elev, w, h);
    let order: Vec<u32> = argsort_descending(elev);
    let flow: Vec<u64> = flow_accumulation(&dirs, rain, &order, w, h);
    proof {
        let e = elev@;
        let n = e.len() as int;
        // a cell drains to a strictly lower one, which the order visits later
        assert forall|p: int, q: int|
            0 <= p < order@.len() && 0 <= q < order@.len() && neighbor_index(
                #[trigger] order@[p] as int,
                dirs@[order@[p] as int] as int,
                w as int,
                h as int,
            ) == Some(#[trigger] order@[q] as int) implies p < q by {
            let c = order@[p] as int;
            assert(is_steepest(e, c, dirs@[c] as int, w as int, h as int));
            assert(steepness_toward(e, c, dirs@[c] as int, w as int, h as int) > 0);
            assert(e[order@[q] as int] < e[c]);
        }
        assert forall|i: int| 0 <= i < flow@.len() implies (#[trigger] neighbor_index(
            i,
            dirs@[i] as int,
            w as int,
            h as int,
        ) matches Some(m) ==> flow@[i] <= flow@[m]) by {
            vstd::seq_lib::to_multiset_contains(all_cells(n as nat), i as u32);
            assert(all_cells(n as nat)[i] == i as u32);
            assert(all_cells(n as nat).contains(i as u32));
            vstd::seq_lib::to_multiset_contains(order@, i as u32);
            let p = choose|p: int| 0 <= p < order@.len() && order@[p] == i as u32;
            lemma_flow_grows_downstream(
                rain@,
                dirs@,
                order@,
                w as int,
                h as int,
                order@.len(),
                p,
            );
        }
        assert(highest_first(e, order@));
    }
    Routing { dirs, flow }
}

/// The river network of a world and what it was made from.
pub struct Rivers {
    /// Flow of every river cell; zero off the rivers.
    pub river_flow: Vec<u64>,
    /// Flow of every land cell before any was taken out; zero on the sea.
    pub raw_flow: Vec<u64>,
    /// River system of every river cell; zero off the rivers.
    pub labels: Vec<u32>,
    /// Number of cells of every river system before it grew.
    pub sizes: Vec<u32>,
    /// Number of cells every river system took in while it grew.
    pub added: Vec<u32>,
    /// Flow a cell had to carry to start a river; none where no river could
    /// start.
    pub threshold: Option<u64>,
}

/// Least flow with which a dry cell may join a river: a twentieth of the
/// threshold, rounded up; without a threshold, the largest flow there is.
pub open spec fn joining_flow(tau: Option<u64>) -> u64 {
    match tau {
        Some(t) => if t % 20 == 0 {
            t / 20
        } else {
            (t / 20 + 1) as u64
        },
        None => u64::MAX,
    }
}

/// Whether `raw` is the coarse flow of a fine flow field: on land the
/// largest flow of the fine cells under each coarse cell, on the sea zero.
pub open spec fn coarse_flow(
    fine: Seq<u64>,
    land: Seq<bool>,
    raw: Seq<u64>,
    w: int,
    h: int,
    scale: int,
) -> bool {
    &&& raw.len() == w * h
    &&& forall|bx: int, by: int|
        0 <= bx < w && 0 <= by < h ==> if land[by * w + bx] {
            block_max(fine, w * scale, scale, bx, by, #[trigger] raw[by * w + bx])
        } else {
            raw[by * w + bx] == 0
        }
}

/// Where no cell is a river, no cell becomes one: without a system to
/// join, growth changes nothing.
pub proof fn lemma_nothing_grows_from_nothing(
    flow0: Seq<u64>,
    labels0: Seq<u32>,
    flow: Seq<u64>,
    labels: Seq<u32>,
    added: Seq<u32>,
    raw: Seq<u64>,
    sizes: Seq<u32>,
    min_flow: u64,
    w: int,
    h: int,
)
    requires
        forall|i: int| 0 <= i < flow0.len() ==> #[trigger] flow0[i] == 0,
        labelled(flow0, labels0, sizes, w, h),
        grown(flow0, labels0, flow, labels, added, raw, sizes, min_flow, w, h),
    ensures
        forall|i: int| 0 <= i < flow0.len() ==> #[trigger] flow[i] == 0,
{
    // a system would have a first cell, and that cell would be a river
    let (firsts, rank) = choose|firsts: Seq<int>, rank: Seq<nat>|
        #![trigger rivers::hang_together(labels0, firsts, rank, w, h)]
        firsts.len() == sizes.len() && rank.len() == labels0.len() && rivers::numbered(
            labels0,
            firsts,
        ) && rivers::hang_together(labels0, firsts, rank, w, h);
    if sizes.len() > 1 {
        assert(labels0[firsts[1]] == 1);
        assert(flow0[firsts[1]] > 0);
    }
    assert forall|i: int| 0 <= i < flow0.len() implies #[trigger] flow[i] == 0 by {
        assert(labels[i] < sizes.len());
        assert(flow0[i] == 0);
    }
}

/// What [`draw_rivers`] makes of fine heights `elev`, fine rain and the
/// coarse land mask: `filled` is `elev` filled and routed, the raw flow is
/// its coarse flow, the threshold is taken from the raw flow, and the
/// rivers are the raw flow above the threshold, labelled and then grown
/// into their headwaters.
pub open spec fn rivers_drawn(
    elev: Seq<i32>,
    filled: Seq<i32>,
    rain: Seq<u64>,
    land: Seq<bool>,
    r: Rivers,
    w: int,
    h: int,
    scale: int,
    keep_ppm: int,
) -> bool {
    &&& exists|dirs: Seq<u8>, fine: Seq<u64>|
        #![trigger coarse_flow(fine, land, r.raw_flow@, w, h, scale), dirs.len()]
        routed(elev, filled, rain, dirs, fine, w * scale, h * scale) && coarse_flow(
            fine,
            land,
            r.raw_flow@,
            w,
            h,
            scale,
        )
    &&& is_threshold(r.raw_flow@, keep_ppm, r.threshold)
    &&& exists|first: Seq<u32>|
        #![trigger labelled(thresholded(r.raw_flow@, r.threshold), first, r.sizes@, w, h)]
        labelled(thresholded(r.raw_flow@, r.threshold), first, r.sizes@, w, h) && grown(
            thresholded(r.raw_flow@, r.threshold),
            first,
            r.river_flow@,
            r.labels@,
            r.added@,
            r.raw_flow@,
            r.sizes@,
            joining_flow(r.threshold),
            w,
            h,
        ) && growth(r.river_flow@, r.labels@, r.added@) == sweeps(
            growth(
                thresholded(r.raw_flow@, r.threshold),
                first,
                Seq::new(r.sizes@.len(), |l: int| 0u32),
            ),
            r.raw_flow@,
            r.sizes@,
            joining_flow(r.threshold),
            20,
            w,
            h,
        )
    &&& r.river_flow@.len() == land.len()
    &&& forall|i: int| 0 <= i < land.len() && !land[i] ==> #[trigger] r.river_flow@[i] == 0
    &&& keep_ppm == 0 ==> forall|i: int| 0 <= i < land.len() ==> #[trigger] r.river_flow@[i] == 0
    &&& keep_ppm == 1_000_000 ==> forall|i: int|
        0 <= i < land.len() ==> #[trigger] r.river_flow@[i] == r.raw_flow@[i]
}

/// Routes the rain over fine heights and draws the rivers of the coarse
/// grid.
///
/// `hi_elev` and `hi_rain` are the height and the rain on the grid refined
/// `scale` times, `land` says for every cell of the coarse `w` by `h` grid
/// whether it is land. The fine heights are filled in place. Rivers start
/// on the top `keep_ppm` millionths of the wet land cells and then grow
/// into their headwaters. No river runs on the sea.
pub fn draw_rivers(
    hi_elev: &mut Vec<i32>,
    hi_rain: &Vec<u64>,
    land: &Vec<bool>,
    w: usize,
    h: usize,
    scale: usize,
    keep_ppm: u32,
) -> (r: Rivers)
    requires
        0 < w,
        0 < h,
        0 < scale,
        w as int * scale as int <= i32::MAX,
        h as int * scale as int <= i32::MAX,
        old(hi_elev)@.len() == (w as int * scale as int) * (h as int * scale as int),
        old(hi_elev)@.len() <= u32::MAX,
        hi_rain@.len() == old(hi_elev)@.len(),
        land@.len() == w as int * h as int,
        keep_ppm <= 1_000_000,
        forall|i: int|
            0 <= i < old(hi_elev)@.len() ==> #[trigger] old(hi_elev)@[i] + old(hi_elev)@.len()
                <= i32::MAX,
    ensures
        rivers_drawn(
            old(hi_elev)@,
            final(hi_elev)@,
            hi_rain@,
            land@,
            r,
            w as int,
            h as int,
            scale as int,
            keep_ppm as int,
        ),
{
    let ghost elev0 = hi_elev@;
    assert(hi_rain@.len() == hi_rain.len());
    assert(land@.len() == land.len());
    proof {
        assert(0 < w as int * scale as int && 0 < h as int * scale as int) by (nonlinear_arith)
            requires
                0 < w,
                0 < h,
                0 < scale,
        ;
        assert(w as int <= w as int * scale as int && h as int <= h as int * scale as int)
            by (nonlinear_arith)
            requires
                0 < w,
                0 < h,
                0 < scale,
        ;
        vstd::arithmetic::div_mod::lemma_div_by_multiple(w as int, scale as int);
        vstd::arithmetic::div_mod::lemma_div_by_multiple(h as int, scale as int);
        assert(w as int * h as int <= (w as int * scale as int) * (h as int * scale as int))
            by (nonlinear_arith)
            requires
                0 < w,
                0 < h,
                0 < scale,
        ;
    }
    let hi_w: usize = w * scale;
    let hi_h: usize = h * scale;
    let routing: Routing = route_flow(hi_elev, hi_rain, hi_w, hi_h);
    let mut raw: Vec<u64> = downsample_max(&routing.flow, hi_w, hi_h, scale);
    let ghost maxima = raw@;
    let n: usize = land.len();
    let mut i: usize = 0;
    while i < n
        invariant
            n == land@.len(),
            raw@.len() == n,
            maxima.len() == n,
            i <= n,
            forall|k: int|
                0 <= k < i ==> #[trigger] raw@[k] == (if land@[k] {
                    maxima[k]
                } else {
                    0
                }),
            forall|k: int| i <= k < n ==> #[trigger] raw@[k] == maxima[k],
        decreases n - i,
    {
        if !land[i] {
            raw.set(i, 0);
        }
        i += 1;
    }
    proof {
        assert forall|bx: int, by: int| 0 <= bx < w as int && 0 <= by < h as int implies if land@[by
            * w as int + bx] {
            block_max(
                routing.flow@,
                w as int * scale as int,
                scale as int,
                bx,
                by,
                #[trigger] raw@[by * w as int + bx],
            )
        } else {
            raw@[by * w as int + bx] == 0
        } by {
            lemma_index_in_range(bx, by, w as int, h as int);
            assert(raw@[by * w as int + bx] == (if land@[by * w as int + bx] {
                maxima[by * w as int + bx]
            } else {
                0
            }));
        }
        assert(coarse_flow(routing.flow@, land@, raw@, w as int, h as int, scale as int));
    }
    let tau: Option<u64> = flow_threshold(&raw, keep_ppm);
    let mut river: Vec<u64> = Vec::with_capacity(n);
    let mut j: usize = 0;
    while j < n
        invariant
            n == raw@.len(),
            j <= n,
            river@.len() == j,
            forall|k: int| 0 <= k < j ==> #[trigger] river@[k] == raw@[k],
        decreases n - j,
    {
        river.push(raw[j]);
        j += 1;
    }
    apply_threshold(&mut river, tau);
    assert(river@ =~= thresholded(raw@, tau));
    let (mut labels, sizes) = label_components(&river, w, h);
    let ghost first = labels@;
    let min_flow: u64 = match tau {
        Some(t) => if t % 20 == 0 {
            t / 20
        } else {
            t / 20 + 1
        },
        None => u64::MAX,
    };
    let added: Vec<u32> = extend_rivers(&mut river, &mut labels, &raw, &sizes, min_flow, w, h);
    proof {
        let start = thresholded(raw@, tau);
        assert(labelled(start, first, sizes@, w as int, h as int));
        assert forall|k: int| 0 <= k < land@.len() && !land@[k] implies #[trigger] river@[k] == 0 by {
            assert(raw@[k] == 0);
            assert(start[k] == 0);
        }
        assert(routed(
            elev0,
            hi_elev@,
            hi_rain@,
            routing.dirs@,
            routing.flow@,
            w as int * scale as int,
            h as int * scale as int,
        ));
        assert(routing.dirs@.len() == hi_rain@.len());
        assert(coarse_flow(routing.flow@, land@, raw@, w as int, h as int, scale as int));
        assert(min_flow == joining_flow(tau));
        if keep_ppm == 0 {
            // nothing is a river to begin with, so there is no system to join
            assert(tau.is_none());
            assert forall|k: int| 0 <= k < start.len() implies #[trigger] start[k] == 0 by {}
            lemma_nothing_grows_from_nothing(
                start,
                first,
                river@,
                labels@,
                added@,
                raw@,
                sizes@,
                min_flow,
                w as int,
                h as int,
            );
        }
        if keep_ppm == 1_000_000 {
            assert forall|k: int| 0 <= k < land@.len() implies #[trigger] river@[k] == raw@[k] by {
                if raw@[k] > 0 {
                    rivers::lemma_positives(raw@);
                    assert(rivers::positives(raw@).contains(raw@[k]));
                    assert(rivers::positives(raw@).len() > 0);
                    assert(start[k] == raw@[k]);
                } else {
                    assert(start[k] == 0);
                }
            }
        }
        assert(grown(
            start,
            first,
            river@,
            labels@,
            added@,
            raw@,
            sizes@,
            joining_flow(tau),
            w as int,
            h as int,
        ));
    }
    let ghost fine = routing.flow@;
    let ghost dirs = routing.dirs@;
    let ghost land_s = land@;
    let out = Rivers { river_flow: river, raw_flow: raw, labels, sizes, added, threshold: tau };
    proof {
        assert(coarse_flow(fine, land_s, out.raw_flow@, w as int, h as int, scale as int));
        assert(routed(
            elev0,
            hi_elev@,
            hi_rain@,
            dirs,
            fine,
            w as int * scale as int,
            h as int * scale as int,
        ));
        assert(labelled(
            thresholded(out.raw_flow@, out.threshold),
            first,
            out.sizes@,
            w as int,
            h as int,
        ));
    }
    out
}

/// The fine heights that routing starts from, cell by cell.
pub open spec fn prepared(src: Seq<i32>, w: int, h: int, scale: int, seed: u64) -> Seq<i32> {
    Seq::new(
        ((w * scale) * (h * scale)) as nat,
        |i: int|
            prepared_at(
                src,
                w,
                h,
                scale,
                i % (w * scale),
                i / (w * scale),
                stage_seed(seed, SALT_MEANDER),
            ) as i32,
    )
}

/// The rain on the fine grid: every fine cell has the rain of the coarse
/// cell it lies in.
pub open spec fn refined_rain(rain: Seq<u64>, w: int, h: int, scale: int) -> Seq<u64> {
    Seq::new(
        ((w * scale) * (h * scale)) as nat,
        |i: int| rain[((i / (w * scale)) / scale) * w + (i % (w * scale)) / scale],
    )
}

/// Where the land is: the cells above sea level.
pub open spec fn land_of(height: Seq<i32>) -> Seq<bool> {
    Seq::new(height.len(), |i: int| height[i] > 0)
}

/// Routes the rain of a world and draws its rivers.
///
/// The heights are refined by the factor that the cell budget allows and
/// roughened so that rivers meander; on the fine grid the depressions are
/// filled and the rain runs down the steepest descent; the flow is brought
/// back to the coarse grid, the sea is cleared, and rivers are drawn on
/// the top `keep_ppm` millionths of the wet land cells and grown into
/// their headwaters. No river runs on the sea. With nothing kept there is
/// no river at all; with everything kept every wet land cell is a river.
pub fn compute_hydrology(height: &Grid<i32>, precipitation: &Grid<u64>, seed: u64, keep_ppm: u32) -> (r:
    Rivers)
    requires
        height.wf(),
        precipitation.wf(),
        0 < height.w,
        0 < height.h,
        precipitation.w == height.w,
        precipitation.h == height.h,
        height.w as int * height.h as int <= 0x3FFF_FFFF,
        keep_ppm <= 1_000_000,
    ensures
        exists|scale: int, filled: Seq<i32>|
            #![trigger rivers_drawn(prepared(height.data@, height.w as int, height.h as int, scale, seed), filled, refined_rain(precipitation.data@, height.w as int, height.h as int, scale), land_of(height.data@), r, height.w as int, height.h as int, scale, keep_ppm as int)]
            is_hydro_scale(height.w as int, height.h as int, scale) && rivers_drawn(
                prepared(height.data@, height.w as int, height.h as int, scale, seed),
                filled,
                refined_rain(precipitation.data@, height.w as int, height.h as int, scale),
                land_of(height.data@),
                r,
                height.w as int,
                height.h as int,
                scale,
                keep_ppm as int,
            ),
        r.river_flow@.len() == height.data@.len(),
        forall|i: int|
            0 <= i < height.data@.len() && height.data@[i] <= 0 ==> #[trigger] r.river_flow@[i] == 0,
        keep_ppm == 0 ==> forall|i: int|
            0 <= i < height.data@.len() ==> #[trigger] r.river_flow@[i] == 0,
        keep_ppm == 1_000_000 ==> forall|i: int|
            0 <= i < height.data@.len() ==> #[trigger] r.river_flow@[i] == r.raw_flow@[i],
{
    let w: usize = height.w;
    let h: usize = height.h;
    let scale: usize = hydro_scale(w, h);
    proof {
        // the refined grid fits the budget, or the grid is not refined at all
        if scale > 1 {
            assert((w as int * scale as int) * (h as int * scale as int) == w as int * h as int
                * scale as int * scale as int) by (nonlinear_arith);
        } else {
            assert((w as int * scale as int) * (h as int * scale as int) == w as int * h as int)
                by (nonlinear_arith)
                requires
                    scale == 1,
            ;
        }
        assert(w as int * scale as int <= (w as int * scale as int) * (h as int * scale as int))
            by (nonlinear_arith)
            requires
                0 < w,
                0 < h,
                0 < scale,
        ;
        assert(h as int * scale as int <= (w as int * scale as int) * (h as int * scale as int))
            by (nonlinear_arith)
            requires
                0 < w,
                0 < h,
                0 < scale,
        ;
    }
    let mut fine: Vec<i32> = prepare_heights(height, scale, seed);
    let hi_rain: Grid<u64> = upscale_nearest(precipitation, scale);
    let n: usize = height.data.len();
    let mut land: Vec<bool> = Vec::with_capacity(n);
    let mut i: usize = 0;
    while i < n
        invariant
            n == height.data@.len(),
            i <= n,
            land@.len() == i,
            forall|k: int| 0 <= k < i ==> #[trigger] land@[k] == (height.data@[k] > 0),
        decreases n - i,
    {
        land.push(height.data[i] > 0);
        i += 1;
    }
    let ghost start = fine@;
    proof {
        assert(land@ =~= land_of(height.data@));
        let hw = w as int * scale as int;
        assert forall|k: int| 0 <= k < start.len() implies #[trigger] start[k] == prepared(
            height.data@,
            w as int,
            h as int,
            scale as int,
            seed,
        )[k] by {
            crate::plates::distance::lemma_cell_of_index(k, hw, h as int * scale as int);
            assert(start[(k / hw) * hw + k % hw] as int == prepared_at(
                height.data@,
                w as int,
                h as int,
                scale as int,
                k % hw,
                k / hw,
                stage_seed(seed, SALT_MEANDER),
            ));
        }
        assert(start =~= prepared(height.data@, w as int, h as int, scale as int, seed));
        assert forall|k: int| 0 <= k < hi_rain.data@.len() implies #[trigger] hi_rain.data@[k]
            == refined_rain(precipitation.data@, w as int, h as int, scale as int)[k] by {
            crate::plates::distance::lemma_cell_of_index(k, hw, h as int * scale as int);
            assert(hi_rain.at(k % hw, k / hw) == precipitation.at(
                (k % hw) / scale as int,
                (k / hw) / scale as int,
            ));
        }
        assert(hi_rain.data@ =~= refined_rain(
            precipitation.data@,
            w as int,
            h as int,
            scale as int,
        ));
    }
    let r: Rivers = draw_rivers(&mut fine, &hi_rain.data, &land, w, h, scale, keep_ppm);
    proof {
        assert(rivers_drawn(
            prepared(height.data@, w as int, h as int, scale as int, seed),
            fine@,
            refined_rain(precipitation.data@, w as int, h as int, scale as int),
            land_of(height.data@),
            r,
            w as int,
            h as int,
            scale as int,
            keep_ppm as int,
        ));
        assert(is_hydro_scale(w as int, h as int, scale as int));
    }
    r
}

} // verus!
