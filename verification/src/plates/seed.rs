//! Placement of plate centres by rejection sampling.
//!
//! Centres are drawn at random over the grid and kept where they stand far
//! enough from the centres kept before. Positions are fixed-point numbers,
//! in 256ths of a cell; distances are squared, with the east-west wrap.

use vstd::prelude::*;
use crate::rng::{low32, mix64, Rng};

verus! {

/// A position `(x, y)` in 256ths of a cell.
pub type Point = (u32, u32);

/// Salt of the generator that places centres.
pub const SALT_PLACE: u64 = 0xA1B2_C3D4_E5F6_0789;

/// A draw of 24 bits from a generator in state `state`.
pub open spec fn unit24(state: u64) -> int {
    (low32(mix64(state)) >> 8u32) as int
}

/// A 24-bit draw `u` spread over `0..span`.
pub open spec fn spread(u: int, span: int) -> int {
    u * span / 0x100_0000
}

/// The point that a generator in state `state` draws on a `w` by `h` grid:
/// first the column, then the row.
pub open spec fn drawn_point(state: u64, w: int, h: int) -> Point {
    (spread(unit24(state), w * 256) as u32, spread(unit24(mix64(state)), h * 256) as u32)
}

/// The state of a generator after it has drawn a point.
pub open spec fn after_draw(state: u64) -> u64 {
    mix64(mix64(state))
}

/// Squared distance between two points on a cylinder `span` units round.
pub open spec fn gap_sq(a: Point, b: Point, span: int) -> int {
    let raw = if a.0 >= b.0 {
        a.0 - b.0
    } else {
        b.0 - a.0
    };
    let dx = if raw <= span - raw {
        raw
    } else {
        span - raw
    };
    dx * dx + (a.1 - b.1) * (a.1 - b.1)
}

/// Whether `p` keeps a squared distance of `least` or more from every
/// point of `kept`.
pub open spec fn clear_of(kept: Seq<Point>, p: Point, span: int, least: int) -> bool {
    forall|k: int| 0 <= k < kept.len() ==> gap_sq(#[trigger] kept[k], p, span) >= least
}

/// Whether any two points of `kept` keep a squared distance of `least` or
/// more.
pub open spec fn spaced(kept: Seq<Point>, span: int, least: int) -> bool {
    forall|i: int, j: int|
        0 <= i < j < kept.len() ==> gap_sq(#[trigger] kept[i], #[trigger] kept[j], span) >= least
}

/// Every point lies on the `w` by `h` grid.
pub open spec fn points_inside(points: Seq<Point>, w: int, h: int) -> bool {
    forall|k: int|
        0 <= k < points.len() ==> (#[trigger] points[k]).0 < w * 256 && points[k].1 < h * 256
}

/// The squared distance that centres keep at first: six tenths of the side
/// of the square that each of `count` centres would have to itself,
/// squared.
pub open spec fn first_least(w: int, h: int, count: int) -> int {
    w * h * 65536 * 36 / (count * 100)
}

/// A squared distance after one relaxation: the distance times 0.85.
pub open spec fn relaxed(least: int) -> int {
    least * 7225 / 10000
}

/// Squared distance of a point that has no centre to be near to.
pub const NOWHERE: u64 = 0xFFFF_FFFF_FFFF_FFFF;

/// The two smallest squared distances from `p` to the first `k` of
/// `centres`, the smaller one first.
pub open spec fn nearest_two(p: Point, centres: Seq<Point>, span: int, k: nat) -> (int, int)
    decreases k,
{
    if k == 0 {
        (NOWHERE as int, NOWHERE as int)
    } else {
        let n = nearest_two(p, centres, span, (k - 1) as nat);
        let d = gap_sq(p, centres[k - 1], span);
        if d < n.0 {
            (d, n.0)
        } else if d < n.1 {
            (n.0, d)
        } else {
            n
        }
    }
}

/// How near `p` lies to a border between the territories of two centres,
/// in 65536ths: the square of its distance to the nearest centre over the
/// square of its distance to the second nearest, and no more than one.
pub open spec fn border_nearness(p: Point, centres: Seq<Point>, span: int) -> int {
    let n = nearest_two(p, centres, span, centres.len());
    if n.1 > 0 {
        let r = n.0 * 65536 / n.1;
        if r < 65536 {
            r
        } else {
            65536
        }
    } else {
        0
    }
}

/// The share of the distance that centres must keep at `p`, in 65536ths:
/// 0.35 on a border, rising to one at a centre.
pub open spec fn density_factor(p: Point, centres: Seq<Point>, span: int) -> int {
    22938 + 42598 * (65536 - border_nearness(p, centres, span)) / 65536
}

/// The squared distance that a centre at `p` must keep from the others:
/// `least` where density is even, and `least` times the square of the
/// density factor where it follows the borders of `centres`.
pub open spec fn required(least: int, p: Point, centres: Option<Seq<Point>>, span: int) -> int {
    match centres {
        None => least,
        Some(c) => least * density_factor(p, c, span) * density_factor(p, c, span)
            / 0x1_0000_0000,
    }
}

/// What the sampler holds between two attempts: the state of its
/// generator, the centres kept, and the squared distance they must keep.
pub struct Sampling {
    pub state: u64,
    pub kept: Seq<Point>,
    pub least: int,
}

/// The sampler that holds the given state, centres and distance.
pub open spec fn holding(state: u64, kept: Seq<Point>, least: int) -> Sampling {
    Sampling { state, kept, least }
}

/// One attempt, the `t`-th: a point is drawn and kept if it stands clear;
/// after every `200 * count` attempts the distance is relaxed.
pub open spec fn attempt(
    s: Sampling,
    t: int,
    w: int,
    h: int,
    count: int,
    centres: Option<Seq<Point>>,
) -> Sampling {
    let p = drawn_point(s.state, w, h);
    Sampling {
        state: after_draw(s.state),
        kept: if clear_of(s.kept, p, w * 256, required(s.least, p, centres, w * 256)) {
            s.kept.push(p)
        } else {
            s.kept
        },
        least: if t % (count * 200) == 0 {
            relaxed(s.least)
        } else {
            s.least
        },
    }
}

/// The sampler after `t` attempts; once `count` centres are kept it
/// attempts no more.
pub open spec fn sampled(
    s0: Sampling,
    t: nat,
    w: int,
    h: int,
    count: int,
    centres: Option<Seq<Point>>,
) -> Sampling
    decreases t,
{
    if t == 0 {
        s0
    } else {
        let s = sampled(s0, (t - 1) as nat, w, h, count, centres);
        if s.kept.len() >= count {
            s
        } else {
            attempt(s, t as int, w, h, count, centres)
        }
    }
}

/// The sampler before its first attempt.
pub open spec fn start(w: int, h: int, count: int, seed: u64) -> Sampling {
    Sampling { state: seed ^ SALT_PLACE, kept: Seq::empty(), least: first_least(w, h, count) }
}

/// The centres after the shortfall, if any, has been made up with points
/// drawn without regard to distance.
pub open spec fn filled_up(state: u64, kept: Seq<Point>, w: int, h: int, count: int) -> Seq<Point>
    decreases count - kept.len(),
{
    if kept.len() >= count {
        kept
    } else {
        filled_up(after_draw(state), kept.push(drawn_point(state, w, h)), w, h, count)
    }
}

/// The centres that `2000 * count` attempts and the making up of the
/// shortfall give.
pub open spec fn placed(
    w: int,
    h: int,
    count: int,
    seed: u64,
    centres: Option<Seq<Point>>,
) -> Seq<Point> {
    let s = sampled(start(w, h, count, seed), (count * 2000) as nat, w, h, count, centres);
    filled_up(s.state, s.kept, w, h, count)
}

/// A relaxed distance is no longer than the distance was.
pub proof fn lemma_relaxed_shorter(least: int)
    requires
        0 <= least,
    ensures
        0 <= relaxed(least) <= least,
{
}

/// A squared distance between two points of a grid is not below zero and
/// has an end.
pub proof fn lemma_gap_bound(a: Point, b: Point, span: int)
    requires
        0 < span <= 0xFF_FFFF,
        a.0 < span,
        b.0 < span,
        a.1 < 0x100_0000,
        b.1 < 0x100_0000,
    ensures
        0 <= gap_sq(a, b, span) <= 0x2_0000_0000_0000,
{
    let raw = if a.0 >= b.0 {
        a.0 - b.0
    } else {
        b.0 - a.0
    };
    let dx = if raw <= span - raw {
        raw
    } else {
        span - raw
    };
    assert(0 <= dx * dx <= 0x100_0000 * 0x100_0000) by (nonlinear_arith)
        requires
            0 <= dx <= 0x100_0000,
    ;
    assert(0 <= (a.1 - b.1) * (a.1 - b.1) <= 0x100_0000 * 0x100_0000) by (nonlinear_arith)
        requires
            -0x100_0000 <= a.1 - b.1 <= 0x100_0000,
    ;
}

/// Draws 24 bits and spreads them over `0..span`.
fn draw(rng: &mut Rng, span: u64) -> (r: u32)
    requires
        0 < span <= 0xFF_FFFF,
    ensures
        r as int == spread(unit24(old(rng).state), span as int),
        r < span,
        final(rng).state == mix64(old(rng).state),
{
    let v: u32 = rng.next_u32();
    let u: u32 = v >> 8u32;
    assert(u <= 0xFF_FFFF) by (bit_vector)
        requires
            u == v >> 8u32,
    ;
    assert(u as u64 * span <= 0xFF_FFFF * 0xFF_FFFF) by (nonlinear_arith)
        requires
            0 <= u as u64 <= 0xFF_FFFF,
            0 <= span <= 0xFF_FFFF,
    ;
    let q: u64 = u as u64 * span / 0x100_0000;
    assert(q < span) by (nonlinear_arith)
        requires
            q == (u as u64 * span) / 0x100_0000,
            0 <= u as u64 <= 0xFF_FFFF,
            0 < span,
    ;
    q as u32
}

/// Draws a point on the grid.
fn draw_point(rng: &mut Rng, w: usize, h: usize) -> (p: Point)
    requires
        0 < w <= 65535,
        0 < h <= 65535,
    ensures
        p == drawn_point(old(rng).state, w as int, h as int),
        p.0 < w * 256,
        p.1 < h * 256,
        final(rng).state == after_draw(old(rng).state),
{
    let x: u32 = draw(rng, w as u64 * 256);
    let y: u32 = draw(rng, h as u64 * 256);
    (x, y)
}

/// Squared distance between two points, with the east-west wrap.
pub fn point_gap_sq(a: Point, b: Point, span: u64) -> (r: u64)
    requires
        span <= 0xFF_FFFF,
        a.0 < 0x100_0000,
        b.0 < 0x100_0000,
        a.1 < 0x100_0000,
        b.1 < 0x100_0000,
    ensures
        r as int == gap_sq(a, b, span as int),
{
    let raw: i64 = if a.0 >= b.0 {
        a.0 as i64 - b.0 as i64
    } else {
        b.0 as i64 - a.0 as i64
    };
    let other: i64 = span as i64 - raw;
    let dx: i64 = if raw <= other {
        raw
    } else {
        other
    };
    let dy: i64 = a.1 as i64 - b.1 as i64;
    assert(0 <= dx * dx <= 0x100_0000 * 0x100_0000) by (nonlinear_arith)
        requires
            -0x100_0000 <= dx <= 0x100_0000,
    ;
    assert(0 <= dy * dy <= 0x100_0000 * 0x100_0000) by (nonlinear_arith)
        requires
            -0x100_0000 <= dy <= 0x100_0000,
    ;
    (dx * dx + dy * dy) as u64
}

/// Whether a point stands clear of all the points kept.
fn stands_clear(kept: &Vec<Point>, p: Point, span: u64, least: u64) -> (r: bool)
    requires
        span <= 0xFF_FFFF,
        p.0 < 0x100_0000,
        p.1 < 0x100_0000,
        forall|k: int|
            0 <= k < kept@.len() ==> (#[trigger] kept@[k]).0 < 0x100_0000 && kept@[k].1 < 0x100_0000,
    ensures
        r == clear_of(kept@, p, span as int, least as int),
{
    let mut k: usize = 0;
    while k < kept.len()
        invariant
            span <= 0xFF_FFFF,
            p.0 < 0x100_0000,
            p.1 < 0x100_0000,
            forall|i: int|
                0 <= i < kept@.len() ==> (#[trigger] kept@[i]).0 < 0x100_0000 && kept@[i].1
                    < 0x100_0000,
            k <= kept@.len(),
            forall|i: int| 0 <= i < k ==> gap_sq(#[trigger] kept@[i], p, span as int) >= least,
        decreases kept@.len() - k,
    {
        if point_gap_sq(kept[k], p, span) < least {
            return false;
        }
        k += 1;
    }
    true
}

/// The two smallest squared distances from a point to the centres.
fn two_nearest(p: Point, centres: &Vec<Point>, span: u64) -> (r: (u64, u64))
    requires
        span <= 0xFF_FFFF,
        p.0 < 0x100_0000,
        p.1 < 0x100_0000,
        forall|k: int|
            0 <= k < centres@.len() ==> (#[trigger] centres@[k]).0 < 0x100_0000 && centres@[k].1
                < 0x100_0000,
    ensures
        (r.0 as int, r.1 as int) == nearest_two(p, centres@, span as int, centres@.len()),
        r.0 <= r.1,
{
    let mut d1: u64 = NOWHERE;
    let mut d2: u64 = NOWHERE;
    let mut k: usize = 0;
    while k < centres.len()
        invariant
            span <= 0xFF_FFFF,
            p.0 < 0x100_0000,
            p.1 < 0x100_0000,
            forall|i: int|
                0 <= i < centres@.len() ==> (#[trigger] centres@[i]).0 < 0x100_0000
                    && centres@[i].1 < 0x100_0000,
            k <= centres@.len(),
            (d1 as int, d2 as int) == nearest_two(p, centres@, span as int, k as nat),
            d1 <= d2,
        decreases centres@.len() - k,
    {
        let d: u64 = point_gap_sq(p, centres[k], span);
        if d < d1 {
            d2 = d1;
            d1 = d;
        } else if d < d2 {
            d2 = d;
        }
        k += 1;
    }
    (d1, d2)
}

/// The squared distance a centre at `p` must keep.
fn required_gap(least: u64, p: Point, centres: Option<&Vec<Point>>, span: u64) -> (r: u64)
    requires
        span <= 0xFF_FFFF,
        least <= 65535 * 65535 * 65536 * 36,
        p.0 < 0x100_0000,
        p.1 < 0x100_0000,
        centres matches Some(c) ==> forall|k: int|
            0 <= k < c@.len() ==> (#[trigger] c@[k]).0 < 0x100_0000 && c@[k].1 < 0x100_0000,
    ensures
        r as int == required(
            least as int,
            p,
            match centres {
                Some(c) => Some(c@),
                None => None,
            },
            span as int,
        ),
{
    match centres {
        None => least,
        Some(c) => {
            let (d1, d2) = two_nearest(p, c, span);
            let nearness: u128 = if d2 > 0 {
                let r: u128 = d1 as u128 * 65536 / (d2 as u128);
                if r < 65536 {
                    r
                } else {
                    65536
                }
            } else {
                0
            };
            let factor: u128 = 22938 + 42598 * (65536 - nearness) / 65536;
            assert(factor <= 65536);
            assert(least as u128 * factor <= 65535 * 65535 * 65536 * 36 * 65536) by (nonlinear_arith)
                requires
                    0 <= least as u128 <= 65535 * 65535 * 65536 * 36,
                    0 <= factor <= 65536,
            ;
            assert(least as u128 * factor * factor <= 65535 * 65535 * 65536 * 36 * 65536 * 65536)
                by (nonlinear_arith)
                requires
                    0 <= least as u128 * factor <= 65535 * 65535 * 65536 * 36 * 65536,
                    0 <= factor <= 65536,
            ;
            let wide: u128 = least as u128 * factor * factor / 0x1_0000_0000;
            wide as u64
        },
    }
}

/// Places `count` centres, evenly or following the borders of `centres`.
fn place(w: usize, h: usize, count: usize, seed: u64, centres: Option<&Vec<Point>>) -> (points: Vec<
    Point,
>)
    requires
        0 < w <= 65535,
        0 < h <= 65535,
        count <= 65535,
        centres matches Some(c) ==> points_inside(c@, w as int, h as int),
    ensures
        points@.len() == count,
        points_inside(points@, w as int, h as int),
        count > 0 ==> points@ == placed(
            w as int,
            h as int,
            count as int,
            seed,
            match centres {
                Some(c) => Some(c@),
                None => None,
            },
        ),
{
    let ghost given: Option<Seq<Point>> = match centres {
        Some(c) => Some(c@),
        None => None,
    };
    let mut points: Vec<Point> = Vec::with_capacity(count);
    if count == 0 {
        return points;
    }
    let mut rng: Rng = Rng::new(seed ^ SALT_PLACE);
    let span: u64 = w as u64 * 256;
    assert(w as u64 * h as u64 <= 65535 * 65535) by (nonlinear_arith)
        requires
            0 < w <= 65535,
            0 < h <= 65535,
    ;
    let mut least: u64 = w as u64 * h as u64 * 65536 * 36 / (count as u64 * 100);
    let limit: usize = count * 2000;
    let interval: usize = count * 200;
    let mut attempts: usize = 0;
    let ghost s0 = start(w as int, h as int, count as int, seed);
    while points.len() < count && attempts < limit
        invariant
            0 < w <= 65535,
            0 < h <= 65535,
            0 < count <= 65535,
            span == w * 256,
            limit == count * 2000,
            interval == count * 200,
            attempts <= limit,
            points@.len() <= count,
            points_inside(points@, w as int, h as int),
            least <= 65535 * 65535 * 65536 * 36,
            given == (match centres {
                Some(c) => Some(c@),
                None => None,
            }),
            centres matches Some(c) ==> points_inside(c@, w as int, h as int),
            holding(rng.state, points@, least as int) == sampled(
                s0,
                attempts as nat,
                w as int,
                h as int,
                count as int,
                given,
            ),
        decreases limit - attempts,
    {
        let ghost before = holding(rng.state, points@, least as int);
        let p: Point = draw_point(&mut rng, w, h);
        let needed: u64 = required_gap(least, p, centres, span);
        if stands_clear(&points, p, span, needed) {
            points.push(p);
        }
        attempts += 1;
        if attempts % interval == 0 {
            least = (least as u128 * 7225 / 10000) as u64;
        }
        proof {
            assert(holding(rng.state, points@, least as int) == attempt(
                before,
                attempts as int,
                w as int,
                h as int,
                count as int,
                given,
            ));
        }
    }
    proof {
        lemma_sampled_settles(
            s0,
            attempts as nat,
            limit as nat,
            w as int,
            h as int,
            count as int,
            given,
        );
    }
    while points.len() < count
        invariant
            0 < w <= 65535,
            0 < h <= 65535,
            points@.len() <= count,
            points_inside(points@, w as int, h as int),
            filled_up(rng.state, points@, w as int, h as int, count as int) == placed(
                w as int,
                h as int,
                count as int,
                seed,
                given,
            ),
        decreases count - points@.len(),
    {
        let p: Point = draw_point(&mut rng, w, h);
        points.push(p);
    }
    points
}

/// Places `count` plate centres evenly over a `w` by `h` grid.
///
/// For `2000 * count` attempts a point is drawn and kept if it stands
/// clear of the centres kept so far; after every `200 * count` attempts
/// the distance to keep is relaxed. A shortfall is made up with points
/// drawn without regard to distance.
pub fn poisson_plate_seeds(w: usize, h: usize, count: usize, seed: u64) -> (points: Vec<Point>)
    requires
        0 < w <= 65535,
        0 < h <= 65535,
        count <= 65535,
    ensures
        points@.len() == count,
        points_inside(points@, w as int, h as int),
        count > 0 ==> points@ == placed(w as int, h as int, count as int, seed, None),
{
    place(w, h, count, seed, None)
}

/// Places `count` plate centres, more densely near the borders between
/// the territories of `macro_centers`: there a centre need keep only 0.35
/// of the distance it must keep where one macro centre is much nearer
/// than all others.
pub fn poisson_variable_seeds(
    w: usize,
    h: usize,
    count: usize,
    seed: u64,
    macro_centers: &Vec<Point>,
) -> (points: Vec<Point>)
    requires
        0 < w <= 65535,
        0 < h <= 65535,
        count <= 65535,
        points_inside(macro_centers@, w as int, h as int),
    ensures
        points@.len() == count,
        points_inside(points@, w as int, h as int),
        count > 0 ==> points@ == placed(
            w as int,
            h as int,
            count as int,
            seed,
            Some(macro_centers@),
        ),
{
    place(w, h, count, seed, Some(macro_centers))
}

/// A sampler that has kept enough centres, or has made all its attempts,
/// stays as it is for the attempts that remain.
proof fn lemma_sampled_settles(
    s0: Sampling,
    t: nat,
    limit: nat,
    w: int,
    h: int,
    count: int,
    centres: Option<Seq<Point>>,
)
    requires
        t <= limit,
        t == limit || sampled(s0, t, w, h, count, centres).kept.len() >= count,
    ensures
        sampled(s0, limit, w, h, count, centres) == sampled(s0, t, w, h, count, centres),
    decreases limit - t,
{
    if t < limit {
        lemma_sampled_settles(s0, t + 1, limit, w, h, count, centres);
    }
}

/// The density factor lies between 0.35 and one, so that a centre never
/// has to keep more than the even distance.
pub proof fn lemma_required_within(least: int, p: Point, centres: Option<Seq<Point>>, span: int)
    requires
        0 <= least,
    ensures
        0 <= required(least, p, centres, span) <= least,
{
    match centres {
        None => {},
        Some(c) => {
            let f = density_factor(p, c, span);
            let near = border_nearness(p, c, span);
            assert(0 <= near <= 65536) by {
                let n = nearest_two(p, c, span, c.len());
                if n.1 > 0 && n.0 * 65536 / n.1 < 65536 {
                    lemma_nearest_nonnegative(p, c, span, c.len());
                    assert(0 <= n.0 * 65536 / n.1) by (nonlinear_arith)
                        requires
                            0 <= n.0,
                            0 < n.1,
                    ;
                }
            }
            assert(22938 <= f <= 65536);
            assert(0 <= least * f * f <= least * 0x1_0000_0000) by (nonlinear_arith)
                requires
                    0 <= least,
                    0 <= f <= 65536,
            ;
        },
    }
}

/// No squared distance is below zero.
proof fn lemma_nearest_nonnegative(p: Point, centres: Seq<Point>, span: int, k: nat)
    ensures
        0 <= nearest_two(p, centres, span, k).0,
        0 <= nearest_two(p, centres, span, k).1,
    decreases k,
{
    if k > 0 {
        lemma_nearest_nonnegative(p, centres, span, (k - 1) as nat);
        let d = gap_sq(p, centres[k - 1], span);
        let raw = if p.0 >= centres[k - 1].0 {
            p.0 - centres[k - 1].0
        } else {
            centres[k - 1].0 - p.0
        };
        let dx = if raw <= span - raw {
            raw
        } else {
            span - raw
        };
        assert(0 <= dx * dx) by (nonlinear_arith);
        assert(0 <= (p.1 - centres[k - 1].1) * (p.1 - centres[k - 1].1)) by (nonlinear_arith);
    }
}

/// The centres that the attempts keep stand apart: any two of them keep
/// the distance that is in force, at its smallest share of 0.35, and so
/// they do after every relaxation.
pub proof fn lemma_kept_stand_apart(
    s0: Sampling,
    t: nat,
    w: int,
    h: int,
    count: int,
    centres: Option<Seq<Point>>,
)
    requires
        0 <= s0.least,
        spaced(s0.kept, w * 256, s0.least * 8027 / 65536),
    ensures
        0 <= sampled(s0, t, w, h, count, centres).least <= s0.least,
        spaced(
            sampled(s0, t, w, h, count, centres).kept,
            w * 256,
            sampled(s0, t, w, h, count, centres).least * 8027 / 65536,
        ),
    decreases t,
{
    if t > 0 {
        lemma_kept_stand_apart(s0, (t - 1) as nat, w, h, count, centres);
        let s = sampled(s0, (t - 1) as nat, w, h, count, centres);
        if s.kept.len() < count {
            let p = drawn_point(s.state, w, h);
            let need = required(s.least, p, centres, w * 256);
            lemma_required_floor(s.least, p, centres, w * 256);
            lemma_relaxed_shorter(s.least);
        }
    }
}

/// Whatever the density, a centre must keep at least 0.35 squared of the
/// even squared distance.
proof fn lemma_required_floor(least: int, p: Point, centres: Option<Seq<Point>>, span: int)
    requires
        0 <= least,
    ensures
        required(least, p, centres, span) >= least * 8027 / 65536,
{
    match centres {
        None => {},
        Some(c) => {
            let f = density_factor(p, c, span);
            let near = border_nearness(p, c, span);
            assert(near <= 65536);
            assert(f >= 22938) by {
                assert(42598 * (65536 - near) >= 0) by (nonlinear_arith)
                    requires
                        near <= 65536,
                ;
            }
            assert(least * f * f >= least * 526_151_844) by (nonlinear_arith)
                requires
                    0 <= least,
                    f >= 22938,
            ;
            assert(least * 526_151_844 >= least * 8027 * 65536) by (nonlinear_arith)
                requires
                    0 <= least,
            ;
        },
    }
}


} // verus!
