//! The discrete part of elevation synthesis: smoothing of a field on the
//! cylinder, and distance from the coast, by which the continental shelf
//! is shaped.
//!
//! Distances are counted in thousandths of a cell: a step across an edge
//! is 1000, a step across a corner 1414. Smoothing weights are in
//! 65536ths.

use vstd::prelude::*;
use crate::grid::{lemma_index_in_range, lemma_neighbor_inside, neighbor_index, neighbor_of, wrap_col, wrap_x};
use crate::noise::floor_div;
use crate::plates::distance::lemma_cell_of_index;

verus! {

/// Distance of a cell that no path from land has reached.
pub const FAR: u64 = 0xFFFF_FFFF_FFFF_FFFF;

/// Length of a step across an edge.
pub const EDGE: u64 = 1000;

/// Length of a step across a corner.
pub const CORNER: u64 = 1414;

/// Length of a step in direction `d`.
pub open spec fn step_length(d: int) -> u64 {
    if d == 0 || d == 2 || d == 5 || d == 7 {
        CORNER
    } else {
        EDGE
    }
}

/// A distance one step longer, held at [`FAR`].
pub open spec fn one_step_on(dist: u64, step: u64) -> u64 {
    if dist + step >= FAR {
        FAR
    } else {
        (dist + step) as u64
    }
}

/// `best`, or the way over the neighbour of cell `i` in direction `d`
/// where that is shorter.
pub open spec fn shorter_over(best: u64, dist: Seq<u64>, i: int, d: int, w: int, h: int) -> u64 {
    match neighbor_index(i, d, w, h) {
        Some(n) => {
            let over = one_step_on(dist[n], step_length(d));
            if over < best {
                over
            } else {
                best
            }
        },
        None => best,
    }
}

/// Distance of cell `i` after it has looked at the neighbours that a
/// forward sweep has passed: west, north, north-west, north-east.
pub open spec fn looked_back(dist: Seq<u64>, i: int, w: int, h: int) -> u64 {
    let a = shorter_over(dist[i], dist, i, 3, w, h);
    let b = shorter_over(a, dist, i, 1, w, h);
    let c = shorter_over(b, dist, i, 0, w, h);
    shorter_over(c, dist, i, 2, w, h)
}

/// Distance of cell `i` after it has looked at the neighbours that a
/// backward sweep has passed: east, south, south-east, south-west.
pub open spec fn looked_ahead(dist: Seq<u64>, i: int, w: int, h: int) -> u64 {
    let a = shorter_over(dist[i], dist, i, 4, w, h);
    let b = shorter_over(a, dist, i, 6, w, h);
    let c = shorter_over(b, dist, i, 7, w, h);
    shorter_over(c, dist, i, 5, w, h)
}

/// The field after the first `t` cells of a forward sweep, in store order.
pub open spec fn swept_forward(dist: Seq<u64>, w: int, h: int, t: nat) -> Seq<u64>
    decreases t,
{
    if t == 0 {
        dist
    } else {
        let p = swept_forward(dist, w, h, (t - 1) as nat);
        p.update(t - 1, looked_back(p, t - 1, w, h))
    }
}

/// The field after the first `t` cells of a backward sweep, from the last
/// cell of the store down.
pub open spec fn swept_backward(dist: Seq<u64>, w: int, h: int, t: nat) -> Seq<u64>
    decreases t,
{
    if t == 0 {
        dist
    } else {
        let p = swept_backward(dist, w, h, (t - 1) as nat);
        p.update(dist.len() - t, looked_ahead(p, dist.len() - t, w, h))
    }
}

/// The field before any sweep: zero on land, [`FAR`] on the sea.
pub open spec fn from_land(land: Seq<bool>) -> Seq<u64> {
    Seq::new(
        land.len(),
        |i: int|
            if land[i] {
                0
            } else {
                FAR
            },
    )
}

/// Distance from land by one forward and one backward sweep.
pub open spec fn chamfer(land: Seq<bool>, w: int, h: int) -> Seq<u64> {
    let f = swept_forward(from_land(land), w, h, land.len());
    swept_backward(f, w, h, land.len())
}

/// Land lies at distance zero, and a sea cell that touches land lies no
/// further from it than the step to that land cell.
pub open spec fn coast_near(land: Seq<bool>, dist: Seq<u64>, upto: int, w: int, h: int) -> bool {
    &&& dist.len() == land.len()
    &&& forall|i: int| 0 <= i < land.len() && land[i] ==> #[trigger] dist[i] == 0
    &&& forall|i: int, d: int|
        0 <= i < land.len() && 0 <= d < upto ==> (#[trigger] neighbor_index(i, d, w, h) matches Some(
            n,
        ) ==> land[n] ==> dist[i] <= step_length(d))
}

/// The way over one neighbour, computed.
fn shorter(best: u64, dist: &Vec<u64>, i: usize, d: u8, w: usize, h: usize) -> (r: u64)
    requires
        0 < w <= i32::MAX,
        h <= i32::MAX,
        dist@.len() == w as int * h as int,
        i < dist@.len(),
        d < 8,
    ensures
        r == shorter_over(best, dist@, i as int, d as int, w as int, h as int),
        r <= best,
{
    assert(dist@.len() == dist.len());
    match neighbor_of(i, d, w, h) {
        Some(n) => {
            let step: u64 = if d == 0 || d == 2 || d == 5 || d == 7 {
                CORNER
            } else {
                EDGE
            };
            let over: u64 = if dist[n] >= FAR - step {
                FAR
            } else {
                dist[n] + step
            };
            if over < best {
                over
            } else {
                best
            }
        },
        None => best,
    }
}

/// Distance of every cell from the nearest land, by a forward and a
/// backward sweep over the eight-connected cylinder.
pub fn coast_distance(land: &Vec<bool>, w: usize, h: usize) -> (dist: Vec<u64>)
    requires
        0 < w <= i32::MAX,
        h <= i32::MAX,
        land@.len() == w as int * h as int,
    ensures
        dist@ == chamfer(land@, w as int, h as int),
        coast_near(land@, dist@, 8, w as int, h as int),
{
    let n: usize = land.len();
    let mut dist: Vec<u64> = Vec::with_capacity(n);
    let mut k: usize = 0;
    while k < n
        invariant
            n == land@.len(),
            k <= n,
            dist@.len() == k,
            forall|i: int|
                0 <= i < k ==> #[trigger] dist@[i] == (if land@[i] {
                    0
                } else {
                    FAR
                }),
        decreases n - k,
    {
        dist.push(if land[k] {
            0
        } else {
            FAR
        });
        k += 1;
    }
    assert(dist@ =~= from_land(land@));
    let ghost start = dist@;
    let mut i: usize = 0;
    while i < n
        invariant
            0 < w <= i32::MAX,
            h <= i32::MAX,
            n == land@.len(),
            land@.len() == w as int * h as int,
            i <= n,
            dist@.len() == n,
            dist@ == swept_forward(start, w as int, h as int, i as nat),
            forall|c: int| 0 <= c < n && land@[c] ==> #[trigger] dist@[c] == 0,
            forall|c: int, d: int|
                0 <= c < i && (d == 0 || d == 1 || d == 2 || d == 3) ==> (#[trigger] neighbor_index(
                    c,
                    d,
                    w as int,
                    h as int,
                ) matches Some(m) ==> land@[m] ==> dist@[c] <= step_length(d)),
        decreases n - i,
    {
        let a: u64 = shorter(dist[i], &dist, i, 3, w, h);
        let b: u64 = shorter(a, &dist, i, 1, w, h);
        let c: u64 = shorter(b, &dist, i, 0, w, h);
        let e: u64 = shorter(c, &dist, i, 2, w, h);
        proof {
            assert forall|d: int| 0 <= d < 8 implies (#[trigger] neighbor_index(
                i as int,
                d,
                w as int,
                h as int,
            ) matches Some(m) ==> 0 <= m < n) by {
                lemma_neighbor_inside(i as int, d, w as int, h as int);
            }
        }
        dist.set(i, e);
        i += 1;
    }
    let ghost middle = dist@;
    let mut t: usize = 0;
    while t < n
        invariant
            0 < w <= i32::MAX,
            h <= i32::MAX,
            n == land@.len(),
            land@.len() == w as int * h as int,
            t <= n,
            dist@.len() == n,
            middle.len() == n,
            dist@ == swept_backward(middle, w as int, h as int, t as nat),
            forall|c: int| 0 <= c < n && land@[c] ==> #[trigger] dist@[c] == 0,
            forall|c: int, d: int|
                0 <= c < n && (d == 0 || d == 1 || d == 2 || d == 3) ==> (#[trigger] neighbor_index(
                    c,
                    d,
                    w as int,
                    h as int,
                ) matches Some(m) ==> land@[m] ==> dist@[c] <= step_length(d)),
            forall|c: int, d: int|
                n - t <= c < n && (d == 4 || d == 5 || d == 6 || d == 7) ==> (#[trigger] neighbor_index(
                    c,
                    d,
                    w as int,
                    h as int,
                ) matches Some(m) ==> land@[m] ==> dist@[c] <= step_length(d)),
        decreases n - t,
    {
        let i: usize = n - 1 - t;
        let a: u64 = shorter(dist[i], &dist, i, 4, w, h);
        let b: u64 = shorter(a, &dist, i, 6, w, h);
        let c: u64 = shorter(b, &dist, i, 7, w, h);
        let e: u64 = shorter(c, &dist, i, 5, w, h);
        proof {
            assert forall|d: int| 0 <= d < 8 implies (#[trigger] neighbor_index(
                i as int,
                d,
                w as int,
                h as int,
            ) matches Some(m) ==> 0 <= m < n) by {
                lemma_neighbor_inside(i as int, d, w as int, h as int);
            }
        }
        dist.set(i, e);
        t += 1;
    }
    dist
}

/// Largest magnitude of a smoothed value: two to the power 62.
pub const SMOOTH_CAP: i64 = 0x4000_0000_0000_0000;

/// `v` held within [`SMOOTH_CAP`] either way.
pub open spec fn held62(v: int) -> int {
    if v > SMOOTH_CAP {
        SMOOTH_CAP as int
    } else if v < -SMOOTH_CAP {
        -SMOOTH_CAP
    } else {
        v
    }
}

/// The weighted sum round cell `(x, y)` along its row, over the cell and
/// its neighbours up to `r` columns away either side; columns wrap.
pub open spec fn row_sum(data: Seq<i64>, kernel: Seq<u16>, w: int, x: int, y: int, r: nat) -> int
    decreases r,
{
    if r == 0 {
        data[y * w + x] * kernel[0]
    } else {
        row_sum(data, kernel, w, x, y, (r - 1) as nat) + (data[y * w + wrap_col(x - r, w)] + data[y
            * w + wrap_col(x + r, w)]) * kernel[r as int]
    }
}

/// The row `r` places north of row `y`, held at the pole.
pub open spec fn north_of(y: int, r: int) -> int {
    if y - r < 0 {
        0
    } else {
        y - r
    }
}

/// The row `r` places south of row `y`, held at the pole.
pub open spec fn south_of(y: int, r: int, h: int) -> int {
    if y + r > h - 1 {
        h - 1
    } else {
        y + r
    }
}

/// The weighted sum round cell `(x, y)` along its column, over the cell
/// and its neighbours up to `r` rows away either side; rows are held at
/// the poles.
pub open spec fn column_sum(
    data: Seq<i64>,
    kernel: Seq<u16>,
    w: int,
    h: int,
    x: int,
    y: int,
    r: nat,
) -> int
    decreases r,
{
    if r == 0 {
        data[y * w + x] * kernel[0]
    } else {
        column_sum(data, kernel, w, h, x, y, (r - 1) as nat) + (data[north_of(y, r as int) * w + x]
            + data[south_of(y, r as int, h) * w + x]) * kernel[r as int]
    }
}

/// A field smoothed along its rows with the weights of `kernel`.
pub open spec fn smoothed_rows(data: Seq<i64>, kernel: Seq<u16>, w: int) -> Seq<i64> {
    Seq::new(
        data.len(),
        |i: int| held62(row_sum(data, kernel, w, i % w, i / w, (kernel.len() - 1) as nat) / 65536) as i64,
    )
}

/// A field smoothed along its columns with the weights of `kernel`.
pub open spec fn smoothed_columns(data: Seq<i64>, kernel: Seq<u16>, w: int, h: int) -> Seq<i64> {
    Seq::new(
        data.len(),
        |i: int|
            held62(column_sum(data, kernel, w, h, i % w, i / w, (kernel.len() - 1) as nat) / 65536) as i64,
    )
}

/// The weights of a kernel added up over the centre and the cells up to
/// `r` places away either side.
pub open spec fn weight_sum(kernel: Seq<u16>, r: nat) -> int
    decreases r,
{
    if r == 0 {
        kernel[0] as int
    } else {
        weight_sum(kernel, (r - 1) as nat) + 2 * kernel[r as int]
    }
}

/// Along a row of equal values the weighted sum is the value times the
/// weights added up.
pub proof fn lemma_row_sum_of_level(
    data: Seq<i64>,
    kernel: Seq<u16>,
    w: int,
    h: int,
    x: int,
    y: int,
    r: nat,
    c: i64,
)
    requires
        0 < w,
        0 <= x < w,
        0 <= y < h,
        data.len() == w * h,
        r < kernel.len(),
        forall|i: int| 0 <= i < data.len() ==> #[trigger] data[i] == c,
    ensures
        row_sum(data, kernel, w, x, y, r) == c * weight_sum(kernel, r),
    decreases r,
{
    lemma_index_in_range(x, y, w, h);
    if r > 0 {
        lemma_row_sum_of_level(data, kernel, w, h, x, y, (r - 1) as nat, c);
        vstd::arithmetic::div_mod::lemma_mod_bound(x - r, w);
        vstd::arithmetic::div_mod::lemma_mod_bound(x + r, w);
        lemma_index_in_range(wrap_col(x - r, w), y, w, h);
        lemma_index_in_range(wrap_col(x + r, w), y, w, h);
        let k = kernel[r as int] as int;
        let before = weight_sum(kernel, (r - 1) as nat);
        assert((c + c) * k == c * (2 * k)) by (nonlinear_arith);
        assert(c * before + c * (2 * k) == c * (before + 2 * k)) by (nonlinear_arith);
    }
}

/// Smoothing leaves a level field level: where every cell holds the same
/// value and the weights add up to one, smoothing along the rows changes
/// nothing.
pub proof fn lemma_level_stays_level(data: Seq<i64>, kernel: Seq<u16>, w: int, h: int, c: i64)
    requires
        0 < w,
        0 <= h,
        data.len() == w * h,
        1 <= kernel.len(),
        -SMOOTH_CAP <= c <= SMOOTH_CAP,
        weight_sum(kernel, (kernel.len() - 1) as nat) == 65536,
        forall|i: int| 0 <= i < data.len() ==> #[trigger] data[i] == c,
    ensures
        smoothed_rows(data, kernel, w) == data,
{
    let out = smoothed_rows(data, kernel, w);
    assert forall|i: int| 0 <= i < data.len() implies #[trigger] out[i] == data[i] by {
        lemma_cell_of_index(i, w, h);
        lemma_row_sum_of_level(data, kernel, w, h, i % w, i / w, (kernel.len() - 1) as nat, c);
        vstd::arithmetic::div_mod::lemma_fundamental_div_mod_converse(
            c as int * 65536,
            65536,
            c as int,
            0,
        );
    }
    assert(out =~= data);
}

/// The smoothed value of an accumulated sum.
fn settle(acc: i128) -> (v: i64)
    requires
        -0x4000_0000_0000_0000_0000_0000_0000_0000 < acc,
    ensures
        v as int == held62(acc as int / 65536),
{
    let q: i128 = floor_div(acc, 65536);
    if q > SMOOTH_CAP as i128 {
        SMOOTH_CAP
    } else if q < -(SMOOTH_CAP as i128) {
        -SMOOTH_CAP
    } else {
        q as i64
    }
}

/// One weighted pair of neighbours.
fn weighed(a: i64, b: i64, k: u16) -> (t: i128)
    ensures
        t as int == (a as int + b as int) * k as int,
        -0x1_0000_0000_0000_0000_0000 <= t <= 0x1_0000_0000_0000_0000_0000,
{
    let pair: i128 = a as i128 + b as i128;
    assert(-0x1_0000_0000_0000_0000_0000 <= pair * (k as i128) <= 0x1_0000_0000_0000_0000_0000)
        by (nonlinear_arith)
        requires
            -0x1_0000_0000_0000_0000 <= pair <= 0x1_0000_0000_0000_0000,
            0 <= k as i128 <= 0xFFFF,
    ;
    pair * (k as i128)
}

/// One cell smoothed along its row.
fn smooth_along_row(data: &Vec<i64>, kernel: &Vec<u16>, w: usize, h: usize, x: usize, y: usize) -> (v:
    i64)
    requires
        0 < w <= i32::MAX,
        0 < h <= i32::MAX,
        data@.len() == w as int * h as int,
        1 <= kernel@.len() <= 65536,
        x < w,
        y < h,
    ensures
        v as int == held62(
            row_sum(data@, kernel@, w as int, x as int, y as int, (kernel@.len() - 1) as nat)
                / 65536,
        ),
{
    assert(data@.len() == data.len());
    proof {
        lemma_index_in_range(x as int, y as int, w as int, h as int);
        assert(0 <= y as int * w as int) by (nonlinear_arith)
            requires
                0 <= y,
                0 < w,
        ;
    }
    let row: usize = y * w;
    let mut acc: i128 = weighed(data[row + x], 0, kernel[0]);
    let mut r: usize = 1;
    while r < kernel.len()
        invariant
            0 < w <= i32::MAX,
            0 < h <= i32::MAX,
            data@.len() == w as int * h as int,
            data@.len() <= usize::MAX,
            1 <= kernel@.len() <= 65536,
            x < w,
            y < h,
            row as int == y as int * w as int,
            1 <= r <= kernel@.len(),
            acc as int == row_sum(data@, kernel@, w as int, x as int, y as int, (r - 1) as nat),
            -0x1_0000_0000_0000_0000_0000 * r <= acc <= 0x1_0000_0000_0000_0000_0000 * r,
        decreases kernel@.len() - r,
    {
        let west: usize = wrap_x(x as i64 - r as i64, w);
        let east: usize = wrap_x(x as i64 + r as i64, w);
        proof {
            lemma_index_in_range(west as int, y as int, w as int, h as int);
            lemma_index_in_range(east as int, y as int, w as int, h as int);
        }
        acc = acc + weighed(data[row + west], data[row + east], kernel[r]);
        r += 1;
    }
    settle(acc)
}

/// One cell smoothed along its column.
fn smooth_along_column(
    data: &Vec<i64>,
    kernel: &Vec<u16>,
    w: usize,
    h: usize,
    x: usize,
    y: usize,
) -> (v: i64)
    requires
        0 < w <= i32::MAX,
        0 < h <= i32::MAX,
        data@.len() == w as int * h as int,
        1 <= kernel@.len() <= 65536,
        x < w,
        y < h,
    ensures
        v as int == held62(
            column_sum(
                data@,
                kernel@,
                w as int,
                h as int,
                x as int,
                y as int,
                (kernel@.len() - 1) as nat,
            ) / 65536,
        ),
{
    assert(data@.len() == data.len());
    proof {
        lemma_index_in_range(x as int, y as int, w as int, h as int);
        assert(0 <= y as int * w as int) by (nonlinear_arith)
            requires
                0 <= y,
                0 < w,
        ;
    }
    let mut acc: i128 = weighed(data[y * w + x], 0, kernel[0]);
    let mut r: usize = 1;
    while r < kernel.len()
        invariant
            0 < w <= i32::MAX,
            0 < h <= i32::MAX,
            data@.len() == w as int * h as int,
            data@.len() <= usize::MAX,
            1 <= kernel@.len() <= 65536,
            x < w,
            y < h,
            1 <= r <= kernel@.len(),
            acc as int == column_sum(
                data@,
                kernel@,
                w as int,
                h as int,
                x as int,
                y as int,
                (r - 1) as nat,
            ),
            -0x1_0000_0000_0000_0000_0000 * r <= acc <= 0x1_0000_0000_0000_0000_0000 * r,
        decreases kernel@.len() - r,
    {
        let north: usize = if y < r {
            0
        } else {
            y - r
        };
        let south: usize = if r > h - 1 - y {
            h - 1
        } else {
            y + r
        };
        proof {
            lemma_index_in_range(x as int, north as int, w as int, h as int);
            lemma_index_in_range(x as int, south as int, w as int, h as int);
            assert(0 <= north as int * w as int && 0 <= south as int * w as int)
                by (nonlinear_arith)
                requires
                    0 <= north,
                    0 <= south,
                    0 < w,
            ;
        }
        acc = acc + weighed(data[north * w + x], data[south * w + x], kernel[r]);
        r += 1;
    }
    settle(acc)
}

/// Smooths a field on the cylinder, first along the rows, where columns
/// wrap, then along the columns, where rows are held at the poles.
/// `kernel[r]` is the weight of the cells `r` places away, in 65536ths.
pub fn blur_grid(data: &mut Vec<i64>, w: usize, h: usize, kernel: &Vec<u16>)
    requires
        0 < w <= i32::MAX,
        0 < h <= i32::MAX,
        old(data)@.len() == w as int * h as int,
        1 <= kernel@.len() <= 65536,
    ensures
        final(data)@ == smoothed_columns(
            smoothed_rows(old(data)@, kernel@, w as int),
            kernel@,
            w as int,
            h as int,
        ),
{
    let ghost start = data@;
    let n: usize = data.len();
    let mut tmp: Vec<i64> = Vec::with_capacity(n);
    let mut i: usize = 0;
    while i < n
        invariant
            0 < w <= i32::MAX,
            0 < h <= i32::MAX,
            data@ == start,
            n == start.len(),
            start.len() == w as int * h as int,
            1 <= kernel@.len() <= 65536,
            i <= n,
            tmp@.len() == i,
            forall|k: int|
                0 <= k < i ==> #[trigger] tmp@[k] == smoothed_rows(start, kernel@, w as int)[k],
        decreases n - i,
    {
        proof {
            lemma_cell_of_index(i as int, w as int, h as int);
        }
        let v: i64 = smooth_along_row(data, kernel, w, h, i % w, i / w);
        tmp.push(v);
        i += 1;
    }
    assert(tmp@ =~= smoothed_rows(start, kernel@, w as int));
    let mut j: usize = 0;
    while j < n
        invariant
            0 < w <= i32::MAX,
            0 < h <= i32::MAX,
            n == start.len(),
            start.len() == w as int * h as int,
            tmp@.len() == n,
            data@.len() == n,
            1 <= kernel@.len() <= 65536,
            j <= n,
            forall|k: int|
                0 <= k < j ==> #[trigger] data@[k] == smoothed_columns(
                    tmp@,
                    kernel@,
                    w as int,
                    h as int,
                )[k],
        decreases n - j,
    {
        proof {
            lemma_cell_of_index(j as int, w as int, h as int);
        }
        let v: i64 = smooth_along_column(&tmp, kernel, w, h, j % w, j / w);
        data.set(j, v);
        j += 1;
    }
    assert(data@ =~= smoothed_columns(tmp@, kernel@, w as int, h as int));
}

} // verus!
