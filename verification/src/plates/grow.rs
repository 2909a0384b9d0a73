//! Growth of the microplates from their seeds.
//!
//! All seeds start at cost zero and spread over the eight-connected
//! cylinder, cheapest step first. A cell is claimed when it is taken from
//! the queue, not when it is put there: the plate that reaches it most
//! cheaply gets it, which lets the cost field bend the boundaries.

use vstd::prelude::*;
use crate::grid::{
    is_diagonal, lemma_east_neighbor, lemma_neighbor_inside, lemma_neighbor_symmetric, lemma_north_neighbor,
    lemma_south_neighbor, lemma_west_neighbor, neighbor_index, neighbor_of, Grid,
};
use crate::noise::{fbm, fractal, held, hold, product, times};
use crate::plates::seed::Point;
use crate::queue::{Entry, MinQueue};
use crate::rng::{seed_u32, stage_seed};

verus! {

/// Plate id of a cell that no plate has claimed.
pub const UNCLAIMED: u16 = 65535;

/// Store position of the cell a seed lies on.
pub open spec fn seed_cell(seed: (usize, usize), w: int) -> int {
    seed.1 as int * w + seed.0 as int
}

/// Every seed lies on the grid.
pub open spec fn seeds_inside(seeds: Seq<(usize, usize)>, w: int, h: int) -> bool {
    forall|p: int| 0 <= p < seeds.len() ==> (#[trigger] seeds[p]).0 < w && seeds[p].1 < h
}

/// Whether some neighbour of cell `c`, of its eight, belongs to plate `p`.
pub open spec fn adjoins(ids: Seq<u16>, c: int, p: int, w: int, h: int) -> bool {
    exists|d: int|
        0 <= d < 8 && (#[trigger] neighbor_index(c, d, w, h) matches Some(m) && ids[m] as int == p)
}

/// Whether plate `p` may hold cell `c`: its seed lies there, or one of the
/// neighbours of `c` belongs to it.
pub open spec fn reaches(
    ids: Seq<u16>,
    seeds: Seq<(usize, usize)>,
    c: int,
    p: int,
    w: int,
    h: int,
) -> bool {
    0 <= p < seeds.len() && (seed_cell(seeds[p], w) == c || adjoins(ids, c, p, w, h))
}

/// Every claimed cell is the seed cell of its plate or touches a cell of
/// its plate. That the plate is one piece is said by [`cheaply_reached`],
/// which gives every cell a walk from the seed over cells of its plate.
pub open spec fn rooted(ids: Seq<u16>, seeds: Seq<(usize, usize)>, w: int, h: int) -> bool {
    forall|c: int|
        0 <= c < ids.len() && #[trigger] ids[c] != UNCLAIMED ==> reaches(
            ids,
            seeds,
            c,
            ids[c] as int,
            w,
            h,
        )
}

/// The cell an entry of the queue stands for.
spec fn cell_of(x: Entry) -> int {
    x.item as int / 65536
}

/// The plate an entry of the queue stands for.
spec fn plate_of(x: Entry) -> int {
    x.item as int % 65536
}

/// Whether some entry for cell `m` waits in the queue.
spec fn waiting(q: Seq<Entry>, m: int) -> bool {
    exists|x: Entry| #[trigger] q.contains(x) && cell_of(x) == m
}

/// Number of cells no plate has claimed.
spec fn unclaimed(ids: Seq<u16>) -> nat
    decreases ids.len(),
{
    if ids.len() == 0 {
        0
    } else {
        unclaimed(ids.drop_last()) + if ids.last() == UNCLAIMED {
            1nat
        } else {
            0nat
        }
    }
}

proof fn lemma_claim_one(ids: Seq<u16>, c: int, p: u16)
    requires
        0 <= c < ids.len(),
        ids[c] == UNCLAIMED,
        p != UNCLAIMED,
    ensures
        unclaimed(ids.update(c, p)) + 1 == unclaimed(ids),
    decreases ids.len(),
{
    if c == ids.len() - 1 {
        assert(ids.update(c, p).drop_last() == ids.drop_last());
    } else {
        assert(ids.update(c, p).drop_last() == ids.drop_last().update(c, p));
        lemma_claim_one(ids.drop_last(), c, p);
    }
}

/// Every waiting entry names a cell of the grid and a plate that reaches it.
spec fn entries_ok(q: Seq<Entry>, ids: Seq<u16>, seeds: Seq<(usize, usize)>, w: int, h: int) -> bool {
    forall|x: Entry| #[trigger]
        q.contains(x) ==> 0 <= cell_of(x) < ids.len() && reaches(
            ids,
            seeds,
            cell_of(x),
            plate_of(x),
            w,
            h,
        )
}

/// Every neighbour of a claimed cell, but of `skip`, is claimed or waits.
spec fn frontier_ok(q: Seq<Entry>, ids: Seq<u16>, skip: int, w: int, h: int) -> bool {
    forall|c: int, d: int|
        0 <= c < ids.len() && c != skip && ids[c] != UNCLAIMED && 0 <= d < 8 ==> (
        #[trigger] neighbor_index(c, d, w, h) matches Some(m) ==> ids[m] != UNCLAIMED || waiting(
            q,
            m,
        ))
}

/// Every seed lies on a claimed cell or waits.
spec fn seeds_ok(q: Seq<Entry>, ids: Seq<u16>, seeds: Seq<(usize, usize)>, w: int) -> bool {
    forall|p: int|
        0 <= p < seeds.len() ==> ids[seed_cell(#[trigger] seeds[p], w)] != UNCLAIMED || waiting(
            q,
            seed_cell(seeds[p], w),
        )
}

/// Whether an entry of cost zero for cell `m` waits in the queue.
spec fn waiting_at_start(q: Seq<Entry>, m: int) -> bool {
    exists|x: Entry| #[trigger] q.contains(x) && cell_of(x) == m && x.key == 0
}

/// Where every step costs something: an entry of cost zero stands for a
/// seed on its cell, an unclaimed seed cell has such an entry waiting, and
/// a claimed seed cell belongs to a plate seeded on it.
spec fn starts_ok(q: Seq<Entry>, ids: Seq<u16>, seeds: Seq<(usize, usize)>, w: int) -> bool {
    &&& forall|x: Entry| #[trigger]
        q.contains(x) && x.key == 0 ==> 0 <= plate_of(x) < seeds.len() && seed_cell(
            seeds[plate_of(x)],
            w,
        ) == cell_of(x)
    &&& forall|p: int|
        0 <= p < seeds.len() ==> if ids[seed_cell(#[trigger] seeds[p], w)] == UNCLAIMED {
            waiting_at_start(q, seed_cell(seeds[p], w))
        } else {
            seed_cell(seeds[ids[seed_cell(seeds[p], w)] as int], w) == seed_cell(seeds[p], w)
        }
}

/// Whether stepping onto any cell costs something.
pub open spec fn all_costly(step_cost: Seq<u32>) -> bool {
    forall|c: int| 0 <= c < step_cost.len() ==> #[trigger] step_cost[c] > 0
}

/// Every seed lies on a cell of a plate that is seeded on that cell: no
/// plate loses the cell of its seed to a plate from elsewhere.
pub open spec fn seeds_at_home(ids: Seq<u16>, seeds: Seq<(usize, usize)>, w: int) -> bool {
    forall|p: int|
        0 <= p < seeds.len() ==> (ids[seed_cell(#[trigger] seeds[p], w)] as int) < seeds.len()
            && seed_cell(seeds[ids[seed_cell(seeds[p], w)] as int], w) == seed_cell(seeds[p], w)
}

/// What holds between any two steps of the growth.
spec fn growth_inv(
    q: Seq<Entry>,
    ids: Seq<u16>,
    seeds: Seq<(usize, usize)>,
    skip: int,
    w: int,
    h: int,
) -> bool {
    &&& ids.len() == w * h
    &&& seeds.len() <= 65535
    &&& seeds_inside(seeds, w, h)
    &&& rooted(ids, seeds, w, h)
    &&& entries_ok(q, ids, seeds, w, h)
    &&& frontier_ok(q, ids, skip, w, h)
    &&& seeds_ok(q, ids, seeds, w)
}

/// Claims keep what plates reach: a cell that a plate reached before one
/// more cell was claimed, it reaches after.
proof fn lemma_reaches_kept(
    ids: Seq<u16>,
    seeds: Seq<(usize, usize)>,
    c: int,
    p: int,
    at: int,
    pid: u16,
    w: int,
    h: int,
)
    requires
        0 < w,
        ids.len() == w * h,
        0 <= c < ids.len(),
        0 <= at < ids.len(),
        ids[at] == UNCLAIMED,
        seeds.len() <= 65535,
        reaches(ids, seeds, c, p, w, h),
    ensures
        reaches(ids.update(at, pid), seeds, c, p, w, h),
{
    if seed_cell(seeds[p], w) != c {
        let d = choose|d: int|
            0 <= d < 8 && (#[trigger] neighbor_index(c, d, w, h) matches Some(m) && ids[m] as int
                == p);
        lemma_neighbor_inside(c, d, w, h);
        let m = neighbor_index(c, d, w, h).unwrap();
        assert(ids.update(at, pid)[m] as int == p);
    }
}

/// A cell waits on after another entry has joined the queue.
proof fn lemma_waiting_kept(q0: Seq<Entry>, q1: Seq<Entry>, m: int)
    requires
        waiting(q0, m),
        forall|x: Entry| #[trigger] q0.contains(x) ==> q1.contains(x),
    ensures
        waiting(q1, m),
{
    let x = choose|x: Entry| #[trigger] q0.contains(x) && cell_of(x) == m;
    assert(q1.contains(x));
}

/// A cell waits on at cost zero after another entry has joined the queue.
proof fn lemma_start_kept(q0: Seq<Entry>, q1: Seq<Entry>, m: int)
    requires
        waiting_at_start(q0, m),
        forall|x: Entry| #[trigger] q0.contains(x) ==> q1.contains(x),
    ensures
        waiting_at_start(q1, m),
{
    let x = choose|x: Entry| #[trigger] q0.contains(x) && cell_of(x) == m && x.key == 0;
    assert(q1.contains(x));
}

/// The cost of reaching on from a cell at `cost` over one step, held at
/// the top of the range; a step across a corner costs 1.414 times a step
/// across an edge.
pub open spec fn next_cost(cost: u64, step_cost: u32, diagonal: bool) -> u64 {
    let step = if diagonal {
        step_cost as int * 1414 / 1000
    } else {
        step_cost as int
    };
    if cost + step > u64::MAX {
        u64::MAX
    } else {
        (cost + step) as u64
    }
}

/// The cost of one more step.
pub fn step_on(cost: u64, step_cost: u32, diagonal: bool) -> (r: u64)
    ensures
        r == next_cost(cost, step_cost, diagonal),
{
    let step: u64 = if diagonal {
        step_cost as u64 * 1414 / 1000
    } else {
        step_cost as u64
    };
    if cost > u64::MAX - step {
        u64::MAX
    } else {
        cost + step
    }
}

/// The cell that a walk from `start` has reached after `i` of its steps;
/// below zero where it has left the grid.
pub open spec fn walk_cell(start: int, dirs: Seq<int>, i: nat, w: int, h: int) -> int
    decreases i,
{
    if i == 0 {
        start
    } else {
        let prev = walk_cell(start, dirs, (i - 1) as nat, w, h);
        if prev < 0 {
            -1
        } else {
            match neighbor_index(prev, dirs[i - 1], w, h) {
                Some(m) => m,
                None => -1,
            }
        }
    }
}

/// The cost of the first `i` steps of a walk: every step costs what it
/// costs to step onto the cell it ends on, across an edge or a corner.
pub open spec fn walk_cost(start: int, dirs: Seq<int>, costs: Seq<u32>, i: nat, w: int, h: int) -> u64
    decreases i,
{
    if i == 0 {
        0
    } else {
        next_cost(
            walk_cost(start, dirs, costs, (i - 1) as nat, w, h),
            costs[walk_cell(start, dirs, i, w, h)],
            is_diagonal(dirs[i - 1]),
        )
    }
}

/// Whether `dirs` leads from `start` to `end` without leaving the grid.
pub open spec fn is_walk(start: int, dirs: Seq<int>, end: int, w: int, h: int) -> bool {
    &&& forall|i: nat| i <= dirs.len() ==> #[trigger] walk_cell(start, dirs, i, w, h) >= 0
    &&& walk_cell(start, dirs, dirs.len(), w, h) == end
}

/// Whether a walk runs over cells of plate `p` only.
pub open spec fn on_plate(ids: Seq<u16>, start: int, dirs: Seq<int>, p: int, w: int, h: int) -> bool {
    forall|i: nat| i <= dirs.len() ==> ids[#[trigger] walk_cell(start, dirs, i, w, h)] as int == p
}

/// Whether no walk from any seed reaches cell `c` for less than `k`.
pub open spec fn cheapest(
    seeds: Seq<(usize, usize)>,
    costs: Seq<u32>,
    c: int,
    k: u64,
    w: int,
    h: int,
) -> bool {
    forall|q: int, other: Seq<int>|
        0 <= q < seeds.len() && #[trigger] is_walk(seed_cell(seeds[q], w), other, c, w, h)
            ==> walk_cost(seed_cell(seeds[q], w), other, costs, other.len(), w, h) >= k
}

/// Whether cell `c` belongs to a plate that reaches it most cheaply: a
/// walk leads from the seed of its plate to the cell over cells of that
/// plate only, and no walk from any seed reaches the cell for less.
pub open spec fn cheaply_reached(
    ids: Seq<u16>,
    seeds: Seq<(usize, usize)>,
    costs: Seq<u32>,
    c: int,
    w: int,
    h: int,
) -> bool {
    exists|dirs: Seq<int>|
        #![trigger is_walk(seed_cell(seeds[ids[c] as int], w), dirs, c, w, h)]
        is_walk(seed_cell(seeds[ids[c] as int], w), dirs, c, w, h) && on_plate(
            ids,
            seed_cell(seeds[ids[c] as int], w),
            dirs,
            ids[c] as int,
            w,
            h,
        ) && cheapest(
            seeds,
            costs,
            c,
            walk_cost(seed_cell(seeds[ids[c] as int], w), dirs, costs, dirs.len(), w, h),
            w,
            h,
        )
}

/// A walk that stays on the grid stays inside the store.
pub proof fn lemma_walk_inside(start: int, dirs: Seq<int>, i: nat, w: int, h: int)
    requires
        0 < w,
        0 <= start < w * h,
        walk_cell(start, dirs, i, w, h) >= 0,
    ensures
        walk_cell(start, dirs, i, w, h) < w * h,
    decreases i,
{
    if i > 0 {
        let prev = walk_cell(start, dirs, (i - 1) as nat, w, h);
        lemma_walk_inside(start, dirs, (i - 1) as nat, w, h);
        lemma_neighbor_inside(prev, dirs[i - 1], w, h);
    }
}

/// Walks that begin with the same steps agree while they last.
pub proof fn lemma_walk_same_start(
    start: int,
    a: Seq<int>,
    b: Seq<int>,
    costs: Seq<u32>,
    i: nat,
    w: int,
    h: int,
)
    requires
        i <= a.len(),
        i <= b.len(),
        forall|j: int| 0 <= j < i ==> a[j] == b[j],
    ensures
        walk_cell(start, a, i, w, h) == walk_cell(start, b, i, w, h),
        walk_cost(start, a, costs, i, w, h) == walk_cost(start, b, costs, i, w, h),
    decreases i,
{
    if i > 0 {
        lemma_walk_same_start(start, a, b, costs, (i - 1) as nat, w, h);
    }
}

/// The first steps of a walk are a walk to where they end.
pub proof fn lemma_walk_prefix(
    start: int,
    dirs: Seq<int>,
    costs: Seq<u32>,
    end: int,
    i: nat,
    w: int,
    h: int,
)
    requires
        is_walk(start, dirs, end, w, h),
        i <= dirs.len(),
    ensures
        is_walk(start, dirs.take(i as int), walk_cell(start, dirs, i, w, h), w, h),
        walk_cost(start, dirs.take(i as int), costs, i, w, h) == walk_cost(
            start,
            dirs,
            costs,
            i,
            w,
            h,
        ),
{
    let pre = dirs.take(i as int);
    assert forall|j: nat| j <= pre.len() implies #[trigger] walk_cell(start, pre, j, w, h) >= 0 by {
        lemma_walk_same_start(start, pre, dirs, costs, j, w, h);
        assert(walk_cell(start, dirs, j, w, h) >= 0);
    }
    lemma_walk_same_start(start, pre, dirs, costs, i, w, h);
}

/// A walk goes on by one step to a neighbour.
proof fn lemma_walk_on(
    ids: Seq<u16>,
    start: int,
    dirs: Seq<int>,
    costs: Seq<u32>,
    from: int,
    d: int,
    to: int,
    p: int,
    w: int,
    h: int,
)
    requires
        is_walk(start, dirs, from, w, h),
        on_plate(ids, start, dirs, p, w, h),
        neighbor_index(from, d, w, h) == Some(to),
        0 <= to,
    ensures
        is_walk(start, dirs.push(d), to, w, h),
        walk_cost(start, dirs.push(d), costs, dirs.len() + 1, w, h) == next_cost(
            walk_cost(start, dirs, costs, dirs.len(), w, h),
            costs[to],
            is_diagonal(d),
        ),
        forall|i: nat|
            i <= dirs.len() ==> ids[#[trigger] walk_cell(start, dirs.push(d), i, w, h)] as int == p,
{
    let on = dirs.push(d);
    assert forall|i: nat| i <= dirs.len() implies walk_cell(start, on, i, w, h) == walk_cell(
        start,
        dirs,
        i,
        w,
        h,
    ) && walk_cost(start, on, costs, i, w, h) == walk_cost(start, dirs, costs, i, w, h) by {
        lemma_walk_same_start(start, on, dirs, costs, i, w, h);
    }
    assert(walk_cell(start, on, dirs.len(), w, h) == from);
    assert(on[dirs.len() as int] == d);
    assert(walk_cell(start, on, (dirs.len() + 1) as nat, w, h) == to);
    assert forall|i: nat| i <= on.len() implies #[trigger] walk_cell(start, on, i, w, h) >= 0 by {
        if i <= dirs.len() {
            assert(walk_cell(start, dirs, i, w, h) >= 0);
        }
    }
    assert forall|i: nat| i <= dirs.len() implies ids[#[trigger] walk_cell(start, on, i, w, h)] as int
        == p by {
        assert(ids[walk_cell(start, dirs, i, w, h)] as int == p);
    }
}

/// Whether an entry for cell `m` at a cost of `bound` or less waits in the
/// queue.
spec fn within(q: Seq<Entry>, m: int, bound: u64) -> bool {
    exists|x: Entry| #[trigger] q.contains(x) && cell_of(x) == m && x.key <= bound
}

/// Whether an entry was put into the queue from a claimed cell of its
/// plate, at the cost of that cell and the step.
spec fn from_claimed(x: Entry, ids: Seq<u16>, costs: Seq<u32>, dist: Seq<u64>, w: int, h: int) -> bool {
    exists|c: int, d: int|
        0 <= c < ids.len() && ids[c] as int == plate_of(x) && 0 <= d < 8 && #[trigger] neighbor_index(
            c,
            d,
            w,
            h,
        ) == Some(cell_of(x)) && x.key == next_cost(dist[c], costs[cell_of(x)], is_diagonal(d))
}

/// Every claimed cell has its route from the seed of its plate, over cells
/// of its plate, at the cost it was claimed for.
spec fn routes_ok(
    ids: Seq<u16>,
    seeds: Seq<(usize, usize)>,
    costs: Seq<u32>,
    dist: Seq<u64>,
    route: Seq<Seq<int>>,
    w: int,
    h: int,
) -> bool {
    forall|c: int|
        0 <= c < ids.len() && #[trigger] ids[c] != UNCLAIMED ==> (ids[c] as int) < seeds.len()
            && is_walk(seed_cell(seeds[ids[c] as int], w), route[c], c, w, h) && on_plate(
            ids,
            seed_cell(seeds[ids[c] as int], w),
            route[c],
            ids[c] as int,
            w,
            h,
        ) && walk_cost(seed_cell(seeds[ids[c] as int], w), route[c], costs, route[c].len(), w, h)
            == dist[c]
}

/// No claimed cell can be reached for less than it was claimed for.
spec fn least_ok(
    ids: Seq<u16>,
    seeds: Seq<(usize, usize)>,
    costs: Seq<u32>,
    dist: Seq<u64>,
    w: int,
    h: int,
) -> bool {
    forall|c: int|
        0 <= c < ids.len() && #[trigger] ids[c] != UNCLAIMED ==> cheapest(
            seeds,
            costs,
            c,
            dist[c],
            w,
            h,
        )
}

/// Every entry stands for a seed on its cell at no cost, or was put into
/// the queue from a claimed cell of its plate.
spec fn pushed_ok(
    q: Seq<Entry>,
    ids: Seq<u16>,
    seeds: Seq<(usize, usize)>,
    costs: Seq<u32>,
    dist: Seq<u64>,
    w: int,
    h: int,
) -> bool {
    forall|x: Entry| #[trigger]
        q.contains(x) ==> 0 <= cell_of(x) < ids.len() && 0 <= plate_of(x) < seeds.len() && ((x.key
            == 0 && seed_cell(seeds[plate_of(x)], w) == cell_of(x)) || from_claimed(
            x,
            ids,
            costs,
            dist,
            w,
            h,
        ))
}

/// Every unclaimed neighbour of a claimed cell, but of `skip`, waits at no
/// more than the cost of that cell and the step.
spec fn cost_front(
    q: Seq<Entry>,
    ids: Seq<u16>,
    costs: Seq<u32>,
    dist: Seq<u64>,
    skip: int,
    w: int,
    h: int,
) -> bool {
    forall|c: int, d: int|
        0 <= c < ids.len() && c != skip && ids[c] != UNCLAIMED && 0 <= d < 8 ==> (
        #[trigger] neighbor_index(c, d, w, h) matches Some(m) ==> ids[m] != UNCLAIMED || within(
            q,
            m,
            next_cost(dist[c], costs[m], is_diagonal(d)),
        ))
}

/// Every seed on an unclaimed cell waits at no cost.
spec fn seeds_wait(q: Seq<Entry>, ids: Seq<u16>, seeds: Seq<(usize, usize)>, w: int) -> bool {
    forall|p: int|
        0 <= p < seeds.len() ==> ids[seed_cell(#[trigger] seeds[p], w)] != UNCLAIMED
            || waiting_at_start(q, seed_cell(seeds[p], w))
}

/// What holds of costs between any two steps of the growth.
spec fn cost_inv(
    q: Seq<Entry>,
    ids: Seq<u16>,
    seeds: Seq<(usize, usize)>,
    costs: Seq<u32>,
    dist: Seq<u64>,
    route: Seq<Seq<int>>,
    skip: int,
    w: int,
    h: int,
) -> bool {
    &&& dist.len() == ids.len()
    &&& route.len() == ids.len()
    &&& costs.len() == ids.len()
    &&& routes_ok(ids, seeds, costs, dist, route, w, h)
    &&& least_ok(ids, seeds, costs, dist, w, h)
    &&& pushed_ok(q, ids, seeds, costs, dist, w, h)
    &&& cost_front(q, ids, costs, dist, skip, w, h)
    &&& seeds_wait(q, ids, seeds, w)
}

/// An entry waits on within its bound after another has joined the queue.
proof fn lemma_within_kept(q0: Seq<Entry>, q1: Seq<Entry>, m: int, bound: u64)
    requires
        within(q0, m, bound),
        forall|x: Entry| #[trigger] q0.contains(x) ==> q1.contains(x),
    ensures
        within(q1, m, bound),
{
    let x = choose|x: Entry| #[trigger] q0.contains(x) && cell_of(x) == m && x.key <= bound;
    assert(q1.contains(x));
}

/// No walk from a seed gets past the claimed cells for less than the least
/// cost that waits in the queue: after any number of its steps a walk has
/// cost `k` or more, or stands on a claimed cell.
proof fn lemma_walk_meets_queue(
    q: Seq<Entry>,
    ids: Seq<u16>,
    seeds: Seq<(usize, usize)>,
    costs: Seq<u32>,
    dist: Seq<u64>,
    k: u64,
    p: int,
    other: Seq<int>,
    end: int,
    i: nat,
    w: int,
    h: int,
)
    requires
        0 < w,
        ids.len() == w * h,
        dist.len() == ids.len(),
        costs.len() == ids.len(),
        seeds_inside(seeds, w, h),
        0 <= p < seeds.len(),
        is_walk(seed_cell(seeds[p], w), other, end, w, h),
        i <= other.len(),
        least_ok(ids, seeds, costs, dist, w, h),
        cost_front(q, ids, costs, dist, -1, w, h),
        seeds_wait(q, ids, seeds, w),
        forall|x: Entry| #[trigger] q.contains(x) ==> k <= x.key,
    ensures
        0 <= walk_cell(seed_cell(seeds[p], w), other, i, w, h) < ids.len(),
        walk_cost(seed_cell(seeds[p], w), other, costs, i, w, h) >= k || ids[walk_cell(
            seed_cell(seeds[p], w),
            other,
            i,
            w,
            h,
        )] != UNCLAIMED,
    decreases i,
{
    let start = seed_cell(seeds[p], w);
    crate::grid::lemma_index_in_range(seeds[p].0 as int, seeds[p].1 as int, w, h);
    assert(walk_cell(start, other, i, w, h) >= 0);
    lemma_walk_inside(start, other, i, w, h);
    if i == 0 {
        if ids[start] == UNCLAIMED {
            let x = choose|x: Entry| #[trigger] q.contains(x) && cell_of(x) == start && x.key == 0;
            assert(k <= x.key);
        }
    } else {
        let j = (i - 1) as nat;
        lemma_walk_meets_queue(q, ids, seeds, costs, dist, k, p, other, end, j, w, h);
        let t = walk_cell(start, other, j, w, h);
        let u = walk_cell(start, other, i, w, h);
        let before = walk_cost(start, other, costs, j, w, h);
        let d = other[i - 1];
        if before < k && ids[u] == UNCLAIMED {
            assert(ids[t] != UNCLAIMED);
            // the walk so far is no cheaper than the cell it stands on was claimed for
            lemma_walk_prefix(start, other, costs, end, j, w, h);
            assert(is_walk(start, other.take(j as int), t, w, h));
            assert(cheapest(seeds, costs, t, dist[t], w, h));
            assert(before >= dist[t]);
            // and the step on is waited for in the queue
            assert(neighbor_index(t, d, w, h) == Some(u));
            assert(0 <= d < 8);
            assert(within(q, u, next_cost(dist[t], costs[u], is_diagonal(d))));
            let x = choose|x: Entry|
                #[trigger] q.contains(x) && cell_of(x) == u && x.key <= next_cost(
                    dist[t],
                    costs[u],
                    is_diagonal(d),
                );
            assert(k <= x.key);
        }
    }
}

/// Claiming the cell of the least entry keeps what holds of costs.
proof fn lemma_claim(
    q0: Seq<Entry>,
    q1: Seq<Entry>,
    ids: Seq<u16>,
    seeds: Seq<(usize, usize)>,
    costs: Seq<u32>,
    dist: Seq<u64>,
    route: Seq<Seq<int>>,
    e: Entry,
    c: int,
    pid: u16,
    w: int,
    h: int,
) -> (r: (Seq<u64>, Seq<Seq<int>>))
    requires
        0 < w,
        ids.len() == w * h,
        seeds.len() <= 65535,
        seeds_inside(seeds, w, h),
        cost_inv(q0, ids, seeds, costs, dist, route, -1, w, h),
        q0.contains(e),
        forall|x: Entry| #[trigger] q0.contains(x) ==> crate::queue::before(e, x),
        forall|x: Entry| #[trigger] q1.contains(x) ==> q0.contains(x),
        forall|x: Entry| #[trigger] q0.contains(x) && x != e ==> q1.contains(x),
        c == cell_of(e),
        pid as int == plate_of(e),
        ids[c] == UNCLAIMED,
    ensures
        cost_inv(q1, ids.update(c, pid), seeds, costs, r.0, r.1, c, w, h),
        r.0[c] == e.key,
{
    let ids1 = ids.update(c, pid);
    let sc = seed_cell(seeds[pid as int], w);
    crate::grid::lemma_index_in_range(seeds[pid as int].0 as int, seeds[pid as int].1 as int, w, h);
    // the route of the cell: none from its own seed, or the route of the cell it was
    // reached from and one step more
    let way: Seq<int> = if e.key == 0 && sc == c {
        Seq::<int>::empty()
    } else {
        let (from, d) = choose|from: int, d: int|
            0 <= from < ids.len() && ids[from] as int == plate_of(e) && 0 <= d < 8 && #[trigger] neighbor_index(
                from,
                d,
                w,
                h,
            ) == Some(cell_of(e)) && e.key == next_cost(dist[from], costs[cell_of(e)], is_diagonal(d));
        route[from].push(d)
    };
    let dist1 = dist.update(c, e.key);
    let route1 = route.update(c, way);
    assert(is_walk(sc, way, c, w, h) && walk_cost(sc, way, costs, way.len(), w, h) == e.key
        && (forall|i: nat| i < way.len() ==> ids[#[trigger] walk_cell(sc, way, i, w, h)] as int
        == pid as int)) by {
        if !(e.key == 0 && sc == c) {
            let (from, d) = choose|from: int, d: int|
                0 <= from < ids.len() && ids[from] as int == plate_of(e) && 0 <= d < 8 && #[trigger] neighbor_index(
                    from,
                    d,
                    w,
                    h,
                ) == Some(cell_of(e)) && e.key == next_cost(
                    dist[from],
                    costs[cell_of(e)],
                    is_diagonal(d),
                );
            assert(ids[from] != UNCLAIMED);
            lemma_walk_on(ids, sc, route[from], costs, from, d, c, pid as int, w, h);
        }
    }
    // routes
    assert forall|cc: int| 0 <= cc < ids1.len() && #[trigger] ids1[cc] != UNCLAIMED implies (
    ids1[cc] as int) < seeds.len() && is_walk(
        seed_cell(seeds[ids1[cc] as int], w),
        route1[cc],
        cc,
        w,
        h,
    ) && on_plate(ids1, seed_cell(seeds[ids1[cc] as int], w), route1[cc], ids1[cc] as int, w, h)
        && walk_cost(seed_cell(seeds[ids1[cc] as int], w), route1[cc], costs, route1[cc].len(), w, h)
        == dist1[cc] by {
        if cc == c {
            assert forall|i: nat| i <= way.len() implies ids1[#[trigger] walk_cell(sc, way, i, w, h)] as int
                == pid as int by {
                assert(walk_cell(sc, way, i, w, h) >= 0);
                lemma_walk_inside(sc, way, i, w, h);
                if i < way.len() {
                    assert(ids[walk_cell(sc, way, i, w, h)] as int == pid as int);
                }
            }
        } else {
            assert(ids[cc] != UNCLAIMED);
            let s0 = seed_cell(seeds[ids[cc] as int], w);
            assert forall|i: nat| i <= route[cc].len() implies ids1[#[trigger] walk_cell(
                s0,
                route[cc],
                i,
                w,
                h,
            )] as int == ids[cc] as int by {
                crate::grid::lemma_index_in_range(
                    seeds[ids[cc] as int].0 as int,
                    seeds[ids[cc] as int].1 as int,
                    w,
                    h,
                );
                assert(walk_cell(s0, route[cc], i, w, h) >= 0);
                lemma_walk_inside(s0, route[cc], i, w, h);
                assert(ids[walk_cell(s0, route[cc], i, w, h)] as int == ids[cc] as int);
            }
        }
    }
    // nothing reaches the cell for less
    assert forall|q: int, other: Seq<int>|
        0 <= q < seeds.len() && #[trigger] is_walk(seed_cell(seeds[q], w), other, c, w, h) implies walk_cost(
        seed_cell(seeds[q], w),
        other,
        costs,
        other.len(),
        w,
        h,
    ) >= e.key by {
        lemma_walk_meets_queue(q0, ids, seeds, costs, dist, e.key, q, other, c, other.len(), w, h);
    }
    assert forall|cc: int| 0 <= cc < ids1.len() && #[trigger] ids1[cc] != UNCLAIMED implies cheapest(
        seeds,
        costs,
        cc,
        dist1[cc],
        w,
        h,
    ) by {
        if cc != c {
            assert(ids[cc] != UNCLAIMED);
        }
    }
    // the queue
    assert forall|x: Entry| #[trigger] q1.contains(x) implies 0 <= cell_of(x) < ids1.len() && 0
        <= plate_of(x) < seeds.len() && ((x.key == 0 && seed_cell(seeds[plate_of(x)], w) == cell_of(
        x,
    )) || from_claimed(x, ids1, costs, dist1, w, h)) by {
        assert(q0.contains(x));
        if !(x.key == 0 && seed_cell(seeds[plate_of(x)], w) == cell_of(x)) {
            let (from, d) = choose|from: int, d: int|
                0 <= from < ids.len() && ids[from] as int == plate_of(x) && 0 <= d < 8 && #[trigger] neighbor_index(
                    from,
                    d,
                    w,
                    h,
                ) == Some(cell_of(x)) && x.key == next_cost(
                    dist[from],
                    costs[cell_of(x)],
                    is_diagonal(d),
                );
            assert(ids[from] != UNCLAIMED);
            assert(ids1[from] as int == plate_of(x) && neighbor_index(from, d, w, h) == Some(
                cell_of(x),
            ) && x.key == next_cost(dist1[from], costs[cell_of(x)], is_diagonal(d)));
        }
    }
    assert forall|cc: int, d: int|
        0 <= cc < ids1.len() && cc != c && ids1[cc] != UNCLAIMED && 0 <= d < 8 implies (
    #[trigger] neighbor_index(cc, d, w, h) matches Some(m) ==> ids1[m] != UNCLAIMED || within(
        q1,
        m,
        next_cost(dist1[cc], costs[m], is_diagonal(d)),
    )) by {
        match neighbor_index(cc, d, w, h) {
            Some(m) => {
                lemma_neighbor_inside(cc, d, w, h);
                if ids1[m] == UNCLAIMED {
                    let bound = next_cost(dist[cc], costs[m], is_diagonal(d));
                    let x = choose|x: Entry|
                        #[trigger] q0.contains(x) && cell_of(x) == m && x.key <= bound;
                    assert(x != e);
                    assert(q1.contains(x));
                }
            },
            None => {},
        }
    }
    assert forall|p: int| 0 <= p < seeds.len() implies ids1[seed_cell(#[trigger] seeds[p], w)]
        != UNCLAIMED || waiting_at_start(q1, seed_cell(seeds[p], w)) by {
        let sp = seed_cell(seeds[p], w);
        crate::grid::lemma_index_in_range(seeds[p].0 as int, seeds[p].1 as int, w, h);
        if ids1[sp] == UNCLAIMED {
            let x = choose|x: Entry| #[trigger] q0.contains(x) && cell_of(x) == sp && x.key == 0;
            assert(x != e);
            assert(q1.contains(x));
        }
    }
    (dist1, route1)
}

/// Dropping an entry for a claimed cell keeps what holds of costs.
proof fn lemma_drop(
    q0: Seq<Entry>,
    q1: Seq<Entry>,
    ids: Seq<u16>,
    seeds: Seq<(usize, usize)>,
    costs: Seq<u32>,
    dist: Seq<u64>,
    route: Seq<Seq<int>>,
    e: Entry,
    w: int,
    h: int,
)
    requires
        0 < w,
        ids.len() == w * h,
        seeds_inside(seeds, w, h),
        cost_inv(q0, ids, seeds, costs, dist, route, -1, w, h),
        forall|x: Entry| #[trigger] q1.contains(x) ==> q0.contains(x),
        forall|x: Entry| #[trigger] q0.contains(x) && x != e ==> q1.contains(x),
        0 <= cell_of(e) < ids.len(),
        ids[cell_of(e)] != UNCLAIMED,
    ensures
        cost_inv(q1, ids, seeds, costs, dist, route, -1, w, h),
{
    assert forall|x: Entry| #[trigger] q1.contains(x) implies 0 <= cell_of(x) < ids.len() && 0
        <= plate_of(x) < seeds.len() && ((x.key == 0 && seed_cell(seeds[plate_of(x)], w) == cell_of(
        x,
    )) || from_claimed(x, ids, costs, dist, w, h)) by {
        assert(q0.contains(x));
    }
    assert forall|cc: int, d: int|
        0 <= cc < ids.len() && cc != -1 && ids[cc] != UNCLAIMED && 0 <= d < 8 implies (
    #[trigger] neighbor_index(cc, d, w, h) matches Some(m) ==> ids[m] != UNCLAIMED || within(
        q1,
        m,
        next_cost(dist[cc], costs[m], is_diagonal(d)),
    )) by {
        match neighbor_index(cc, d, w, h) {
            Some(m) => {
                if ids[m] == UNCLAIMED {
                    let bound = next_cost(dist[cc], costs[m], is_diagonal(d));
                    let x = choose|x: Entry|
                        #[trigger] q0.contains(x) && cell_of(x) == m && x.key <= bound;
                    assert(x != e);
                    assert(q1.contains(x));
                }
            },
            None => {},
        }
    }
    assert forall|p: int| 0 <= p < seeds.len() implies ids[seed_cell(#[trigger] seeds[p], w)]
        != UNCLAIMED || waiting_at_start(q1, seed_cell(seeds[p], w)) by {
        let sp = seed_cell(seeds[p], w);
        if ids[sp] == UNCLAIMED {
            let x = choose|x: Entry| #[trigger] q0.contains(x) && cell_of(x) == sp && x.key == 0;
            assert(x != e);
            assert(q1.contains(x));
        }
    }
}

/// Putting the entry of an unclaimed neighbour of the claimed cell `c` into
/// the queue keeps what holds of costs.
proof fn lemma_push(
    q0: Seq<Entry>,
    q1: Seq<Entry>,
    ids: Seq<u16>,
    seeds: Seq<(usize, usize)>,
    costs: Seq<u32>,
    dist: Seq<u64>,
    route: Seq<Seq<int>>,
    e: Entry,
    c: int,
    d: int,
    w: int,
    h: int,
)
    requires
        0 < w,
        ids.len() == w * h,
        cost_inv(q0, ids, seeds, costs, dist, route, c, w, h),
        q1.contains(e),
        forall|x: Entry| #[trigger] q0.contains(x) ==> q1.contains(x),
        forall|x: Entry| #[trigger] q1.contains(x) ==> q0.contains(x) || x == e,
        0 <= c < ids.len(),
        0 <= d < 8,
        ids[c] as int == plate_of(e),
        0 <= plate_of(e) < seeds.len(),
        neighbor_index(c, d, w, h) == Some(cell_of(e)),
        0 <= cell_of(e) < ids.len(),
        e.key == next_cost(dist[c], costs[cell_of(e)], is_diagonal(d)),
    ensures
        cost_inv(q1, ids, seeds, costs, dist, route, c, w, h),
        within(q1, cell_of(e), next_cost(dist[c], costs[cell_of(e)], is_diagonal(d))),
{
    assert forall|x: Entry| #[trigger] q1.contains(x) implies 0 <= cell_of(x) < ids.len() && 0
        <= plate_of(x) < seeds.len() && ((x.key == 0 && seed_cell(seeds[plate_of(x)], w) == cell_of(
        x,
    )) || from_claimed(x, ids, costs, dist, w, h)) by {
        if x != e {
            assert(q0.contains(x));
        } else {
            assert(neighbor_index(c, d, w, h) == Some(cell_of(x)));
        }
    }
    assert forall|cc: int, dd: int|
        0 <= cc < ids.len() && cc != c && ids[cc] != UNCLAIMED && 0 <= dd < 8 implies (
    #[trigger] neighbor_index(cc, dd, w, h) matches Some(m) ==> ids[m] != UNCLAIMED || within(
        q1,
        m,
        next_cost(dist[cc], costs[m], is_diagonal(dd)),
    )) by {
        match neighbor_index(cc, dd, w, h) {
            Some(m) => {
                if ids[m] == UNCLAIMED {
                    lemma_within_kept(q0, q1, m, next_cost(dist[cc], costs[m], is_diagonal(dd)));
                }
            },
            None => {},
        }
    }
    assert forall|p: int| 0 <= p < seeds.len() implies ids[seed_cell(#[trigger] seeds[p], w)]
        != UNCLAIMED || waiting_at_start(q1, seed_cell(seeds[p], w)) by {
        if ids[seed_cell(seeds[p], w)] == UNCLAIMED {
            lemma_start_kept(q0, q1, seed_cell(seeds[p], w));
        }
    }
}

/// Puts the neighbour of the freshly claimed cell `c` in direction `d` into
/// the queue, if no plate has claimed it yet.
fn relax(
    ids: &Vec<u16>,
    queue: &mut MinQueue,
    step_cost: &Vec<u32>,
    cost: u64,
    c: usize,
    pid: u16,
    d: u8,
    w: usize,
    h: usize,
    Ghost(seeds): Ghost<Seq<(usize, usize)>>,
    Ghost(dist): Ghost<Seq<u64>>,
    Ghost(route): Ghost<Seq<Seq<int>>>,
)
    requires
        0 < w <= i32::MAX,
        h <= i32::MAX,
        w as int * h as int <= 0xFFFF_FFFF_FFFF,
        d < 8,
        c < ids@.len(),
        step_cost@.len() == ids@.len(),
        ids@.len() == w as int * h as int,
        cost_inv(old(queue).items@, ids@, seeds, step_cost@, dist, route, c as int, w as int, h as int),
        dist[c as int] == cost,
        forall|k: int|
            0 <= k < d ==> (#[trigger] neighbor_index(c as int, k, w as int, h as int) matches Some(
                m,
            ) ==> ids@[m] != UNCLAIMED || within(
                old(queue).items@,
                m,
                next_cost(dist[c as int], step_cost@[m], is_diagonal(k)),
            )),
        ids@[c as int] == pid,
        (pid as int) < seeds.len(),
        old(queue).wf(),
        growth_inv(old(queue).items@, ids@, seeds, c as int, w as int, h as int),
        all_costly(step_cost@) ==> starts_ok(old(queue).items@, ids@, seeds, w as int),
        forall|k: int|
            0 <= k < d ==> (#[trigger] neighbor_index(c as int, k, w as int, h as int) matches Some(
                m,
            ) ==> ids@[m] != UNCLAIMED || waiting(old(queue).items@, m)),
    ensures
        final(queue).wf(),
        growth_inv(final(queue).items@, ids@, seeds, c as int, w as int, h as int),
        cost_inv(
            final(queue).items@,
            ids@,
            seeds,
            step_cost@,
            dist,
            route,
            c as int,
            w as int,
            h as int,
        ),
        forall|k: int|
            0 <= k <= d ==> (#[trigger] neighbor_index(c as int, k, w as int, h as int) matches Some(
                m,
            ) ==> ids@[m] != UNCLAIMED || within(
                final(queue).items@,
                m,
                next_cost(dist[c as int], step_cost@[m], is_diagonal(k)),
            )),
        all_costly(step_cost@) ==> starts_ok(final(queue).items@, ids@, seeds, w as int),
        forall|k: int|
            0 <= k <= d ==> (#[trigger] neighbor_index(c as int, k, w as int, h as int) matches Some(
                m,
            ) ==> ids@[m] != UNCLAIMED || waiting(final(queue).items@, m)),
        final(queue).count() <= old(queue).count() + 1,
{
    let ghost q0 = queue.items@;
    assert(ids@.len() == ids.len());
    match neighbor_of(c, d, w, h) {
        None => {},
        Some(m) => {
            if ids[m] == UNCLAIMED {
                let diagonal: bool = d == 0 || d == 2 || d == 5 || d == 7;
                let cost_on: u64 = step_on(cost, step_cost[m], diagonal);
                let e: Entry = Entry { key: cost_on, item: m as u64 * 65536 + pid as u64 };
                queue.push(e);
                proof {
                    let q1 = queue.items@;
                    assert(cell_of(e) == m as int && plate_of(e) == pid as int);
                    lemma_push(
                        q0,
                        q1,
                        ids@,
                        seeds,
                        step_cost@,
                        dist,
                        route,
                        e,
                        c as int,
                        d as int,
                        w as int,
                        h as int,
                    );
                    assert forall|k: int| 0 <= k <= d implies (#[trigger] neighbor_index(
                        c as int,
                        k,
                        w as int,
                        h as int,
                    ) matches Some(mm) ==> ids@[mm] != UNCLAIMED || within(
                        q1,
                        mm,
                        next_cost(dist[c as int], step_cost@[mm], is_diagonal(k)),
                    )) by {
                        match neighbor_index(c as int, k, w as int, h as int) {
                            Some(mm) => {
                                if k < d && ids@[mm] == UNCLAIMED {
                                    lemma_within_kept(
                                        q0,
                                        q1,
                                        mm,
                                        next_cost(dist[c as int], step_cost@[mm], is_diagonal(k)),
                                    );
                                }
                            },
                            None => {},
                        }
                    }
                    lemma_neighbor_symmetric(c as int, d as int, w as int, h as int);
                    assert(adjoins(ids@, m as int, pid as int, w as int, h as int)) by {
                        assert(neighbor_index(m as int, 7 - d as int, w as int, h as int) == Some(
                            c as int,
                        ));
                    }
                    assert(waiting(q1, m as int)) by {
                        assert(q1.contains(e));
                    }
                    if all_costly(step_cost@) {
                        assert(step_cost@[m as int] > 0);
                        assert(e.key > 0);
                        assert forall|x: Entry| #[trigger] q1.contains(x) && x.key == 0 implies 0
                            <= plate_of(x) < seeds.len() && seed_cell(seeds[plate_of(x)], w as int)
                            == cell_of(x) by {
                            assert(q0.contains(x));
                        }
                        assert forall|p: int| 0 <= p < seeds.len() implies if ids@[seed_cell(
                            #[trigger] seeds[p],
                            w as int,
                        )] == UNCLAIMED {
                            waiting_at_start(q1, seed_cell(seeds[p], w as int))
                        } else {
                            seed_cell(seeds[ids@[seed_cell(seeds[p], w as int)] as int], w as int)
                                == seed_cell(seeds[p], w as int)
                        } by {
                            if ids@[seed_cell(seeds[p], w as int)] == UNCLAIMED {
                                lemma_start_kept(q0, q1, seed_cell(seeds[p], w as int));
                            }
                        }
                    }
                    assert forall|cc: int, dd: int|
                        0 <= cc < ids@.len() && cc != c as int && ids@[cc] != UNCLAIMED && 0 <= dd
                            < 8 implies (#[trigger] neighbor_index(cc, dd, w as int, h as int) matches Some(
                        mm,
                    ) ==> ids@[mm] != UNCLAIMED || waiting(q1, mm)) by {
                        match neighbor_index(cc, dd, w as int, h as int) {
                            Some(mm) => {
                                if ids@[mm] == UNCLAIMED {
                                    lemma_waiting_kept(q0, q1, mm);
                                }
                            },
                            None => {},
                        }
                    }
                    assert forall|p: int| 0 <= p < seeds.len() implies ids@[seed_cell(
                        #[trigger] seeds[p],
                        w as int,
                    )] != UNCLAIMED || waiting(q1, seed_cell(seeds[p], w as int)) by {
                        if ids@[seed_cell(seeds[p], w as int)] == UNCLAIMED {
                            lemma_waiting_kept(q0, q1, seed_cell(seeds[p], w as int));
                        }
                    }
                    assert forall|k: int| 0 <= k <= d implies (#[trigger] neighbor_index(
                        c as int,
                        k,
                        w as int,
                        h as int,
                    ) matches Some(mm) ==> ids@[mm] != UNCLAIMED || waiting(q1, mm)) by {
                        match neighbor_index(c as int, k, w as int, h as int) {
                            Some(mm) => {
                                if k < d && ids@[mm] == UNCLAIMED {
                                    lemma_waiting_kept(q0, q1, mm);
                                }
                            },
                            None => {},
                        }
                    }
                }
            }
        },
    }
}

/// A claimed set that is closed under stepping to a neighbour reaches the
/// first cell of the store from any of its cells.
proof fn lemma_back_to_first(ids: Seq<u16>, k: int, w: int, h: int)
    requires
        0 < w,
        ids.len() == w * h,
        0 <= k < ids.len(),
        ids[k] != UNCLAIMED,
        forall|c: int, d: int|
            0 <= c < ids.len() && ids[c] != UNCLAIMED && 0 <= d < 8 ==> (
            #[trigger] neighbor_index(c, d, w, h) matches Some(m) ==> ids[m] != UNCLAIMED),
    ensures
        ids[0] != UNCLAIMED,
    decreases k,
{
    if k > 0 {
        if k % w != 0 {
            lemma_west_neighbor(k, w, h);
            assert(neighbor_index(k, 3, w, h) == Some(k - 1));
            lemma_back_to_first(ids, k - 1, w, h);
        } else {
            vstd::arithmetic::div_mod::lemma_fundamental_div_mod(k, w);
            assert(k >= w) by (nonlinear_arith)
                requires
                    k > 0,
                    k == w * (k / w),
                    0 < w,
            ;
            lemma_north_neighbor(k, w, h);
            assert(neighbor_index(k, 1, w, h) == Some(k - w));
            lemma_back_to_first(ids, k - w, w, h);
        }
    }
}

/// A claimed set that is closed under stepping to a neighbour and holds the
/// first cell of the store holds every cell.
proof fn lemma_on_from_first(ids: Seq<u16>, k: int, w: int, h: int)
    requires
        0 < w,
        ids.len() == w * h,
        0 <= k < ids.len(),
        ids[0] != UNCLAIMED,
        forall|c: int, d: int|
            0 <= c < ids.len() && ids[c] != UNCLAIMED && 0 <= d < 8 ==> (
            #[trigger] neighbor_index(c, d, w, h) matches Some(m) ==> ids[m] != UNCLAIMED),
    ensures
        ids[k] != UNCLAIMED,
    decreases k,
{
    if k > 0 {
        if k % w != 0 {
            lemma_on_from_first(ids, k - 1, w, h);
            lemma_east_neighbor(k - 1, w, h);
            assert(neighbor_index(k - 1, 4, w, h) == Some(k));
        } else {
            vstd::arithmetic::div_mod::lemma_fundamental_div_mod(k, w);
            assert(k >= w) by (nonlinear_arith)
                requires
                    k > 0,
                    k == w * (k / w),
                    0 < w,
            ;
            lemma_on_from_first(ids, k - w, w, h);
            lemma_south_neighbor(k - w, w, h);
            assert(neighbor_index(k - w, 6, w, h) == Some(k));
        }
    }
}

/// Grows the plates from their seeds over a `w` by `h` cylinder with a
/// given cost field.
///
/// `seeds[p]` is the cell `(x, y)` that plate `p` starts from, and
/// `step_cost` the cost of stepping onto each cell across an edge. Returns
/// the plate of every cell. Where there is a seed at all, every cell
/// belongs to a plate that reaches it most cheaply from its seed, over
/// cells of that plate only.
pub fn grow_over(w: usize, h: usize, seeds: &Vec<(usize, usize)>, step_cost: &Vec<u32>) -> (plate_id:
    Grid<u16>)
    requires
        0 < w <= i32::MAX,
        h <= i32::MAX,
        w as int * h as int <= 0xFFFF_FFFF_FFFF,
        seeds@.len() <= 65535,
        seeds_inside(seeds@, w as int, h as int),
        step_cost@.len() == w as int * h as int,
    ensures
        plate_id.wf(),
        plate_id.w == w,
        plate_id.h == h,
        rooted(plate_id.data@, seeds@, w as int, h as int),
        seeds@.len() > 0 ==> forall|c: int|
            0 <= c < plate_id.data@.len() ==> (#[trigger] plate_id.data@[c] as int) < seeds@.len(),
        seeds@.len() == 0 ==> forall|c: int|
            0 <= c < plate_id.data@.len() ==> #[trigger] plate_id.data@[c] == UNCLAIMED,
        all_costly(step_cost@) ==> seeds_at_home(plate_id.data@, seeds@, w as int),
        seeds@.len() > 0 ==> forall|c: int|
            0 <= c < plate_id.data@.len() ==> #[trigger] cheaply_reached(
                plate_id.data@,
                seeds@,
                step_cost@,
                c,
                w as int,
                h as int,
            ),
{
    assert(step_cost@.len() == step_cost.len());
    let mut grid: Grid<u16> = Grid::filled(w, h, UNCLAIMED);
    let mut queue: MinQueue = MinQueue::new();
    assert(grid.data@.len() == grid.data.len());
    let n: usize = grid.data.len();
    let ghost blank = grid.data@;
    let mut p: usize = 0;
    while p < seeds.len()
        invariant
            0 < w <= i32::MAX,
            h <= i32::MAX,
            w as int * h as int <= 0xFFFF_FFFF_FFFF,
            n == w as int * h as int,
            seeds@.len() <= 65535,
            seeds_inside(seeds@, w as int, h as int),
            grid.data@ == blank,
            grid.wf(),
            grid.w == w,
            grid.h == h,
            p <= seeds@.len(),
            queue.wf(),
            queue.count() == p as nat,
            entries_ok(queue.items@, blank, seeds@, w as int, h as int),
            forall|k: int|
                0 <= k < p ==> waiting(queue.items@, seed_cell(#[trigger] seeds@[k], w as int)),
            forall|k: int|
                0 <= k < p ==> waiting_at_start(
                    queue.items@,
                    seed_cell(#[trigger] seeds@[k], w as int),
                ),
            forall|x: Entry| #[trigger]
                queue.items@.contains(x) ==> 0 <= plate_of(x) < seeds@.len() && seed_cell(
                    seeds@[plate_of(x)],
                    w as int,
                ) == cell_of(x),
            forall|c: int| 0 <= c < blank.len() ==> #[trigger] blank[c] == UNCLAIMED,
            forall|x: Entry| #[trigger] queue.items@.contains(x) ==> x.key == 0 && 0 <= cell_of(x)
                < blank.len(),
        decreases seeds@.len() - p,
    {
        let s: (usize, usize) = seeds[p];
        proof {
            crate::grid::lemma_index_in_range(s.0 as int, s.1 as int, w as int, h as int);
            assert(0 <= s.1 as int * w as int) by (nonlinear_arith)
                requires
                    0 <= s.1,
                    0 < w,
            ;
        }
        let cell: usize = s.1 * w + s.0;
        let e: Entry = Entry { key: 0, item: cell as u64 * 65536 + p as u64 };
        let ghost q0 = queue.items@;
        queue.push(e);
        proof {
            let q1 = queue.items@;
            assert(cell_of(e) == cell as int && plate_of(e) == p as int);
            assert(q1.contains(e));
            assert(reaches(blank, seeds@, cell as int, p as int, w as int, h as int));
            assert forall|x: Entry| #[trigger] q1.contains(x) implies 0 <= cell_of(x) < blank.len()
                && reaches(blank, seeds@, cell_of(x), plate_of(x), w as int, h as int) by {
                if x != e {
                    assert(q0.contains(x));
                }
            }
            assert forall|k: int| 0 <= k < p + 1 implies waiting(
                q1,
                seed_cell(#[trigger] seeds@[k], w as int),
            ) by {
                if k < p {
                    lemma_waiting_kept(q0, q1, seed_cell(seeds@[k], w as int));
                }
            }
            assert forall|k: int| 0 <= k < p + 1 implies waiting_at_start(
                q1,
                seed_cell(#[trigger] seeds@[k], w as int),
            ) by {
                if k < p {
                    lemma_start_kept(q0, q1, seed_cell(seeds@[k], w as int));
                }
            }
            assert forall|x: Entry| #[trigger] q1.contains(x) implies 0 <= plate_of(x) < seeds@.len()
                && seed_cell(seeds@[plate_of(x)], w as int) == cell_of(x) by {
                if x != e {
                    assert(q0.contains(x));
                }
            }
            assert forall|x: Entry| #[trigger] q1.contains(x) implies x.key == 0 && 0 <= cell_of(x)
                < blank.len() by {
                if x != e {
                    assert(q0.contains(x));
                }
            }
        }
        p += 1;
    }
    let ghost mut dist: Seq<u64> = Seq::new(n as nat, |c: int| 0u64);
    let ghost mut route: Seq<Seq<int>> = Seq::new(n as nat, |c: int| Seq::<int>::empty());
    assert(cost_inv(
        queue.items@,
        grid.data@,
        seeds@,
        step_cost@,
        dist,
        route,
        -1,
        w as int,
        h as int,
    )) by {
        assert forall|k: int| 0 <= k < seeds@.len() implies grid.data@[seed_cell(
            #[trigger] seeds@[k],
            w as int,
        )] != UNCLAIMED || waiting_at_start(queue.items@, seed_cell(seeds@[k], w as int)) by {}
    }
    assert(growth_inv(queue.items@, grid.data@, seeds@, -1, w as int, h as int));
    assert(starts_ok(queue.items@, grid.data@, seeds@, w as int)) by {
        assert forall|k: int| 0 <= k < seeds@.len() implies grid.data@[seed_cell(
            #[trigger] seeds@[k],
            w as int,
        )] == UNCLAIMED by {
            crate::grid::lemma_index_in_range(
                seeds@[k].0 as int,
                seeds@[k].1 as int,
                w as int,
                h as int,
            );
        }
    }
    loop
        invariant
            0 < w <= i32::MAX,
            h <= i32::MAX,
            w as int * h as int <= 0xFFFF_FFFF_FFFF,
            n == w as int * h as int,
            step_cost@.len() == n,
            grid.wf(),
            grid.w == w,
            grid.h == h,
            queue.wf(),
            growth_inv(queue.items@, grid.data@, seeds@, -1, w as int, h as int),
            cost_inv(
                queue.items@,
                grid.data@,
                seeds@,
                step_cost@,
                dist,
                route,
                -1,
                w as int,
                h as int,
            ),
            all_costly(step_cost@) ==> starts_ok(queue.items@, grid.data@, seeds@, w as int),
            seeds@.len() == 0 ==> grid.data@ == blank,
        ensures
            queue.count() == 0,
            grid.wf(),
            grid.w == w,
            grid.h == h,
            growth_inv(queue.items@, grid.data@, seeds@, -1, w as int, h as int),
            cost_inv(
                queue.items@,
                grid.data@,
                seeds@,
                step_cost@,
                dist,
                route,
                -1,
                w as int,
                h as int,
            ),
            all_costly(step_cost@) ==> starts_ok(queue.items@, grid.data@, seeds@, w as int),
            seeds@.len() == 0 ==> grid.data@ == blank,
        decreases queue.count() + 9 * unclaimed(grid.data@),
    {
        let ghost q_before = queue.items@;
        let ghost ids0 = grid.data@;
        let popped: Option<Entry> = queue.pop();
        let e: Entry = match popped {
            None => {
                break ;
            },
            Some(e) => e,
        };
        let c: usize = (e.item / 65536) as usize;
        let pid: u16 = (e.item % 65536) as u16;
        let ghost q1 = queue.items@;
        proof {
            assert(q_before.contains(e));
            assert(cell_of(e) == c as int && plate_of(e) == pid as int);
        }
        if grid.data[c] != UNCLAIMED {
            proof {
                lemma_drop(
                    q_before,
                    q1,
                    ids0,
                    seeds@,
                    step_cost@,
                    dist,
                    route,
                    e,
                    w as int,
                    h as int,
                );
            }
            proof {
                assert forall|cc: int, dd: int|
                    0 <= cc < ids0.len() && ids0[cc] != UNCLAIMED && 0 <= dd < 8 implies (
                #[trigger] neighbor_index(cc, dd, w as int, h as int) matches Some(mm) ==> ids0[mm]
                    != UNCLAIMED || waiting(q1, mm)) by {
                    match neighbor_index(cc, dd, w as int, h as int) {
                        Some(mm) => {
                            if ids0[mm] == UNCLAIMED {
                                let x = choose|x: Entry| #[trigger]
                                    q_before.contains(x) && cell_of(x) == mm;
                                assert(x != e);
                                assert(q1.contains(x));
                            }
                        },
                        None => {},
                    }
                }
                assert forall|k: int| 0 <= k < seeds@.len() implies ids0[seed_cell(
                    #[trigger] seeds@[k],
                    w as int,
                )] != UNCLAIMED || waiting(q1, seed_cell(seeds@[k], w as int)) by {
                    let sc = seed_cell(seeds@[k], w as int);
                    if ids0[sc] == UNCLAIMED {
                        let x = choose|x: Entry| #[trigger] q_before.contains(x) && cell_of(x) == sc;
                        assert(x != e);
                        assert(q1.contains(x));
                    }
                }
                if all_costly(step_cost@) {
                    assert forall|x: Entry| #[trigger] q1.contains(x) && x.key == 0 implies 0
                        <= plate_of(x) < seeds@.len() && seed_cell(seeds@[plate_of(x)], w as int)
                        == cell_of(x) by {
                        assert(q_before.contains(x));
                    }
                    assert forall|k: int| 0 <= k < seeds@.len() implies if ids0[seed_cell(
                        #[trigger] seeds@[k],
                        w as int,
                    )] == UNCLAIMED {
                        waiting_at_start(q1, seed_cell(seeds@[k], w as int))
                    } else {
                        seed_cell(seeds@[ids0[seed_cell(seeds@[k], w as int)] as int], w as int)
                            == seed_cell(seeds@[k], w as int)
                    } by {
                        let sc = seed_cell(seeds@[k], w as int);
                        if ids0[sc] == UNCLAIMED {
                            let x = choose|x: Entry| #[trigger]
                                q_before.contains(x) && cell_of(x) == sc && x.key == 0;
                            assert(x != e);
                            assert(q1.contains(x));
                        }
                    }
                }
            }
            continue ;
        }
        proof {
            lemma_claim_one(ids0, c as int, pid);
        }
        grid.data.set(c, pid);
        proof {
            let known = lemma_claim(
                q_before,
                q1,
                ids0,
                seeds@,
                step_cost@,
                dist,
                route,
                e,
                c as int,
                pid,
                w as int,
                h as int,
            );
            dist = known.0;
            route = known.1;
        }
        proof {
            let ids1 = grid.data@;
            assert forall|cc: int| 0 <= cc < ids1.len() && #[trigger] ids1[cc] != UNCLAIMED implies reaches(
                ids1,
                seeds@,
                cc,
                ids1[cc] as int,
                w as int,
                h as int,
            ) by {
                if cc == c as int {
                    lemma_reaches_kept(ids0, seeds@, cc, pid as int, c as int, pid, w as int, h as int);
                } else {
                    lemma_reaches_kept(
                        ids0,
                        seeds@,
                        cc,
                        ids0[cc] as int,
                        c as int,
                        pid,
                        w as int,
                        h as int,
                    );
                }
            }
            assert forall|x: Entry| #[trigger] q1.contains(x) implies 0 <= cell_of(x) < ids1.len()
                && reaches(ids1, seeds@, cell_of(x), plate_of(x), w as int, h as int) by {
                assert(q_before.contains(x));
                lemma_reaches_kept(
                    ids0,
                    seeds@,
                    cell_of(x),
                    plate_of(x),
                    c as int,
                    pid,
                    w as int,
                    h as int,
                );
            }
            assert forall|cc: int, dd: int|
                0 <= cc < ids1.len() && cc != c as int && ids1[cc] != UNCLAIMED && 0 <= dd
                    < 8 implies (#[trigger] neighbor_index(cc, dd, w as int, h as int) matches Some(
                mm,
            ) ==> ids1[mm] != UNCLAIMED || waiting(q1, mm)) by {
                match neighbor_index(cc, dd, w as int, h as int) {
                    Some(mm) => {
                        lemma_neighbor_inside(cc, dd, w as int, h as int);
                        if ids1[mm] == UNCLAIMED {
                            let x = choose|x: Entry| #[trigger]
                                q_before.contains(x) && cell_of(x) == mm;
                            assert(x != e);
                            assert(q1.contains(x));
                        }
                    },
                    None => {},
                }
            }
            assert forall|k: int| 0 <= k < seeds@.len() implies ids1[seed_cell(
                #[trigger] seeds@[k],
                w as int,
            )] != UNCLAIMED || waiting(q1, seed_cell(seeds@[k], w as int)) by {
                let sc = seed_cell(seeds@[k], w as int);
                crate::grid::lemma_index_in_range(
                    seeds@[k].0 as int,
                    seeds@[k].1 as int,
                    w as int,
                    h as int,
                );
                if ids1[sc] == UNCLAIMED {
                    let x = choose|x: Entry| #[trigger] q_before.contains(x) && cell_of(x) == sc;
                    assert(x != e);
                    assert(q1.contains(x));
                }
            }
        }
        proof {
            if all_costly(step_cost@) {
                let ids1 = grid.data@;
                assert forall|x: Entry| #[trigger] q1.contains(x) && x.key == 0 implies 0
                    <= plate_of(x) < seeds@.len() && seed_cell(seeds@[plate_of(x)], w as int)
                    == cell_of(x) by {
                    assert(q_before.contains(x));
                }
                assert forall|k: int| 0 <= k < seeds@.len() implies if ids1[seed_cell(
                    #[trigger] seeds@[k],
                    w as int,
                )] == UNCLAIMED {
                    waiting_at_start(q1, seed_cell(seeds@[k], w as int))
                } else {
                    seed_cell(seeds@[ids1[seed_cell(seeds@[k], w as int)] as int], w as int)
                        == seed_cell(seeds@[k], w as int)
                } by {
                    let sc = seed_cell(seeds@[k], w as int);
                    crate::grid::lemma_index_in_range(
                        seeds@[k].0 as int,
                        seeds@[k].1 as int,
                        w as int,
                        h as int,
                    );
                    if sc == c as int {
                        // a seed was waiting here at cost zero, and nothing comes out
                        // of the queue before it
                        let x = choose|x: Entry| #[trigger]
                            q_before.contains(x) && cell_of(x) == sc && x.key == 0;
                        assert(crate::queue::before(e, x));
                        assert(e.key == 0);
                    } else if ids0[sc] == UNCLAIMED {
                        let x = choose|x: Entry| #[trigger]
                            q_before.contains(x) && cell_of(x) == sc && x.key == 0;
                        assert(x != e);
                        assert(q1.contains(x));
                    }
                }
            }
        }
        let ghost measure = queue.count() + 9 * unclaimed(grid.data@);
        let mut d: u8 = 0;
        while d < 8
            invariant
                0 < w <= i32::MAX,
                h <= i32::MAX,
                w as int * h as int <= 0xFFFF_FFFF_FFFF,
                n == w as int * h as int,
                step_cost@.len() == n,
                grid.wf(),
                grid.w == w,
                grid.h == h,
                c < n,
                d <= 8,
                grid.data@[c as int] == pid,
                (pid as int) < seeds@.len(),
                queue.wf(),
                growth_inv(queue.items@, grid.data@, seeds@, c as int, w as int, h as int),
                cost_inv(
                    queue.items@,
                    grid.data@,
                    seeds@,
                    step_cost@,
                    dist,
                    route,
                    c as int,
                    w as int,
                    h as int,
                ),
                dist[c as int] == e.key,
                forall|k: int|
                    0 <= k < d ==> (#[trigger] neighbor_index(c as int, k, w as int, h as int) matches Some(
                        m,
                    ) ==> grid.data@[m] != UNCLAIMED || within(
                        queue.items@,
                        m,
                        next_cost(dist[c as int], step_cost@[m], is_diagonal(k)),
                    )),
                all_costly(step_cost@) ==> starts_ok(queue.items@, grid.data@, seeds@, w as int),
                forall|k: int|
                    0 <= k < d ==> (#[trigger] neighbor_index(c as int, k, w as int, h as int) matches Some(
                        m,
                    ) ==> grid.data@[m] != UNCLAIMED || waiting(queue.items@, m)),
                queue.count() + 9 * unclaimed(grid.data@) <= measure + d,
            decreases 8 - d,
        {
            relax(
                &grid.data,
                &mut queue,
                step_cost,
                e.key,
                c,
                pid,
                d,
                w,
                h,
                Ghost(seeds@),
                Ghost(dist),
                Ghost(route),
            );
            d += 1;
        }
        proof {
            let ids = grid.data@;
            let q = queue.items@;
            assert forall|cc: int, dd: int|
                0 <= cc < ids.len() && cc != -1 && ids[cc] != UNCLAIMED && 0 <= dd < 8 implies (
            #[trigger] neighbor_index(cc, dd, w as int, h as int) matches Some(m) ==> ids[m]
                != UNCLAIMED || within(
                q,
                m,
                next_cost(dist[cc], step_cost@[m], is_diagonal(dd)),
            )) by {}
        }
    }
    proof {
        let ids = grid.data@;
        let q = queue.items@;
        assert forall|cc: int, dd: int|
            0 <= cc < ids.len() && ids[cc] != UNCLAIMED && 0 <= dd < 8 implies (
        #[trigger] neighbor_index(cc, dd, w as int, h as int) matches Some(mm) ==> ids[mm]
            != UNCLAIMED) by {
            match neighbor_index(cc, dd, w as int, h as int) {
                Some(mm) => {
                    if ids[mm] == UNCLAIMED {
                        let x = choose|x: Entry| #[trigger] q.contains(x) && cell_of(x) == mm;
                        assert(q.len() == 0);
                    }
                },
                None => {},
            }
        }
        if seeds@.len() > 0 {
            let sc = seed_cell(seeds@[0], w as int);
            crate::grid::lemma_index_in_range(
                seeds@[0].0 as int,
                seeds@[0].1 as int,
                w as int,
                h as int,
            );
            if ids[sc] == UNCLAIMED {
                let x = choose|x: Entry| #[trigger] q.contains(x) && cell_of(x) == sc;
                assert(q.len() == 0);
            }
            lemma_back_to_first(ids, sc, w as int, h as int);
            assert forall|cc: int| 0 <= cc < ids.len() implies (#[trigger] ids[cc] as int)
                < seeds@.len() by {
                lemma_on_from_first(ids, cc, w as int, h as int);
            }
            assert forall|cc: int| 0 <= cc < ids.len() implies #[trigger] cheaply_reached(
                ids,
                seeds@,
                step_cost@,
                cc,
                w as int,
                h as int,
            ) by {
                assert(ids[cc] != UNCLAIMED);
                let home = seed_cell(seeds@[ids[cc] as int], w as int);
                assert(is_walk(home, route[cc], cc, w as int, h as int));
                assert(cheapest(seeds@, step_cost@, cc, dist[cc], w as int, h as int));
            }
            if all_costly(step_cost@) {
                assert forall|k: int| 0 <= k < seeds@.len() implies (ids[seed_cell(
                    #[trigger] seeds@[k],
                    w as int,
                )] as int) < seeds@.len() && seed_cell(
                    seeds@[ids[seed_cell(seeds@[k], w as int)] as int],
                    w as int,
                ) == seed_cell(seeds@[k], w as int) by {
                    crate::grid::lemma_index_in_range(
                        seeds@[k].0 as int,
                        seeds@[k].1 as int,
                        w as int,
                        h as int,
                    );
                }
            }
        }
    }
    grid
}

/// Salt of the noise field that bends the plate boundaries.
pub const SALT_GROW: u64 = 0x6120_7700_CAFE_0002;

/// Least cost of a step, 0.05 in 65536ths.
pub const LEAST_COST: i64 = 3277;

/// The cost of stepping onto cell `(x, y)` across an edge, in 65536ths:
/// one plus `boundary_noise` times four octaves of fractal noise at the
/// place of the cell in the unit square, and no less than 0.05.
pub open spec fn cost_at(x: int, y: int, w: int, h: int, noise_seed: u32, boundary_noise: int) -> int {
    let n = fractal(
        x * 65536 / w,
        y * 65536 / h,
        noise_seed,
        4,
        393216int,
        131072int,
        32768int,
        false,
    );
    let c = 65536 + times(held(n), held(boundary_noise));
    if c < LEAST_COST {
        LEAST_COST as int
    } else if c > u32::MAX {
        u32::MAX as int
    } else {
        c
    }
}

/// The cost of stepping onto every cell of a `w` by `h` grid, in store
/// order.
pub open spec fn cost_field(w: int, h: int, seed: u64, boundary_noise: int) -> Seq<u32> {
    Seq::new(
        (w * h) as nat,
        |i: int| cost_at(i % w, i / w, w, h, stage_seed(seed, SALT_GROW), boundary_noise) as u32,
    )
}

/// The cost of stepping onto every cell of a `w` by `h` grid.
pub fn step_costs(w: usize, h: usize, seed: u64, boundary_noise: i64) -> (cost: Vec<u32>)
    requires
        0 < w <= 65535,
        0 < h <= 65535,
    ensures
        cost@.len() == w as int * h as int,
        all_costly(cost@),
        cost@ == cost_field(w as int, h as int, seed, boundary_noise as int),
        forall|x: int, y: int|
            0 <= x < w && 0 <= y < h ==> #[trigger] cost@[y * w as int + x] as int == cost_at(
                x,
                y,
                w as int,
                h as int,
                stage_seed(seed, SALT_GROW),
                boundary_noise as int,
            ),
{
    let noise_seed: u32 = seed_u32(seed, SALT_GROW);
    let bn: i64 = hold(boundary_noise as i128);
    let mut cost: Vec<u32> = Vec::new();
    let mut y: usize = 0;
    while y < h
        invariant
            0 < w <= 65535,
            0 < h <= 65535,
            y <= h,
            noise_seed == stage_seed(seed, SALT_GROW),
            bn as int == held(boundary_noise as int),
            cost@.len() == y as int * w as int,
            all_costly(cost@),
            forall|cx: int, cy: int|
                0 <= cx < w && 0 <= cy < y ==> #[trigger] cost@[cy * w as int + cx] as int
                    == cost_at(cx, cy, w as int, h as int, noise_seed, boundary_noise as int),
        decreases h - y,
    {
        let v: i64 = (y as i64 * 65536) / h as i64;
        let mut x: usize = 0;
        while x < w
            invariant
                0 < w <= 65535,
                0 < h <= 65535,
                y < h,
                x <= w,
                v as int == y as int * 65536 / h as int,
                noise_seed == stage_seed(seed, SALT_GROW),
                bn as int == held(boundary_noise as int),
                cost@.len() == y as int * w as int + x as int,
                all_costly(cost@),
                forall|cx: int, cy: int|
                    0 <= cx < w && (0 <= cy < y || (cy == y && cx < x)) ==> #[trigger] cost@[cy
                        * w as int + cx] as int == cost_at(
                        cx,
                        cy,
                        w as int,
                        h as int,
                        noise_seed,
                        boundary_noise as int,
                    ),
            decreases w - x,
        {
            let u: i64 = (x as i64 * 65536) / w as i64;
            let n: i64 = fbm(u, v, noise_seed, 4, 6 * 65536, 2 * 65536, 32768);
            let c: i64 = 65536 + product(hold(n as i128), bn);
            let held_cost: u32 = if c < LEAST_COST {
                LEAST_COST as u32
            } else if c > 0xFFFF_FFFF {
                0xFFFF_FFFF
            } else {
                c as u32
            };
            let ghost before = cost@;
            cost.push(held_cost);
            proof {
                assert forall|cx: int, cy: int|
                    0 <= cx < w && (0 <= cy < y || (cy == y && cx < x + 1)) implies #[trigger] cost@[cy
                    * w as int + cx] as int == cost_at(
                    cx,
                    cy,
                    w as int,
                    h as int,
                    noise_seed,
                    boundary_noise as int,
                ) by {
                    if cy == y as int && cx == x as int {
                    } else {
                        assert(0 <= cy * w as int + cx < y as int * w as int + x as int)
                            by (nonlinear_arith)
                            requires
                                0 <= cx < w as int,
                                0 <= cy < y as int || (cy == y as int && cx < x as int),
                        ;
                        assert(cost@[cy * w as int + cx] == before[cy * w as int + cx]);
                    }
                }
            }
            x += 1;
        }
        assert((y as int + 1) * w as int == y as int * w as int + w as int) by (nonlinear_arith);
        y += 1;
    }
    assert(h as int * w as int == w as int * h as int) by (nonlinear_arith);
    proof {
        let field = cost_field(w as int, h as int, seed, boundary_noise as int);
        assert forall|i: int| 0 <= i < cost@.len() implies #[trigger] cost@[i] == field[i] by {
            crate::plates::distance::lemma_cell_of_index(i, w as int, h as int);
            assert(cost@[(i / w as int) * w as int + i % w as int] as int == cost_at(
                i % w as int,
                i / w as int,
                w as int,
                h as int,
                noise_seed,
                boundary_noise as int,
            ));
        }
        assert(cost@ =~= field);
    }
    cost
}

/// The cell that a point lies in, held to the grid.
pub open spec fn cell_of_point(p: Point, w: int, h: int) -> (usize, usize) {
    (
        (if p.0 / 256 < w {
            p.0 as int / 256
        } else {
            w - 1
        }) as usize,
        (if p.1 / 256 < h {
            p.1 as int / 256
        } else {
            h - 1
        }) as usize,
    )
}

/// The cells that the seeds lie in.
pub open spec fn seed_cells(seeds: Seq<Point>, w: int, h: int) -> Seq<(usize, usize)> {
    Seq::new(seeds.len(), |p: int| cell_of_point(seeds[p], w, h))
}

/// Grows the microplates from their seeds.
///
/// Every seed starts at cost zero in the cell it lies in, and the plates
/// spread over the eight-connected cylinder, cheapest step first; the cost
/// of a step follows a noise field, so that the boundaries bend with it.
/// A cell is claimed when it is taken from the queue. Where there is a
/// seed at all, every cell belongs to a plate that reaches it from its
/// seed at the least cost of all plates, over cells of that plate only.
pub fn grow_plates(w: usize, h: usize, seeds: &Vec<Point>, seed: u64, boundary_noise: i64) -> (plate_id:
    Grid<u16>)
    requires
        0 < w <= 65535,
        0 < h <= 65535,
        seeds@.len() <= 65535,
    ensures
        plate_id.wf(),
        plate_id.w == w,
        plate_id.h == h,
        rooted(plate_id.data@, seed_cells(seeds@, w as int, h as int), w as int, h as int),
        seeds_at_home(plate_id.data@, seed_cells(seeds@, w as int, h as int), w as int),
        seeds@.len() > 0 ==> forall|c: int|
            0 <= c < plate_id.data@.len() ==> #[trigger] cheaply_reached(
                plate_id.data@,
                seed_cells(seeds@, w as int, h as int),
                cost_field(w as int, h as int, seed, boundary_noise as int),
                c,
                w as int,
                h as int,
            ),
        seeds@.len() > 0 ==> forall|c: int|
            0 <= c < plate_id.data@.len() ==> (#[trigger] plate_id.data@[c] as int) < seeds@.len(),
        seeds@.len() == 0 ==> forall|c: int|
            0 <= c < plate_id.data@.len() ==> #[trigger] plate_id.data@[c] == UNCLAIMED,
{
    let mut cells: Vec<(usize, usize)> = Vec::with_capacity(seeds.len());
    let mut p: usize = 0;
    while p < seeds.len()
        invariant
            0 < w <= 65535,
            0 < h <= 65535,
            p <= seeds@.len(),
            cells@.len() == p,
            forall|k: int|
                0 <= k < p ==> #[trigger] cells@[k] == cell_of_point(seeds@[k], w as int, h as int),
        decreases seeds@.len() - p,
    {
        let s: Point = seeds[p];
        let cx: usize = if ((s.0 / 256) as usize) < w {
            (s.0 / 256) as usize
        } else {
            w - 1
        };
        let cy: usize = if ((s.1 / 256) as usize) < h {
            (s.1 / 256) as usize
        } else {
            h - 1
        };
        cells.push((cx, cy));
        p += 1;
    }
    assert(cells@ =~= seed_cells(seeds@, w as int, h as int));
    assert(w as int * h as int <= 65535 * 65535) by (nonlinear_arith)
        requires
            0 < w <= 65535,
            0 < h <= 65535,
    ;
    let cost: Vec<u32> = step_costs(w, h, seed, boundary_noise);
    grow_over(w, h, &cells, &cost)
}

} // verus!
