//! Per-plate bookkeeping: which macroplate a microplate belongs to, how
//! many cells each holds, and which microplates carry continents.

use vstd::prelude::*;
use crate::grid::Grid;
use crate::noise::{fbm, fractal, held, hold, product, times};
use crate::plates::seed::{gap_sq, point_gap_sq, points_inside, Point};
use crate::rng::{add_mod32, seed_u32, stage_seed};

verus! {

/// Properties of the plates. Microplates tile the grid; each belongs to one
/// macroplate. Velocities and base elevations are fixed-point integers.
pub struct PlateSet {
    pub num_micro: usize,
    pub num_macro: usize,
    /// For each microplate, its macroplate.
    pub macro_id: Vec<usize>,
    /// For each microplate, whether it carries continental crust.
    pub is_continental: Vec<bool>,
    /// For each microplate, its velocity `(vx, vy)`.
    pub velocity: Vec<(i32, i32)>,
    /// For each microplate, the elevation it starts from.
    pub base_elevation: Vec<i32>,
}

impl PlateSet {
    /// Every per-microplate array has one entry per microplate, and every
    /// microplate names an existing macroplate.
    pub open spec fn wf(&self) -> bool {
        &&& self.macro_id@.len() == self.num_micro
        &&& self.is_continental@.len() == self.num_micro
        &&& self.velocity@.len() == self.num_micro
        &&& self.base_elevation@.len() == self.num_micro
        &&& forall|i: int| 0 <= i < self.num_micro ==> #[trigger] self.macro_id@[i] < self.num_macro
    }
}

/// Every cell of the field names one of `num_micro` microplates.
pub open spec fn ids_valid(ids: Seq<u16>, num_micro: int) -> bool {
    forall|i: int| 0 <= i < ids.len() ==> (#[trigger] ids[i] as int) < num_micro
}

/// Number of cells of `ids` that belong to plate `p`.
pub open spec fn cells_of(ids: Seq<u16>, p: int) -> nat
    decreases ids.len(),
{
    if ids.len() == 0 {
        0
    } else {
        cells_of(ids.drop_last(), p) + if ids.last() as int == p {
            1nat
        } else {
            0nat
        }
    }
}

/// No plate holds more cells than there are.
pub proof fn lemma_cells_of_bound(ids: Seq<u16>, p: int)
    ensures
        cells_of(ids, p) <= ids.len(),
    decreases ids.len(),
{
    if ids.len() > 0 {
        lemma_cells_of_bound(ids.drop_last(), p);
    }
}

/// Counts the cells of each microplate. Cells whose id names no microplate
/// are counted nowhere.
pub fn count_cells(plate_id: &Grid<u16>, num_micro: usize) -> (counts: Vec<usize>)
    ensures
        counts@.len() == num_micro,
        forall|p: int| 0 <= p < num_micro ==> #[trigger] counts@[p] == cells_of(plate_id.data@, p),
{
    let mut counts: Vec<usize> = Vec::with_capacity(num_micro);
    let mut k: usize = 0;
    while k < num_micro
        invariant
            k <= num_micro,
            counts@.len() == k as int,
            forall|p: int| 0 <= p < k as int ==> #[trigger] counts@[p] == 0,
        decreases num_micro - k,
    {
        counts.push(0);
        k += 1;
    }
    let n: usize = plate_id.data.len();
    let mut i: usize = 0;
    assert(plate_id.data@.take(0).len() == 0);
    while i < n
        invariant
            n == plate_id.data@.len(),
            i <= n,
            counts@.len() == num_micro,
            forall|p: int|
                0 <= p < num_micro ==> #[trigger] counts@[p] == cells_of(
                    plate_id.data@.take(i as int),
                    p,
                ),
        decreases n - i,
    {
        let pid: usize = plate_id.data[i] as usize;
        proof {
            assert(plate_id.data@.take(i as int + 1).drop_last() == plate_id.data@.take(i as int));
            assert(plate_id.data@.take(i as int + 1).last() == plate_id.data@[i as int]);
        }
        if pid < num_micro {
            proof {
                lemma_cells_of_bound(plate_id.data@.take(i as int), pid as int);
            }
            let c: usize = counts[pid];
            counts.set(pid, c + 1);
        }
        i += 1;
    }
    assert(plate_id.data@.take(n as int) == plate_id.data@);
    counts
}

/// Sum of the first `k` cell counts.
pub open spec fn total_cells(counts: Seq<usize>, k: nat) -> nat
    decreases k,
{
    if k == 0 {
        0
    } else {
        total_cells(counts, (k - 1) as nat) + counts[k - 1] as nat
    }
}

/// Sum of the cell counts of those among the first `k` microplates that
/// belong to macroplate `j`.
pub open spec fn group_cells(counts: Seq<usize>, macro_id: Seq<usize>, j: int, k: nat) -> nat
    decreases k,
{
    if k == 0 {
        0
    } else {
        group_cells(counts, macro_id, j, (k - 1) as nat) + if macro_id[k - 1] as int == j {
            counts[k - 1] as nat
        } else {
            0nat
        }
    }
}

/// A macroplate holds no more cells than all plates together.
pub proof fn lemma_group_within_total(counts: Seq<usize>, macro_id: Seq<usize>, j: int, k: nat)
    ensures
        group_cells(counts, macro_id, j, k) <= total_cells(counts, k),
    decreases k,
{
    if k > 0 {
        lemma_group_within_total(counts, macro_id, j, (k - 1) as nat);
    }
}

/// The running total only grows.
pub proof fn lemma_total_grows(counts: Seq<usize>, k: nat, m: nat)
    requires
        k <= m,
    ensures
        total_cells(counts, k) <= total_cells(counts, m),
    decreases m,
{
    if k < m {
        lemma_total_grows(counts, k, (m - 1) as nat);
    }
}

/// Adds up, for each macroplate, the cells of its microplates.
pub fn macro_cell_counts(micro_counts: &Vec<usize>, macro_id: &Vec<usize>, num_macro: usize) -> (sums:
    Vec<usize>)
    requires
        macro_id@.len() == micro_counts@.len(),
        forall|i: int| 0 <= i < macro_id@.len() ==> #[trigger] macro_id@[i] < num_macro,
        total_cells(micro_counts@, micro_counts@.len()) <= usize::MAX,
    ensures
        sums@.len() == num_macro,
        forall|j: int|
            0 <= j < num_macro ==> #[trigger] sums@[j] == group_cells(
                micro_counts@,
                macro_id@,
                j,
                micro_counts@.len(),
            ),
{
    let mut sums: Vec<usize> = Vec::with_capacity(num_macro);
    let mut k: usize = 0;
    while k < num_macro
        invariant
            k <= num_macro,
            sums@.len() == k as int,
            forall|p: int| 0 <= p < k as int ==> #[trigger] sums@[p] == 0,
        decreases num_macro - k,
    {
        sums.push(0);
        k += 1;
    }
    let n: usize = micro_counts.len();
    let mut i: usize = 0;
    while i < n
        invariant
            n == micro_counts@.len(),
            macro_id@.len() == micro_counts@.len(),
            forall|q: int| 0 <= q < macro_id@.len() ==> #[trigger] macro_id@[q] < num_macro,
            total_cells(micro_counts@, micro_counts@.len()) <= usize::MAX,
            i <= n,
            sums@.len() == num_macro,
            forall|j: int|
                0 <= j < num_macro ==> #[trigger] sums@[j] == group_cells(
                    micro_counts@,
                    macro_id@,
                    j,
                    i as nat,
                ),
        decreases n - i,
    {
        let j: usize = macro_id[i];
        proof {
            lemma_group_within_total(micro_counts@, macro_id@, j as int, (i + 1) as nat);
            lemma_total_grows(micro_counts@, (i + 1) as nat, n as nat);
        }
        let s: usize = sums[j];
        sums.set(j, s + micro_counts[i]);
        i += 1;
    }
    sums
}

/// Cells still wanted for continents after the first `k` plates of `order`
/// have been looked at: each marked plate takes its cells off the target,
/// and nothing is wanted below zero.
pub open spec fn still_wanted(order: Seq<usize>, counts: Seq<usize>, target: nat, k: nat) -> nat
    decreases k,
{
    if k == 0 {
        target
    } else {
        let r = still_wanted(order, counts, target, (k - 1) as nat);
        let c = counts[order[k - 1] as int] as nat;
        if r <= c {
            0
        } else {
            (r - c) as nat
        }
    }
}

/// Whether plate `i` is marked continental: it stands in `order` at a place
/// that is reached while cells are still wanted.
pub open spec fn marked(order: Seq<usize>, counts: Seq<usize>, target: nat, i: int) -> bool {
    exists|k: int|
        0 <= k < order.len() && #[trigger] order[k] as int == i && still_wanted(
            order,
            counts,
            target,
            k as nat,
        ) > 0
}

/// What is still wanted never grows along `order`.
pub proof fn lemma_wanted_shrinks(
    order: Seq<usize>,
    counts: Seq<usize>,
    target: nat,
    k: nat,
    m: nat,
)
    requires
        k <= m,
    ensures
        still_wanted(order, counts, target, m) <= still_wanted(order, counts, target, k),
    decreases m,
{
    if k < m {
        lemma_wanted_shrinks(order, counts, target, k, (m - 1) as nat);
    }
}

/// With a target of zero cells no plate is continental.
pub proof fn lemma_no_target_no_continent(order: Seq<usize>, counts: Seq<usize>, i: int)
    ensures
        !marked(order, counts, 0, i),
{
    assert forall|k: nat| #[trigger] still_wanted(order, counts, 0, k) == 0 by {
        lemma_wanted_shrinks(order, counts, 0, 0, k);
    }
}

/// Continents fill `order` from its front: where a plate is marked
/// continental, so is every plate that stands before it.
pub proof fn lemma_continents_fill_from_front(
    order: Seq<usize>,
    counts: Seq<usize>,
    target: nat,
    k: int,
    m: int,
)
    requires
        0 <= k <= m < order.len(),
        still_wanted(order, counts, target, m as nat) > 0,
    ensures
        marked(order, counts, target, order[k] as int),
{
    lemma_wanted_shrinks(order, counts, target, k as nat, m as nat);
}

/// The cells of the first `k` plates of `order`, added up.
pub open spec fn cells_along(order: Seq<usize>, counts: Seq<usize>, k: nat) -> nat
    decreases k,
{
    if k == 0 {
        0
    } else {
        cells_along(order, counts, (k - 1) as nat) + counts[order[k - 1] as int] as nat
    }
}

/// The cells added up along an order only grow.
pub proof fn lemma_cells_along_grow(order: Seq<usize>, counts: Seq<usize>, k: nat, m: nat)
    requires
        k <= m,
    ensures
        cells_along(order, counts, k) <= cells_along(order, counts, m),
    decreases m,
{
    if k < m {
        lemma_cells_along_grow(order, counts, k, (m - 1) as nat);
    }
}

/// What is still wanted is no less than the target less the cells of the
/// plates looked at.
pub proof fn lemma_wanted_at_least(order: Seq<usize>, counts: Seq<usize>, target: nat, k: nat)
    ensures
        still_wanted(order, counts, target, k) + cells_along(order, counts, k) >= target,
    decreases k,
{
    if k > 0 {
        lemma_wanted_at_least(order, counts, target, (k - 1) as nat);
    }
}

/// With a target of all cells every plate that holds a cell is
/// continental: where the target is no less than the cells of all plates
/// of `order` together, every plate of `order` with a cell is marked.
pub proof fn lemma_full_target_marks_all(
    order: Seq<usize>,
    counts: Seq<usize>,
    target: nat,
    k: int,
)
    requires
        0 <= k < order.len(),
        target >= cells_along(order, counts, order.len()),
        counts[order[k] as int] > 0,
    ensures
        marked(order, counts, target, order[k] as int),
{
    lemma_wanted_at_least(order, counts, target, k as nat);
    lemma_cells_along_grow(order, counts, (k + 1) as nat, order.len());
    assert(cells_along(order, counts, (k + 1) as nat) == cells_along(order, counts, k as nat)
        + counts[order[k] as int] as nat);
    assert(still_wanted(order, counts, target, k as nat) > 0);
}

/// Marks microplates continental in the given order until the plates
/// marked hold `target` cells or more between them.
pub fn assign_continental(order: &Vec<usize>, micro_counts: &Vec<usize>, target: usize) -> (flags:
    Vec<bool>)
    requires
        forall|k: int| 0 <= k < order@.len() ==> #[trigger] order@[k] < micro_counts@.len(),
    ensures
        flags@.len() == micro_counts@.len(),
        forall|i: int|
            0 <= i < flags@.len() ==> (#[trigger] flags@[i] <==> marked(
                order@,
                micro_counts@,
                target as nat,
                i,
            )),
{
    let n: usize = micro_counts.len();
    let mut flags: Vec<bool> = Vec::with_capacity(n);
    let mut j: usize = 0;
    while j < n
        invariant
            j <= n,
            flags@.len() == j as int,
            forall|p: int| 0 <= p < j as int ==> !(#[trigger] flags@[p]),
        decreases n - j,
    {
        flags.push(false);
        j += 1;
    }
    let mut remaining: usize = target;
    let mut k: usize = 0;
    while k < order.len() && remaining > 0
        invariant
            n == micro_counts@.len(),
            forall|q: int| 0 <= q < order@.len() ==> #[trigger] order@[q] < micro_counts@.len(),
            k <= order@.len(),
            flags@.len() == n as int,
            remaining as nat == still_wanted(order@, micro_counts@, target as nat, k as nat),
            forall|i: int|
                0 <= i < n as int ==> (#[trigger] flags@[i] <==> exists|q: int|
                    0 <= q < k as int && #[trigger] order@[q] as int == i && still_wanted(
                        order@,
                        micro_counts@,
                        target as nat,
                        q as nat,
                    ) > 0),
        decreases order@.len() - k,
    {
        let idx: usize = order[k];
        let ghost before = flags@;
        flags.set(idx, true);
        let c: usize = micro_counts[idx];
        remaining = if remaining <= c {
            0
        } else {
            remaining - c
        };
        proof {
            assert forall|i: int| 0 <= i < n as int implies (#[trigger] flags@[i] <==> exists|
                q: int,
            |
                0 <= q < k as int + 1 && #[trigger] order@[q] as int == i && still_wanted(
                    order@,
                    micro_counts@,
                    target as nat,
                    q as nat,
                ) > 0) by {
                if i == idx as int {
                    assert(order@[k as int] as int == i);
                } else {
                    assert(flags@[i] == before[i]);
                }
            }
        }
        k += 1;
    }
    proof {
        assert forall|i: int| 0 <= i < flags@.len() implies (#[trigger] flags@[i] <==> marked(
            order@,
            micro_counts@,
            target as nat,
            i,
        )) by {
            if marked(order@, micro_counts@, target as nat, i) {
                let q = choose|q: int|
                    0 <= q < order@.len() && #[trigger] order@[q] as int == i && still_wanted(
                        order@,
                        micro_counts@,
                        target as nat,
                        q as nat,
                    ) > 0;
                if q >= k as int {
                    lemma_wanted_shrinks(order@, micro_counts@, target as nat, k as nat, q as nat);
                }
            }
        }
    }
    flags
}

/// Momentum of the first `k` plates along one axis: the sum of their
/// speeds, each weighted with the cells of its plate.
pub open spec fn momentum(speeds: Seq<int>, counts: Seq<usize>, k: nat) -> int
    decreases k,
{
    if k == 0 {
        0
    } else {
        momentum(speeds, counts, (k - 1) as nat) + speeds[k - 1] * (counts[k - 1] as int)
    }
}

/// The speeds of a set of velocities along the first axis.
pub open spec fn speeds_x(velocity: Seq<(i64, i64)>) -> Seq<int> {
    Seq::new(velocity.len(), |j: int| velocity[j].0 as int)
}

/// The speeds of a set of velocities along the second axis.
pub open spec fn speeds_y(velocity: Seq<(i64, i64)>) -> Seq<int> {
    Seq::new(velocity.len(), |j: int| velocity[j].1 as int)
}

/// Speed units in one cell per step: speeds are counted in 2^52ths, fine
/// enough for the momentum of a world to be balanced to a hundred
/// thousandth and better.
pub const SPEED_UNIT: i64 = 0x10_0000_0000_0000;

/// Largest speed, along either axis, that plates may have when their
/// momentum is balanced: sixteen cells per step.
pub const SPEED_LIMIT: i64 = 0x100_0000_0000_0000;

/// No speed lies beyond the limit.
pub open spec fn speeds_bounded(velocity: Seq<(i64, i64)>) -> bool {
    forall|j: int|
        0 <= j < velocity.len() ==> -SPEED_LIMIT <= (#[trigger] velocity[j]).0 <= SPEED_LIMIT
            && -SPEED_LIMIT <= velocity[j].1 <= SPEED_LIMIT
}

/// No speed lies beyond twice the limit.
pub open spec fn speeds_doubly_bounded(velocity: Seq<(i64, i64)>) -> bool {
    forall|j: int|
        0 <= j < velocity.len() ==> -2 * SPEED_LIMIT <= (#[trigger] velocity[j]).0 <= 2
            * SPEED_LIMIT && -2 * SPEED_LIMIT <= velocity[j].1 <= 2 * SPEED_LIMIT
}

/// Momentum is bounded by the speed limit times the cells.
proof fn lemma_momentum_bound(speeds: Seq<int>, counts: Seq<usize>, k: nat, limit: int)
    requires
        k <= speeds.len(),
        k <= counts.len(),
        0 <= limit,
        forall|j: int| 0 <= j < speeds.len() ==> -limit <= #[trigger] speeds[j] <= limit,
    ensures
        -limit * total_cells(counts, k) <= momentum(speeds, counts, k) <= limit * total_cells(
            counts,
            k,
        ),
    decreases k,
{
    if k > 0 {
        lemma_momentum_bound(speeds, counts, (k - 1) as nat, limit);
        let c = counts[k - 1] as int;
        let v = speeds[k - 1];
        let t = total_cells(counts, (k - 1) as nat) as int;
        assert(-limit * c <= v * c <= limit * c) by (nonlinear_arith)
            requires
                -limit <= v <= limit,
                0 <= c,
        ;
        assert(limit * (t + c) == limit * t + limit * c) by (nonlinear_arith);
        assert(-limit * (t + c) == -limit * t + -limit * c) by (nonlinear_arith);
    } else {
        assert(limit * 0 == 0 && -limit * 0 == 0) by (nonlinear_arith);
    }
}

/// Taking `m` off every speed takes `m` times the cells off the momentum.
proof fn lemma_momentum_shift(
    before: Seq<int>,
    after: Seq<int>,
    counts: Seq<usize>,
    m: int,
    k: nat,
)
    requires
        k <= before.len(),
        after.len() == before.len(),
        forall|j: int| 0 <= j < before.len() ==> #[trigger] after[j] == before[j] - m,
    ensures
        momentum(after, counts, k) == momentum(before, counts, k) - m * total_cells(counts, k),
    decreases k,
{
    if k > 0 {
        lemma_momentum_shift(before, after, counts, m, (k - 1) as nat);
        let c = counts[k - 1] as int;
        let t = total_cells(counts, (k - 1) as nat) as int;
        assert((before[k - 1] - m) * c == before[k - 1] * c - m * c) by (nonlinear_arith);
        assert(m * (t + c) == m * t + m * c) by (nonlinear_arith);
    } else {
        assert(m * 0 == 0) by (nonlinear_arith);
    }
}

/// Whether `after` is `before` with `(mx, my)` taken off every velocity.
pub open spec fn shifted(
    before: Seq<(i64, i64)>,
    after: Seq<(i64, i64)>,
    mx: int,
    my: int,
) -> bool {
    &&& after.len() == before.len()
    &&& forall|j: int|
        0 <= j < before.len() ==> (#[trigger] after[j]).0 == before[j].0 - mx && after[j].1
            == before[j].1 - my
}

/// The mean of a momentum `s` over `total` cells, rounded down.
fn mean_speed(s: i128, total: u64) -> (m: i64)
    requires
        total > 0,
        -(SPEED_LIMIT as int) * total as int <= s <= SPEED_LIMIT as int * total as int,
    ensures
        0 <= s - (m as int) * (total as int) < (total as int),
        -SPEED_LIMIT <= m <= SPEED_LIMIT,
{
    let t: i128 = total as i128;
    assert(0 <= SPEED_LIMIT as int * t as int <= 0x100_0000_0000_0000 * 0xFFFF_FFFF_FFFF_FFFF)
        by (nonlinear_arith)
        requires
            0 < t <= 0xFFFF_FFFF_FFFF_FFFF,
            SPEED_LIMIT == 0x100_0000_0000_0000,
    ;
    assert(-(SPEED_LIMIT as int) * t as int == -(SPEED_LIMIT as int * t as int))
        by (nonlinear_arith);
    let mut q: i128 = 0;
    if s >= 0 {
        q = s / t;
        proof {
            vstd::arithmetic::div_mod::lemma_fundamental_div_mod(s as int, t as int);
            vstd::arithmetic::div_mod::lemma_mod_bound(s as int, t as int);
            assert(t as int * (s as int / t as int) == (s as int / t as int) * t as int)
                by (nonlinear_arith);
            assert(0 <= s - q * t < t);
        }
    } else {
        let a: i128 = -s;
        let up: i128 = (a + t - 1) / t;
        proof {
            vstd::arithmetic::div_mod::lemma_fundamental_div_mod((a + t - 1) as int, t as int);
            vstd::arithmetic::div_mod::lemma_mod_bound((a + t - 1) as int, t as int);
            assert(t as int * up as int == up as int * t as int) by (nonlinear_arith);
            assert(0 <= up * t - a < t);
            assert(0 <= up <= a + t - 1) by (nonlinear_arith)
                requires
                    0 <= up * t - a < t,
                    0 < t,
                    0 < a,
            ;
        }
        q = -up;
        proof {
            assert(q * t == -(up * t)) by (nonlinear_arith)
                requires
                    q == -up,
            ;
        }
    }
    proof {
        assert(0 <= s - q * t < t);
        assert(-(SPEED_LIMIT as int) <= q <= SPEED_LIMIT as int) by (nonlinear_arith)
            requires
                0 <= s - q * t < t,
                -(SPEED_LIMIT as int) * t <= s <= SPEED_LIMIT as int * t,
                0 < t,
        ;
    }
    q as i64
}

/// Takes the mean velocity, weighted with the cells of each plate and
/// rounded down, off every plate, so that the plates carry no net momentum:
/// what is left along either axis is less than one unit of speed per cell,
/// which for a world of up to 2^32 cells is less than a hundred thousandth
/// of a cell per step. Plates without any cell at all are left as they
/// are.
pub fn balance_momentum(velocity: &mut Vec<(i64, i64)>, counts: &Vec<usize>)
    requires
        old(velocity)@.len() == counts@.len(),
        speeds_bounded(old(velocity)@),
        total_cells(counts@, counts@.len()) <= usize::MAX,
    ensures
        final(velocity)@.len() == old(velocity)@.len(),
        total_cells(counts@, counts@.len()) == 0 ==> final(velocity)@ == old(velocity)@,
        total_cells(counts@, counts@.len()) > 0 ==> {
            &&& 0 <= momentum(speeds_x(final(velocity)@), counts@, counts@.len()) < total_cells(
                counts@,
                counts@.len(),
            )
            &&& 0 <= momentum(speeds_y(final(velocity)@), counts@, counts@.len()) < total_cells(
                counts@,
                counts@.len(),
            )
            &&& exists|mx: int, my: int| #[trigger]
                shifted(old(velocity)@, final(velocity)@, mx, my)
        },
        total_cells(counts@, counts@.len()) <= 0x1_0000_0000 ==> {
            &&& 100_000 * momentum(speeds_x(final(velocity)@), counts@, counts@.len()) < SPEED_UNIT
            &&& 100_000 * momentum(speeds_y(final(velocity)@), counts@, counts@.len()) < SPEED_UNIT
            &&& 0 <= momentum(speeds_x(final(velocity)@), counts@, counts@.len())
            &&& 0 <= momentum(speeds_y(final(velocity)@), counts@, counts@.len())
        },
        speeds_doubly_bounded(final(velocity)@),
{
    let ghost v0 = velocity@;
    let n: usize = counts.len();
    let mut sx: i128 = 0;
    let mut sy: i128 = 0;
    let mut total: u64 = 0;
    let mut i: usize = 0;
    while i < n
        invariant
            n == counts@.len(),
            velocity@ == v0,
            v0.len() == n,
            speeds_bounded(v0),
            total_cells(counts@, counts@.len()) <= usize::MAX,
            i <= n,
            total as nat == total_cells(counts@, i as nat),
            sx as int == momentum(speeds_x(v0), counts@, i as nat),
            sy as int == momentum(speeds_y(v0), counts@, i as nat),
        decreases n - i,
    {
        proof {
            lemma_total_grows(counts@, (i + 1) as nat, n as nat);
            lemma_momentum_bound(speeds_x(v0), counts@, i as nat, SPEED_LIMIT as int);
            lemma_momentum_bound(speeds_y(v0), counts@, i as nat, SPEED_LIMIT as int);
            lemma_momentum_bound(speeds_x(v0), counts@, (i + 1) as nat, SPEED_LIMIT as int);
            lemma_momentum_bound(speeds_y(v0), counts@, (i + 1) as nat, SPEED_LIMIT as int);
            assert(SPEED_LIMIT as int * total_cells(counts@, (i + 1) as nat) <= 0x100_0000_0000_0000
                * 0xFFFF_FFFF_FFFF_FFFF) by (nonlinear_arith)
                requires
                    total_cells(counts@, (i + 1) as nat) <= 0xFFFF_FFFF_FFFF_FFFF,
                    SPEED_LIMIT == 0x100_0000_0000_0000,
            ;
            assert(SPEED_LIMIT as int * total_cells(counts@, i as nat) <= 0x100_0000_0000_0000
                * 0xFFFF_FFFF_FFFF_FFFF) by (nonlinear_arith)
                requires
                    total_cells(counts@, i as nat) <= 0xFFFF_FFFF_FFFF_FFFF,
                    SPEED_LIMIT == 0x100_0000_0000_0000,
            ;
            lemma_total_grows(counts@, i as nat, n as nat);
        }
        let c: i128 = counts[i] as i128;
        let v: (i64, i64) = velocity[i];
        assert(-0x100_0000_0000_0000 * 0xFFFF_FFFF_FFFF_FFFF <= (v.0 as i128) * c <= 0x100_0000_0000_0000
            * 0xFFFF_FFFF_FFFF_FFFF) by (nonlinear_arith)
            requires
                -0x100_0000_0000_0000 <= v.0 <= 0x100_0000_0000_0000,
                0 <= c <= 0xFFFF_FFFF_FFFF_FFFF,
        ;
        assert(-0x100_0000_0000_0000 * 0xFFFF_FFFF_FFFF_FFFF <= (v.1 as i128) * c <= 0x100_0000_0000_0000
            * 0xFFFF_FFFF_FFFF_FFFF) by (nonlinear_arith)
            requires
                -0x100_0000_0000_0000 <= v.1 <= 0x100_0000_0000_0000,
                0 <= c <= 0xFFFF_FFFF_FFFF_FFFF,
        ;
        sx = sx + (v.0 as i128) * c;
        sy = sy + (v.1 as i128) * c;
        total = total + counts[i] as u64;
        i += 1;
    }
    if total == 0 {
        proof {
            lemma_momentum_bound(speeds_x(v0), counts@, n as nat, SPEED_LIMIT as int);
            lemma_momentum_bound(speeds_y(v0), counts@, n as nat, SPEED_LIMIT as int);
            assert(SPEED_LIMIT as int * 0 == 0 && -(SPEED_LIMIT as int) * 0 == 0)
                by (nonlinear_arith);
        }
        return ;
    }
    proof {
        lemma_momentum_bound(speeds_x(v0), counts@, n as nat, SPEED_LIMIT as int);
        lemma_momentum_bound(speeds_y(v0), counts@, n as nat, SPEED_LIMIT as int);
    }
    let mx: i64 = mean_speed(sx, total);
    let my: i64 = mean_speed(sy, total);
    let mut j: usize = 0;
    while j < n
        invariant
            n == counts@.len(),
            velocity@.len() == n,
            v0.len() == n,
            speeds_bounded(v0),
            -SPEED_LIMIT <= mx <= SPEED_LIMIT,
            -SPEED_LIMIT <= my <= SPEED_LIMIT,
            j <= n,
            forall|k: int|
                0 <= k < j ==> (#[trigger] velocity@[k]).0 == v0[k].0 - mx && velocity@[k].1
                    == v0[k].1 - my,
            forall|k: int| j <= k < n ==> #[trigger] velocity@[k] == v0[k],
        decreases n - j,
    {
        let v: (i64, i64) = velocity[j];
        velocity.set(j, (v.0 - mx, v.1 - my));
        j += 1;
    }
    proof {
        lemma_momentum_shift(speeds_x(v0), speeds_x(velocity@), counts@, mx as int, n as nat);
        lemma_momentum_shift(speeds_y(v0), speeds_y(velocity@), counts@, my as int, n as nat);
        assert(mx as int * total_cells(counts@, n as nat) == mx as int * total as int);
        assert(shifted(v0, velocity@, mx as int, my as int));
    }
}

/// Largest length of the nudge that sets a microplate apart from its
/// macroplate: 0.15 cells per step.
pub const NUDGE_LIMIT: i64 = 675_539_944_105_574;

/// Squared length of a velocity.
pub open spec fn length_sq(v: (i64, i64)) -> int {
    v.0 * v.0 + v.1 * v.1
}

/// A nudge as it is taken: itself where it is no longer than the limit,
/// and none where it is.
pub open spec fn held_nudge(n: (i64, i64)) -> (i64, i64) {
    if length_sq(n) <= NUDGE_LIMIT * NUDGE_LIMIT {
        n
    } else {
        (0i64, 0i64)
    }
}

/// A nudge held to the limit, computed.
fn hold_nudge(n: (i64, i64)) -> (r: (i64, i64))
    ensures
        r == held_nudge(n),
        length_sq(r) <= NUDGE_LIMIT * NUDGE_LIMIT,
        -NUDGE_LIMIT <= r.0 <= NUDGE_LIMIT,
        -NUDGE_LIMIT <= r.1 <= NUDGE_LIMIT,
{
    let limit: i128 = NUDGE_LIMIT as i128;
    let x: i128 = n.0 as i128;
    let y: i128 = n.1 as i128;
    proof {
        assert(x > limit ==> x * x > limit * limit) by (nonlinear_arith)
            requires
                limit > 0,
        ;
        assert(x < -limit ==> x * x > limit * limit) by (nonlinear_arith)
            requires
                limit > 0,
        ;
        assert(y > limit ==> y * y > limit * limit) by (nonlinear_arith)
            requires
                limit > 0,
        ;
        assert(y < -limit ==> y * y > limit * limit) by (nonlinear_arith)
            requires
                limit > 0,
        ;
        assert(x * x >= 0 && y * y >= 0) by (nonlinear_arith);
        assert(0 * 0 + 0 * 0 <= limit * limit) by (nonlinear_arith);
    }
    if x > limit || x < -limit || y > limit || y < -limit {
        return (0, 0);
    }
    assert(0 <= x * x <= 675_539_944_105_574 * 675_539_944_105_574) by (nonlinear_arith)
        requires
            -675_539_944_105_574 <= x <= 675_539_944_105_574,
    ;
    assert(0 <= y * y <= 675_539_944_105_574 * 675_539_944_105_574) by (nonlinear_arith)
        requires
            -675_539_944_105_574 <= y <= 675_539_944_105_574,
    ;
    assert(limit * limit == 675_539_944_105_574 * 675_539_944_105_574) by (nonlinear_arith)
        requires
            limit == 675_539_944_105_574,
    ;
    if x * x + y * y <= limit * limit {
        n
    } else {
        (0, 0)
    }
}

/// The velocities of the microplates: each the velocity of its macroplate
/// and a nudge of its own, no longer than 0.15 cells per step.
pub fn microplate_velocities(
    macro_velocity: &Vec<(i64, i64)>,
    macro_id: &Vec<usize>,
    nudges: &Vec<(i64, i64)>,
) -> (velocity: Vec<(i64, i64)>)
    requires
        nudges@.len() == macro_id@.len(),
        forall|i: int| 0 <= i < macro_id@.len() ==> #[trigger] macro_id@[i] < macro_velocity@.len(),
        speeds_doubly_bounded(macro_velocity@),
    ensures
        velocity@.len() == macro_id@.len(),
        forall|i: int|
            0 <= i < macro_id@.len() ==> (#[trigger] velocity@[i]).0 == macro_velocity@[macro_id@[i] as int].0
                + held_nudge(nudges@[i]).0 && velocity@[i].1 == macro_velocity@[macro_id@[i] as int].1
                + held_nudge(nudges@[i]).1,
        forall|i: int|
            0 <= i < macro_id@.len() ==> length_sq(#[trigger] held_nudge(nudges@[i])) <= NUDGE_LIMIT
                * NUDGE_LIMIT,
{
    let n: usize = macro_id.len();
    let mut velocity: Vec<(i64, i64)> = Vec::with_capacity(n);
    let mut i: usize = 0;
    while i < n
        invariant
            n == macro_id@.len(),
            nudges@.len() == n,
            forall|k: int| 0 <= k < n ==> #[trigger] macro_id@[k] < macro_velocity@.len(),
            speeds_doubly_bounded(macro_velocity@),
            i <= n,
            velocity@.len() == i,
            forall|k: int|
                0 <= k < i ==> (#[trigger] velocity@[k]).0 == macro_velocity@[macro_id@[k] as int].0
                    + held_nudge(nudges@[k]).0 && velocity@[k].1
                    == macro_velocity@[macro_id@[k] as int].1 + held_nudge(nudges@[k]).1,
            forall|k: int|
                0 <= k < i ==> length_sq(#[trigger] held_nudge(nudges@[k])) <= NUDGE_LIMIT
                    * NUDGE_LIMIT,
        decreases n - i,
    {
        let mv: (i64, i64) = macro_velocity[macro_id[i]];
        let nudge: (i64, i64) = hold_nudge(nudges[i]);
        velocity.push((mv.0 + nudge.0, mv.1 + nudge.1));
        i += 1;
    }
    proof {
        assert forall|k: int| 0 <= k < n implies length_sq(#[trigger] held_nudge(nudges@[k]))
            <= NUDGE_LIMIT * NUDGE_LIMIT by {
            assert(0 <= k < i);
        }
    }
    velocity
}

/// Salt of the noise fields that bend the territories of the macroplates.
pub const SALT_TERRITORY: u64 = 0xBA0B_AB0B_CAFE_0042;

/// Salt of the noise field that decides where continents stand.
pub const SALT_CONTINENT: u64 = 0xC017_1E17_FACE_0001;

/// How far macro centre `c`, the `j`-th, lies from the microplate seed
/// `p` for the purpose of grouping: the squared distance times one plus
/// `boundary_noise` times a noise field of the macroplate's own, and
/// times no less than 0.1.
pub open spec fn macro_score(
    p: Point,
    c: Point,
    j: u32,
    w: int,
    h: int,
    noise_seed: u32,
    boundary_noise: int,
) -> int {
    let n = fractal(
        p.0 as int * 256 / w,
        p.1 as int * 256 / h,
        add_mod32(noise_seed, j),
        3,
        196608int,
        131072int,
        32768int,
        false,
    );
    let f = 65536 + times(held(n), held(boundary_noise));
    gap_sq(p, c, w * 256) * (if f < 6554 {
        6554
    } else {
        f
    }) / 65536
}

/// Whether `j` is the macroplate that the microplate seeded at `p` joins:
/// the first of those whose centre scores least; zero where there is no
/// macroplate at all.
pub open spec fn joins(
    j: int,
    p: Point,
    macro_seeds: Seq<Point>,
    w: int,
    h: int,
    noise_seed: u32,
    boundary_noise: int,
) -> bool {
    if macro_seeds.len() == 0 {
        j == 0
    } else {
        &&& 0 <= j < macro_seeds.len()
        &&& forall|k: int|
            0 <= k < macro_seeds.len() ==> macro_score(
                p,
                macro_seeds[j],
                j as u32,
                w,
                h,
                noise_seed,
                boundary_noise,
            ) <= #[trigger] macro_score(p, macro_seeds[k], k as u32, w, h, noise_seed, boundary_noise)
        &&& forall|k: int|
            0 <= k < j ==> macro_score(
                p,
                macro_seeds[j],
                j as u32,
                w,
                h,
                noise_seed,
                boundary_noise,
            ) < #[trigger] macro_score(p, macro_seeds[k], k as u32, w, h, noise_seed, boundary_noise)
    }
}

/// The score of one macro centre, computed.
fn score(p: Point, c: Point, j: u32, w: usize, h: usize, noise_seed: u32, bn: i64) -> (r: u128)
    requires
        0 < w <= 65535,
        0 < h <= 65535,
        p.0 < w * 256,
        p.1 < h * 256,
        c.0 < w * 256,
        c.1 < h * 256,
        -crate::noise::CAP <= bn <= crate::noise::CAP,
    ensures
        r as int == gap_sq(p, c, w as int * 256) * (if 65536 + times(
            held(
                fractal(
                    p.0 as int * 256 / w as int,
                    p.1 as int * 256 / h as int,
                    add_mod32(noise_seed, j),
                    3,
                    196608int,
                    131072int,
                    32768int,
                    false,
                ),
            ),
            bn as int,
        ) < 6554 {
            6554
        } else {
            65536 + times(
                held(
                    fractal(
                        p.0 as int * 256 / w as int,
                        p.1 as int * 256 / h as int,
                        add_mod32(noise_seed, j),
                        3,
                        196608int,
                        131072int,
                        32768int,
                        false,
                    ),
                ),
                bn as int,
            )
        }) / 65536,
{
    let u: i64 = (p.0 as i64 * 256) / w as i64;
    let v: i64 = (p.1 as i64 * 256) / h as i64;
    let n: i64 = fbm(u, v, noise_seed.wrapping_add(j), 3, 196608, 131072, 32768);
    let f: i64 = 65536 + product(hold(n as i128), bn);
    let factor: u128 = if f < 6554 {
        6554
    } else {
        f as u128
    };
    let d: u64 = point_gap_sq(p, c, w as u64 * 256);
    proof {
        crate::plates::seed::lemma_gap_bound(p, c, w as int * 256);
    }
    assert(d as u128 * factor <= 0x2_0000_0000_0000 * 0x100_0001_0000) by (nonlinear_arith)
        requires
            0 <= d as u128 <= 0x2_0000_0000_0000,
            0 <= factor <= 0x100_0001_0000,
    ;
    d as u128 * factor / 65536
}

/// Groups the microplates into macroplates: every microplate joins the
/// macro centre that scores least for its seed.
pub fn assign_macroplates(
    micro_seeds: &Vec<Point>,
    macro_seeds: &Vec<Point>,
    w: usize,
    h: usize,
    boundary_noise: i64,
    seed: u64,
) -> (macro_id: Vec<usize>)
    requires
        0 < w <= 65535,
        0 < h <= 65535,
        macro_seeds@.len() <= u32::MAX,
        points_inside(micro_seeds@, w as int, h as int),
        points_inside(macro_seeds@, w as int, h as int),
    ensures
        macro_id@.len() == micro_seeds@.len(),
        forall|i: int|
            0 <= i < micro_seeds@.len() ==> joins(
                #[trigger] macro_id@[i] as int,
                micro_seeds@[i],
                macro_seeds@,
                w as int,
                h as int,
                stage_seed(seed, SALT_TERRITORY),
                boundary_noise as int,
            ),
{
    let noise_seed: u32 = seed_u32(seed, SALT_TERRITORY);
    let bn: i64 = hold(boundary_noise as i128);
    let mut macro_id: Vec<usize> = Vec::with_capacity(micro_seeds.len());
    let mut i: usize = 0;
    while i < micro_seeds.len()
        invariant
            0 < w <= 65535,
            0 < h <= 65535,
            macro_seeds@.len() <= u32::MAX,
            points_inside(micro_seeds@, w as int, h as int),
            points_inside(macro_seeds@, w as int, h as int),
            noise_seed == stage_seed(seed, SALT_TERRITORY),
            bn as int == held(boundary_noise as int),
            i <= micro_seeds@.len(),
            macro_id@.len() == i,
            forall|k: int|
                0 <= k < i ==> joins(
                    #[trigger] macro_id@[k] as int,
                    micro_seeds@[k],
                    macro_seeds@,
                    w as int,
                    h as int,
                    noise_seed,
                    boundary_noise as int,
                ),
        decreases micro_seeds@.len() - i,
    {
        let p: Point = micro_seeds[i];
        let mut best_j: usize = 0;
        let mut best: u128 = 0;
        let mut j: usize = 0;
        while j < macro_seeds.len()
            invariant
                0 < w <= 65535,
                0 < h <= 65535,
                macro_seeds@.len() <= u32::MAX,
                points_inside(macro_seeds@, w as int, h as int),
                p.0 < w * 256,
                p.1 < h * 256,
                bn as int == held(boundary_noise as int),
                j <= macro_seeds@.len(),
                j == 0 ==> best_j == 0,
                j > 0 ==> best_j < j && best as int == macro_score(
                    p,
                    macro_seeds@[best_j as int],
                    best_j as u32,
                    w as int,
                    h as int,
                    noise_seed,
                    boundary_noise as int,
                ),
                forall|k: int|
                    0 <= k < j ==> best as int <= #[trigger] macro_score(
                        p,
                        macro_seeds@[k],
                        k as u32,
                        w as int,
                        h as int,
                        noise_seed,
                        boundary_noise as int,
                    ),
                forall|k: int|
                    0 <= k < best_j ==> (best as int) < #[trigger] macro_score(
                        p,
                        macro_seeds@[k],
                        k as u32,
                        w as int,
                        h as int,
                        noise_seed,
                        boundary_noise as int,
                    ),
            decreases macro_seeds@.len() - j,
        {
            let d: u128 = score(p, macro_seeds[j], j as u32, w, h, noise_seed, bn);
            if j == 0 || d < best {
                best = d;
                best_j = j;
            }
            j += 1;
        }
        macro_id.push(best_j);
        i += 1;
    }
    macro_id
}

/// The noise by which microplates are ranked for continents: three
/// octaves of low frequency at the place of the plate's seed.
pub open spec fn continent_noise(p: Point, w: int, h: int, seed: u64) -> int {
    fractal(
        p.0 as int * 256 / w,
        p.1 as int * 256 / h,
        stage_seed(seed, SALT_CONTINENT),
        3,
        163840int,
        131072int,
        32768int,
        false,
    )
}

/// Whether `order` ranks the plates by `keys`, lowest key first and among
/// equal keys the lower plate first.
pub open spec fn ranked(order: Seq<usize>, keys: Seq<i64>) -> bool {
    forall|i: int, j: int|
        0 <= i < j < order.len() ==> keys[#[trigger] order[i] as int] < keys[#[trigger] order[j] as int]
            || (keys[order[i] as int] == keys[order[j] as int] && order[i] < order[j])
}

/// Sorts plate indices by their keys, lowest first, with the standard
/// library's stable `sort_by_key` on slices. Trusted: for indices given in
/// ascending order, afterwards the vector holds the same indices, each as
/// often as before, ranked by key, and among equal keys in ascending
/// order still.
#[verifier::external_body]
fn sort_by_keys(order: &mut Vec<usize>, keys: &Vec<i64>)
    requires
        forall|i: int| 0 <= i < old(order)@.len() ==> #[trigger] old(order)@[i] < keys@.len(),
        forall|i: int, j: int|
            0 <= i < j < old(order)@.len() ==> #[trigger] old(order)@[i] < #[trigger] old(order)@[j],
    ensures
        final(order)@.to_multiset() == old(order)@.to_multiset(),
        ranked(final(order)@, keys@),
{
    order.sort_by_key(|i| keys[*i]);
}

/// Whether `order` is the order in which microplates become continents:
/// every plate once, the plate with the highest noise at its seed first,
/// and among plates of equal noise the lower plate first.
pub open spec fn continental_rank(
    order: Seq<usize>,
    micro_seeds: Seq<Point>,
    w: int,
    h: int,
    seed: u64,
) -> bool {
    &&& order.len() == micro_seeds.len()
    &&& order.to_multiset() == Seq::new(micro_seeds.len(), |i: int| i as usize).to_multiset()
    &&& forall|i: int| 0 <= i < order.len() ==> #[trigger] order[i] < micro_seeds.len()
    &&& forall|i: int, j: int|
        0 <= i < j < order.len() ==> continent_noise(
            micro_seeds[#[trigger] order[i] as int],
            w,
            h,
            seed,
        ) > continent_noise(micro_seeds[#[trigger] order[j] as int], w, h, seed) || (
        continent_noise(micro_seeds[order[i] as int], w, h, seed) == continent_noise(
            micro_seeds[order[j] as int],
            w,
            h,
            seed,
        ) && order[i] < order[j])
}

/// The order in which microplates become continents: by the noise at
/// their seeds, highest first.
pub fn continental_order(micro_seeds: &Vec<Point>, w: usize, h: usize, seed: u64) -> (order: Vec<
    usize,
>)
    requires
        0 < w <= 65535,
        0 < h <= 65535,
        points_inside(micro_seeds@, w as int, h as int),
    ensures
        continental_rank(order@, micro_seeds@, w as int, h as int, seed),
{
    let noise_seed: u32 = seed_u32(seed, SALT_CONTINENT);
    let n: usize = micro_seeds.len();
    let mut keys: Vec<i64> = Vec::with_capacity(n);
    let mut order: Vec<usize> = Vec::with_capacity(n);
    let mut i: usize = 0;
    while i < n
        invariant
            0 < w <= 65535,
            0 < h <= 65535,
            n == micro_seeds@.len(),
            points_inside(micro_seeds@, w as int, h as int),
            noise_seed == stage_seed(seed, SALT_CONTINENT),
            i <= n,
            keys@.len() == i,
            order@.len() == i,
            forall|k: int| 0 <= k < i ==> #[trigger] order@[k] == k as usize,
            forall|k: int|
                0 <= k < i ==> #[trigger] keys@[k] as int == -continent_noise(
                    micro_seeds@[k],
                    w as int,
                    h as int,
                    seed,
                ),
        decreases n - i,
    {
        let p: Point = micro_seeds[i];
        let u: i64 = (p.0 as i64 * 256) / w as i64;
        let v: i64 = (p.1 as i64 * 256) / h as i64;
        let noise: i64 = fbm(u, v, noise_seed, 3, 163840, 131072, 32768);
        keys.push(-noise);
        order.push(i);
        i += 1;
    }
    let ghost plain = order@;
    assert(plain =~= Seq::new(n as nat, |k: int| k as usize));
    sort_by_keys(&mut order, &keys);
    proof {
        vstd::seq_lib::to_multiset_len(plain);
        vstd::seq_lib::to_multiset_len(order@);
        assert forall|k: int| 0 <= k < order@.len() implies #[trigger] order@[k] < n by {
            vstd::seq_lib::to_multiset_contains(order@, order@[k]);
            vstd::seq_lib::to_multiset_contains(plain, order@[k]);
            assert(order@.contains(order@[k]));
            let at = choose|at: int| 0 <= at < plain.len() && plain[at] == order@[k];
        }
    }
    order
}

/// The number of cells that continents should hold: `fraction_ppm`
/// millionths of all `total` cells, rounded down.
pub fn continental_target(total: usize, fraction_ppm: u32) -> (target: usize)
    requires
        fraction_ppm <= 1_000_000,
    ensures
        target as int == total as int * fraction_ppm as int / 1_000_000,
        target <= total,
        fraction_ppm == 0 ==> target == 0,
        fraction_ppm == 1_000_000 ==> target == total,
{
    assert(total as u128 * (fraction_ppm as u128) <= total as u128 * 1_000_000) by (nonlinear_arith)
        requires
            fraction_ppm <= 1_000_000,
    ;
    assert(total as u128 * 1_000_000 <= 0xFFFF_FFFF_FFFF_FFFF * 1_000_000) by (nonlinear_arith)
        requires
            total as u128 <= 0xFFFF_FFFF_FFFF_FFFF,
    ;
    let wide: u128 = total as u128 * (fraction_ppm as u128) / 1_000_000;
    proof {
        vstd::arithmetic::div_mod::lemma_div_is_ordered(
            (total as u128 * (fraction_ppm as u128)) as int,
            (total as u128 * 1_000_000) as int,
            1_000_000,
        );
        vstd::arithmetic::div_mod::lemma_fundamental_div_mod_converse(
            (total as u128 * 1_000_000) as int,
            1_000_000,
            total as int,
            0,
        );
        assert(fraction_ppm == 0 ==> total as u128 * (fraction_ppm as u128) == 0)
            by (nonlinear_arith);
    }
    wide as usize
}

} // verus!
