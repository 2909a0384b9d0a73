//! From accumulated flow to a river network: the flow a river must carry,
//! the river systems that clear it, and their growth into the headwaters.

use vstd::prelude::*;
use crate::grid::{lemma_neighbor_inside, lemma_neighbor_symmetric, neighbor_index, neighbor_of};

verus! {

/// The flows above zero, in the order of their cells.
pub open spec fn positives(flows: Seq<u64>) -> Seq<u64>
    decreases flows.len(),
{
    if flows.len() == 0 {
        Seq::empty()
    } else if flows.last() > 0 {
        positives(flows.drop_last()).push(flows.last())
    } else {
        positives(flows.drop_last())
    }
}

/// Whether a sequence runs in ascending order.
pub open spec fn ascending(s: Seq<u64>) -> bool {
    forall|i: int, j: int| 0 <= i <= j < s.len() ==> s[i] <= s[j]
}

/// Place of the threshold among `count` flows in ascending order, for
/// rivers on the top `keep_ppm` millionths of them. With none kept the
/// place lies past the last flow.
pub open spec fn rank_index(count: int, keep_ppm: int) -> int {
    (1_000_000 - keep_ppm) * count / 1_000_000
}

/// Whether `tau` is the flow a river must carry: the flow at the
/// threshold's place among the flows above zero, taken in ascending
/// order; and none, so that there are no rivers, where that place lies
/// past the last flow.
pub open spec fn is_threshold(flows: Seq<u64>, keep_ppm: int, tau: Option<u64>) -> bool {
    let wet = positives(flows);
    if rank_index(wet.len() as int, keep_ppm) >= wet.len() {
        tau.is_none()
    } else {
        exists|s: Seq<u64>|
            #![trigger ascending(s)]
            ascending(s) && s.to_multiset() == wet.to_multiset() && tau == Some(
                s[rank_index(wet.len() as int, keep_ppm)],
            )
    }
}

/// Every flow above zero is among the positives, and every one of the
/// positives is above zero.
pub proof fn lemma_positives(flows: Seq<u64>)
    ensures
        positives(flows).len() <= flows.len(),
        forall|i: int|
            0 <= i < flows.len() && #[trigger] flows[i] > 0 ==> positives(flows).contains(flows[i]),
        forall|k: int| 0 <= k < positives(flows).len() ==> #[trigger] positives(flows)[k] > 0,
    decreases flows.len(),
{
    if flows.len() > 0 {
        let rest = flows.drop_last();
        lemma_positives(rest);
        let p = positives(flows);
        assert forall|i: int| 0 <= i < flows.len() && #[trigger] flows[i] > 0 implies p.contains(
            flows[i],
        ) by {
            if i < flows.len() - 1 {
                assert(rest[i] == flows[i]);
                let k = choose|k: int|
                    0 <= k < positives(rest).len() && positives(rest)[k] == flows[i];
                assert(p[k] == flows[i]);
            } else {
                assert(p[p.len() - 1] == flows[i]);
            }
        }
    }
}

/// Sorts a vector in ascending order by the standard library's
/// `sort_unstable` on slices. Trusted: afterwards the vector holds the
/// values it held before, each as often as before, in ascending order.
#[verifier::external_body]
fn sort_ascending(v: &mut Vec<u64>)
    ensures
        final(v)@.to_multiset() == old(v)@.to_multiset(),
        ascending(final(v)@),
{
    v.sort_unstable();
}

/// The flow a river must carry for rivers to run on the top `keep_ppm`
/// millionths of the wet cells. With all of them kept it is the least flow
/// above zero; with none kept, or no wet cell at all, there is none.
pub fn flow_threshold(flows: &Vec<u64>, keep_ppm: u32) -> (tau: Option<u64>)
    requires
        keep_ppm <= 1_000_000,
    ensures
        is_threshold(flows@, keep_ppm as int, tau),
        tau.is_none() <==> keep_ppm == 0 || positives(flows@).len() == 0,
        tau matches Some(t) ==> t > 0 && positives(flows@).contains(t),
        keep_ppm == 1_000_000 ==> (tau matches Some(t) ==> forall|i: int|
            0 <= i < flows@.len() && #[trigger] flows@[i] > 0 ==> t <= flows@[i]),
{
    let mut wet: Vec<u64> = Vec::new();
    let mut i: usize = 0;
    assert(flows@.take(0) == Seq::<u64>::empty());
    while i < flows.len()
        invariant
            i <= flows@.len(),
            wet@ == positives(flows@.take(i as int)),
        decreases flows@.len() - i,
    {
        proof {
            assert(flows@.take(i as int + 1).drop_last() == flows@.take(i as int));
        }
        if flows[i] > 0 {
            wet.push(flows[i]);
        }
        i += 1;
    }
    proof {
        assert(flows@.take(flows@.len() as int) == flows@);
        lemma_positives(flows@);
    }
    let m: usize = wet.len();
    let drop: u128 = (1_000_000 - keep_ppm) as u128;
    assert(drop * (m as u128) <= 1_000_000 * 0xFFFF_FFFF_FFFF_FFFF) by (nonlinear_arith)
        requires
            0 <= drop <= 1_000_000,
            0 <= m as u128 <= 0xFFFF_FFFF_FFFF_FFFF,
    ;
    assert(drop == 0 ==> drop * (m as u128) == 0) by (nonlinear_arith);
    assert(drop == 1_000_000 ==> drop * (m as u128) == 1_000_000 * m as u128) by (nonlinear_arith);
    let wide: u128 = drop * (m as u128) / 1_000_000;
    proof {
        // the place lies past the last flow only where nothing is kept, or nothing is wet
        if 0 < drop < 1_000_000 && m > 0 {
            assert(drop * (m as u128) <= 999_999 * m as u128) by (nonlinear_arith)
                requires
                    0 < drop <= 999_999,
                    0 < m,
            ;
            assert(wide < m as u128);
        }
        if drop == 1_000_000 {
            vstd::arithmetic::div_mod::lemma_div_by_multiple(m as int, 1_000_000);
            assert(1_000_000 * m as int == m as int * 1_000_000) by (nonlinear_arith);
            assert(wide == m as u128);
        }
    }
    if wide >= m as u128 {
        return None;
    }
    let ghost unsorted = wet@;
    sort_ascending(&mut wet);
    proof {
        vstd::seq_lib::to_multiset_len(unsorted);
        vstd::seq_lib::to_multiset_len(wet@);
    }
    let idx: usize = wide as usize;
    let tau: u64 = wet[idx];
    proof {
        assert(ascending(wet@));
        assert(unsorted.to_multiset().count(tau) > 0) by {
            vstd::seq_lib::to_multiset_contains(wet@, tau);
            assert(wet@.contains(tau));
        }
        vstd::seq_lib::to_multiset_contains(unsorted, tau);
        assert(unsorted.contains(tau));
        if keep_ppm == 1_000_000 {
            assert(idx == 0);
            assert forall|k: int| 0 <= k < flows@.len() && #[trigger] flows@[k] > 0 implies tau
                <= flows@[k] by {
                assert(unsorted.contains(flows@[k]));
                vstd::seq_lib::to_multiset_contains(unsorted, flows@[k]);
                vstd::seq_lib::to_multiset_contains(wet@, flows@[k]);
                let at = choose|at: int| 0 <= at < wet@.len() && wet@[at] == flows@[k];
                assert(wet@[0] <= wet@[at]);
            }
        }
    }
    Some(tau)
}

/// The flows of a field with every flow below the threshold taken out;
/// without a threshold every flow is taken out.
pub open spec fn thresholded(raw: Seq<u64>, tau: Option<u64>) -> Seq<u64> {
    Seq::new(
        raw.len(),
        |i: int|
            match tau {
                Some(t) => if raw[i] < t {
                    0
                } else {
                    raw[i]
                },
                None => 0,
            },
    )
}

/// Takes every flow below the threshold out of the river field, and every
/// flow where there is no threshold.
pub fn apply_threshold(flows: &mut Vec<u64>, tau: Option<u64>)
    ensures
        final(flows)@ == thresholded(old(flows)@, tau),
{
    let ghost start = flows@;
    let mut i: usize = 0;
    while i < flows.len()
        invariant
            flows@.len() == start.len(),
            i <= flows@.len(),
            forall|k: int| 0 <= k < i ==> #[trigger] flows@[k] == thresholded(start, tau)[k],
            forall|k: int| i <= k < start.len() ==> #[trigger] flows@[k] == start[k],
        decreases flows@.len() - i,
    {
        let keep: bool = match tau {
            Some(t) => flows[i] >= t,
            None => false,
        };
        if !keep {
            flows.set(i, 0);
        }
        i += 1;
    }
    assert(flows@ =~= thresholded(start, tau));
}

/// Number of cells that carry label `l`.
pub open spec fn count_label(labels: Seq<u32>, l: u32) -> nat
    decreases labels.len(),
{
    if labels.len() == 0 {
        0
    } else {
        count_label(labels.drop_last(), l) + if labels.last() == l {
            1nat
        } else {
            0nat
        }
    }
}

/// No label is carried by more cells than there are.
pub proof fn lemma_count_label_bound(labels: Seq<u32>, l: u32)
    ensures
        count_label(labels, l) <= labels.len(),
    decreases labels.len(),
{
    if labels.len() > 0 {
        lemma_count_label_bound(labels.drop_last(), l);
    }
}

/// Giving a cell another label moves one cell from the count of the old
/// label to the count of the new one and leaves every other count alone.
pub proof fn lemma_count_label_update(labels: Seq<u32>, i: int, v: u32, l: u32)
    requires
        0 <= i < labels.len(),
        labels[i] != v,
    ensures
        l == v ==> count_label(labels.update(i, v), l) == count_label(labels, l) + 1,
        l == labels[i] ==> count_label(labels.update(i, v), l) + 1 == count_label(labels, l),
        l != v && l != labels[i] ==> count_label(labels.update(i, v), l) == count_label(labels, l),
    decreases labels.len(),
{
    if i == labels.len() - 1 {
        assert(labels.update(i, v).drop_last() == labels.drop_last());
    } else {
        assert(labels.update(i, v).drop_last() == labels.drop_last().update(i, v));
        lemma_count_label_update(labels.drop_last(), i, v, l);
    }
}

/// River cells that touch, by an edge or a corner, carry the same label.
/// Cell `cur` and the cells on `stack` are still being worked on and are
/// left out.
pub open spec fn touching_agree(
    flows: Seq<u64>,
    labels: Seq<u32>,
    stack: Seq<usize>,
    cur: int,
    w: int,
    h: int,
) -> bool {
    forall|c: int, d: int|
        0 <= c < labels.len() && labels[c] > 0 && c != cur && !stack.contains(c as usize) && 0 <= d
            < 8 ==> (#[trigger] neighbor_index(c, d, w, h) matches Some(m) ==> flows[m] > 0
            ==> labels[m] == labels[c])
}

/// Only river cells carry a label, and every label is below `bound`.
pub open spec fn labels_on_rivers(flows: Seq<u64>, labels: Seq<u32>, bound: int) -> bool {
    &&& labels.len() == flows.len()
    &&& forall|i: int|
        0 <= i < labels.len() ==> (#[trigger] labels[i] > 0 ==> flows[i] > 0) && labels[i] < bound
}

/// Every river system from the first up to, but not including, `upto` has
/// its number of cells in `sizes`.
pub open spec fn sizes_counted(labels: Seq<u32>, sizes: Seq<u32>, upto: int) -> bool {
    forall|l: int|
        1 <= l < upto && l < sizes.len() ==> #[trigger] sizes[l] as nat == count_label(
            labels,
            l as u32,
        )
}

/// Every system hangs together: each labelled cell is the first cell of
/// its system or touches a cell of its system that was reached before it,
/// `rank` saying in which order the cells were reached.
pub open spec fn hang_together(
    labels: Seq<u32>,
    firsts: Seq<int>,
    rank: Seq<nat>,
    w: int,
    h: int,
) -> bool {
    forall|c: int|
        0 <= c < labels.len() && #[trigger] labels[c] > 0 ==> c == firsts[labels[c] as int]
            || exists|d: int|
            0 <= d < 8 && (#[trigger] neighbor_index(c, d, w, h) matches Some(m) && labels[m]
                == labels[c] && rank[m] < rank[c])
}

/// Systems are numbered in store order: `firsts` holds for every label the
/// first cell of its system, no cell of the system comes before it, and
/// the first cells of later systems come later.
pub open spec fn numbered(labels: Seq<u32>, firsts: Seq<int>) -> bool {
    &&& forall|l: int|
        1 <= l < firsts.len() ==> 0 <= #[trigger] firsts[l] < labels.len() && labels[firsts[l]]
            == l
    &&& forall|c: int|
        0 <= c < labels.len() && #[trigger] labels[c] > 0 ==> firsts[labels[c] as int] <= c
    &&& forall|l: int, m: int| 1 <= l < m < firsts.len() ==> #[trigger] firsts[l] < #[trigger] firsts[m]
}

/// A labelling of the river systems of a flow field: river cells, and only
/// they, carry a label above zero; river cells that touch carry the same
/// label, and cells that carry the same label hang together; the systems
/// are numbered from one in store order; and `sizes` holds, for every
/// label, the number of its cells.
pub open spec fn labelled(
    flows: Seq<u64>,
    labels: Seq<u32>,
    sizes: Seq<u32>,
    w: int,
    h: int,
) -> bool {
    &&& sizes.len() >= 1
    &&& sizes[0] == 0
    &&& labels_on_rivers(flows, labels, sizes.len() as int)
    &&& forall|i: int| 0 <= i < flows.len() && #[trigger] flows[i] > 0 ==> labels[i] > 0
    &&& touching_agree(flows, labels, Seq::empty(), -1, w, h)
    &&& sizes_counted(labels, sizes, sizes.len() as int)
    &&& exists|firsts: Seq<int>, rank: Seq<nat>|
        #![trigger hang_together(labels, firsts, rank, w, h)]
        firsts.len() == sizes.len() && rank.len() == labels.len() && numbered(labels, firsts)
            && hang_together(labels, firsts, rank, w, h)
}

/// What is known of the order in which cells were labelled: ranks are
/// below `next`, systems are numbered, and they hang together.
pub open spec fn ordered(
    labels: Seq<u32>,
    firsts: Seq<int>,
    rank: Seq<nat>,
    next: nat,
    w: int,
    h: int,
) -> bool {
    &&& rank.len() == labels.len()
    &&& forall|c: int| 0 <= c < labels.len() && labels[c] > 0 ==> #[trigger] rank[c] < next
    &&& numbered(labels, firsts)
    &&& hang_together(labels, firsts, rank, w, h)
}

/// Labelling one more cell from a neighbour of its system keeps the
/// systems numbered and hanging together.
proof fn lemma_label_one(
    l0: Seq<u32>,
    firsts: Seq<int>,
    rank: Seq<nat>,
    next: nat,
    m: int,
    cur: int,
    d: int,
    label: u32,
    start: int,
    w: int,
    h: int,
)
    requires
        0 < w,
        l0.len() == w * h,
        ordered(l0, firsts, rank, next, w, h),
        0 <= cur < l0.len(),
        0 <= m < l0.len(),
        0 <= d < 8,
        neighbor_index(cur, d, w, h) == Some(m),
        l0[m] == 0,
        l0[cur] == label,
        label > 0,
        firsts.len() == label as int + 1,
        firsts[label as int] == start,
        start <= m,
    ensures
        ordered(l0.update(m, label), firsts, rank.update(m, next), next + 1, w, h),
{
    let l1 = l0.update(m, label);
    let r1 = rank.update(m, next);
    lemma_neighbor_symmetric(cur, d, w, h);
    assert forall|c: int| 0 <= c < l1.len() && #[trigger] l1[c] > 0 implies c == firsts[l1[c] as int]
        || exists|dd: int|
        0 <= dd < 8 && (#[trigger] neighbor_index(c, dd, w, h) matches Some(mm) && l1[mm] == l1[c]
            && r1[mm] < r1[c]) by {
        if c == m {
            assert(neighbor_index(c, 7 - d, w, h) == Some(cur));
            assert(l1[cur] == l1[c] && r1[cur] < r1[c]);
        } else if c != firsts[l0[c] as int] {
            let dd = choose|dd: int|
                0 <= dd < 8 && (#[trigger] neighbor_index(c, dd, w, h) matches Some(mm) && l0[mm]
                    == l0[c] && rank[mm] < rank[c]);
            lemma_neighbor_inside(c, dd, w, h);
            let mm = neighbor_index(c, dd, w, h).unwrap();
            assert(l1[mm] == l1[c] && r1[mm] < r1[c]);
        }
    }
    assert forall|l: int| 1 <= l < firsts.len() implies 0 <= #[trigger] firsts[l] < l1.len()
        && l1[firsts[l]] == l by {
        assert(l0[firsts[l]] == l);
    }
    assert forall|c: int| 0 <= c < l1.len() && #[trigger] l1[c] > 0 implies firsts[l1[c] as int]
        <= c by {
        if c != m {
            assert(l0[c] > 0);
        }
    }
}

/// Lets the river system `label` spread from cell `cur` in direction `d`.
fn spread(
    labels: &mut Vec<u32>,
    stack: &mut Vec<usize>,
    flows: &Vec<u64>,
    cur: usize,
    d: u8,
    label: u32,
    w: usize,
    h: usize,
    Ghost(firsts): Ghost<Seq<int>>,
    Ghost(rank): Ghost<Seq<nat>>,
    Ghost(next): Ghost<nat>,
    Ghost(start): Ghost<int>,
) -> (r: Ghost<Seq<nat>>)
    requires
        ordered(old(labels)@, firsts, rank, next, w as int, h as int),
        old(labels)@.len() == flows@.len(),
        firsts.len() == label as int + 1,
        firsts[label as int] == start,
        forall|c: int| 0 <= c < start && #[trigger] flows@[c] > 0 ==> old(labels)@[c] > 0,
        0 < w <= i32::MAX,
        h <= i32::MAX,
        flows@.len() == w as int * h as int,
        d < 8,
        label > 0,
        cur < flows@.len(),
        old(labels)@[cur as int] == label,
        labels_on_rivers(flows@, old(labels)@, label as int + 1),
        touching_agree(flows@, old(labels)@, old(stack)@, cur as int, w as int, h as int),
        forall|k: int|
            0 <= k < old(stack)@.len() ==> #[trigger] old(stack)@[k] < flows@.len() && old(labels)@[old(stack)@[k] as int] == label,
        forall|k: int|
            0 <= k < d ==> (#[trigger] neighbor_index(cur as int, k, w as int, h as int) matches Some(
                m,
            ) ==> flows@[m] > 0 ==> old(labels)@[m] == label),
    ensures
        ordered(final(labels)@, firsts, r@, next + 1, w as int, h as int),
        final(labels)@[cur as int] == label,
        labels_on_rivers(flows@, final(labels)@, label as int + 1),
        touching_agree(flows@, final(labels)@, final(stack)@, cur as int, w as int, h as int),
        forall|k: int|
            0 <= k < final(stack)@.len() ==> #[trigger] final(stack)@[k] < flows@.len() && final(labels)@[final(stack)@[k] as int] == label,
        forall|k: int|
            0 <= k <= d ==> (#[trigger] neighbor_index(cur as int, k, w as int, h as int) matches Some(
                m,
            ) ==> flows@[m] > 0 ==> final(labels)@[m] == label),
        forall|i: int|
            0 <= i < flows@.len() && old(labels)@[i] != 0 ==> #[trigger] final(labels)@[i] == old(labels)@[i],
        forall|l: u32|
            l != 0 && l != label ==> count_label(final(labels)@, l) == count_label(
                old(labels)@,
                l,
            ),
        count_label(final(labels)@, label) + old(stack)@.len() == count_label(old(labels)@, label)
            + final(stack)@.len(),
        2 * count_label(final(labels)@, 0) + final(stack)@.len() <= 2 * count_label(
            old(labels)@,
            0,
        ) + old(stack)@.len(),
{
    let ghost l0 = labels@;
    let ghost s0 = stack@;
    assert(flows@.len() == flows.len());
    proof {
        assert forall|k: int| 0 <= k < 8 implies (#[trigger] neighbor_index(
            cur as int,
            k,
            w as int,
            h as int,
        ) matches Some(n) ==> 0 <= n < flows@.len()) by {
            lemma_neighbor_inside(cur as int, k, w as int, h as int);
        }
    }
    let ghost mut new_rank = rank;
    match neighbor_of(cur, d, w, h) {
        None => {},
        Some(m) => {
            if flows[m] > 0 {
                if labels[m] == 0 {
                    labels.set(m, label);
                    stack.push(m);
                    proof {
                        new_rank = rank.update(m as int, next);
                        assert(m as int >= start) by {
                            if (m as int) < start {
                                assert(l0[m as int] > 0);
                            }
                        }
                        lemma_label_one(
                            l0,
                            firsts,
                            rank,
                            next,
                            m as int,
                            cur as int,
                            d as int,
                            label,
                            start,
                            w as int,
                            h as int,
                        );
                    }
                    proof {
                        let l1 = labels@;
                        let s1 = stack@;
                        assert(s1[s0.len() as int] == m);
                        assert(s1.contains(m));
                        assert forall|l: u32| l != 0 && l != label implies count_label(l1, l)
                            == count_label(l0, l) by {
                            lemma_count_label_update(l0, m as int, label, l);
                        }
                        lemma_count_label_update(l0, m as int, label, label);
                        lemma_count_label_update(l0, m as int, label, 0);
                        assert forall|c: int, dd: int|
                            0 <= c < l1.len() && l1[c] > 0 && c != cur as int && !s1.contains(
                                c as usize,
                            ) && 0 <= dd < 8 implies (#[trigger] neighbor_index(
                            c,
                            dd,
                            w as int,
                            h as int,
                        ) matches Some(mm) ==> flows@[mm] > 0 ==> l1[mm] == l1[c]) by {
                            lemma_neighbor_inside(c, dd, w as int, h as int);
                            assert(c != m as int);
                            assert(l0[c] > 0);
                            if s0.contains(c as usize) {
                                let k = choose|k: int| 0 <= k < s0.len() && s0[k] == c as usize;
                                assert(s1[k] == c as usize);
                            }
                        }
                    }
                } else {
                    proof {
                        // a labelled river cell next to this one is on the stack, or is this
                        // cell, or was finished with this cell among its neighbours
                        if m != cur && !s0.contains(m) {
                            lemma_neighbor_symmetric(cur as int, d as int, w as int, h as int);
                            assert(neighbor_index(m as int, 7 - d as int, w as int, h as int)
                                == Some(cur as int));
                        } else if m != cur {
                            let k = choose|k: int| 0 <= k < s0.len() && s0[k] == m;
                            assert(l0[s0[k] as int] == label);
                        }
                    }
                }
            }
        },
    }
    Ghost(new_rank)
}

/// Labels the river system that cell `start` belongs to and counts it.
fn label_system(
    labels: &mut Vec<u32>,
    sizes: &mut Vec<u32>,
    flows: &Vec<u64>,
    start: usize,
    w: usize,
    h: usize,
    Ghost(firsts): Ghost<Seq<int>>,
    Ghost(rank): Ghost<Seq<nat>>,
    Ghost(next): Ghost<nat>,
) -> (r: Ghost<(Seq<int>, Seq<nat>, nat)>)
    requires
        ordered(old(labels)@, firsts, rank, next, w as int, h as int),
        firsts.len() == old(sizes)@.len(),
        forall|c: int| 0 <= c < start && #[trigger] flows@[c] > 0 ==> old(labels)@[c] > 0,
        forall|l: int| 1 <= l < firsts.len() ==> #[trigger] firsts[l] < start,
        0 < w <= i32::MAX,
        h <= i32::MAX,
        flows@.len() == w as int * h as int,
        flows@.len() <= u32::MAX,
        start < flows@.len(),
        flows@[start as int] > 0,
        old(labels)@[start as int] == 0,
        1 <= old(sizes)@.len() <= start + 1,
        old(sizes)@[0] == 0,
        labels_on_rivers(flows@, old(labels)@, old(sizes)@.len() as int),
        touching_agree(flows@, old(labels)@, Seq::empty(), -1, w as int, h as int),
        sizes_counted(old(labels)@, old(sizes)@, old(sizes)@.len() as int),
    ensures
        ordered(final(labels)@, r@.0, r@.1, r@.2, w as int, h as int),
        r@.0.len() == final(sizes)@.len(),
        forall|l: int| 1 <= l < r@.0.len() ==> #[trigger] r@.0[l] <= start,
        final(sizes)@.len() == old(sizes)@.len() + 1,
        final(sizes)@[0] == 0,
        final(labels)@[start as int] > 0,
        labels_on_rivers(flows@, final(labels)@, final(sizes)@.len() as int),
        touching_agree(flows@, final(labels)@, Seq::empty(), -1, w as int, h as int),
        sizes_counted(final(labels)@, final(sizes)@, final(sizes)@.len() as int),
        forall|i: int|
            0 <= i < flows@.len() && old(labels)@[i] != 0 ==> #[trigger] final(labels)@[i] == old(labels)@[i],
{
    let label: u32 = sizes.len() as u32;
    let ghost sizes0 = sizes@;
    let ghost labels0 = labels@;
    sizes.push(0);
    let mut stack: Vec<usize> = Vec::new();
    stack.push(start);
    labels.set(start, label);
    let ghost all_firsts = firsts.push(start as int);
    let ghost mut cur_rank = rank.update(start as int, next);
    let ghost mut cur_next: nat = next + 1;
    proof {
        let l1 = labels@;
        assert forall|c: int| 0 <= c < l1.len() && #[trigger] l1[c] > 0 implies c
            == all_firsts[l1[c] as int] || exists|dd: int|
            0 <= dd < 8 && (#[trigger] neighbor_index(c, dd, w as int, h as int) matches Some(mm)
                && l1[mm] == l1[c] && cur_rank[mm] < cur_rank[c]) by {
            if c != start as int && c != firsts[labels0[c] as int] {
                let dd = choose|dd: int|
                    0 <= dd < 8 && (#[trigger] neighbor_index(c, dd, w as int, h as int) matches Some(
                        mm,
                    ) && labels0[mm] == labels0[c] && rank[mm] < rank[c]);
                lemma_neighbor_inside(c, dd, w as int, h as int);
                let mm = neighbor_index(c, dd, w as int, h as int).unwrap();
                assert(l1[mm] == l1[c] && cur_rank[mm] < cur_rank[c]);
            }
        }
        assert(numbered(l1, all_firsts)) by {
            assert forall|c: int| 0 <= c < l1.len() && #[trigger] l1[c] > 0 implies all_firsts[l1[c] as int]
                <= c by {
                if c != start as int {
                    assert(labels0[c] > 0);
                    assert(firsts[labels0[c] as int] <= c);
                }
            }
        }
    }
    proof {
        assert(stack@[0] == start);
        lemma_count_label_update(labels0, start as int, label, label);
        assert(count_label(labels0, label) == 0) by {
            lemma_no_such_label(labels0, label);
        }
        assert forall|l: int| 1 <= l < label implies #[trigger] sizes@[l] as nat == count_label(
            labels@,
            l as u32,
        ) by {
            lemma_count_label_update(labels0, start as int, label, l as u32);
            assert(sizes@[l] == sizes0[l]);
        }
        assert forall|c: int, dd: int|
            0 <= c < labels@.len() && labels@[c] > 0 && c != -1 && !stack@.contains(c as usize)
                && 0 <= dd < 8 implies (#[trigger] neighbor_index(c, dd, w as int, h as int) matches Some(
            mm,
        ) ==> flows@[mm] > 0 ==> labels@[mm] == labels@[c]) by {
            lemma_neighbor_inside(c, dd, w as int, h as int);
            assert(c != start as int);
            assert(!Seq::<usize>::empty().contains(c as usize));
        }
    }
    while stack.len() > 0
        invariant
            0 < w <= i32::MAX,
            h <= i32::MAX,
            flows@.len() == w as int * h as int,
            flows@.len() <= u32::MAX,
            label as int == sizes0.len(),
            label >= 1,
            ordered(labels@, all_firsts, cur_rank, cur_next, w as int, h as int),
            all_firsts.len() == label as int + 1,
            all_firsts[label as int] == start,
            forall|c: int| 0 <= c < start && #[trigger] flows@[c] > 0 ==> labels@[c] > 0,
            sizes@.len() == sizes0.len() + 1,
            sizes@[0] == 0,
            start < flows@.len(),
            labels@[start as int] == label,
            labels_on_rivers(flows@, labels@, label as int + 1),
            touching_agree(flows@, labels@, stack@, -1, w as int, h as int),
            forall|k: int|
                0 <= k < stack@.len() ==> #[trigger] stack@[k] < flows@.len() && labels@[stack@[k] as int]
                    == label,
            sizes_counted(labels@, sizes@, label as int),
            sizes@[label as int] as nat + stack@.len() == count_label(labels@, label),
            forall|i: int|
                0 <= i < flows@.len() && labels0[i] != 0 ==> #[trigger] labels@[i] == labels0[i],
        decreases 2 * count_label(labels@, 0) + stack@.len(),
    {
        let ghost s_before = stack@;
        let cur: usize = stack.pop().unwrap();
        proof {
            lemma_count_label_bound(labels@, label);
            assert forall|c: int, dd: int|
                0 <= c < labels@.len() && labels@[c] > 0 && c != cur as int && !stack@.contains(
                    c as usize,
                ) && 0 <= dd < 8 implies (#[trigger] neighbor_index(c, dd, w as int, h as int) matches Some(
                mm,
            ) ==> flows@[mm] > 0 ==> labels@[mm] == labels@[c]) by {
                if s_before.contains(c as usize) {
                    let k = choose|k: int| 0 <= k < s_before.len() && s_before[k] == c as usize;
                    assert(k < s_before.len() - 1);
                    assert(stack@[k] == c as usize);
                }
            }
        }
        let size: u32 = sizes[label as usize];
        sizes.set(label as usize, size + 1);
        let ghost measure = 2 * count_label(labels@, 0) + stack@.len();
        let ghost waiting = stack@.len();
        let ghost counted = count_label(labels@, label);
        let ghost labels_mid = labels@;
        let mut d: u8 = 0;
        while d < 8
            invariant
                0 < w <= i32::MAX,
                h <= i32::MAX,
                flows@.len() == w as int * h as int,
                flows@.len() <= u32::MAX,
                d <= 8,
                label >= 1,
                label as int == sizes0.len(),
                ordered(labels@, all_firsts, cur_rank, cur_next, w as int, h as int),
                all_firsts.len() == label as int + 1,
                all_firsts[label as int] == start,
                forall|c: int| 0 <= c < start && #[trigger] flows@[c] > 0 ==> labels@[c] > 0,
                cur < flows@.len(),
                sizes@.len() == sizes0.len() + 1,
                sizes@[0] == 0,
                start < flows@.len(),
                labels@[start as int] == label,
                labels@[cur as int] == label,
                labels_on_rivers(flows@, labels@, label as int + 1),
                touching_agree(flows@, labels@, stack@, cur as int, w as int, h as int),
                forall|k: int|
                    0 <= k < stack@.len() ==> #[trigger] stack@[k] < flows@.len()
                        && labels@[stack@[k] as int] == label,
                forall|k: int|
                    0 <= k < d ==> (#[trigger] neighbor_index(cur as int, k, w as int, h as int) matches Some(
                        m,
                    ) ==> flows@[m] > 0 ==> labels@[m] == label),
                sizes_counted(labels@, sizes@, label as int),
                count_label(labels@, label) + waiting == counted + stack@.len(),
                2 * count_label(labels@, 0) + stack@.len() <= measure,
                forall|i: int|
                    0 <= i < flows@.len() && labels0[i] != 0 ==> #[trigger] labels@[i]
                        == labels0[i],
            decreases 8 - d,
        {
            let ghost l_in = labels@;
            let moved = spread(
                labels,
                &mut stack,
                flows,
                cur,
                d,
                label,
                w,
                h,
                Ghost(all_firsts),
                Ghost(cur_rank),
                Ghost(cur_next),
                Ghost(start as int),
            );
            proof {
                cur_rank = moved@;
                cur_next = cur_next + 1;
            }
            proof {
                assert forall|l: int| 1 <= l < label as int && l < sizes@.len() implies #[trigger] sizes@[l] as nat
                    == count_label(labels@, l as u32) by {
                    assert(count_label(labels@, l as u32) == count_label(l_in, l as u32));
                }
            }
            d += 1;
        }
    }
    proof {
        assert(stack@ =~= Seq::<usize>::empty());
    }
    Ghost((all_firsts, cur_rank, cur_next))
}

/// A label that no cell can carry yet is carried by none.
proof fn lemma_no_such_label(labels: Seq<u32>, l: u32)
    requires
        forall|i: int| 0 <= i < labels.len() ==> #[trigger] labels[i] < l,
    ensures
        count_label(labels, l) == 0,
    decreases labels.len(),
{
    if labels.len() > 0 {
        lemma_no_such_label(labels.drop_last(), l);
    }
}

/// Labels the river systems of a flow field: the cells with flow above
/// zero that hang together by edges and corners, across the seam too.
/// Returns the label of every cell, zero off the rivers, and for every
/// label the number of its cells; labels start at one.
pub fn label_components(flows: &Vec<u64>, w: usize, h: usize) -> (r: (Vec<u32>, Vec<u32>))
    requires
        0 < w <= i32::MAX,
        h <= i32::MAX,
        flows@.len() == w as int * h as int,
        flows@.len() <= u32::MAX,
    ensures
        labelled(flows@, r.0@, r.1@, w as int, h as int),
        r.1@.len() <= flows@.len() + 1,
{
    let n: usize = flows.len();
    let mut labels: Vec<u32> = Vec::with_capacity(n);
    let mut k: usize = 0;
    while k < n
        invariant
            k <= n,
            labels@.len() == k,
            forall|i: int| 0 <= i < k ==> #[trigger] labels@[i] == 0,
        decreases n - k,
    {
        labels.push(0);
        k += 1;
    }
    let mut sizes: Vec<u32> = Vec::new();
    sizes.push(0);
    let ghost mut firsts: Seq<int> = seq![-1int];
    let ghost mut rank: Seq<nat> = Seq::new(n as nat, |c: int| 0nat);
    let ghost mut next: nat = 0;
    let mut start: usize = 0;
    while start < n
        invariant
            ordered(labels@, firsts, rank, next, w as int, h as int),
            firsts.len() == sizes@.len(),
            forall|l: int| 1 <= l < firsts.len() ==> #[trigger] firsts[l] < start,
            0 < w <= i32::MAX,
            h <= i32::MAX,
            n == flows@.len(),
            flows@.len() == w as int * h as int,
            flows@.len() <= u32::MAX,
            start <= n,
            1 <= sizes@.len() <= start + 1,
            sizes@[0] == 0,
            labels_on_rivers(flows@, labels@, sizes@.len() as int),
            touching_agree(flows@, labels@, Seq::empty(), -1, w as int, h as int),
            sizes_counted(labels@, sizes@, sizes@.len() as int),
            forall|i: int| 0 <= i < start && #[trigger] flows@[i] > 0 ==> labels@[i] > 0,
        decreases n - start,
    {
        if flows[start] > 0 && labels[start] == 0 {
            let known = label_system(
                &mut labels,
                &mut sizes,
                flows,
                start,
                w,
                h,
                Ghost(firsts),
                Ghost(rank),
                Ghost(next),
            );
            proof {
                firsts = known@.0;
                rank = known@.1;
                next = known@.2;
            }
        }
        start += 1;
    }
    proof {
        assert(hang_together(labels@, firsts, rank, w as int, h as int));
    }
    (labels, sizes)
}

/// Most cells a river system of `size` cells may take in while it grows
/// into its headwaters: half its size, rounded up.
pub open spec fn growth_cap(size: u32) -> int {
    (size as int + 1) / 2
}

/// Whether some neighbour of cell `i`, of its eight, carries the label of
/// cell `i`.
pub open spec fn adjoins_own_label(labels: Seq<u32>, i: int, w: int, h: int) -> bool {
    exists|d: int|
        0 <= d < 8 && (#[trigger] neighbor_index(i, d, w, h) matches Some(m) && labels[m]
            == labels[i])
}

/// Whether cell `i` has joined a river system: it carried no river, its
/// raw flow is above zero and no less than `min_flow`, it now carries its
/// raw flow and the label of a neighbouring cell.
pub open spec fn joined(
    flow: Seq<u64>,
    labels: Seq<u32>,
    raw: Seq<u64>,
    min_flow: u64,
    i: int,
    w: int,
    h: int,
) -> bool {
    &&& flow[i] == raw[i]
    &&& raw[i] >= min_flow
    &&& raw[i] > 0
    &&& labels[i] > 0
    &&& adjoins_own_label(labels, i, w, h)
}

/// How a river field may have grown from `(flow0, labels0)` into
/// `(flow, labels)`: rivers stay as they were, any other cell stays dry or
/// has joined a system, and no system has taken in more cells than `added`
/// says, nor more than its cap.
pub open spec fn grown(
    flow0: Seq<u64>,
    labels0: Seq<u32>,
    flow: Seq<u64>,
    labels: Seq<u32>,
    added: Seq<u32>,
    raw: Seq<u64>,
    sizes: Seq<u32>,
    min_flow: u64,
    w: int,
    h: int,
) -> bool {
    &&& flow.len() == flow0.len()
    &&& labels.len() == flow0.len()
    &&& added.len() == sizes.len()
    &&& labels_on_rivers(flow, labels, sizes.len() as int)
    &&& forall|i: int|
        0 <= i < flow0.len() && #[trigger] flow0[i] > 0 ==> flow[i] == flow0[i] && labels[i]
            == labels0[i]
    &&& forall|i: int|
        0 <= i < flow0.len() && #[trigger] flow0[i] == 0 ==> (flow[i] == 0 && labels[i]
            == labels0[i]) || joined(flow, labels, raw, min_flow, i, w, h)
    &&& forall|l: int|
        1 <= l < sizes.len() ==> count_label(labels, l as u32) == count_label(labels0, l as u32)
            + #[trigger] added[l] && added[l] <= growth_cap(sizes[l])
}

/// The label of the first labelled neighbour of cell `i` among the
/// directions from `d` on, or zero.
pub open spec fn first_label_from(labels: Seq<u32>, i: int, d: int, w: int, h: int) -> u32
    decreases 8 - d,
{
    if d >= 8 || d < 0 {
        0
    } else {
        match neighbor_index(i, d, w, h) {
            Some(m) => if labels[m] > 0 {
                labels[m]
            } else {
                first_label_from(labels, i, d + 1, w, h)
            },
            None => first_label_from(labels, i, d + 1, w, h),
        }
    }
}

/// A river field while it grows: the flow of the rivers, their labels,
/// and the number of cells every system has taken in.
pub struct Growth {
    pub flow: Seq<u64>,
    pub labels: Seq<u32>,
    pub added: Seq<u32>,
}

/// Whether cell `i` may join the system of its first labelled neighbour:
/// it is dry, its raw flow is above zero and no less than `min_flow`, and
/// that system has taken in fewer cells than its cap.
pub open spec fn may_join(
    g: Growth,
    raw: Seq<u64>,
    sizes: Seq<u32>,
    min_flow: u64,
    i: int,
    w: int,
    h: int,
) -> bool {
    let best = first_label_from(g.labels, i, 0, w, h);
    &&& g.flow[i] == 0
    &&& raw[i] >= min_flow
    &&& raw[i] > 0
    &&& best > 0
    &&& g.added[best as int] < growth_cap(sizes[best as int])
}

/// The river field after cell `i` has had its turn.
pub open spec fn turn(
    g: Growth,
    raw: Seq<u64>,
    sizes: Seq<u32>,
    min_flow: u64,
    i: int,
    w: int,
    h: int,
) -> Growth {
    if may_join(g, raw, sizes, min_flow, i, w, h) {
        let best = first_label_from(g.labels, i, 0, w, h);
        Growth {
            flow: g.flow.update(i, raw[i]),
            labels: g.labels.update(i, best),
            added: g.added.update(best as int, (g.added[best as int] + 1) as u32),
        }
    } else {
        g
    }
}

/// The river field after the first `t` cells of a sweep have had their
/// turn, in store order.
pub open spec fn swept_rivers(
    g: Growth,
    raw: Seq<u64>,
    sizes: Seq<u32>,
    min_flow: u64,
    t: nat,
    w: int,
    h: int,
) -> Growth
    decreases t,
{
    if t == 0 {
        g
    } else {
        turn(swept_rivers(g, raw, sizes, min_flow, (t - 1) as nat, w, h), raw, sizes, min_flow, t - 1, w, h)
    }
}

/// The river field after up to `k` sweeps; the sweeps end with the first
/// that changes nothing.
pub open spec fn sweeps(
    g: Growth,
    raw: Seq<u64>,
    sizes: Seq<u32>,
    min_flow: u64,
    k: nat,
    w: int,
    h: int,
) -> Growth
    decreases k,
{
    if k == 0 {
        g
    } else {
        let s = swept_rivers(g, raw, sizes, min_flow, raw.len(), w, h);
        if s.flow == g.flow {
            s
        } else {
            sweeps(s, raw, sizes, min_flow, (k - 1) as nat, w, h)
        }
    }
}

/// The river field that given flows, labels and counts stand for.
pub open spec fn growth(flow: Seq<u64>, labels: Seq<u32>, added: Seq<u32>) -> Growth {
    Growth { flow, labels, added }
}

/// The label of the first labelled neighbour of cell `i`, or zero.
fn first_labelled_neighbor(labels: &Vec<u32>, i: usize, w: usize, h: usize) -> (r: u32)
    requires
        0 < w <= i32::MAX,
        h <= i32::MAX,
        labels@.len() == w as int * h as int,
        i < labels@.len(),
    ensures
        r == first_label_from(labels@, i as int, 0, w as int, h as int),
        r > 0 ==> exists|d: int|
            0 <= d < 8 && (#[trigger] neighbor_index(i as int, d, w as int, h as int) matches Some(m)
                && labels@[m] == r),
        r == 0 ==> forall|d: int|
            0 <= d < 8 ==> (#[trigger] neighbor_index(i as int, d, w as int, h as int) matches Some(
                m,
            ) ==> labels@[m] == 0),
{
    assert(labels@.len() == labels.len());
    let mut d: u8 = 0;
    while d < 8
        invariant
            0 < w <= i32::MAX,
            h <= i32::MAX,
            labels@.len() == w as int * h as int,
            labels@.len() <= usize::MAX,
            i < labels@.len(),
            d <= 8,
            first_label_from(labels@, i as int, d as int, w as int, h as int) == first_label_from(
                labels@,
                i as int,
                0,
                w as int,
                h as int,
            ),
            forall|k: int|
                0 <= k < d ==> (#[trigger] neighbor_index(i as int, k, w as int, h as int) matches Some(
                    m,
                ) ==> labels@[m] == 0),
        decreases 8 - d,
    {
        match neighbor_of(i, d, w, h) {
            Some(m) => {
                if labels[m] > 0 {
                    assert(neighbor_index(i as int, d as int, w as int, h as int) matches Some(mm)
                        && labels@[mm] == labels@[m as int]);
                    return labels[m];
                }
            },
            None => {},
        }
        d += 1;
    }
    0
}

/// Lets cell `i` join the river system of its first labelled neighbour,
/// if the cell is dry, carries enough raw flow, and the system may still
/// grow. Returns whether it joined.
fn try_join(
    river_flow: &mut Vec<u64>,
    labels: &mut Vec<u32>,
    added: &mut Vec<u32>,
    raw_flow: &Vec<u64>,
    sizes: &Vec<u32>,
    min_flow: u64,
    i: usize,
    w: usize,
    h: usize,
    Ghost(flow0): Ghost<Seq<u64>>,
    Ghost(labels0): Ghost<Seq<u32>>,
) -> (changed: bool)
    requires
        0 < w <= i32::MAX,
        h <= i32::MAX,
        flow0.len() == w as int * h as int,
        raw_flow@.len() == flow0.len(),
        sizes@.len() <= 0x1_0000_0000,
        i < flow0.len(),
        grown(
            flow0,
            labels0,
            old(river_flow)@,
            old(labels)@,
            old(added)@,
            raw_flow@,
            sizes@,
            min_flow,
            w as int,
            h as int,
        ),
    ensures
        grown(
            flow0,
            labels0,
            final(river_flow)@,
            final(labels)@,
            final(added)@,
            raw_flow@,
            sizes@,
            min_flow,
            w as int,
            h as int,
        ),
        growth(final(river_flow)@, final(labels)@, final(added)@) == turn(
            growth(old(river_flow)@, old(labels)@, old(added)@),
            raw_flow@,
            sizes@,
            min_flow,
            i as int,
            w as int,
            h as int,
        ),
        changed == (final(river_flow)@ != old(river_flow)@),
        forall|k: int|
            0 <= k < flow0.len() && old(river_flow)@[k] > 0 ==> #[trigger] final(river_flow)@[k]
                == old(river_flow)@[k],
{
    if river_flow[i] > 0 {
        return false;
    }
    if raw_flow[i] < min_flow || raw_flow[i] == 0 {
        return false;
    }
    let best: u32 = first_labelled_neighbor(labels, i, w, h);
    if best == 0 {
        return false;
    }
    proof {
        let d = choose|d: int|
            0 <= d < 8 && (#[trigger] neighbor_index(i as int, d, w as int, h as int) matches Some(m)
                && labels@[m] == best);
        lemma_neighbor_inside(i as int, d, w as int, h as int);
        let m = neighbor_index(i as int, d, w as int, h as int).unwrap();
        assert(labels@[m] < sizes@.len());
    }
    let size: u32 = sizes[best as usize];
    let cap: u32 = size / 2 + size % 2;
    if added[best as usize] >= cap {
        return false;
    }
    let ghost f_in = river_flow@;
    let ghost l_in = labels@;
    let ghost a_in = added@;
    proof {
        assert(l_in[i as int] == 0) by {
            if l_in[i as int] > 0 {
                assert(f_in[i as int] > 0);
            }
        }
    }
    river_flow.set(i, raw_flow[i]);
    labels.set(i, best);
    let a: u32 = added[best as usize];
    added.set(best as usize, a + 1);
    proof {
        assert(river_flow@[i as int] != f_in[i as int]);
        let f1 = river_flow@;
        let l1 = labels@;
        let a1 = added@;
        assert(flow0[i as int] == 0) by {
            if flow0[i as int] > 0 {
                assert(f_in[i as int] == flow0[i as int]);
            }
        }
        assert forall|k: int| 0 <= k < flow0.len() && #[trigger] flow0[k] == 0 implies (f1[k] == 0
            && l1[k] == labels0[k]) || joined(f1, l1, raw_flow@, min_flow, k, w as int, h as int) by {
            if k == i as int {
                let d = choose|d: int|
                    0 <= d < 8 && (#[trigger] neighbor_index(i as int, d, w as int, h as int) matches Some(
                        m,
                    ) && l_in[m] == best);
                lemma_neighbor_inside(i as int, d, w as int, h as int);
                let m = neighbor_index(i as int, d, w as int, h as int).unwrap();
                assert(l1[m] == best);
            } else if !(f_in[k] == 0 && l_in[k] == labels0[k]) {
                assert(joined(f_in, l_in, raw_flow@, min_flow, k, w as int, h as int));
                let d = choose|d: int|
                    0 <= d < 8 && (#[trigger] neighbor_index(k, d, w as int, h as int) matches Some(m)
                        && l_in[m] == l_in[k]);
                lemma_neighbor_inside(k, d, w as int, h as int);
                let m = neighbor_index(k, d, w as int, h as int).unwrap();
                assert(l1[m] == l1[k]);
            }
        }
        assert forall|l: int| 1 <= l < sizes@.len() implies count_label(l1, l as u32)
            == count_label(labels0, l as u32) + #[trigger] a1[l] && a1[l] <= growth_cap(
            sizes@[l],
        ) by {
            lemma_count_label_update(l_in, i as int, best, l as u32);
            assert(count_label(l_in, l as u32) == count_label(labels0, l as u32) + a_in[l]);
            assert(a_in[l] <= growth_cap(sizes@[l]));
            if l == best as int {
                assert(l as u32 == best);
                assert(a1[l] == a_in[l] + 1);
            } else {
                assert(l as u32 != best);
                assert(a1[l] == a_in[l]);
            }
        }
    }
    true
}

/// Grows the river systems upstream into their headwaters.
///
/// In up to twenty sweeps over the field, a dry cell whose raw flow is
/// above zero and no less than `min_flow` joins the system of its first
/// labelled neighbour and carries its raw flow from then on, as long as
/// that system has taken in fewer cells than half its first size, rounded
/// up. The sweeps end with the first that changes nothing.
pub fn extend_rivers(
    river_flow: &mut Vec<u64>,
    labels: &mut Vec<u32>,
    raw_flow: &Vec<u64>,
    sizes: &Vec<u32>,
    min_flow: u64,
    w: usize,
    h: usize,
) -> (added: Vec<u32>)
    requires
        0 < w <= i32::MAX,
        h <= i32::MAX,
        old(river_flow)@.len() == w as int * h as int,
        old(labels)@.len() == old(river_flow)@.len(),
        raw_flow@.len() == old(river_flow)@.len(),
        sizes@.len() <= 0x1_0000_0000,
        labels_on_rivers(old(river_flow)@, old(labels)@, sizes@.len() as int),
    ensures
        grown(
            old(river_flow)@,
            old(labels)@,
            final(river_flow)@,
            final(labels)@,
            added@,
            raw_flow@,
            sizes@,
            min_flow,
            w as int,
            h as int,
        ),
        growth(final(river_flow)@, final(labels)@, added@) == sweeps(
            growth(old(river_flow)@, old(labels)@, Seq::new(sizes@.len(), |l: int| 0u32)),
            raw_flow@,
            sizes@,
            min_flow,
            20,
            w as int,
            h as int,
        ),
{
    let ghost flow0 = river_flow@;
    let ghost labels0 = labels@;
    let n: usize = raw_flow.len();
    let mut added: Vec<u32> = Vec::with_capacity(sizes.len());
    let mut k: usize = 0;
    while k < sizes.len()
        invariant
            k <= sizes@.len(),
            added@.len() == k,
            forall|l: int| 0 <= l < k ==> #[trigger] added@[l] == 0,
        decreases sizes@.len() - k,
    {
        added.push(0);
        k += 1;
    }
    assert(added@ =~= Seq::new(sizes@.len(), |l: int| 0u32));
    let ghost g0 = growth(flow0, labels0, added@);
    let mut pass: u32 = 0;
    let mut changed: bool = true;
    while pass < 20 && changed
        invariant
            changed ==> sweeps(
                growth(river_flow@, labels@, added@),
                raw_flow@,
                sizes@,
                min_flow,
                (20 - pass) as nat,
                w as int,
                h as int,
            ) == sweeps(g0, raw_flow@, sizes@, min_flow, 20, w as int, h as int),
            !changed ==> growth(river_flow@, labels@, added@) == sweeps(
                g0,
                raw_flow@,
                sizes@,
                min_flow,
                20,
                w as int,
                h as int,
            ),
            0 < w <= i32::MAX,
            h <= i32::MAX,
            n == flow0.len(),
            flow0.len() == w as int * h as int,
            raw_flow@.len() == flow0.len(),
            sizes@.len() <= 0x1_0000_0000,
            pass <= 20,
            grown(
                flow0,
                labels0,
                river_flow@,
                labels@,
                added@,
                raw_flow@,
                sizes@,
                min_flow,
                w as int,
                h as int,
            ),
        decreases 20 - pass,
    {
        changed = false;
        let ghost before = growth(river_flow@, labels@, added@);
        let mut i: usize = 0;
        while i < n
            invariant
                growth(river_flow@, labels@, added@) == swept_rivers(
                    before,
                    raw_flow@,
                    sizes@,
                    min_flow,
                    i as nat,
                    w as int,
                    h as int,
                ),
                changed == (river_flow@ != before.flow),
                forall|k: int|
                    0 <= k < flow0.len() && before.flow[k] > 0 ==> #[trigger] river_flow@[k]
                        == before.flow[k],
                0 < w <= i32::MAX,
                h <= i32::MAX,
                n == flow0.len(),
                flow0.len() == w as int * h as int,
                raw_flow@.len() == flow0.len(),
                sizes@.len() <= 0x1_0000_0000,
                i <= n,
                grown(
                    flow0,
                    labels0,
                    river_flow@,
                    labels@,
                    added@,
                    raw_flow@,
                    sizes@,
                    min_flow,
                    w as int,
                    h as int,
                ),
            decreases n - i,
        {
            let took: bool = try_join(
                river_flow,
                labels,
                &mut added,
                raw_flow,
                sizes,
                min_flow,
                i,
                w,
                h,
                Ghost(flow0),
                Ghost(labels0),
            );
            if took {
                changed = true;
            }
            i += 1;
        }
        pass += 1;
    }
    added
}

} // verus!
