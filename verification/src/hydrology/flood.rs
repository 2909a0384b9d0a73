//! Depression filling by priority flood.
//!
//! The flood starts from the sea and from the land on the two polar rows
//! and climbs inland, lowest cell first. Every cell it reaches is raised
//! just above the cell it was reached from, so that water on it has a way
//! down.

use vstd::prelude::*;
use crate::grid::{
    lemma_neighbor_inside, lemma_neighbor_symmetric, lemma_south_neighbor, neighbor_index,
    neighbor_of,
};
use crate::plates::grow::{
    is_walk, lemma_walk_inside, lemma_walk_prefix, lemma_walk_same_start, walk_cell,
};
use crate::queue::{Entry, MinQueue};

verus! {

/// The key under which a height waits in the queue: heights in their own
/// order, moved into the unsigned range.
pub open spec fn flood_key(e: i32) -> u64 {
    (e as int + 0x8000_0000) as u64
}

/// The queue entry of cell `i` at its present height.
pub open spec fn entry_of(elev: Seq<i32>, i: int) -> Entry {
    Entry { key: flood_key(elev[i]), item: i as u64 }
}

/// Whether some neighbour of cell `i`, of its eight, lies strictly lower.
pub open spec fn has_lower_neighbor(elev: Seq<i32>, i: int, w: int, h: int) -> bool {
    exists|d: int|
        0 <= d < 8 && (#[trigger] neighbor_index(i, d, w, h) matches Some(m) && elev[m] < elev[i])
}

/// Whether cell `i` stands exactly one unit above some neighbour, of its
/// eight.
pub open spec fn one_above_neighbor(elev: Seq<i32>, i: int, w: int, h: int) -> bool {
    exists|d: int|
        0 <= d < 8 && (#[trigger] neighbor_index(i, d, w, h) matches Some(m) && elev[i] == elev[m]
            + 1)
}

/// Whether cell `i` stands exactly one unit above some reached neighbour.
spec fn lifted(elev: Seq<i32>, visited: Seq<bool>, i: int, w: int, h: int) -> bool {
    exists|d: int|
        0 <= d < 8 && (#[trigger] neighbor_index(i, d, w, h) matches Some(m) && visited[m]
            && elev[i] == elev[m] + 1)
}

/// Every cell that has been raised stands one unit above a reached
/// neighbour: nothing is raised further than it must be to drain.
spec fn raised_ok(orig: Seq<i32>, elev: Seq<i32>, visited: Seq<bool>, w: int, h: int) -> bool {
    forall|i: int|
        0 <= i < orig.len() && #[trigger] elev[i] > orig[i] ==> visited[i] && lifted(
            elev,
            visited,
            i,
            w,
            h,
        )
}

/// Whether every neighbour of cell `i` has been reached.
spec fn settled(visited: Seq<bool>, i: int, w: int, h: int) -> bool {
    forall|d: int|
        0 <= d < 8 ==> (#[trigger] neighbor_index(i, d, w, h) matches Some(m) ==> visited[m])
}

/// Whether some reached neighbour of cell `i` lies strictly lower.
spec fn drains(elev: Seq<i32>, visited: Seq<bool>, i: int, w: int, h: int) -> bool {
    exists|d: int|
        0 <= d < 8 && (#[trigger] neighbor_index(i, d, w, h) matches Some(m) && visited[m]
            && elev[m] < elev[i])
}

/// Number of cells not reached yet.
spec fn unvisited(v: Seq<bool>) -> nat
    decreases v.len(),
{
    if v.len() == 0 {
        0
    } else {
        unvisited(v.drop_last()) + if v.last() {
            0nat
        } else {
            1nat
        }
    }
}

proof fn lemma_unvisited_bound(v: Seq<bool>)
    ensures
        unvisited(v) <= v.len(),
    decreases v.len(),
{
    if v.len() > 0 {
        lemma_unvisited_bound(v.drop_last());
    }
}

proof fn lemma_visit_one(v: Seq<bool>, i: int)
    requires
        0 <= i < v.len(),
        !v[i],
    ensures
        unvisited(v.update(i, true)) + 1 == unvisited(v),
    decreases v.len(),
{
    if i == v.len() - 1 {
        assert(v.update(i, true).drop_last() == v.drop_last());
    } else {
        assert(v.update(i, true).drop_last() == v.drop_last().update(i, true));
        lemma_visit_one(v.drop_last(), i);
    }
}

/// Heights only rise, the sea is left alone, and a cell not reached yet is
/// land at its first height.
spec fn frozen_ok(orig: Seq<i32>, elev: Seq<i32>, visited: Seq<bool>) -> bool {
    &&& elev.len() == orig.len()
    &&& visited.len() == orig.len()
    &&& forall|i: int|
        0 <= i < orig.len() ==> {
            &&& #[trigger] elev[i] >= orig[i]
            &&& (orig[i] <= 0 ==> elev[i] == orig[i] && visited[i])
            &&& (!visited[i] ==> elev[i] == orig[i])
        }
}

/// Every waiting entry stands for a reached cell at its present height.
spec fn entries_ok(q: Seq<Entry>, elev: Seq<i32>, visited: Seq<bool>) -> bool {
    forall|x: Entry| #[trigger]
        q.contains(x) ==> (x.item as int) < elev.len() && visited[x.item as int] && x.key
            == flood_key(elev[x.item as int])
}

/// Every reached land cell between the polar rows has a reached neighbour
/// that lies strictly lower.
spec fn drained_ok(orig: Seq<i32>, elev: Seq<i32>, visited: Seq<bool>, w: int, h: int) -> bool {
    forall|i: int|
        w <= i < orig.len() - w && #[trigger] visited[i] && orig[i] > 0 ==> drains(
            elev,
            visited,
            i,
            w,
            h,
        )
}

/// No height can pass the top of its range however many cells are still
/// to be raised.
spec fn bound_ok(elev: Seq<i32>, visited: Seq<bool>) -> bool {
    forall|i: int| 0 <= i < elev.len() ==> #[trigger] elev[i] + unvisited(visited) <= i32::MAX
}

/// Every reached cell but `skip` has all its neighbours reached or waits in
/// the queue.
spec fn pending_ok(
    q: Seq<Entry>,
    elev: Seq<i32>,
    visited: Seq<bool>,
    skip: int,
    w: int,
    h: int,
) -> bool {
    forall|i: int|
        0 <= i < elev.len() && #[trigger] visited[i] && i != skip ==> settled(visited, i, w, h)
            || q.contains(entry_of(elev, i))
}

/// What holds between any two steps of the flood.
spec fn flood_inv(
    orig: Seq<i32>,
    elev: Seq<i32>,
    visited: Seq<bool>,
    q: Seq<Entry>,
    skip: int,
    w: int,
    h: int,
) -> bool {
    &&& orig.len() == w * h
    &&& frozen_ok(orig, elev, visited)
    &&& entries_ok(q, elev, visited)
    &&& drained_ok(orig, elev, visited, w, h)
    &&& raised_ok(orig, elev, visited, w, h)
    &&& bound_ok(elev, visited)
    &&& pending_ok(q, elev, visited, skip, w, h)
}

/// Whether water leaves the grid at cell `c`: the sea, and the two polar
/// rows.
pub open spec fn is_outlet(orig: Seq<i32>, c: int, w: int) -> bool {
    orig[c] <= 0 || c < w || c >= orig.len() - w
}

/// The level to which water must stand at the end of the first `i` steps
/// of a walk inland for every cell on it to drain back: the height of the
/// cell, and one unit above the level of the cell before.
pub open spec fn walk_level(orig: Seq<i32>, start: int, dirs: Seq<int>, i: nat, w: int, h: int) -> int
    decreases i,
{
    if i == 0 {
        orig[start] as int
    } else {
        let before = walk_level(orig, start, dirs, (i - 1) as nat, w, h);
        let here = orig[walk_cell(start, dirs, i, w, h)] as int;
        if here > before + 1 {
            here
        } else {
            before + 1
        }
    }
}

/// Whether no walk from an outlet reaches cell `c` at a level below `k`.
pub open spec fn lowest(orig: Seq<i32>, c: int, k: int, w: int, h: int) -> bool {
    forall|s: int, dirs: Seq<int>|
        0 <= s < orig.len() && is_outlet(orig, s, w) && #[trigger] is_walk(s, dirs, c, w, h)
            ==> walk_level(orig, s, dirs, dirs.len(), w, h) >= k
}

/// Whether cell `c` is filled to its lowest outlet and no further: some
/// walk from an outlet reaches it at its height, and none at a lower level.
pub open spec fn filled_to_outlet(orig: Seq<i32>, elev: Seq<i32>, c: int, w: int, h: int) -> bool {
    &&& lowest(orig, c, elev[c] as int, w, h)
    &&& exists|s: int, dirs: Seq<int>|
        0 <= s < orig.len() && is_outlet(orig, s, w) && #[trigger] is_walk(s, dirs, c, w, h)
            && walk_level(orig, s, dirs, dirs.len(), w, h) == elev[c]
}

/// Walks that begin with the same steps stand at the same level while they
/// last.
proof fn lemma_level_same_start(
    orig: Seq<i32>,
    start: int,
    a: Seq<int>,
    b: Seq<int>,
    i: nat,
    w: int,
    h: int,
)
    requires
        i <= a.len(),
        i <= b.len(),
        forall|j: int| 0 <= j < i ==> a[j] == b[j],
    ensures
        walk_level(orig, start, a, i, w, h) == walk_level(orig, start, b, i, w, h),
    decreases i,
{
    if i > 0 {
        lemma_level_same_start(orig, start, a, b, (i - 1) as nat, w, h);
        lemma_walk_same_start(start, a, b, Seq::<u32>::empty(), i, w, h);
    }
}

/// The level of a walk is no lower than the cell it stands on, and never
/// falls along the walk.
proof fn lemma_level_rises(orig: Seq<i32>, start: int, dirs: Seq<int>, i: nat, j: nat, w: int, h: int)
    requires
        i <= j,
    ensures
        walk_level(orig, start, dirs, j, w, h) >= orig[walk_cell(start, dirs, j, w, h)],
        walk_level(orig, start, dirs, j, w, h) >= walk_level(orig, start, dirs, i, w, h) + (j - i),
    decreases j,
{
    if i < j {
        lemma_level_rises(orig, start, dirs, i, (j - 1) as nat, w, h);
    }
}

/// What holds of levels between any two steps of the flood: every outlet
/// has been reached, and every reached cell stands at the level of a walk
/// from an outlet, below which no walk from an outlet reaches it.
spec fn level_inv(
    orig: Seq<i32>,
    elev: Seq<i32>,
    visited: Seq<bool>,
    src: Seq<int>,
    way: Seq<Seq<int>>,
    w: int,
    h: int,
) -> bool {
    &&& src.len() == orig.len()
    &&& way.len() == orig.len()
    &&& forall|c: int| 0 <= c < orig.len() && is_outlet(orig, c, w) ==> #[trigger] visited[c]
    &&& forall|c: int|
        0 <= c < orig.len() && #[trigger] visited[c] ==> 0 <= src[c] < orig.len() && is_outlet(
            orig,
            src[c],
            w,
        ) && is_walk(src[c], way[c], c, w, h) && walk_level(
            orig,
            src[c],
            way[c],
            way[c].len(),
            w,
            h,
        ) == elev[c]
    &&& forall|c: int|
        0 <= c < orig.len() && #[trigger] visited[c] ==> lowest(orig, c, elev[c] as int, w, h)
}

/// Every entry waits at the level `floor` or above.
spec fn keys_above(q: Seq<Entry>, floor: int) -> bool {
    forall|x: Entry| #[trigger] q.contains(x) ==> x.key as int >= floor + 0x8000_0000
}

/// No walk from an outlet gets past the reached cells below the level of
/// the cell that is being expanded: after any number of its steps a walk
/// stands above that level, or on a reached cell.
proof fn lemma_walk_meets_flood(
    orig: Seq<i32>,
    elev: Seq<i32>,
    visited: Seq<bool>,
    q: Seq<Entry>,
    src: Seq<int>,
    way: Seq<Seq<int>>,
    c: int,
    s: int,
    dirs: Seq<int>,
    end: int,
    i: nat,
    w: int,
    h: int,
)
    requires
        0 < w,
        orig.len() == w * h,
        elev.len() == orig.len(),
        visited.len() == orig.len(),
        0 <= c < orig.len(),
        visited[c],
        level_inv(orig, elev, visited, src, way, w, h),
        pending_ok(q, elev, visited, c, w, h),
        keys_above(q, elev[c] as int),
        0 <= s < orig.len(),
        is_outlet(orig, s, w),
        is_walk(s, dirs, end, w, h),
        i <= dirs.len(),
    ensures
        0 <= walk_cell(s, dirs, i, w, h) < orig.len(),
        walk_level(orig, s, dirs, i, w, h) > elev[c] || visited[walk_cell(s, dirs, i, w, h)],
    decreases i,
{
    assert(walk_cell(s, dirs, i, w, h) >= 0);
    lemma_walk_inside(s, dirs, i, w, h);
    if i > 0 {
        let j = (i - 1) as nat;
        lemma_walk_meets_flood(orig, elev, visited, q, src, way, c, s, dirs, end, j, w, h);
        let t = walk_cell(s, dirs, j, w, h);
        let u = walk_cell(s, dirs, i, w, h);
        let before = walk_level(orig, s, dirs, j, w, h);
        if before <= elev[c] && !visited[u] {
            assert(visited[t]);
            lemma_walk_prefix(s, dirs, Seq::<u32>::empty(), end, j, w, h);
            lemma_level_same_start(orig, s, dirs.take(j as int), dirs, j, w, h);
            assert(is_walk(s, dirs.take(j as int), t, w, h));
            assert(lowest(orig, t, elev[t] as int, w, h));
            assert(before >= elev[t]);
            // the cell stands next to one not reached, so it waits in the queue or is
            // the cell being expanded
            assert(neighbor_index(t, dirs[i - 1], w, h) == Some(u));
            assert(0 <= dirs[i - 1] < 8);
            if t != c {
                assert(!settled(visited, t, w, h));
                assert(q.contains(entry_of(elev, t)));
                assert(elev[t] >= elev[c]);
            }
        }
    }
}

/// The queue entry of a cell.
fn make_entry(elev: &Vec<i32>, i: usize) -> (e: Entry)
    requires
        i < elev@.len(),
    ensures
        e == entry_of(elev@, i as int),
{
    Entry { key: (elev[i] as i64 + 0x8000_0000i64) as u64, item: i as u64 }
}

/// Whether some neighbour of cell `i` has not been reached.
fn borders_unvisited(visited: &Vec<bool>, i: usize, w: usize, h: usize) -> (r: bool)
    requires
        0 < w <= i32::MAX,
        h <= i32::MAX,
        visited@.len() == w as int * h as int,
        i < visited@.len(),
    ensures
        r == !settled(visited@, i as int, w as int, h as int),
{
    assert(visited@.len() == visited.len());
    let mut d: u8 = 0;
    while d < 8
        invariant
            0 < w <= i32::MAX,
            h <= i32::MAX,
            visited@.len() == w as int * h as int,
            visited@.len() <= usize::MAX,
            i < visited@.len(),
            d <= 8,
            forall|k: int|
                0 <= k < d ==> (#[trigger] neighbor_index(i as int, k, w as int, h as int) matches Some(
                    m,
                ) ==> visited@[m]),
        decreases 8 - d,
    {
        match neighbor_of(i, d, w, h) {
            Some(m) => {
                if !visited[m] {
                    return true;
                }
            },
            None => {},
        }
        d += 1;
    }
    false
}

/// Reaching an unreached neighbour of the cell being expanded, and raising
/// it just above that cell if it lies no higher, keeps what holds of
/// levels.
proof fn lemma_expand_levels(
    orig: Seq<i32>,
    e0: Seq<i32>,
    v0: Seq<bool>,
    q: Seq<Entry>,
    src: Seq<int>,
    way: Seq<Seq<int>>,
    c: int,
    d: int,
    m: int,
    w: int,
    h: int,
) -> (r: (Seq<int>, Seq<Seq<int>>))
    requires
        0 < w,
        orig.len() == w * h,
        0 <= c < orig.len(),
        0 <= m < orig.len(),
        0 <= d < 8,
        v0[c],
        !v0[m],
        neighbor_index(c, d, w, h) == Some(m),
        frozen_ok(orig, e0, v0),
        level_inv(orig, e0, v0, src, way, w, h),
        pending_ok(q, e0, v0, c, w, h),
        keys_above(q, e0[c] as int),
        e0[c] < i32::MAX,
    ensures
        level_inv(
            orig,
            e0.update(
                m,
                if e0[m] < e0[c] + 1 {
                    (e0[c] + 1) as i32
                } else {
                    e0[m]
                },
            ),
            v0.update(m, true),
            r.0,
            r.1,
            w,
            h,
        ),
{
    let top: i32 = if e0[m] < e0[c] + 1 {
        (e0[c] + 1) as i32
    } else {
        e0[m]
    };
    let e1 = e0.update(m, top);
    let v1 = v0.update(m, true);
    let s = src[c];
    let on = way[c].push(d);
    let src1 = src.update(m, s);
    let way1 = way.update(m, on);
    let len = way[c].len();
    assert(e0[m] == orig[m]);
    // the walk to the cell and its level
    assert forall|i: nat| i <= len implies walk_cell(s, on, i, w, h) == walk_cell(
        s,
        way[c],
        i,
        w,
        h,
    ) by {
        lemma_walk_same_start(s, on, way[c], Seq::<u32>::empty(), i, w, h);
    }
    lemma_level_same_start(orig, s, on, way[c], len, w, h);
    lemma_walk_same_start(s, on, way[c], Seq::<u32>::empty(), len, w, h);
    assert(walk_cell(s, way[c], len, w, h) == c);
    assert(on[len as int] == d);
    assert(walk_cell(s, on, (len + 1) as nat, w, h) == m);
    assert(is_walk(s, on, m, w, h)) by {
        assert forall|i: nat| i <= on.len() implies #[trigger] walk_cell(s, on, i, w, h) >= 0 by {
            if i <= len {
                assert(walk_cell(s, way[c], i, w, h) >= 0);
            }
        }
    }
    assert(walk_level(orig, s, on, on.len(), w, h) == top);
    // nothing reaches the cell lower
    assert forall|t: int, dirs: Seq<int>|
        0 <= t < orig.len() && is_outlet(orig, t, w) && #[trigger] is_walk(t, dirs, m, w, h) implies walk_level(
        orig,
        t,
        dirs,
        dirs.len(),
        w,
        h,
    ) >= top by {
        lemma_walk_meets_flood(orig, e0, v0, q, src, way, c, t, dirs, m, dirs.len(), w, h);
        lemma_level_rises(orig, t, dirs, dirs.len(), dirs.len(), w, h);
    }
    assert forall|cc: int| 0 <= cc < orig.len() && #[trigger] v1[cc] implies 0 <= src1[cc]
        < orig.len() && is_outlet(orig, src1[cc], w) && is_walk(src1[cc], way1[cc], cc, w, h)
        && walk_level(orig, src1[cc], way1[cc], way1[cc].len(), w, h) == e1[cc] by {
        if cc != m {
            assert(v0[cc]);
        }
    }
    assert forall|cc: int| 0 <= cc < orig.len() && #[trigger] v1[cc] implies lowest(
        orig,
        cc,
        e1[cc] as int,
        w,
        h,
    ) by {
        if cc != m {
            assert(v0[cc]);
        }
    }
    assert forall|cc: int| 0 <= cc < orig.len() && is_outlet(orig, cc, w) implies #[trigger] v1[cc] by {
        assert(v0[cc]);
    }
    (src1, way1)
}

/// Reaches from cell `c` in direction `d`: a neighbour not reached before
/// is raised just above `c` if it lies no higher, and joins the queue.
fn expand(
    elev: &mut Vec<i32>,
    visited: &mut Vec<bool>,
    queue: &mut MinQueue,
    c: usize,
    d: u8,
    w: usize,
    h: usize,
    Ghost(orig): Ghost<Seq<i32>>,
    Ghost(src): Ghost<Seq<int>>,
    Ghost(way): Ghost<Seq<Seq<int>>>,
) -> (r: Ghost<(Seq<int>, Seq<Seq<int>>)>)
    requires
        0 < w <= i32::MAX,
        h <= i32::MAX,
        d < 8,
        c < orig.len(),
        old(queue).wf(),
        old(visited)@[c as int],
        level_inv(orig, old(elev)@, old(visited)@, src, way, w as int, h as int),
        keys_above(old(queue).items@, old(elev)@[c as int] as int),
        flood_inv(orig, old(elev)@, old(visited)@, old(queue).items@, c as int, w as int, h as int),
        forall|k: int|
            0 <= k < d ==> (#[trigger] neighbor_index(c as int, k, w as int, h as int) matches Some(
                m,
            ) ==> old(visited)@[m]),
    ensures
        level_inv(orig, final(elev)@, final(visited)@, r@.0, r@.1, w as int, h as int),
        keys_above(final(queue).items@, final(elev)@[c as int] as int),
        final(elev)@[c as int] == old(elev)@[c as int],
        final(queue).wf(),
        final(visited)@[c as int],
        flood_inv(
            orig,
            final(elev)@,
            final(visited)@,
            final(queue).items@,
            c as int,
            w as int,
            h as int,
        ),
        forall|k: int|
            0 <= k <= d ==> (#[trigger] neighbor_index(c as int, k, w as int, h as int) matches Some(
                m,
            ) ==> final(visited)@[m]),
        forall|i: int| 0 <= i < orig.len() && old(visited)@[i] ==> final(visited)@[i],
        2 * unvisited(final(visited)@) + final(queue).count() <= 2 * unvisited(old(visited)@) + old(
            queue,
        ).count(),
{
    let ghost e0 = elev@;
    let ghost v0 = visited@;
    let ghost q0 = queue.items@;
    let ghost mut known: (Seq<int>, Seq<Seq<int>>) = (src, way);
    assert(elev@.len() == elev.len());
    proof {
        assert forall|k: int| 0 <= k < 8 implies (#[trigger] neighbor_index(
            c as int,
            k,
            w as int,
            h as int,
        ) matches Some(n) ==> 0 <= n < orig.len()) by {
            lemma_neighbor_inside(c as int, k, w as int, h as int);
        }
    }
    match neighbor_of(c, d, w, h) {
        None => {},
        Some(m) => {
            if !visited[m] {
                proof {
                    lemma_visit_one(v0, m as int);
                    lemma_neighbor_symmetric(c as int, d as int, w as int, h as int);
                }
                visited.set(m, true);
                let floor: i32 = elev[c] + 1;
                if elev[m] < floor {
                    elev.set(m, floor);
                }
                let e: Entry = make_entry(elev, m);
                queue.push(e);
                proof {
                    known = lemma_expand_levels(
                        orig,
                        e0,
                        v0,
                        q0,
                        src,
                        way,
                        c as int,
                        d as int,
                        m as int,
                        w as int,
                        h as int,
                    );
                    assert(elev@ =~= e0.update(
                        m as int,
                        if e0[m as int] < e0[c as int] + 1 {
                            (e0[c as int] + 1) as i32
                        } else {
                            e0[m as int]
                        },
                    ));
                    assert(visited@ =~= v0.update(m as int, true));
                    assert forall|x: Entry| #[trigger] queue.items@.contains(x) implies x.key as int
                        >= e0[c as int] + 0x8000_0000 by {
                        if x != e {
                            assert(q0.contains(x));
                        }
                    }
                }
                proof {
                    let e1 = elev@;
                    let v1 = visited@;
                    let q1 = queue.items@;
                    assert(e1[c as int] == e0[c as int]);
                    assert(e1[m as int] > e1[c as int]);
                    assert forall|x: Entry| #[trigger] q1.contains(x) implies (x.item as int)
                        < e1.len() && v1[x.item as int] && x.key == flood_key(
                        e1[x.item as int],
                    ) by {
                        if x != e {
                            assert(q0.contains(x));
                        }
                    }
                    assert forall|i: int|
                        w as int <= i < orig.len() - w as int && #[trigger] v1[i] && orig[i]
                            > 0 implies drains(e1, v1, i, w as int, h as int) by {
                        if i == m as int {
                            assert(neighbor_index(i, 7 - d as int, w as int, h as int) == Some(
                                c as int,
                            ));
                        } else {
                            assert(v0[i]);
                            let k = choose|k: int|
                                0 <= k < 8 && (#[trigger] neighbor_index(
                                    i,
                                    k,
                                    w as int,
                                    h as int,
                                ) matches Some(n) && v0[n] && e0[n] < e0[i]);
                            lemma_neighbor_inside(i, k, w as int, h as int);
                            assert(neighbor_index(i, k, w as int, h as int) matches Some(n)
                                && v1[n] && e1[n] < e1[i]);
                        }
                    }
                    assert forall|i: int| 0 <= i < orig.len() && #[trigger] e1[i] > orig[i] implies v1[i]
                        && lifted(e1, v1, i, w as int, h as int) by {
                        if i == m as int {
                            assert(e1[i] == e1[c as int] + 1);
                            assert(neighbor_index(i, 7 - d as int, w as int, h as int) == Some(
                                c as int,
                            ));
                        } else {
                            assert(e0[i] > orig[i]);
                            let k = choose|k: int|
                                0 <= k < 8 && (#[trigger] neighbor_index(
                                    i,
                                    k,
                                    w as int,
                                    h as int,
                                ) matches Some(n) && v0[n] && e0[i] == e0[n] + 1);
                            lemma_neighbor_inside(i, k, w as int, h as int);
                            assert(neighbor_index(i, k, w as int, h as int) matches Some(n)
                                && v1[n] && e1[i] == e1[n] + 1);
                        }
                    }
                    assert forall|i: int|
                        0 <= i < e1.len() && #[trigger] v1[i] && i != c as int implies settled(
                        v1,
                        i,
                        w as int,
                        h as int,
                    ) || q1.contains(entry_of(e1, i)) by {
                        if i == m as int {
                            assert(q1.contains(e));
                        } else {
                            assert(v0[i]);
                            assert(entry_of(e1, i) == entry_of(e0, i));
                            if settled(v0, i, w as int, h as int) {
                                assert forall|k: int| 0 <= k < 8 implies (#[trigger] neighbor_index(
                                    i,
                                    k,
                                    w as int,
                                    h as int,
                                ) matches Some(n) ==> v1[n]) by {
                                    lemma_neighbor_inside(i, k, w as int, h as int);
                                }
                            } else {
                                assert(q0.contains(entry_of(e0, i)));
                            }
                        }
                    }
                }
            }
        },
    }
    Ghost(known)
}

/// Fills the depressions of a height field in place. The sea, at or below
/// zero, is left as it is. Every cell ends at the lowest level at which
/// water on it still drains to an outlet, the sea or a polar row, with a
/// fall of one unit from cell to cell: land is only ever raised, no
/// further than that, and afterwards every land cell between the two polar
/// rows has a neighbour that lies strictly lower.
pub fn priority_flood(elev: &mut Vec<i32>, w: usize, h: usize)
    requires
        0 < w <= i32::MAX,
        0 < h <= i32::MAX,
        old(elev)@.len() == w as int * h as int,
        forall|i: int|
            0 <= i < old(elev)@.len() ==> #[trigger] old(elev)@[i] + old(elev)@.len() <= i32::MAX,
    ensures
        final(elev)@.len() == old(elev)@.len(),
        forall|i: int| 0 <= i < old(elev)@.len() ==> #[trigger] final(elev)@[i] >= old(elev)@[i],
        forall|i: int|
            0 <= i < old(elev)@.len() && #[trigger] old(elev)@[i] <= 0 ==> final(elev)@[i] == old(
                elev,
            )@[i],
        forall|i: int|
            w as int <= i < old(elev)@.len() - w as int && #[trigger] old(elev)@[i] > 0
                ==> has_lower_neighbor(final(elev)@, i, w as int, h as int),
        forall|i: int|
            0 <= i < old(elev)@.len() && #[trigger] final(elev)@[i] > old(elev)@[i]
                ==> one_above_neighbor(final(elev)@, i, w as int, h as int),
        forall|i: int|
            0 <= i < old(elev)@.len() ==> #[trigger] filled_to_outlet(
                old(elev)@,
                final(elev)@,
                i,
                w as int,
                h as int,
            ),
{
    let ghost orig = elev@;
    assert(elev@.len() == elev.len());
    let n: usize = elev.len();
    let mut visited: Vec<bool> = Vec::with_capacity(n);
    let mut queue: MinQueue = MinQueue::new();
    let mut i: usize = 0;
    while i < n
        invariant
            n == orig.len(),
            elev@ == orig,
            i <= n,
            visited@.len() == i as int,
            forall|k: int| 0 <= k < i as int ==> #[trigger] visited@[k] == (orig[k] <= 0),
        decreases n - i,
    {
        visited.push(elev[i] <= 0);
        i += 1;
    }
    proof {
        lemma_unvisited_bound(visited@);
        assert(w as int * h as int >= w as int) by (nonlinear_arith)
            requires
                0 < w,
                0 < h,
        ;
    }
    // land on the two polar rows
    let ghost qn = queue.items@;
    assert(!qn.contains(entry_of(elev@, 0))) by {
        assert(qn.len() == 0);
    }
    let last_row: usize = n - w;
    let mut x: usize = 0;
    while x < w
        invariant
            0 < w <= i32::MAX,
            0 < h <= i32::MAX,
            n == orig.len(),
            orig.len() == w as int * h as int,
            w <= n,
            last_row == n - w,
            elev@ == orig,
            visited@.len() == n,
            x <= w,
            queue.wf(),
            bound_ok(elev@, visited@),
            entries_ok(queue.items@, elev@, visited@),
            forall|k: int| 0 <= k < n ==> (orig[k] <= 0 ==> #[trigger] visited@[k]),
            forall|k: int|
                0 <= k < n && #[trigger] visited@[k] && orig[k] > 0 ==> queue.items@.contains(
                    entry_of(elev@, k),
                ) && (k < w || k >= n - w),
            forall|k: int| 0 <= k < x ==> #[trigger] visited@[k],
            forall|k: int| last_row <= k < last_row + x ==> #[trigger] visited@[k],
        decreases w - x,
    {
        if !visited[x] {
            proof {
                lemma_visit_one(visited@, x as int);
            }
            visited.set(x, true);
            let e: Entry = make_entry(elev, x);
            queue.push(e);
        }
        let bot: usize = last_row + x;
        if !visited[bot] {
            proof {
                lemma_visit_one(visited@, bot as int);
            }
            visited.set(bot, true);
            let e: Entry = make_entry(elev, bot);
            queue.push(e);
        }
        x += 1;
    }
    // sea cells on the coast
    let mut j: usize = 0;
    while j < n
        invariant
            forall|k: int| n - w <= k < n ==> #[trigger] visited@[k],
            0 < w <= i32::MAX,
            0 < h <= i32::MAX,
            n == orig.len(),
            orig.len() == w as int * h as int,
            w <= n,
            elev@ == orig,
            visited@.len() == n,
            j <= n,
            queue.wf(),
            bound_ok(elev@, visited@),
            entries_ok(queue.items@, elev@, visited@),
            forall|k: int| 0 <= k < n ==> (orig[k] <= 0 ==> #[trigger] visited@[k]),
            forall|k: int|
                0 <= k < n && #[trigger] visited@[k] && orig[k] > 0 ==> queue.items@.contains(
                    entry_of(elev@, k),
                ) && (k < w || k >= n - w),
            forall|k: int| 0 <= k < w ==> #[trigger] visited@[k],
            forall|k: int|
                0 <= k < j && #[trigger] visited@[k] && orig[k] <= 0 ==> settled(
                    visited@,
                    k,
                    w as int,
                    h as int,
                ) || queue.items@.contains(entry_of(elev@, k)),
        decreases n - j,
    {
        if elev[j] <= 0 && borders_unvisited(&visited, j, w, h) {
            let e: Entry = make_entry(elev, j);
            queue.push(e);
        }
        j += 1;
    }
    assert(flood_inv(orig, elev@, visited@, queue.items@, -1, w as int, h as int));
    let ghost mut src: Seq<int> = Seq::new(n as nat, |c: int| c);
    let ghost mut way: Seq<Seq<int>> = Seq::new(n as nat, |c: int| Seq::<int>::empty());
    proof {
        assert forall|c: int| 0 <= c < orig.len() && #[trigger] visited@[c] implies lowest(
            orig,
            c,
            elev@[c] as int,
            w as int,
            h as int,
        ) by {
            assert forall|t: int, dirs: Seq<int>|
                0 <= t < orig.len() && is_outlet(orig, t, w as int) && #[trigger] is_walk(
                    t,
                    dirs,
                    c,
                    w as int,
                    h as int,
                ) implies walk_level(orig, t, dirs, dirs.len(), w as int, h as int) >= elev@[c] by {
                lemma_level_rises(orig, t, dirs, dirs.len(), dirs.len(), w as int, h as int);
            }
        }
        assert forall|c: int| 0 <= c < orig.len() && #[trigger] visited@[c] implies is_outlet(
            orig,
            src[c],
            w as int,
        ) && is_walk(src[c], way[c], c, w as int, h as int) by {
            assert(walk_cell(c, way[c], 0, w as int, h as int) == c);
        }
        assert(level_inv(orig, elev@, visited@, src, way, w as int, h as int));
    }
    loop
        invariant
            level_inv(orig, elev@, visited@, src, way, w as int, h as int),
            0 < w <= i32::MAX,
            0 < h <= i32::MAX,
            n == orig.len(),
            w <= n,
            queue.wf(),
            flood_inv(orig, elev@, visited@, queue.items@, -1, w as int, h as int),
            forall|k: int| 0 <= k < w ==> #[trigger] visited@[k],
        ensures
            level_inv(orig, elev@, visited@, src, way, w as int, h as int),
            queue.count() == 0,
            flood_inv(orig, elev@, visited@, queue.items@, -1, w as int, h as int),
            forall|k: int| 0 <= k < w ==> #[trigger] visited@[k],
        decreases 2 * unvisited(visited@) + queue.count(),
    {
        let ghost q_before = queue.items@;
        let popped: Option<Entry> = queue.pop();
        let cell: Entry = match popped {
            None => {
                break ;
            },
            Some(e) => e,
        };
        let c: usize = cell.item as usize;
        proof {
            assert forall|x: Entry| #[trigger] queue.items@.contains(x) implies x.key as int
                >= elev@[cell.item as int] + 0x8000_0000 by {
                assert(q_before.contains(x));
                assert(crate::queue::before(cell, x));
                assert(q_before.contains(cell));
            }
        }
        proof {
            assert(q_before.contains(cell));
            assert(cell == entry_of(elev@, c as int));
            assert forall|k: int|
                0 <= k < elev@.len() && #[trigger] visited@[k] && k != c as int implies settled(
                visited@,
                k,
                w as int,
                h as int,
            ) || queue.items@.contains(entry_of(elev@, k)) by {
                if !settled(visited@, k, w as int, h as int) {
                    assert(q_before.contains(entry_of(elev@, k)));
                    assert(entry_of(elev@, k) != cell);
                }
            }
        }
        let ghost measure = 2 * unvisited(visited@) + queue.count();
        let mut d: u8 = 0;
        while d < 8
            invariant
                0 < w <= i32::MAX,
                0 < h <= i32::MAX,
                n == orig.len(),
                w <= n,
                c < n,
                d <= 8,
                queue.wf(),
                visited@[c as int],
                level_inv(orig, elev@, visited@, src, way, w as int, h as int),
                keys_above(queue.items@, elev@[c as int] as int),
                flood_inv(orig, elev@, visited@, queue.items@, c as int, w as int, h as int),
                forall|k: int| 0 <= k < w ==> #[trigger] visited@[k],
                forall|k: int|
                    0 <= k < d ==> (#[trigger] neighbor_index(c as int, k, w as int, h as int) matches Some(
                        m,
                    ) ==> visited@[m]),
                2 * unvisited(visited@) + queue.count() <= measure,
            decreases 8 - d,
        {
            let known = expand(
                elev,
                &mut visited,
                &mut queue,
                c,
                d,
                w,
                h,
                Ghost(orig),
                Ghost(src),
                Ghost(way),
            );
            proof {
                src = known@.0;
                way = known@.1;
            }
            d += 1;
        }
        assert(settled(visited@, c as int, w as int, h as int));
    }
    proof {
        let e1 = elev@;
        let v1 = visited@;
        // with nothing waiting, every reached cell has all its neighbours reached
        assert forall|k: int| 0 <= k < n implies #[trigger] v1[k] by {
            lemma_all_reached(v1, queue.items@, e1, k, w as int, h as int);
        }
        assert forall|k: int| 0 <= k < orig.len() implies #[trigger] filled_to_outlet(
            orig,
            e1,
            k,
            w as int,
            h as int,
        ) by {
            assert(v1[k]);
            assert(is_walk(src[k], way[k], k, w as int, h as int));
        }
        assert forall|k: int| 0 <= k < orig.len() && #[trigger] e1[k] > orig[k] implies one_above_neighbor(
            e1,
            k,
            w as int,
            h as int,
        ) by {
            let dd = choose|dd: int|
                0 <= dd < 8 && (#[trigger] neighbor_index(k, dd, w as int, h as int) matches Some(m)
                    && v1[m] && e1[k] == e1[m] + 1);
            assert(neighbor_index(k, dd, w as int, h as int) matches Some(m) && e1[k] == e1[m] + 1);
        }
        assert forall|k: int|
            w as int <= k < orig.len() - w as int && #[trigger] orig[k] > 0 implies has_lower_neighbor(
            e1,
            k,
            w as int,
            h as int,
        ) by {
            assert(v1[k]);
            let dd = choose|dd: int|
                0 <= dd < 8 && (#[trigger] neighbor_index(k, dd, w as int, h as int) matches Some(m)
                    && v1[m] && e1[m] < e1[k]);
            assert(neighbor_index(k, dd, w as int, h as int) matches Some(m) && e1[m] < e1[k]);
        }
    }
}

/// Once nothing waits, the flood has reached every cell: the first row was
/// reached at the start, and each row hands on to the row south of it.
proof fn lemma_all_reached(
    visited: Seq<bool>,
    q: Seq<Entry>,
    elev: Seq<i32>,
    k: int,
    w: int,
    h: int,
)
    requires
        0 < w,
        q.len() == 0,
        visited.len() == w * h,
        elev.len() == w * h,
        0 <= k < w * h,
        pending_ok(q, elev, visited, -1, w, h),
        forall|i: int| 0 <= i < w ==> #[trigger] visited[i],
    ensures
        visited[k],
    decreases k,
{
    if k >= w {
        lemma_all_reached(visited, q, elev, k - w, w, h);
        lemma_south_neighbor(k - w, w, h);
        assert(visited[k - w]);
        assert(!q.contains(entry_of(elev, k - w)));
        assert(settled(visited, k - w, w, h));
        assert(neighbor_index(k - w, 6, w, h) == Some(k));
    }
}

} // verus!
