//! A priority queue that hands out its smallest entry first: a binary heap
//! in a vector.

use vstd::prelude::*;

verus! {

/// An entry of the queue: a key to order by and the item it stands for.
#[derive(Clone, Copy, Debug)]
pub struct Entry {
    pub key: u64,
    pub item: u64,
}

/// The order of the queue: by key, and among equal keys by item.
pub open spec fn before(a: Entry, b: Entry) -> bool {
    a.key < b.key || (a.key == b.key && a.item <= b.item)
}

/// Position of the parent of position `k`.
pub open spec fn parent(k: int) -> int {
    (k - 1) / 2
}

/// Every entry stands behind its parent.
pub open spec fn heap_ordered(s: Seq<Entry>) -> bool {
    forall|k: int| 0 < k < s.len() ==> before(s[parent(k)], #[trigger] s[k])
}

/// The heap order holds everywhere but between position `i` and its parent,
/// and the children of `i` stand behind the parent of `i`.
pub open spec fn ordered_but_above(s: Seq<Entry>, i: int) -> bool {
    &&& forall|k: int| 0 < k < s.len() && k != i ==> before(s[parent(k)], #[trigger] s[k])
    &&& forall|k: int|
        0 < k < s.len() && parent(k) == i && i > 0 ==> before(s[parent(i)], #[trigger] s[k])
}

/// The heap order holds everywhere but between position `i` and its
/// children, and those stand behind the parent of `i`.
pub open spec fn ordered_but_below(s: Seq<Entry>, i: int) -> bool {
    &&& forall|k: int|
        0 < k < s.len() && parent(k) != i ==> before(s[parent(k)], #[trigger] s[k])
    &&& forall|k: int|
        0 < k < s.len() && parent(k) == i && i > 0 ==> before(s[parent(i)], #[trigger] s[k])
}

/// Two sequences hold the same entries, in whatever order and number.
pub open spec fn same_members(a: Seq<Entry>, b: Seq<Entry>) -> bool {
    forall|x: Entry| a.contains(x) <==> b.contains(x)
}

/// In a heap no entry stands before the first.
pub proof fn lemma_root_least(s: Seq<Entry>, k: int)
    requires
        heap_ordered(s),
        0 <= k < s.len(),
    ensures
        before(s[0], s[k]),
    decreases k,
{
    if k > 0 {
        lemma_root_least(s, parent(k));
    }
}

/// Whether `a` stands strictly before `b`.
fn strictly_before(a: Entry, b: Entry) -> (r: bool)
    ensures
        r == !before(b, a),
{
    a.key < b.key || (a.key == b.key && a.item < b.item)
}

/// Exchanges the entries at two positions.
fn exchange(items: &mut Vec<Entry>, i: usize, j: usize)
    requires
        i < old(items)@.len(),
        j < old(items)@.len(),
    ensures
        final(items)@ == old(items)@.update(i as int, old(items)@[j as int]).update(
            j as int,
            old(items)@[i as int],
        ),
        final(items)@.len() == old(items)@.len(),
        same_members(final(items)@, old(items)@),
{
    let ghost before_swap = items@;
    let a: Entry = items[i];
    let b: Entry = items[j];
    items.set(i, b);
    items.set(j, a);
    proof {
        let after = items@;
        assert forall|x: Entry| after.contains(x) <==> before_swap.contains(x) by {
            if before_swap.contains(x) {
                let k = choose|k: int| 0 <= k < before_swap.len() && before_swap[k] == x;
                if k == i as int {
                    assert(after[j as int] == x);
                } else if k == j as int {
                    assert(after[i as int] == x);
                } else {
                    assert(after[k] == x);
                }
            }
            if after.contains(x) {
                let k = choose|k: int| 0 <= k < after.len() && after[k] == x;
                if k == i as int {
                    assert(before_swap[j as int] == x);
                } else if k == j as int {
                    assert(before_swap[i as int] == x);
                } else {
                    assert(before_swap[k] == x);
                }
            }
        }
    }
}

/// Moves the entry at `start` up until it stands behind its parent.
fn sift_up(items: &mut Vec<Entry>, start: usize)
    requires
        start < old(items)@.len(),
        ordered_but_above(old(items)@, start as int),
    ensures
        heap_ordered(final(items)@),
        final(items)@.len() == old(items)@.len(),
        same_members(final(items)@, old(items)@),
{
    let ghost begin = items@;
    let mut i: usize = start;
    let mut moving: bool = true;
    while moving && i > 0
        invariant
            i < items@.len(),
            items@.len() == begin.len(),
            same_members(items@, begin),
            moving ==> ordered_but_above(items@, i as int),
            !moving ==> heap_ordered(items@),
        decreases 2 * i + (if moving { 1int } else { 0int }),
    {
        let p: usize = (i - 1) / 2;
        if strictly_before(items[i], items[p]) {
            let ghost prev = items@;
            exchange(items, i, p);
            proof {
                let cur = items@;
                assert forall|k: int| 0 < k < cur.len() && k != p as int implies before(
                    cur[parent(k)],
                    #[trigger] cur[k],
                ) by {
                    if k == i as int {
                    } else if parent(k) == i as int {
                        assert(before(prev[parent(i as int)], prev[k]));
                    } else if parent(k) == p as int {
                        assert(before(prev[parent(k)], prev[k]));
                    } else {
                        assert(before(prev[parent(k)], prev[k]));
                    }
                }
                assert forall|k: int|
                    0 < k < cur.len() && parent(k) == p as int && p > 0 implies before(
                    cur[parent(p as int)],
                    #[trigger] cur[k],
                ) by {
                    assert(before(prev[parent(p as int)], prev[p as int]));
                    if k != i as int {
                        assert(before(prev[parent(k)], prev[k]));
                    }
                }
            }
            i = p;
        } else {
            moving = false;
        }
    }
}

/// Moves the entry at the front down until its children stand behind it.
fn sift_down(items: &mut Vec<Entry>)
    requires
        old(items)@.len() > 0,
        ordered_but_below(old(items)@, 0),
    ensures
        heap_ordered(final(items)@),
        final(items)@.len() == old(items)@.len(),
        same_members(final(items)@, old(items)@),
{
    let ghost begin = items@;
    let n: usize = items.len();
    let mut i: usize = 0;
    let mut moving: bool = true;
    while moving && i < n / 2
        invariant
            n == items@.len(),
            i < n,
            items@.len() == begin.len(),
            same_members(items@, begin),
            moving ==> ordered_but_below(items@, i as int),
            !moving ==> heap_ordered(items@),
        decreases 2 * (n - i) + (if moving { 1int } else { 0int }),
    {
        let l: usize = 2 * i + 1;
        let r: usize = l + 1;
        let c: usize = if r < n && strictly_before(items[r], items[l]) {
            r
        } else {
            l
        };
        if strictly_before(items[c], items[i]) {
            let ghost prev = items@;
            exchange(items, i, c);
            proof {
                let cur = items@;
                assert forall|k: int| 0 < k < cur.len() && parent(k) != c as int implies before(
                    cur[parent(k)],
                    #[trigger] cur[k],
                ) by {
                    if k == i as int {
                        if i > 0 {
                            assert(before(prev[parent(i as int)], prev[c as int]));
                        }
                    } else if k == c as int {
                    } else if parent(k) == i as int {
                    } else {
                        assert(before(prev[parent(k)], prev[k]));
                    }
                }
                assert forall|k: int|
                    0 < k < cur.len() && parent(k) == c as int && c > 0 implies before(
                    cur[parent(c as int)],
                    #[trigger] cur[k],
                ) by {
                    assert(before(prev[parent(k)], prev[k]));
                }
            }
            i = c;
        } else {
            proof {
                let cur = items@;
                assert forall|k: int| 0 < k < cur.len() implies before(
                    cur[parent(k)],
                    #[trigger] cur[k],
                ) by {
                    if parent(k) == i as int {
                        assert(k == l as int || k == r as int);
                    }
                }
            }
            moving = false;
        }
    }
    proof {
        if moving {
            let cur = items@;
            assert forall|k: int| 0 < k < cur.len() implies before(
                cur[parent(k)],
                #[trigger] cur[k],
            ) by {
                assert(parent(k) != i as int);
            }
        }
    }
}

/// A queue of entries that hands out the smallest first.
pub struct MinQueue {
    pub items: Vec<Entry>,
}

impl MinQueue {
    /// The entries are kept in heap order.
    pub open spec fn wf(&self) -> bool {
        heap_ordered(self.items@)
    }

    /// Number of entries that wait.
    pub open spec fn count(&self) -> nat {
        self.items@.len()
    }

    /// An empty queue.
    pub fn new() -> (q: MinQueue)
        ensures
            q.wf(),
            q.count() == 0,
    {
        MinQueue { items: Vec::new() }
    }

    /// Whether nothing waits.
    pub fn is_empty(&self) -> (r: bool)
        ensures
            r == (self.count() == 0),
    {
        self.items.len() == 0
    }

    /// Adds an entry.
    pub fn push(&mut self, e: Entry)
        requires
            old(self).wf(),
        ensures
            final(self).wf(),
            final(self).count() == old(self).count() + 1,
            final(self).items@.contains(e),
            forall|x: Entry| #[trigger] old(self).items@.contains(x) ==> final(self).items@.contains(x),
            forall|x: Entry|
                #[trigger] final(self).items@.contains(x) ==> old(self).items@.contains(x) || x == e,
    {
        let ghost prev = self.items@;
        self.items.push(e);
        let ghost grown = self.items@;
        proof {
            assert forall|x: Entry| grown.contains(x) <==> (prev.contains(x) || x == e) by {
                if prev.contains(x) {
                    let k = choose|k: int| 0 <= k < prev.len() && prev[k] == x;
                    assert(grown[k] == x);
                }
                if x == e {
                    assert(grown[prev.len() as int] == x);
                }
                if grown.contains(x) {
                    let k = choose|k: int| 0 <= k < grown.len() && grown[k] == x;
                    if k < prev.len() {
                        assert(prev[k] == x);
                    }
                }
            }
            assert forall|k: int| 0 < k < grown.len() && k != grown.len() - 1 implies before(
                grown[parent(k)],
                #[trigger] grown[k],
            ) by {
                assert(before(prev[parent(k)], prev[k]));
            }
        }
        let last: usize = self.items.len() - 1;
        sift_up(&mut self.items, last);
    }

    /// Takes out the smallest entry, if any entry waits.
    pub fn pop(&mut self) -> (r: Option<Entry>)
        requires
            old(self).wf(),
        ensures
            final(self).wf(),
            r.is_none() <==> old(self).count() == 0,
            r.is_none() ==> final(self).items@ == old(self).items@,
            r matches Some(e) ==> {
                &&& old(self).items@.contains(e)
                &&& forall|x: Entry| #[trigger] old(self).items@.contains(x) ==> before(e, x)
                &&& final(self).count() + 1 == old(self).count()
                &&& forall|x: Entry|
                    #[trigger] final(self).items@.contains(x) ==> old(self).items@.contains(x)
                &&& forall|x: Entry|
                    #[trigger] old(self).items@.contains(x) && x != e ==> final(self).items@.contains(
                        x,
                    )
            },
    {
        if self.items.len() == 0 {
            return None;
        }
        let ghost prev = self.items@;
        let top: Entry = self.items[0];
        let last: Entry = self.items.pop().unwrap();
        proof {
            assert(prev[0] == top);
            assert forall|x: Entry| prev.contains(x) implies before(top, x) by {
                let k = choose|k: int| 0 <= k < prev.len() && prev[k] == x;
                lemma_root_least(prev, k);
            }
        }
        if self.items.len() > 0 {
            self.items.set(0, last);
            let ghost placed = self.items@;
            proof {
                assert forall|k: int| 0 < k < placed.len() && parent(k) != 0 implies before(
                    placed[parent(k)],
                    #[trigger] placed[k],
                ) by {
                    assert(before(prev[parent(k)], prev[k]));
                }
            }
            sift_down(&mut self.items);
            proof {
                let done = self.items@;
                assert forall|x: Entry| done.contains(x) implies prev.contains(x) by {
                    assert(placed.contains(x));
                    let k = choose|k: int| 0 <= k < placed.len() && placed[k] == x;
                    if k == 0 {
                        assert(prev[prev.len() - 1] == x);
                    } else {
                        assert(prev[k] == x);
                    }
                }
                assert forall|x: Entry| prev.contains(x) && x != top implies done.contains(x) by {
                    let k = choose|k: int| 0 <= k < prev.len() && prev[k] == x;
                    if k == prev.len() - 1 {
                        assert(placed[0] == x);
                    } else {
                        assert(placed[k] == x);
                    }
                    assert(placed.contains(x));
                }
            }
        } else {
            proof {
                assert forall|x: Entry| prev.contains(x) && x != top implies self.items@.contains(
                    x,
                ) by {
                    let k = choose|k: int| 0 <= k < prev.len() && prev[k] == x;
                }
            }
        }
        Some(top)
    }
}

} // verus!
