//! Extraction and classification of plate boundaries.
//!
//! A cell lies on a boundary where one of its four edge neighbours belongs
//! to another microplate and the two plates move against each other. The
//! relative velocity, taken along and across the direction to that
//! neighbour, decides the kind of the boundary.

use vstd::prelude::*;
use crate::grid::{Grid, lemma_neighbor_inside, neighbor_index, neighbor_of, step_dx, step_dy};
use crate::plates::properties::{ids_valid, PlateSet};

verus! {

/// Kind of a cell that lies inside a plate.
pub const INTERIOR: u8 = 0;

/// Kind of a boundary whose plates close in on each other.
pub const CONVERGENT: u8 = 1;

/// Kind of a boundary whose plates move apart.
pub const DIVERGENT: u8 = 2;

/// Kind of a boundary whose plates slide past each other.
pub const TRANSFORM: u8 = 3;

/// What a cell knows of its strongest contact with another plate.
#[derive(Clone, Copy, Debug)]
pub struct Contact {
    /// Kind of the boundary, or [`INTERIOR`].
    pub kind: u8,
    /// Speed of the relative motion that decided the kind.
    pub rate: i64,
    /// The microplate on the other side.
    pub other: u16,
    /// 1 where the two microplates belong to different macroplates, else 0.
    pub major: u8,
}

/// Magnitude of `v`.
pub open spec fn magnitude(v: int) -> int {
    if v < 0 {
        -v
    } else {
        v
    }
}

/// Relative velocity `(rx, ry)` taken along direction `d`: positive where
/// the plates close in.
pub open spec fn closing_speed(rx: int, ry: int, d: int) -> int {
    rx * step_dx(d) + ry * step_dy(d)
}

/// Magnitude of the relative velocity `(rx, ry)` taken across direction `d`.
pub open spec fn sliding_speed(rx: int, ry: int, d: int) -> int {
    magnitude(rx * step_dy(d) - ry * step_dx(d))
}

/// Kind of a contact with the given closing and sliding speeds.
pub open spec fn contact_kind(closing: int, sliding: int) -> u8 {
    if magnitude(closing) > sliding {
        if closing > 0 {
            CONVERGENT
        } else {
            DIVERGENT
        }
    } else {
        TRANSFORM
    }
}

/// Rate of a contact: the speed of the motion that decides its kind.
pub open spec fn contact_rate(closing: int, sliding: int) -> int {
    if magnitude(closing) > sliding {
        magnitude(closing)
    } else {
        sliding
    }
}

/// The state of a cell before any neighbour has been looked at.
pub open spec fn no_contact(pid: u16) -> Contact {
    Contact { kind: INTERIOR, rate: 0, other: pid, major: 0 }
}

/// The contact of cell `i` towards direction `d`, where that neighbour
/// belongs to another plate.
pub open spec fn contact_toward(
    ids: Seq<u16>,
    plates: PlateSet,
    i: int,
    d: int,
    w: int,
    h: int,
) -> Option<Contact> {
    match neighbor_index(i, d, w, h) {
        None => None,
        Some(n) => {
            let pid = ids[i] as int;
            let npid = ids[n] as int;
            if npid == pid {
                None
            } else {
                let rx = plates.velocity@[pid].0 - plates.velocity@[npid].0;
                let ry = plates.velocity@[pid].1 - plates.velocity@[npid].1;
                let closing = closing_speed(rx, ry, d);
                let sliding = sliding_speed(rx, ry, d);
                Some(
                    Contact {
                        kind: contact_kind(closing, sliding),
                        rate: contact_rate(closing, sliding) as i64,
                        other: ids[n],
                        major: if plates.macro_id@[pid] != plates.macro_id@[npid] {
                            1u8
                        } else {
                            0u8
                        },
                    },
                )
            }
        },
    }
}

/// `best`, or the contact of cell `i` towards `d` where that one is faster.
pub open spec fn with_contact(
    best: Contact,
    ids: Seq<u16>,
    plates: PlateSet,
    i: int,
    d: int,
    w: int,
    h: int,
) -> Contact {
    match contact_toward(ids, plates, i, d, w, h) {
        Some(c) => if c.rate > best.rate {
            c
        } else {
            best
        },
        None => best,
    }
}

/// The strongest contact of cell `i` over its west, east, north and south
/// neighbours; among equally fast ones the first in that order.
pub open spec fn cell_contact(ids: Seq<u16>, plates: PlateSet, i: int, w: int, h: int) -> Contact {
    let a = with_contact(no_contact(ids[i]), ids, plates, i, 3, w, h);
    let b = with_contact(a, ids, plates, i, 4, w, h);
    let c = with_contact(b, ids, plates, i, 1, w, h);
    with_contact(c, ids, plates, i, 6, w, h)
}

/// A contact is sound for cell `i`: an interior cell has rate zero, and a
/// boundary cell names another, existing plate, moves at a positive rate,
/// and is major exactly where the macroplates of the two sides differ.
pub open spec fn contact_sound(c: Contact, ids: Seq<u16>, plates: PlateSet, i: int) -> bool {
    if c.kind == INTERIOR {
        c.rate == 0 && c.major == 0 && c.other == ids[i]
    } else {
        &&& CONVERGENT <= c.kind <= TRANSFORM
        &&& c.rate > 0
        &&& c.other != ids[i]
        &&& (c.other as int) < plates.num_micro
        &&& c.major <= 1
        &&& (c.major == 1 <==> plates.macro_id@[ids[i] as int] != plates.macro_id@[c.other as int])
    }
}

/// Looking at one more neighbour keeps a contact sound.
proof fn lemma_with_contact_sound(
    best: Contact,
    ids: Seq<u16>,
    plates: PlateSet,
    i: int,
    d: int,
    w: int,
    h: int,
)
    requires
        0 < w,
        ids.len() == w * h,
        0 <= i < ids.len(),
        ids_valid(ids, plates.num_micro as int),
        contact_sound(best, ids, plates, i),
        best.rate >= 0,
    ensures
        contact_sound(with_contact(best, ids, plates, i, d, w, h), ids, plates, i),
        with_contact(best, ids, plates, i, d, w, h).rate >= 0,
{
    lemma_neighbor_inside(i, d, w, h);
}

/// Major boundaries separate macroplates: the strongest contact of every
/// cell is sound, so a boundary cell is major if and only if the plates on
/// its two sides belong to different macroplates.
pub proof fn lemma_cell_contact_sound(ids: Seq<u16>, plates: PlateSet, i: int, w: int, h: int)
    requires
        0 < w,
        ids.len() == w * h,
        0 <= i < ids.len(),
        ids_valid(ids, plates.num_micro as int),
    ensures
        contact_sound(cell_contact(ids, plates, i, w, h), ids, plates, i),
{
    let z = no_contact(ids[i]);
    let a = with_contact(z, ids, plates, i, 3, w, h);
    let b = with_contact(a, ids, plates, i, 4, w, h);
    let c = with_contact(b, ids, plates, i, 1, w, h);
    lemma_with_contact_sound(z, ids, plates, i, 3, w, h);
    lemma_with_contact_sound(a, ids, plates, i, 4, w, h);
    lemma_with_contact_sound(b, ids, plates, i, 1, w, h);
    lemma_with_contact_sound(c, ids, plates, i, 6, w, h);
}

/// Classifies a contact from its closing and sliding speeds.
pub fn classify_contact(closing: i64, sliding: i64) -> (r: (u8, i64))
    requires
        closing > i64::MIN,
        sliding >= 0,
    ensures
        r.0 == contact_kind(closing as int, sliding as int),
        r.1 as int == contact_rate(closing as int, sliding as int),
{
    let m: i64 = if closing < 0 {
        -closing
    } else {
        closing
    };
    if m > sliding {
        if closing > 0 {
            (CONVERGENT, m)
        } else {
            (DIVERGENT, m)
        }
    } else {
        (TRANSFORM, sliding)
    }
}

/// `best`, or the contact of cell `i` towards the edge direction `d` where
/// that one is faster.
fn better_contact(best: Contact, plate_id: &Grid<u16>, plates: &PlateSet, i: usize, d: u8) -> (r:
    Contact)
    requires
        plate_id.wf(),
        0 < plate_id.w <= i32::MAX,
        plate_id.h <= i32::MAX,
        plates.wf(),
        ids_valid(plate_id.data@, plates.num_micro as int),
        i < plate_id.data@.len(),
        d == 1 || d == 3 || d == 4 || d == 6,
    ensures
        r == with_contact(
            best,
            plate_id.data@,
            *plates,
            i as int,
            d as int,
            plate_id.w as int,
            plate_id.h as int,
        ),
{
    assert(plate_id.data@.len() == plate_id.data.len());
    match neighbor_of(i, d, plate_id.w, plate_id.h) {
        None => best,
        Some(n) => {
            let pid: usize = plate_id.data[i] as usize;
            let npid: usize = plate_id.data[n] as usize;
            if npid == pid {
                return best;
            }
            let va: (i32, i32) = plates.velocity[pid];
            let vb: (i32, i32) = plates.velocity[npid];
            let rx: i64 = va.0 as i64 - vb.0 as i64;
            let ry: i64 = va.1 as i64 - vb.1 as i64;
            let closing: i64 = if d == 3 {
                -rx
            } else if d == 4 {
                rx
            } else if d == 1 {
                -ry
            } else {
                ry
            };
            let across: i64 = if d == 3 || d == 4 {
                ry
            } else {
                rx
            };
            let sliding: i64 = if across < 0 {
                -across
            } else {
                across
            };
            let (kind, rate) = classify_contact(closing, sliding);
            if rate > best.rate {
                let major: u8 = if plates.macro_id[pid] != plates.macro_id[npid] {
                    1
                } else {
                    0
                };
                Contact { kind, rate, other: plate_id.data[n], major }
            } else {
                best
            }
        },
    }
}

/// The strongest contact of one cell.
pub fn classify_cell(plate_id: &Grid<u16>, plates: &PlateSet, i: usize) -> (r: Contact)
    requires
        plate_id.wf(),
        0 < plate_id.w <= i32::MAX,
        plate_id.h <= i32::MAX,
        plates.wf(),
        ids_valid(plate_id.data@, plates.num_micro as int),
        i < plate_id.data@.len(),
    ensures
        r == cell_contact(plate_id.data@, *plates, i as int, plate_id.w as int, plate_id.h as int),
        contact_sound(r, plate_id.data@, *plates, i as int),
{
    let z: Contact = Contact { kind: INTERIOR, rate: 0, other: plate_id.data[i], major: 0 };
    let a: Contact = better_contact(z, plate_id, plates, i, 3);
    let b: Contact = better_contact(a, plate_id, plates, i, 4);
    let c: Contact = better_contact(b, plate_id, plates, i, 1);
    let r: Contact = better_contact(c, plate_id, plates, i, 6);
    proof {
        lemma_cell_contact_sound(
            plate_id.data@,
            *plates,
            i as int,
            plate_id.w as int,
            plate_id.h as int,
        );
    }
    r
}

/// What the four boundary fields hold at a cell of plate `pid` whose
/// strongest contact is `c`: for a boundary cell the kind, the plate of the
/// cell, the plate on the other side and the major flag; for an interior
/// cell four zeros.
pub open spec fn records(kind: u8, pa: u16, pb: u16, major: u8, pid: u16, c: Contact) -> bool {
    if c.kind != INTERIOR {
        kind == c.kind && pa == pid && pb == c.other && major == c.major
    } else {
        kind == 0 && pa == 0 && pb == 0 && major == 0
    }
}

/// Extracts and classifies the boundaries of a plate field. Returns the
/// kind of every cell, the plates on its two sides, and the major flag.
pub fn extract_boundaries(plate_id: &Grid<u16>, plates: &PlateSet) -> (r: (
    Grid<u8>,
    Grid<u16>,
    Grid<u16>,
    Grid<u8>,
))
    requires
        plate_id.wf(),
        0 < plate_id.w <= i32::MAX,
        plate_id.h <= i32::MAX,
        plates.wf(),
        ids_valid(plate_id.data@, plates.num_micro as int),
    ensures
        r.0.wf() && r.0.w == plate_id.w && r.0.h == plate_id.h,
        r.1.wf() && r.1.w == plate_id.w && r.1.h == plate_id.h,
        r.2.wf() && r.2.w == plate_id.w && r.2.h == plate_id.h,
        r.3.wf() && r.3.w == plate_id.w && r.3.h == plate_id.h,
        forall|i: int|
            0 <= i < plate_id.data@.len() ==> records(
                #[trigger] r.0.data@[i],
                r.1.data@[i],
                r.2.data@[i],
                r.3.data@[i],
                plate_id.data@[i],
                cell_contact(plate_id.data@, *plates, i, plate_id.w as int, plate_id.h as int),
            ),
        forall|i: int|
            0 <= i < plate_id.data@.len() && #[trigger] r.0.data@[i] != INTERIOR ==> {
                &&& r.3.data@[i] <= 1
                &&& (r.1.data@[i] as int) < plates.num_micro
                &&& (r.2.data@[i] as int) < plates.num_micro
                &&& (r.3.data@[i] == 1 <==> plates.macro_id@[r.1.data@[i] as int]
                    != plates.macro_id@[r.2.data@[i] as int])
            },
{
    let w: usize = plate_id.w;
    let h: usize = plate_id.h;
    assert(plate_id.data@.len() == plate_id.data.len());
    let n: usize = plate_id.data.len();
    let mut btype: Grid<u8> = Grid::filled(w, h, 0u8);
    let mut pa: Grid<u16> = Grid::filled(w, h, 0u16);
    let mut pb: Grid<u16> = Grid::filled(w, h, 0u16);
    let mut major: Grid<u8> = Grid::filled(w, h, 0u8);
    let mut i: usize = 0;
    while i < n
        invariant
            plate_id.wf(),
            0 < plate_id.w <= i32::MAX,
            plate_id.h <= i32::MAX,
            plates.wf(),
            ids_valid(plate_id.data@, plates.num_micro as int),
            w == plate_id.w,
            h == plate_id.h,
            n == plate_id.data@.len(),
            i <= n,
            btype.wf() && btype.w == w && btype.h == h,
            pa.wf() && pa.w == w && pa.h == h,
            pb.wf() && pb.w == w && pb.h == h,
            major.wf() && major.w == w && major.h == h,
            forall|k: int| i as int <= k < n as int ==> #[trigger] btype.data@[k] == 0,
            forall|k: int| i as int <= k < n as int ==> #[trigger] pa.data@[k] == 0,
            forall|k: int| i as int <= k < n as int ==> #[trigger] pb.data@[k] == 0,
            forall|k: int| i as int <= k < n as int ==> #[trigger] major.data@[k] == 0,
            forall|k: int|
                0 <= k < i as int ==> records(
                    #[trigger] btype.data@[k],
                    pa.data@[k],
                    pb.data@[k],
                    major.data@[k],
                    plate_id.data@[k],
                    cell_contact(plate_id.data@, *plates, k, w as int, h as int),
                ),
        decreases n - i,
    {
        let c: Contact = classify_cell(plate_id, plates, i);
        if c.kind != INTERIOR {
            btype.data.set(i, c.kind);
            pa.data.set(i, plate_id.data[i]);
            pb.data.set(i, c.other);
            major.data.set(i, c.major);
        }
        i += 1;
    }
    proof {
        assert forall|k: int|
            0 <= k < plate_id.data@.len() && #[trigger] btype.data@[k] != INTERIOR implies {
            &&& major.data@[k] <= 1
            &&& (pa.data@[k] as int) < plates.num_micro
            &&& (pb.data@[k] as int) < plates.num_micro
            &&& (major.data@[k] == 1 <==> plates.macro_id@[pa.data@[k] as int]
                != plates.macro_id@[pb.data@[k] as int])
        } by {
            lemma_cell_contact_sound(plate_id.data@, *plates, k, w as int, h as int);
        }
    }
    (btype, pa, pb, major)
}

} // verus!
