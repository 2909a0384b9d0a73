//! Diagnostic pictures of the discrete fields: four bytes per cell, red,
//! green, blue and an opaque alpha.

use vstd::prelude::*;
use crate::grid::Grid;
use crate::plates::boundary::{CONVERGENT, DIVERGENT, TRANSFORM};
use crate::rng::{add_mod32, mix32, mul_mod32, splitmix32};

verus! {

/// A colour: red, green, blue.
pub type Rgb = (u8, u8, u8);

/// One channel of a macroplate's colour: a byte of the hash, never darker
/// than 60 in any bit of that number.
pub open spec fn channel(hash: u32, shift: u32) -> u8 {
    (((hash >> shift) & 0xFF) | 60) as u8
}

/// The colour of macroplate `j`.
pub open spec fn macro_colour(j: u32) -> Rgb {
    let hash = mix32(add_mod32(mul_mod32(j, 7), 123));
    (channel(hash, 0), channel(hash, 8), channel(hash, 16))
}

/// How much lighter or darker than its macroplate microplate `pid` is
/// drawn: from 16 darker to 15 lighter.
pub open spec fn shade_of(pid: u16) -> int {
    (mix32((pid as int * 13 + 7) as u32) & 0x1F) as int - 16
}

/// A channel made lighter or darker and held between 0 and 255.
pub open spec fn shaded(c: u8, offset: int) -> u8 {
    if c + offset < 0 {
        0
    } else if c + offset > 255 {
        255
    } else {
        (c + offset) as u8
    }
}

/// The colour of a cell in the picture of the plates: white on a major
/// boundary, grey on a minor one, else the colour of its macroplate in the
/// shade of its microplate; mid grey where the cell names no plate.
pub open spec fn plate_pixel(
    pid: u16,
    btype: u8,
    major: u8,
    macro_id: Seq<usize>,
    num_macro: int,
) -> Rgb {
    if btype != 0 {
        if major != 0 {
            (255, 255, 255)
        } else {
            (140, 140, 140)
        }
    } else if (pid as int) < macro_id.len() && (macro_id[pid as int] as int) < num_macro {
        let c = macro_colour(macro_id[pid as int] as u32);
        let o = shade_of(pid);
        (shaded(c.0, o), shaded(c.1, o), shaded(c.2, o))
    } else {
        (128, 128, 128)
    }
}

/// The colour of a cell in the picture of the boundaries: red where plates
/// converge, blue where they part, green where they slide, bright on major
/// boundaries and dim on minor ones; near black inside a plate.
pub open spec fn boundary_pixel(btype: u8, major: u8) -> Rgb {
    if btype == CONVERGENT {
        if major != 0 {
            (220, 50, 50)
        } else {
            (120, 40, 40)
        }
    } else if btype == DIVERGENT {
        if major != 0 {
            (50, 80, 220)
        } else {
            (40, 50, 120)
        }
    } else if btype == TRANSFORM {
        if major != 0 {
            (50, 200, 80)
        } else {
            (40, 100, 50)
        }
    } else {
        (20, 20, 20)
    }
}

/// Whether `rgba` shows `colours`: four bytes for each, the last one 255.
pub open spec fn shows(rgba: Seq<u8>, colours: Seq<Rgb>) -> bool {
    &&& rgba.len() == 4 * colours.len()
    &&& forall|i: int|
        0 <= i < colours.len() ==> rgba[4 * i] == (#[trigger] colours[i]).0 && rgba[4 * i + 1]
            == colours[i].1 && rgba[4 * i + 2] == colours[i].2 && rgba[4 * i + 3] == 255
}

/// One channel of a colour, computed.
fn channel_of(hash: u32, shift: u32) -> (c: u8)
    requires
        shift == 0 || shift == 8 || shift == 16,
    ensures
        c == channel(hash, shift),
{
    let byte: u32 = ((hash >> shift) & 0xFF) | 60;
    assert(byte <= 255) by (bit_vector)
        requires
            byte == ((hash >> shift) & 0xFF) | 60,
    ;
    byte as u8
}

/// The colour of a macroplate, computed.
fn colour_of(j: u32) -> (c: Rgb)
    ensures
        c == macro_colour(j),
{
    let hash: u32 = splitmix32(j.wrapping_mul(7).wrapping_add(123));
    (channel_of(hash, 0), channel_of(hash, 8), channel_of(hash, 16))
}

/// A channel in another shade, computed.
fn shade(c: u8, offset: i32) -> (r: u8)
    requires
        -16 <= offset <= 15,
    ensures
        r == shaded(c, offset as int),
{
    let v: i32 = c as i32 + offset;
    if v < 0 {
        0
    } else if v > 255 {
        255
    } else {
        v as u8
    }
}

/// Appends one opaque pixel.
fn push_pixel(rgba: &mut Vec<u8>, c: Rgb, Ghost(colours): Ghost<Seq<Rgb>>)
    requires
        shows(old(rgba)@, colours),
    ensures
        shows(final(rgba)@, colours.push(c)),
{
    let ghost before = rgba@;
    rgba.push(c.0);
    rgba.push(c.1);
    rgba.push(c.2);
    rgba.push(255);
    proof {
        let after = rgba@;
        let grown = colours.push(c);
        assert(after.len() == 4 * grown.len());
        assert forall|i: int| 0 <= i < grown.len() implies after[4 * i] == (#[trigger] grown[i]).0
            && after[4 * i + 1] == grown[i].1 && after[4 * i + 2] == grown[i].2 && after[4 * i + 3]
            == 255 by {
            if i < colours.len() {
                assert(grown[i] == colours[i]);
                assert(after[4 * i] == before[4 * i]);
                assert(after[4 * i + 1] == before[4 * i + 1]);
                assert(after[4 * i + 2] == before[4 * i + 2]);
                assert(after[4 * i + 3] == before[4 * i + 3]);
            }
        }
    }
}

/// The colours of the picture of the plates, cell by cell.
pub open spec fn plate_colours(
    plate_id: Seq<u16>,
    btype: Seq<u8>,
    major: Seq<u8>,
    macro_id: Seq<usize>,
    num_macro: int,
) -> Seq<Rgb> {
    Seq::new(plate_id.len(), |i: int| plate_pixel(plate_id[i], btype[i], major[i], macro_id, num_macro))
}

/// Draws the plates: every macroplate in a colour of its own, its
/// microplates in shades of it, major boundaries white and minor ones grey.
pub fn render_plates(
    plate_id: &Grid<u16>,
    btype: &Grid<u8>,
    major: &Grid<u8>,
    macro_id: &Vec<usize>,
    num_macro: usize,
) -> (rgba: Vec<u8>)
    requires
        btype.data@.len() == plate_id.data@.len(),
        major.data@.len() == plate_id.data@.len(),
        num_macro <= u32::MAX,
    ensures
        shows(
            rgba@,
            plate_colours(plate_id.data@, btype.data@, major.data@, macro_id@, num_macro as int),
        ),
{
    let mut colours: Vec<Rgb> = Vec::with_capacity(num_macro);
    let mut j: usize = 0;
    while j < num_macro
        invariant
            num_macro <= u32::MAX,
            j <= num_macro,
            colours@.len() == j,
            forall|k: int| 0 <= k < j ==> #[trigger] colours@[k] == macro_colour(k as u32),
        decreases num_macro - j,
    {
        colours.push(colour_of(j as u32));
        j += 1;
    }
    let n: usize = plate_id.data.len();
    let mut rgba: Vec<u8> = Vec::new();
    let ghost mut drawn: Seq<Rgb> = Seq::empty();
    let mut i: usize = 0;
    while i < n
        invariant
            n == plate_id.data@.len(),
            btype.data@.len() == n,
            major.data@.len() == n,
            num_macro <= u32::MAX,
            colours@.len() == num_macro,
            forall|k: int| 0 <= k < num_macro ==> #[trigger] colours@[k] == macro_colour(k as u32),
            i <= n,
            drawn.len() == i,
            shows(rgba@, drawn),
            forall|k: int|
                0 <= k < i ==> #[trigger] drawn[k] == plate_pixel(
                    plate_id.data@[k],
                    btype.data@[k],
                    major.data@[k],
                    macro_id@,
                    num_macro as int,
                ),
        decreases n - i,
    {
        let pid: u16 = plate_id.data[i];
        let c: Rgb = if btype.data[i] != 0 {
            if major.data[i] != 0 {
                (255, 255, 255)
            } else {
                (140, 140, 140)
            }
        } else if (pid as usize) < macro_id.len() && macro_id[pid as usize] < num_macro {
            let base: Rgb = colours[macro_id[pid as usize]];
            let hash: u32 = splitmix32(pid as u32 * 13 + 7);
            let low: u32 = hash & 0x1F;
            assert(low <= 31) by (bit_vector)
                requires
                    low == hash & 0x1F,
            ;
            let offset: i32 = low as i32 - 16;
            (shade(base.0, offset), shade(base.1, offset), shade(base.2, offset))
        } else {
            (128, 128, 128)
        };
        push_pixel(&mut rgba, c, Ghost(drawn));
        proof {
            drawn = drawn.push(c);
        }
        i += 1;
    }
    assert(drawn =~= plate_colours(
        plate_id.data@,
        btype.data@,
        major.data@,
        macro_id@,
        num_macro as int,
    ));
    rgba
}

/// The colours of the picture of the boundaries, cell by cell.
pub open spec fn boundary_colours(btype: Seq<u8>, major: Seq<u8>) -> Seq<Rgb> {
    Seq::new(btype.len(), |i: int| boundary_pixel(btype[i], major[i]))
}

/// Draws the boundaries by kind, major ones bright and minor ones dim.
pub fn render_boundaries(btype: &Grid<u8>, major: &Grid<u8>) -> (rgba: Vec<u8>)
    requires
        major.data@.len() == btype.data@.len(),
    ensures
        shows(rgba@, boundary_colours(btype.data@, major.data@)),
{
    let n: usize = btype.data.len();
    let mut rgba: Vec<u8> = Vec::new();
    let ghost mut drawn: Seq<Rgb> = Seq::empty();
    let mut i: usize = 0;
    while i < n
        invariant
            n == btype.data@.len(),
            major.data@.len() == n,
            i <= n,
            drawn.len() == i,
            shows(rgba@, drawn),
            forall|k: int|
                0 <= k < i ==> #[trigger] drawn[k] == boundary_pixel(btype.data@[k], major.data@[k]),
        decreases n - i,
    {
        let is_major: bool = major.data[i] != 0;
        let kind: u8 = btype.data[i];
        let c: Rgb = if kind == CONVERGENT {
            if is_major {
                (220, 50, 50)
            } else {
                (120, 40, 40)
            }
        } else if kind == DIVERGENT {
            if is_major {
                (50, 80, 220)
            } else {
                (40, 50, 120)
            }
        } else if kind == TRANSFORM {
            if is_major {
                (50, 200, 80)
            } else {
                (40, 100, 50)
            }
        } else {
            (20, 20, 20)
        };
        push_pixel(&mut rgba, c, Ghost(drawn));
        proof {
            drawn = drawn.push(c);
        }
        i += 1;
    }
    assert(drawn =~= boundary_colours(btype.data@, major.data@));
    rgba
}

} // verus!
