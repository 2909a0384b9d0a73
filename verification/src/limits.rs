//! What a world may measure: the sizes that the generator takes, checked
//! before any stage runs.

use vstd::prelude::*;

verus! {

/// Why the generator does not take a request.
#[derive(Clone, Copy, Debug, PartialEq, Eq, Structural)]
pub enum InvalidArgument {
    /// The grid has no column or no row.
    EmptyGrid,
    /// The grid has more than 65535 columns or rows, or too many cells to
    /// route rivers on.
    GridTooLarge,
    /// There is no macroplate or no microplate.
    NoPlates,
    /// There are more than 65535 macroplates or microplates.
    TooManyPlates,
}

/// Most cells of a grid that rivers can be routed on.
pub const MOST_CELLS: usize = 0x3FFF_FFFF;

/// Whether the generator takes a `w` by `h` grid with the given numbers of
/// plates.
pub open spec fn dimensions_ok(w: int, h: int, macros: int, micros: int) -> bool {
    &&& 0 < w <= 65535
    &&& 0 < h <= 65535
    &&& w * h <= MOST_CELLS
    &&& 0 < macros <= 65535
    &&& 0 < micros <= 65535
}

/// Checks the sizes of a request. The first fault found is reported: an
/// empty grid, then a grid too large, then missing plates, then too many.
pub fn check_dimensions(w: usize, h: usize, macros: usize, micros: usize) -> (r: Result<
    (),
    InvalidArgument,
>)
    ensures
        r.is_ok() <==> dimensions_ok(w as int, h as int, macros as int, micros as int),
        r == Err::<(), InvalidArgument>(InvalidArgument::EmptyGrid) <==> w == 0 || h == 0,
        r == Err::<(), InvalidArgument>(InvalidArgument::GridTooLarge) <==> w > 0 && h > 0 && (w
            > 65535 || h > 65535 || w as int * h as int > MOST_CELLS),
        r == Err::<(), InvalidArgument>(InvalidArgument::NoPlates) <==> 0 < w <= 65535 && 0 < h
            <= 65535 && w as int * h as int <= MOST_CELLS && (macros == 0 || micros == 0),
        r == Err::<(), InvalidArgument>(InvalidArgument::TooManyPlates) <==> 0 < w <= 65535 && 0
            < h <= 65535 && w as int * h as int <= MOST_CELLS && macros > 0 && micros > 0 && (
        macros > 65535 || micros > 65535),
{
    if w == 0 || h == 0 {
        return Err(InvalidArgument::EmptyGrid);
    }
    if w > 65535 || h > 65535 {
        return Err(InvalidArgument::GridTooLarge);
    }
    assert(w as int * h as int <= 65535 * 65535) by (nonlinear_arith)
        requires
            0 < w <= 65535,
            0 < h <= 65535,
    ;
    if (w as u64) * (h as u64) > MOST_CELLS as u64 {
        return Err(InvalidArgument::GridTooLarge);
    }
    if macros == 0 || micros == 0 {
        return Err(InvalidArgument::NoPlates);
    }
    if macros > 65535 || micros > 65535 {
        return Err(InvalidArgument::TooManyPlates);
    }
    Ok(())
}

} // verus!
