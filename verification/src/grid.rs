//! Row-major dense grid on a cylinder: columns wrap east-west, rows stop at
//! the poles.

use vstd::prelude::*;
use vstd::arithmetic::div_mod::lemma_fundamental_div_mod_converse;

verus! {

/// A dense field of `w * h` cells, stored row by row.
#[derive(Clone, Debug)]
pub struct Grid<T> {
    pub data: Vec<T>,
    pub w: usize,
    pub h: usize,
}

impl<T> Grid<T> {
    /// The grid holds exactly one value per cell.
    pub open spec fn wf(&self) -> bool {
        self.data@.len() == self.w as int * self.h as int
    }

    /// Position of cell `(x, y)` in the row-major store.
    pub open spec fn cell_index(&self, x: int, y: int) -> int {
        y * (self.w as int) + x
    }

    /// Value of cell `(x, y)`.
    pub open spec fn at(&self, x: int, y: int) -> T {
        self.data@[self.cell_index(x, y)]
    }
}

/// A cell position inside a `w` by `h` grid stays inside the store.
pub proof fn lemma_index_in_range(x: int, y: int, w: int, h: int)
    requires
        0 <= x < w,
        0 <= y < h,
    ensures
        0 <= y * w + x < w * h,
        y * w + x <= (h - 1) * w + (w - 1),
{
    assert(y * w <= (h - 1) * w) by (nonlinear_arith)
        requires
            0 <= y <= h - 1,
            0 < w,
    ;
    assert(0 <= y * w) by (nonlinear_arith)
        requires
            0 <= y,
            0 < w,
    ;
    assert((h - 1) * w + w == w * h) by (nonlinear_arith);
}

/// Distinct cells have distinct positions, and a position determines its
/// cell: the column is the remainder and the row the quotient by `w`.
pub proof fn lemma_index_split(x: int, y: int, w: int)
    requires
        0 <= x < w,
    ensures
        (y * w + x) % w == x,
        (y * w + x) / w == y,
{
    lemma_fundamental_div_mod_converse(y * w + x, w, y, x);
}

impl<T: Copy> Grid<T> {
    /// A grid whose every cell holds `v`.
    pub fn filled(w: usize, h: usize, v: T) -> (g: Grid<T>)
        requires
            w as int * h as int <= usize::MAX as int,
        ensures
            g.wf(),
            g.w == w,
            g.h == h,
            forall|i: int| 0 <= i < g.data@.len() ==> g.data@[i] == v,
    {
        assert(0 <= w as int * h as int) by (nonlinear_arith);
        let n: usize = w * h;
        let mut data: Vec<T> = Vec::with_capacity(n);
        let mut i: usize = 0;
        while i < n
            invariant
                i <= n,
                data@.len() == i as int,
                forall|k: int| 0 <= k < i as int ==> data@[k] == v,
            decreases n - i,
        {
            data.push(v);
            i += 1;
        }
        Grid { data, w, h }
    }

    /// Position of cell `(x, y)` in the store.
    pub fn idx(&self, x: usize, y: usize) -> (i: usize)
        requires
            self.wf(),
            x < self.w,
            y < self.h,
        ensures
            i as int == self.cell_index(x as int, y as int),
            (i as int) < self.data@.len(),
    {
        proof {
            lemma_index_in_range(x as int, y as int, self.w as int, self.h as int);
            assert(0 <= y as int * self.w as int) by (nonlinear_arith);
            assert(self.data@.len() == self.data.len());
        }
        y * self.w + x
    }

    /// Value of cell `(x, y)`.
    pub fn get(&self, x: usize, y: usize) -> (v: T)
        requires
            self.wf(),
            x < self.w,
            y < self.h,
        ensures
            v == self.at(x as int, y as int),
    {
        let i: usize = self.idx(x, y);
        self.data[i]
    }

    /// Stores `v` in cell `(x, y)` and leaves every other cell as it was.
    pub fn set(&mut self, x: usize, y: usize, v: T)
        requires
            old(self).wf(),
            x < old(self).w,
            y < old(self).h,
        ensures
            final(self).wf(),
            final(self).w == old(self).w,
            final(self).h == old(self).h,
            final(self).data@ == old(self).data@.update(
                old(self).cell_index(x as int, y as int),
                v,
            ),
    {
        let i: usize = self.idx(x, y);
        self.data.set(i, v);
    }
}

impl<T: Copy + Default> Grid<T> {
    /// A grid whose every cell holds the default value of `T`: one value
    /// that `T::default` returns.
    pub fn new(w: usize, h: usize) -> (g: Grid<T>)
        requires
            w as int * h as int <= usize::MAX as int,
        ensures
            g.wf(),
            g.w == w,
            g.h == h,
            forall|i: int, j: int|
                0 <= i < g.data@.len() && 0 <= j < g.data@.len() ==> g.data@[i] == g.data@[j],
            forall|i: int|
                0 <= i < g.data@.len() ==> call_ensures(T::default, (), #[trigger] g.data@[i]),
    {
        let fill: T = T::default();
        Grid::filled(w, h, fill)
    }
}

/// Column `x` brought into `0..w` by wrapping.
pub open spec fn wrap_col(x: int, w: int) -> int {
    x % w
}

/// The cell that `(x, y)` names on the cylinder: the column wraps, a row
/// beyond a pole names no cell.
pub open spec fn wrap_cell(x: int, y: int, w: int, h: int) -> Option<(usize, usize)> {
    if 0 <= y < h {
        Some((wrap_col(x, w) as usize, y as usize))
    } else {
        None
    }
}

/// `acc` followed by the neighbour of `(x, y)` at offset `(dx, dy)`, where
/// the cylinder has one.
pub open spec fn with_neighbor(
    acc: Seq<(usize, usize)>,
    x: int,
    y: int,
    dx: int,
    dy: int,
    w: int,
    h: int,
) -> Seq<(usize, usize)> {
    match wrap_cell(x + dx, y + dy, w, h) {
        Some(p) => acc.push(p),
        None => acc,
    }
}

/// The edge neighbours of `(x, y)`: west, east, north, south.
pub open spec fn neighbors4(x: int, y: int, w: int, h: int) -> Seq<(usize, usize)> {
    let a = with_neighbor(Seq::empty(), x, y, -1, 0, w, h);
    let b = with_neighbor(a, x, y, 1, 0, w, h);
    let c = with_neighbor(b, x, y, 0, -1, w, h);
    with_neighbor(c, x, y, 0, 1, w, h)
}

/// The edge and corner neighbours of `(x, y)`, row by row from the north-west.
pub open spec fn neighbors8(x: int, y: int, w: int, h: int) -> Seq<(usize, usize)> {
    let a = with_neighbor(Seq::empty(), x, y, -1, -1, w, h);
    let b = with_neighbor(a, x, y, 0, -1, w, h);
    let c = with_neighbor(b, x, y, 1, -1, w, h);
    let d = with_neighbor(c, x, y, -1, 0, w, h);
    let e = with_neighbor(d, x, y, 1, 0, w, h);
    let f = with_neighbor(e, x, y, -1, 1, w, h);
    let g = with_neighbor(f, x, y, 0, 1, w, h);
    with_neighbor(g, x, y, 1, 1, w, h)
}

/// Every listed position lies inside the `w` by `h` grid.
pub open spec fn all_inside(cells: Seq<(usize, usize)>, w: int, h: int) -> bool {
    forall|i: int| 0 <= i < cells.len() ==> (#[trigger] cells[i]).0 < w && cells[i].1 < h
}

/// Column `x` wrapped into `0..w`.
pub fn wrap_x(x: i64, w: usize) -> (r: usize)
    requires
        0 < w <= i32::MAX,
        i32::MIN <= x <= 2 * (i32::MAX as int),
    ensures
        r as int == wrap_col(x as int, w as int),
        r < w,
{
    let wi: i64 = w as i64;
    if x >= 0 {
        (x % wi) as usize
    } else {
        let m: i64 = -x;
        let q: i64 = m / wi;
        let r: i64 = m % wi;
        proof {
            assert(m as int == q as int * wi as int + r as int) by {
                vstd::arithmetic::div_mod::lemma_fundamental_div_mod(m as int, wi as int);
                assert(wi as int * (m as int / wi as int) == (m as int / wi as int) * wi as int)
                    by (nonlinear_arith);
            }
            if r == 0 {
                assert(x as int == (-(q as int)) * wi as int + 0) by (nonlinear_arith)
                    requires
                        -(x as int) == q as int * wi as int + r as int,
                        r == 0,
                ;
                lemma_fundamental_div_mod_converse(x as int, wi as int, -(q as int), 0);
            } else {
                assert(x as int == (-(q as int) - 1) * wi as int + (wi as int - r as int))
                    by (nonlinear_arith)
                    requires
                        -(x as int) == q as int * wi as int + r as int,
                ;
                lemma_fundamental_div_mod_converse(
                    x as int,
                    wi as int,
                    -(q as int) - 1,
                    wi as int - r as int,
                );
            }
        }
        if r == 0 {
            0
        } else {
            (wi - r) as usize
        }
    }
}

/// The cell that `(x, y)` names on a `w` by `h` cylinder, if any.
pub fn wrap_xy(x: i32, y: i32, w: usize, h: usize) -> (r: Option<(usize, usize)>)
    requires
        0 < w <= i32::MAX,
        h <= i32::MAX,
    ensures
        r == wrap_cell(x as int, y as int, w as int, h as int),
        r matches Some(p) ==> p.0 < w && p.1 < h,
{
    if y < 0 || y as i64 >= h as i64 {
        return None;
    }
    let wx: usize = wrap_x(x as i64, w);
    Some((wx, y as usize))
}

/// Appends to `out` the neighbour of `(x, y)` at offset `(dx, dy)`, where
/// there is one.
fn push_neighbor(
    out: &mut Vec<(usize, usize)>,
    x: usize,
    y: usize,
    dx: i32,
    dy: i32,
    w: usize,
    h: usize,
)
    requires
        0 < w <= i32::MAX,
        h <= i32::MAX,
        x < w,
        y < h,
        -1 <= dx <= 1,
        -1 <= dy <= 1,
        all_inside(old(out)@, w as int, h as int),
    ensures
        final(out)@ == with_neighbor(
            old(out)@,
            x as int,
            y as int,
            dx as int,
            dy as int,
            w as int,
            h as int,
        ),
        all_inside(final(out)@, w as int, h as int),
{
    let nx: i32 = x as i32 + dx;
    let ny: i32 = y as i32 + dy;
    match wrap_xy(nx, ny, w, h) {
        Some(p) => {
            out.push(p);
        },
        None => {},
    }
}

/// The edge neighbours of `(x, y)` in the order west, east, north, south;
/// at a pole the missing one is left out.
pub fn neighbors4_wrap(x: usize, y: usize, w: usize, h: usize) -> (r: Vec<(usize, usize)>)
    requires
        0 < w <= i32::MAX,
        h <= i32::MAX,
        x < w,
        y < h,
    ensures
        r@ == neighbors4(x as int, y as int, w as int, h as int),
        all_inside(r@, w as int, h as int),
        2 <= r@.len() <= 4,
{
    let mut out: Vec<(usize, usize)> = Vec::with_capacity(4);
    push_neighbor(&mut out, x, y, -1, 0, w, h);
    push_neighbor(&mut out, x, y, 1, 0, w, h);
    push_neighbor(&mut out, x, y, 0, -1, w, h);
    push_neighbor(&mut out, x, y, 0, 1, w, h);
    out
}

/// The eight neighbours of `(x, y)`, row by row from the north-west; at a
/// pole the missing row is left out.
pub fn neighbors8_wrap(x: usize, y: usize, w: usize, h: usize) -> (r: Vec<(usize, usize)>)
    requires
        0 < w <= i32::MAX,
        h <= i32::MAX,
        x < w,
        y < h,
    ensures
        r@ == neighbors8(x as int, y as int, w as int, h as int),
        all_inside(r@, w as int, h as int),
        2 <= r@.len() <= 8,
{
    let mut out: Vec<(usize, usize)> = Vec::with_capacity(8);
    push_neighbor(&mut out, x, y, -1, -1, w, h);
    push_neighbor(&mut out, x, y, 0, -1, w, h);
    push_neighbor(&mut out, x, y, 1, -1, w, h);
    push_neighbor(&mut out, x, y, -1, 0, w, h);
    push_neighbor(&mut out, x, y, 1, 0, w, h);
    push_neighbor(&mut out, x, y, -1, 1, w, h);
    push_neighbor(&mut out, x, y, 0, 1, w, h);
    push_neighbor(&mut out, x, y, 1, 1, w, h);
    out
}

/// Column step of direction `d`; the eight directions run row by row from
/// the north-west.
pub open spec fn step_dx(d: int) -> int {
    if d == 0 || d == 3 || d == 5 {
        -1
    } else if d == 1 || d == 6 {
        0
    } else {
        1
    }
}

/// Row step of direction `d`.
pub open spec fn step_dy(d: int) -> int {
    if d <= 2 {
        -1
    } else if d <= 4 {
        0
    } else {
        1
    }
}

/// Whether direction `d` crosses a corner.
pub open spec fn is_diagonal(d: int) -> bool {
    d == 0 || d == 2 || d == 5 || d == 7
}

/// The store position that cell `i` reaches by one step in direction `d`,
/// if `d` is one of the eight directions and the step stays between the
/// poles.
pub open spec fn neighbor_index(i: int, d: int, w: int, h: int) -> Option<int> {
    if 0 <= d < 8 && 0 <= i / w + step_dy(d) < h {
        Some((i / w + step_dy(d)) * w + wrap_col(i % w + step_dx(d), w))
    } else {
        None
    }
}

/// The cell reached from cell `i` by one step in direction `dir`.
pub fn neighbor_of(i: usize, dir: u8, w: usize, h: usize) -> (r: Option<usize>)
    requires
        0 < w <= i32::MAX,
        h <= i32::MAX,
        w as int * h as int <= usize::MAX as int,
        (i as int) < w as int * h as int,
    ensures
        match r {
            Some(n) => neighbor_index(i as int, dir as int, w as int, h as int) == Some(n as int)
                && (n as int) < w as int * h as int,
            None => neighbor_index(i as int, dir as int, w as int, h as int).is_none(),
        },
{
    if dir >= 8 {
        return None;
    }
    let x: usize = i % w;
    let y: usize = i / w;
    proof {
        vstd::arithmetic::div_mod::lemma_fundamental_div_mod(i as int, w as int);
        assert(y < h) by (nonlinear_arith)
            requires
                (i as int) < w as int * h as int,
                i as int == w as int * y as int + x as int,
                0 <= x,
                0 < w,
        ;
    }
    let dx: i64 = if dir == 0 || dir == 3 || dir == 5 {
        -1
    } else if dir == 1 || dir == 6 {
        0
    } else {
        1
    };
    let dy: i64 = if dir <= 2 {
        -1
    } else if dir <= 4 {
        0
    } else {
        1
    };
    let ny: i64 = y as i64 + dy;
    if ny < 0 || ny >= h as i64 {
        return None;
    }
    let nx: usize = wrap_x(x as i64 + dx, w);
    proof {
        lemma_index_in_range(nx as int, ny as int, w as int, h as int);
        assert(0 <= ny as int * w as int) by (nonlinear_arith)
            requires
                0 <= ny,
                0 < w,
        ;
    }
    Some(ny as usize * w + nx)
}

/// A step that stays on the grid ends on a cell of the grid.
pub proof fn lemma_neighbor_inside(i: int, d: int, w: int, h: int)
    requires
        0 < w,
        0 <= i < w * h,
    ensures
        neighbor_index(i, d, w, h) matches Some(n) ==> 0 <= n < w * h,
{
    if neighbor_index(i, d, w, h).is_some() {
        let x = wrap_col(i % w + step_dx(d), w);
        let y = i / w + step_dy(d);
        lemma_index_in_range(x, y, w, h);
    }
}

/// Adjacency on the cylinder is mutual: the step back from a neighbour, in
/// the opposite direction, ends on the cell the step started from. This
/// holds across the east-west seam as it does anywhere else.
pub proof fn lemma_neighbor_symmetric(i: int, d: int, w: int, h: int)
    requires
        0 < w,
        0 <= i < w * h,
        0 <= d < 8,
    ensures
        neighbor_index(i, d, w, h) matches Some(n) ==> neighbor_index(n, 7 - d, w, h) == Some(i),
{
    if neighbor_index(i, d, w, h).is_some() {
        let x = i % w;
        let y = i / w;
        let nx = wrap_col(x + step_dx(d), w);
        let ny = y + step_dy(d);
        let n = ny * w + nx;
        vstd::arithmetic::div_mod::lemma_fundamental_div_mod(i, w);
        assert(w * y == y * w) by (nonlinear_arith);
        lemma_index_split(nx, ny, w);
        assert(n % w == nx && n / w == ny);
        assert(step_dx(7 - d) == -step_dx(d));
        assert(step_dy(7 - d) == -step_dy(d));
        // nx is x + dx less a multiple of w, so nx - dx is x less that multiple
        let q = (x + step_dx(d)) / w;
        vstd::arithmetic::div_mod::lemma_fundamental_div_mod(x + step_dx(d), w);
        assert(nx - step_dx(d) == (-q) * w + x) by (nonlinear_arith)
            requires
                x + step_dx(d) == w * q + nx,
        ;
        lemma_fundamental_div_mod_converse(nx - step_dx(d), w, -q, x);
        assert(wrap_col(nx + step_dx(7 - d), w) == x);
        assert(0 <= y < h) by {
            assert(y < h) by (nonlinear_arith)
                requires
                    i < w * h,
                    i == w * y + x,
                    0 <= x,
                    0 < w,
            ;
            assert(0 <= y) by (nonlinear_arith)
                requires
                    0 <= i,
                    i == w * y + x,
                    x < w,
                    0 < w,
            ;
        }
    }
}

/// One row further south lies the cell `w` places on in the store.
pub proof fn lemma_south_neighbor(i: int, w: int, h: int)
    requires
        0 < w,
        0 <= i,
        i + w < w * h,
    ensures
        neighbor_index(i, 6, w, h) == Some(i + w),
{
    let x = i % w;
    let y = i / w;
    vstd::arithmetic::div_mod::lemma_fundamental_div_mod(i, w);
    assert(w * y == y * w) by (nonlinear_arith);
    vstd::arithmetic::div_mod::lemma_small_mod(x as nat, w as nat);
    assert(y + 1 < h) by (nonlinear_arith)
        requires
            i + w < w * h,
            i == y * w + x,
            0 <= x,
            0 < w,
    ;
    assert(0 <= y) by (nonlinear_arith)
        requires
            0 <= i,
            i == y * w + x,
            x < w,
            0 < w,
    ;
    assert((y + 1) * w + x == i + w) by (nonlinear_arith)
        requires
            i == y * w + x,
    ;
}

/// One column further west, where the row goes on, lies the cell before.
pub proof fn lemma_west_neighbor(i: int, w: int, h: int)
    requires
        0 < w,
        0 <= i < w * h,
        i % w != 0,
    ensures
        neighbor_index(i, 3, w, h) == Some(i - 1),
{
    let x = i % w;
    let y = i / w;
    vstd::arithmetic::div_mod::lemma_fundamental_div_mod(i, w);
    assert(w * y == y * w) by (nonlinear_arith);
    vstd::arithmetic::div_mod::lemma_small_mod((x - 1) as nat, w as nat);
    assert(y < h) by (nonlinear_arith)
        requires
            i < w * h,
            i == y * w + x,
            0 <= x,
            0 < w,
    ;
    assert(0 <= y) by (nonlinear_arith)
        requires
            0 <= i,
            i == y * w + x,
            x < w,
            0 < w,
    ;
}

/// One column further east, where the row goes on, lies the cell after.
pub proof fn lemma_east_neighbor(i: int, w: int, h: int)
    requires
        0 < w,
        0 <= i,
        i + 1 < w * h,
        (i + 1) % w != 0,
    ensures
        neighbor_index(i, 4, w, h) == Some(i + 1),
{
    let x = i % w;
    let y = i / w;
    vstd::arithmetic::div_mod::lemma_fundamental_div_mod(i, w);
    assert(w * y == y * w) by (nonlinear_arith);
    assert(y < h) by (nonlinear_arith)
        requires
            i < w * h,
            i == y * w + x,
            0 <= x,
            0 < w,
    ;
    assert(0 <= y) by (nonlinear_arith)
        requires
            0 <= i,
            i == y * w + x,
            x < w,
            0 < w,
    ;
    if x + 1 == w {
        assert(i + 1 == (y + 1) * w + 0) by (nonlinear_arith)
            requires
                i == y * w + x,
                x + 1 == w,
        ;
        lemma_index_split(0, y + 1, w);
    }
    vstd::arithmetic::div_mod::lemma_small_mod((x + 1) as nat, w as nat);
}

/// One row further north lies the cell `w` places back in the store.
pub proof fn lemma_north_neighbor(i: int, w: int, h: int)
    requires
        0 < w,
        w <= i < w * h,
    ensures
        neighbor_index(i, 1, w, h) == Some(i - w),
{
    let x = i % w;
    let y = i / w;
    vstd::arithmetic::div_mod::lemma_fundamental_div_mod(i, w);
    assert(w * y == y * w) by (nonlinear_arith);
    vstd::arithmetic::div_mod::lemma_small_mod(x as nat, w as nat);
    assert(y < h) by (nonlinear_arith)
        requires
            i < w * h,
            i == y * w + x,
            0 <= x,
            0 < w,
    ;
    assert(1 <= y) by (nonlinear_arith)
        requires
            w <= i,
            i == y * w + x,
            x < w,
            0 < w,
    ;
    assert((y - 1) * w + x == i - w) by (nonlinear_arith)
        requires
            i == y * w + x,
    ;
}

/// The cell `k` columns east of cell `i` in the same row, round the
/// cylinder.
pub open spec fn turned(i: int, k: int, w: int) -> int {
    (i / w) * w + wrap_col(i % w + k, w)
}

/// The seam is no special place: turning the cylinder by `k` columns takes
/// the neighbours of a cell to the neighbours of the turned cell, direction
/// by direction.
pub proof fn lemma_seam_is_no_edge(i: int, d: int, k: int, w: int, h: int)
    requires
        0 < w,
        0 <= i < w * h,
        0 <= d < 8,
    ensures
        neighbor_index(turned(i, k, w), d, w, h) == match neighbor_index(i, d, w, h) {
            Some(n) => Some(turned(n, k, w)),
            None => None,
        },
{
    let x = i % w;
    let y = i / w;
    let tx = wrap_col(x + k, w);
    lemma_index_split(tx, y, w);
    assert(turned(i, k, w) % w == tx && turned(i, k, w) / w == y);
    if neighbor_index(i, d, w, h).is_some() {
        let nx = wrap_col(x + step_dx(d), w);
        let ny = y + step_dy(d);
        lemma_index_split(nx, ny, w);
        // both ways round, the column is x + dx + k brought into range
        vstd::arithmetic::div_mod::lemma_add_mod_noop(x + k, step_dx(d), w);
        vstd::arithmetic::div_mod::lemma_add_mod_noop(x + step_dx(d), k, w);
        vstd::arithmetic::div_mod::lemma_mod_twice(x + k, w);
        vstd::arithmetic::div_mod::lemma_mod_twice(x + step_dx(d), w);
        vstd::arithmetic::div_mod::lemma_add_mod_noop_right(x + k, step_dx(d), w);
        vstd::arithmetic::div_mod::lemma_add_mod_noop_right(x + step_dx(d), k, w);
        assert((tx + step_dx(d)) % w == (x + k + step_dx(d)) % w) by {
            vstd::arithmetic::div_mod::lemma_add_mod_noop_right(step_dx(d), x + k, w);
            assert(tx + step_dx(d) == step_dx(d) + (x + k) % w);
            assert(x + k + step_dx(d) == step_dx(d) + (x + k));
        }
        assert((nx + k) % w == (x + step_dx(d) + k) % w) by {
            vstd::arithmetic::div_mod::lemma_add_mod_noop_right(k, x + step_dx(d), w);
            assert(nx + k == k + (x + step_dx(d)) % w);
            assert(x + step_dx(d) + k == k + (x + step_dx(d)));
        }
        assert(x + k + step_dx(d) == x + step_dx(d) + k);
    }
}

/// Across the seam the last column and the first are neighbours like any
/// two columns side by side.
pub proof fn lemma_seam_neighbors(y: int, w: int, h: int)
    requires
        0 < w,
        0 <= y < h,
    ensures
        neighbor_index(y * w + (w - 1), 4, w, h) == Some(y * w),
        neighbor_index(y * w, 3, w, h) == Some(y * w + (w - 1)),
{
    lemma_index_split(w - 1, y, w);
    lemma_index_split(0, y, w);
    vstd::arithmetic::div_mod::lemma_mod_add_multiples_vanish(0, w);
    vstd::arithmetic::div_mod::lemma_mod_add_multiples_vanish(-1, w);
    lemma_fundamental_div_mod_converse(-1, w, -1, w - 1);
    vstd::arithmetic::div_mod::lemma_small_mod(0, w as nat);
    assert(wrap_col((w - 1) + 1, w) == 0);
    assert(wrap_col(0 - 1, w) == w - 1);
}

} // verus!
