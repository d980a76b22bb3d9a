//! Uniform spatial grid over the sampling domain.
//!
//! The grid covers the open box `(bottom_left, top_right)` with square cells
//! of side `cell_size`, the integer square root of `radius * radius / 2`.
//! That choice keeps the diagonal of a cell below `radius`, so a cell can
//! legally hold at most one accepted point, and a candidate only has to be
//! compared against points in a small neighborhood of cells.

use vstd::prelude::*;
use crate::vec2::{Vec2, COORD_LIMIT, bounded, dist_sq, dist_sq_i64, lemma_component_bound};
use vstd::arithmetic::div_mod::{
    lemma_div_is_ordered, lemma_div_is_ordered_by_denominator, lemma_div_nonincreasing,
    lemma_div_plus_one, lemma_div_pos_is_pos, lemma_fundamental_div_mod, lemma_mod_bound,
};

verus! {

/// Upper bound on the number of grid cells one session may allocate.
pub const MAX_CELLS: usize = 1_048_576;

/// Both coordinates of `v` are within the domain coordinate limit.
pub open spec fn coord_ok(v: Vec2) -> bool {
    &&& -COORD_LIMIT <= v.x <= COORD_LIMIT
    &&& -COORD_LIMIT <= v.y <= COORD_LIMIT
}

/// `r` is the integer square root of `n` rounded down.
pub open spec fn is_sqrt_floor(n: int, r: int) -> bool {
    &&& 0 <= r
    &&& r * r <= n
    &&& n < (r + 1) * (r + 1)
}

/// The cell side used for a sampling radius: the integer square root of
/// `radius * radius / 2`, so that `2 * cell_size^2 <= radius^2`.
pub open spec fn cell_size_of(radius: int) -> int {
    choose|c: int| #[trigger] is_sqrt_floor(radius * radius / 2, c)
}

/// Number of cell columns needed to cover the domain width.
pub open spec fn grid_width_of(radius: int, bl: Vec2, tr: Vec2) -> int {
    (tr.x - bl.x + cell_size_of(radius) - 1) / cell_size_of(radius)
}

/// Number of cell rows needed to cover the domain height.
pub open spec fn grid_height_of(radius: int, bl: Vec2, tr: Vec2) -> int {
    (tr.y - bl.y + cell_size_of(radius) - 1) / cell_size_of(radius)
}

/// The radius and domain box describe a session this library accepts: the
/// radius is positive and bounded, the box has a non-empty strict interior,
/// and the grid covering it fits in `MAX_CELLS` cells.
pub open spec fn session_ok(radius: int, bl: Vec2, tr: Vec2) -> bool {
    &&& 2 <= radius <= COORD_LIMIT
    &&& coord_ok(bl)
    &&& coord_ok(tr)
    &&& bl.x + 2 <= tr.x
    &&& bl.y + 2 <= tr.y
    &&& grid_width_of(radius, bl, tr) * grid_height_of(radius, bl, tr) <= MAX_CELLS
}


/// Quotients of nearby numerators are nearby: when `a` and `b` differ by at
/// most `k`, their quotients by `d` differ by at most `k / d + 1`.
proof fn lemma_quot_diff(a: int, b: int, d: int, k: int)
    requires
        1 <= d,
        0 <= a,
        0 <= b,
        0 <= k,
        b - k <= a <= b + k,
    ensures
        b / d - (k / d + 1) <= a / d <= b / d + k / d + 1,
{
    lemma_fundamental_div_mod(a, d);
    lemma_mod_bound(a, d);
    lemma_fundamental_div_mod(b, d);
    lemma_mod_bound(b, d);
    lemma_fundamental_div_mod(k, d);
    lemma_mod_bound(k, d);
    assert(b / d - (k / d + 1) <= a / d <= b / d + k / d + 1) by (nonlinear_arith)
        requires
            1 <= d,
            b - k <= a <= b + k,
            a == d * (a / d) + a % d,
            0 <= a % d < d,
            b == d * (b / d) + b % d,
            0 <= b % d < d,
            k == d * (k / d) + k % d,
            0 <= k % d < d,
    ;
}

/// Two non-negative numbers with the same quotient by `d` differ by less
/// than `d`.
proof fn lemma_same_quot(a: int, b: int, d: int)
    requires
        1 <= d,
        0 <= a,
        0 <= b,
        a / d == b / d,
    ensures
        -d < a - b < d,
{
    lemma_fundamental_div_mod(a, d);
    lemma_mod_bound(a, d);
    lemma_fundamental_div_mod(b, d);
    lemma_mod_bound(b, d);
    assert(-d < a - b < d) by (nonlinear_arith)
        requires
            1 <= d,
            a == d * (a / d) + a % d,
            0 <= a % d < d,
            b == d * (b / d) + b % d,
            0 <= b % d < d,
            a / d == b / d,
    ;
}

/// A flat row-major index determines the column and the row uniquely.
proof fn lemma_decomp_unique(x1: int, y1: int, x2: int, y2: int, w: int)
    requires
        0 <= x1 < w,
        0 <= x2 < w,
        x1 + y1 * w == x2 + y2 * w,
    ensures
        x1 == x2,
        y1 == y2,
{
    assert(x1 == x2 && y1 == y2) by (nonlinear_arith)
        requires
            0 <= x1 < w,
            0 <= x2 < w,
            x1 + y1 * w == x2 + y2 * w,
    ;
}

/// Two integer square roots of the same number agree.
proof fn lemma_sqrt_floor_unique(n: int, r1: int, r2: int)
    requires
        is_sqrt_floor(n, r1),
        is_sqrt_floor(n, r2),
    ensures
        r1 == r2,
{
    assert(r1 == r2) by (nonlinear_arith)
        requires
            0 <= r1 && r1 * r1 <= n && n < (r1 + 1) * (r1 + 1),
            0 <= r2 && r2 * r2 <= n && n < (r2 + 1) * (r2 + 1),
    ;
}

/// Computes the integer square root of `n`, rounded down.
pub fn isqrt_u64(n: u64) -> (r: u64)
    requires
        n < 0x8000_0000_0000_0000,
    ensures
        is_sqrt_floor(n as int, r as int),
{
    let mut r: u64 = 0;
    while r + 1 <= n / (r + 1)
        invariant
            n < 0x8000_0000_0000_0000,
            (r as int) * (r as int) <= n as int,
            r <= n,
        decreases n - r,
    {
        proof {
            lemma_fundamental_div_mod(n as int, (r as int) + 1);
            lemma_mod_bound(n as int, (r as int) + 1);
            assert(((r as int) + 1) * ((r as int) + 1) <= n as int && r + 1 <= n)
                by (nonlinear_arith)
                requires
                    0 <= r as int,
                    (r as int) + 1 <= (n as int) / ((r as int) + 1),
                    n as int == ((r as int) + 1) * ((n as int) / ((r as int) + 1))
                        + (n as int) % ((r as int) + 1),
                    0 <= (n as int) % ((r as int) + 1) < (r as int) + 1,
            ;
        }
        r = r + 1;
    }
    proof {
        lemma_fundamental_div_mod(n as int, (r as int) + 1);
        lemma_mod_bound(n as int, (r as int) + 1);
        assert((n as int) < ((r as int) + 1) * ((r as int) + 1)) by (nonlinear_arith)
            requires
                0 <= r as int,
                (n as int) / ((r as int) + 1) < (r as int) + 1,
                n as int == ((r as int) + 1) * ((n as int) / ((r as int) + 1))
                    + (n as int) % ((r as int) + 1),
                0 <= (n as int) % ((r as int) + 1) < (r as int) + 1,
        ;
    }
    r
}


/// Decides whether a radius and domain box form a session this library
/// accepts, exactly as `session_ok` states it; callers can test this before
/// building a grid or an algorithm instance.
pub fn check_session(radius: i64, bottom_left: Vec2, top_right: Vec2) -> (b: bool)
    ensures
        b == session_ok(radius as int, bottom_left, top_right),
{
    if radius < 2 || radius > COORD_LIMIT {
        return false;
    }
    if bottom_left.x < -COORD_LIMIT || bottom_left.x > COORD_LIMIT || bottom_left.y < -COORD_LIMIT
        || bottom_left.y > COORD_LIMIT {
        return false;
    }
    if top_right.x < -COORD_LIMIT || top_right.x > COORD_LIMIT || top_right.y < -COORD_LIMIT
        || top_right.y > COORD_LIMIT {
        return false;
    }
    if bottom_left.x + 2 > top_right.x || bottom_left.y + 2 > top_right.y {
        return false;
    }
    proof {
        assert(4 <= (radius as int) * (radius as int)
            && (radius as int) * (radius as int) <= COORD_LIMIT * COORD_LIMIT)
            by (nonlinear_arith)
            requires
                2 <= radius as int <= COORD_LIMIT,
        ;
    }
    let rsq: u64 = (radius as u64) * (radius as u64);
    let cs64: u64 = isqrt_u64(rsq / 2);
    proof {
        lemma_sqrt_floor_unique(
            (radius as int) * (radius as int) / 2,
            cs64 as int,
            cell_size_of(radius as int),
        );
        lemma_div_is_ordered(4, (radius as int) * (radius as int), 2);
        assert(1 <= cs64 as int && cs64 as int <= COORD_LIMIT) by (nonlinear_arith)
            requires
                is_sqrt_floor((radius as int) * (radius as int) / 2, cs64 as int),
                2 <= (radius as int) * (radius as int) / 2,
                (radius as int) * (radius as int) / 2 <= COORD_LIMIT * COORD_LIMIT,
        ;
    }
    let cs: i64 = cs64 as i64;
    let wnum: i64 = top_right.x - bottom_left.x + cs - 1;
    let hnum: i64 = top_right.y - bottom_left.y + cs - 1;
    let w64: u64 = (wnum as u64) / cs64;
    let h64: u64 = (hnum as u64) / cs64;
    proof {
        assert(w64 as int == grid_width_of(radius as int, bottom_left, top_right));
        assert(h64 as int == grid_height_of(radius as int, bottom_left, top_right));
        lemma_div_nonincreasing(wnum as int, cs as int);
        lemma_div_nonincreasing(hnum as int, cs as int);
        lemma_div_pos_is_pos(wnum as int, cs as int);
        lemma_div_pos_is_pos(hnum as int, cs as int);
        assert((w64 as int) * (h64 as int) <= 16_000_000_000_000) by (nonlinear_arith)
            requires
                0 <= w64 as int <= 4_000_000,
                0 <= h64 as int <= 4_000_000,
        ;
    }
    let cells: u64 = w64 * h64;
    cells <= (MAX_CELLS as u64)
}

/// A uniform grid holding at most one accepted point per cell.
pub struct Grid {
    /// One slot per cell, row-major: column `w`, row `h` is `w + h * width`.
    pub cells: Vec<Option<Vec2>>,
    /// Number of cell columns.
    pub width: usize,
    /// Number of cell rows.
    pub height: usize,
    /// Side length of a square cell.
    pub cell_size: i64,
    /// Minimum separation the sampler enforces between accepted points.
    pub radius: i64,
    /// Lower-left corner of the open domain box.
    pub bottom_left: Vec2,
    /// Upper-right corner of the open domain box.
    pub top_right: Vec2,
}

impl Grid {
    /// The grid's scalar fields are consistent: the domain is a valid box,
    /// the cell side is small enough for the radius, and the cell array
    /// covers the box.
    pub open spec fn wf_dims(self) -> bool {
        &&& 2 <= self.radius <= COORD_LIMIT
        &&& coord_ok(self.bottom_left)
        &&& coord_ok(self.top_right)
        &&& self.bottom_left.x + 2 <= self.top_right.x
        &&& self.bottom_left.y + 2 <= self.top_right.y
        &&& 1 <= self.cell_size <= COORD_LIMIT
        &&& 2 * self.cell_size * self.cell_size <= self.radius * self.radius
        &&& self.width as int == (self.top_right.x - self.bottom_left.x + self.cell_size - 1)
            / (self.cell_size as int)
        &&& self.height as int == (self.top_right.y - self.bottom_left.y + self.cell_size - 1)
            / (self.cell_size as int)
        &&& self.cells@.len() == self.width * self.height
        &&& 1 <= self.width <= MAX_CELLS
        &&& 1 <= self.height <= MAX_CELLS
        &&& self.width * self.height <= MAX_CELLS
    }

    /// `p` lies strictly inside the domain box on both axes.
    pub open spec fn in_domain(self, p: Vec2) -> bool {
        &&& self.bottom_left.x < p.x < self.top_right.x
        &&& self.bottom_left.y < p.y < self.top_right.y
    }

    /// Column of the cell containing `p`.
    pub open spec fn cell_x(self, p: Vec2) -> int {
        (p.x - self.bottom_left.x) / (self.cell_size as int)
    }

    /// Row of the cell containing `p`.
    pub open spec fn cell_y(self, p: Vec2) -> int {
        (p.y - self.bottom_left.y) / (self.cell_size as int)
    }

    /// Flat index of the cell containing `p`.
    pub open spec fn cell_index_of(self, p: Vec2) -> int {
        self.cell_x(p) + self.cell_y(p) * self.width
    }

    /// Every stored point lies in the domain and sits in the slot of its own
    /// cell, whose coordinates are in range.
    pub open spec fn anchored(self) -> bool {
        forall|i: int|
            0 <= i < self.cells@.len() ==> (#[trigger] self.cells@[i] matches Some(p) ==> {
                &&& self.in_domain(p)
                &&& 0 <= self.cell_x(p) < self.width
                &&& 0 <= self.cell_y(p) < self.height
                &&& self.cell_index_of(p) == i
            })
    }

    /// Any two distinct stored points are separated by more than the radius.
    pub open spec fn separated(self) -> bool {
        forall|i: int, j: int|
            0 <= i < self.cells@.len() && 0 <= j < self.cells@.len() && i != j
                ==> (#[trigger] self.cells@[i] matches Some(p)
                ==> (#[trigger] self.cells@[j] matches Some(q)
                ==> dist_sq(p, q) > self.radius * self.radius))
    }

    /// Full grid invariant.
    pub open spec fn wf(self) -> bool {
        &&& self.wf_dims()
        &&& self.anchored()
        &&& self.separated()
    }

    /// No conflict with `q` is stored in any cell of the rectangle of cell
    /// coordinates `[w0, w1) x [h0, h1)`.
    pub open spec fn clear_rect(self, q: Vec2, w0: int, w1: int, h0: int, h1: int) -> bool {
        forall|i: int|
            0 <= i < self.cells@.len() ==> (#[trigger] self.cells@[i] matches Some(p) ==> {
                (w0 <= self.cell_x(p) < w1 && h0 <= self.cell_y(p) < h1)
                    ==> dist_sq(p, q) > self.radius * self.radius
            })
    }

    /// Allocates the grid for one sampling session: all cells empty, sized
    /// to cover the box at the cell side derived from `radius`.
    pub fn new(radius: i64, extent: [Vec2; 2]) -> (g: Grid)
        requires
            session_ok(radius as int, extent[0], extent[1]),
        ensures
            g.wf(),
            g.radius == radius,
            g.bottom_left == extent[0],
            g.top_right == extent[1],
            g.cell_size as int == cell_size_of(radius as int),
            forall|i: int| 0 <= i < g.cells@.len() ==> #[trigger] g.cells@[i] is None,
    {
        let bl = extent[0];
        let tr = extent[1];
        proof {
            assert(4 <= (radius as int) * (radius as int)
                && (radius as int) * (radius as int) <= COORD_LIMIT * COORD_LIMIT)
                by (nonlinear_arith)
                requires
                    2 <= radius as int <= COORD_LIMIT,
            ;
        }
        let rsq: u64 = (radius as u64) * (radius as u64);
        let cs64: u64 = isqrt_u64(rsq / 2);
        proof {
            assert(is_sqrt_floor((radius * radius / 2) as int, cs64 as int));
            lemma_sqrt_floor_unique(
                radius * radius / 2,
                cs64 as int,
                cell_size_of(radius as int),
            );
            // cell side is at least 1 and at most the coordinate limit
            lemma_fundamental_div_mod(radius * radius, 2);
            lemma_mod_bound(radius * radius, 2);
            assert(4 <= radius * radius) by (nonlinear_arith)
                requires 2 <= radius,
            ;
            assert(cs64 as int >= 1) by (nonlinear_arith)
                requires
                    is_sqrt_floor(radius * radius / 2, cs64 as int),
                    2 <= radius * radius / 2,
            ;
            assert(cs64 as int <= COORD_LIMIT && 2 * (cs64 as int) * (cs64 as int) <= radius * radius)
                by (nonlinear_arith)
                requires
                    is_sqrt_floor(radius * radius / 2, cs64 as int),
                    radius * radius == 2 * (radius * radius / 2) + (radius * radius) % 2,
                    0 <= (radius * radius) % 2 < 2,
                    radius * radius <= COORD_LIMIT * COORD_LIMIT,
                    1 <= cs64 as int,
            ;
        }
        let cs: i64 = cs64 as i64;
        let wnum: i64 = tr.x - bl.x + cs - 1;
        let hnum: i64 = tr.y - bl.y + cs - 1;
        let w64: u64 = (wnum as u64) / (cs as u64);
        let h64: u64 = (hnum as u64) / (cs as u64);
        proof {
            assert(w64 as int == grid_width_of(radius as int, bl, tr));
            assert(h64 as int == grid_height_of(radius as int, bl, tr));
            // each dimension is at least 1, so each is at most the product
            lemma_div_pos_is_pos(tr.x - bl.x + cs - 1, cs as int);
            lemma_div_pos_is_pos(tr.y - bl.y + cs - 1, cs as int);
            assert(1 <= w64 as int) by {
                lemma_div_is_ordered(cs as int, tr.x - bl.x + cs - 1, cs as int);
                assert((cs as int) / (cs as int) == 1) by (nonlinear_arith)
                    requires 1 <= cs as int,
                ;
            }
            assert(1 <= h64 as int) by {
                lemma_div_is_ordered(cs as int, tr.y - bl.y + cs - 1, cs as int);
                assert((cs as int) / (cs as int) == 1) by (nonlinear_arith)
                    requires 1 <= cs as int,
                ;
            }
            assert(w64 as int <= MAX_CELLS && h64 as int <= MAX_CELLS
                && (w64 as int) * (h64 as int) <= MAX_CELLS) by (nonlinear_arith)
                requires
                    1 <= w64 as int,
                    1 <= h64 as int,
                    (w64 as int) * (h64 as int) <= MAX_CELLS,
            ;
        }
        let width: usize = w64 as usize;
        let height: usize = h64 as usize;
        let n: usize = width * height;
        let cells: Vec<Option<Vec2>> = vec![None; n];
        Grid { cells, width, height, cell_size: cs, radius, bottom_left: bl, top_right: tr }
    }

    /// Returns the cell coordinates of `pos`, or `None` when `pos` lies on
    /// or outside the domain boundary.
    pub fn get_cell(&self, pos: Vec2) -> (r: Option<(usize, usize)>)
        requires
            self.wf_dims(),
            bounded(pos),
        ensures
            match r {
                None => !self.in_domain(pos),
                Some(wh) => {
                    &&& self.in_domain(pos)
                    &&& wh.0 as int == self.cell_x(pos)
                    &&& wh.1 as int == self.cell_y(pos)
                    &&& wh.0 < self.width
                    &&& wh.1 < self.height
                },
            },
    {
        if pos.x >= self.top_right.x || pos.x <= self.bottom_left.x || pos.y >= self.top_right.y
            || pos.y <= self.bottom_left.y {
            return None;
        }
        let dx: u64 = (pos.x - self.bottom_left.x) as u64;
        let dy: u64 = (pos.y - self.bottom_left.y) as u64;
        let cs: u64 = self.cell_size as u64;
        let w: u64 = dx / cs;
        let h: u64 = dy / cs;
        proof {
            let csi = self.cell_size as int;
            lemma_div_pos_is_pos(dx as int, csi);
            lemma_div_pos_is_pos(dy as int, csi);
            // a point strictly below the upper edge lands in the last column
            // at most: (span - 1) / cs == width - 1
            lemma_div_is_ordered(dx as int, self.top_right.x - self.bottom_left.x - 1, csi);
            lemma_div_plus_one(self.top_right.x - self.bottom_left.x - 1, csi);
            assert(self.width as int == 1 + (self.top_right.x - self.bottom_left.x - 1) / csi);
            lemma_div_is_ordered(dy as int, self.top_right.y - self.bottom_left.y - 1, csi);
            lemma_div_plus_one(self.top_right.y - self.bottom_left.y - 1, csi);
            assert(self.height as int == 1 + (self.top_right.y - self.bottom_left.y - 1) / csi);
        }
        Some((w as usize, h as usize))
    }

    /// Returns the flat cell index of `pos`, or `None` when `pos` lies on or
    /// outside the domain boundary.
    pub fn get_index(&self, pos: Vec2) -> (r: Option<usize>)
        requires
            self.wf_dims(),
            bounded(pos),
        ensures
            match r {
                None => !self.in_domain(pos),
                Some(i) => {
                    &&& self.in_domain(pos)
                    &&& i as int == self.cell_index_of(pos)
                    &&& i < self.cells@.len()
                },
            },
    {
        match self.get_cell(pos) {
            None => None,
            Some((w, h)) => {
                proof {
                    assert((h as int) * (self.width as int) + (w as int) < (self.width as int) * (self.height as int)
                        && (h as int) * (self.width as int) + (w as int) == (w as int) + (h as int) * (self.width as int))
                        by (nonlinear_arith)
                        requires
                            0 <= (w as int) < (self.width as int),
                            0 <= (h as int) < (self.height as int),
                    ;
                }
                Some(w + h * self.width)
            },
        }
    }

    /// Writes `pos` into its cell and returns the flat index, or returns
    /// `None` and leaves the grid unchanged when `pos` is on or outside the
    /// domain boundary.
    pub fn insert(&mut self, pos: Vec2) -> (r: Option<usize>)
        requires
            old(self).wf_dims(),
            bounded(pos),
        ensures
            final(self).wf_dims(),
            final(self).width == old(self).width,
            final(self).height == old(self).height,
            final(self).cell_size == old(self).cell_size,
            final(self).radius == old(self).radius,
            final(self).bottom_left == old(self).bottom_left,
            final(self).top_right == old(self).top_right,
            match r {
                None => !old(self).in_domain(pos) && *final(self) == *old(self),
                Some(i) => {
                    &&& old(self).in_domain(pos)
                    &&& i as int == old(self).cell_index_of(pos)
                    &&& i < old(self).cells@.len()
                    &&& final(self).cells@ == old(self).cells@.update(i as int, Some(pos))
                },
            },
    {
        match self.get_index(pos) {
            None => None,
            Some(i) => {
                self.cells.set(i, Some(pos));
                Some(i)
            },
        }
    }

    /// Returns the occupant of a cell, or `None` when the cell is empty or
    /// the index is out of range.
    pub fn get(&self, index: usize) -> (r: Option<Vec2>)
        ensures
            r == if index < self.cells@.len() {
                self.cells@[index as int]
            } else {
                None::<Vec2>
            },
    {
        if index < self.cells.len() {
            self.cells[index]
        } else {
            None
        }
    }

    /// No stored point conflicts with `q`: every occupied cell holds a point
    /// farther from `q` than the radius.
    pub open spec fn no_conflict(self, q: Vec2) -> bool {
        forall|i: int|
            0 <= i < self.cells@.len() ==> (#[trigger] self.cells@[i] matches Some(p)
                ==> dist_sq(p, q) > self.radius * self.radius)
    }

    /// An in-domain point has cell coordinates inside the grid.
    pub proof fn lemma_cell_range(self, p: Vec2)
        requires
            self.wf_dims(),
            self.in_domain(p),
        ensures
            0 <= self.cell_x(p) < self.width,
            0 <= self.cell_y(p) < self.height,
            0 <= self.cell_index_of(p) < self.cells@.len(),
    {
        let csi = self.cell_size as int;
        let ax = p.x - self.bottom_left.x;
        let ay = p.y - self.bottom_left.y;
        lemma_div_pos_is_pos(ax, csi);
        lemma_div_pos_is_pos(ay, csi);
        lemma_div_is_ordered(ax, self.top_right.x - self.bottom_left.x - 1, csi);
        lemma_div_plus_one(self.top_right.x - self.bottom_left.x - 1, csi);
        lemma_div_is_ordered(ay, self.top_right.y - self.bottom_left.y - 1, csi);
        lemma_div_plus_one(self.top_right.y - self.bottom_left.y - 1, csi);
        assert(self.cell_x(p) + self.cell_y(p) * self.width < self.width * self.height)
            by (nonlinear_arith)
            requires
                0 <= self.cell_x(p) < self.width as int,
                0 <= self.cell_y(p) < self.height as int,
        ;
        assert(0 <= self.cell_index_of(p)) by (nonlinear_arith)
            requires
                0 <= self.cell_x(p),
                0 <= self.cell_y(p),
                0 <= self.width as int,
        ;
    }

    /// Two in-domain points in the same cell lie strictly closer than the
    /// radius: the cell side was chosen so a cell diagonal stays below it.
    pub proof fn lemma_same_cell_close(self, p: Vec2, q: Vec2)
        requires
            self.wf_dims(),
            self.in_domain(p),
            self.in_domain(q),
            self.cell_x(p) == self.cell_x(q),
            self.cell_y(p) == self.cell_y(q),
        ensures
            dist_sq(p, q) < self.radius * self.radius,
    {
        let csi = self.cell_size as int;
        lemma_same_quot(p.x - self.bottom_left.x, q.x - self.bottom_left.x, csi);
        lemma_same_quot(p.y - self.bottom_left.y, q.y - self.bottom_left.y, csi);
        assert(dist_sq(p, q) < self.radius * self.radius) by (nonlinear_arith)
            requires
                -csi < p.x - q.x < csi,
                -csi < p.y - q.y < csi,
                2 * csi * csi <= (self.radius as int) * (self.radius as int),
                1 <= csi,
        ;
    }

    /// When no stored point conflicts with an in-domain `pos`, the cell of
    /// `pos` itself is still empty, so inserting `pos` overwrites nothing.
    pub proof fn lemma_free_cell(self, pos: Vec2)
        requires
            self.wf(),
            self.in_domain(pos),
            self.no_conflict(pos),
        ensures
            self.cells@[self.cell_index_of(pos)] is None,
    {
        self.lemma_cell_range(pos);
        let i = self.cell_index_of(pos);
        if self.cells@[i] is Some {
            let p = self.cells@[i]->Some_0;
            lemma_decomp_unique(
                self.cell_x(p),
                self.cell_y(p),
                self.cell_x(pos),
                self.cell_y(pos),
                self.width as int,
            );
            self.lemma_same_cell_close(p, pos);
        }
    }

    /// Answers whether `pos` may be accepted: it must lie strictly inside
    /// the domain and farther than the radius from every stored point. Only
    /// cells within `radius / cell_size + 1` columns and rows of the cell of
    /// `pos` are scanned; the cell side makes that neighborhood sufficient.
    pub fn can_insert(&self, pos: Vec2) -> (b: bool)
        requires
            self.wf(),
            bounded(pos),
        ensures
            b == (self.in_domain(pos) && self.no_conflict(pos)),
    {
        let (cw, ch) = match self.get_cell(pos) {
            None => {
                return false;
            },
            Some(wh) => wh,
        };
        proof {
            lemma_div_pos_is_pos(self.radius as int, self.cell_size as int);
            lemma_div_is_ordered(self.radius as int, COORD_LIMIT as int, self.cell_size as int);
            lemma_div_is_ordered_by_denominator(COORD_LIMIT as int, 1, self.cell_size as int);
        }
        let m: usize = ((self.radius as u64) / (self.cell_size as u64)) as usize + 1;
        let w_lo: usize = if cw > m {
            cw - m
        } else {
            0
        };
        let w_hi: usize = if cw + m + 1 < self.width {
            cw + m + 1
        } else {
            self.width
        };
        let h_lo: usize = if ch > m {
            ch - m
        } else {
            0
        };
        let h_hi: usize = if ch + m + 1 < self.height {
            ch + m + 1
        } else {
            self.height
        };
        proof {
            assert(2 <= (self.radius as int) * (self.radius as int) <= COORD_LIMIT * COORD_LIMIT)
                by (nonlinear_arith)
                requires
                    2 <= self.radius as int <= COORD_LIMIT,
            ;
        }
        let rr: i64 = self.radius * self.radius;
        let mut w: usize = w_lo;
        while w < w_hi
            invariant
                self.wf(),
                bounded(pos),
                self.in_domain(pos),
                cw as int == self.cell_x(pos),
                ch as int == self.cell_y(pos),
                cw < self.width,
                ch < self.height,
                m as int == (self.radius as int) / (self.cell_size as int) + 1,
                w_lo as int == if (cw as int) > (m as int) { cw as int - m as int } else { 0int },
                w_hi as int == if (cw as int) + (m as int) + 1 < (self.width as int) { cw as int + m as int + 1 } else { self.width as int },
                h_lo as int == if (ch as int) > (m as int) { ch as int - m as int } else { 0int },
                h_hi as int == if (ch as int) + (m as int) + 1 < (self.height as int) { ch as int + m as int + 1 } else { self.height as int },
                w_lo <= w <= w_hi,
                w_hi <= self.width,
                h_lo <= h_hi <= self.height,
                rr as int == (self.radius as int) * (self.radius as int),
                self.clear_rect(pos, w_lo as int, w as int, h_lo as int, h_hi as int),
            decreases w_hi - w,
        {
            let mut h: usize = h_lo;
            while h < h_hi
                invariant
                    self.wf(),
                    bounded(pos),
                    self.in_domain(pos),
                    cw as int == self.cell_x(pos),
                    ch as int == self.cell_y(pos),
                    w < self.width,
                    h_lo <= h <= h_hi,
                    h_hi <= self.height,
                    rr as int == (self.radius as int) * (self.radius as int),
                    self.clear_rect(pos, w_lo as int, w as int, h_lo as int, h_hi as int),
                    self.clear_rect(pos, w as int, w as int + 1, h_lo as int, h as int),
                decreases h_hi - h,
            {
                proof {
                    assert((h as int) * (self.width as int) + (w as int)
                        < (self.width as int) * (self.height as int)) by (nonlinear_arith)
                        requires
                            0 <= (w as int) < (self.width as int),
                            0 <= (h as int) < (self.height as int),
                    ;
                }
                let idx: usize = h * self.width + w;
                match self.get(idx) {
                    Some(p) => {
                        proof {
                            lemma_decomp_unique(
                                self.cell_x(p),
                                self.cell_y(p),
                                w as int,
                                h as int,
                                self.width as int,
                            );
                        }
                        let d = dist_sq_i64(p, pos);
                        if d <= rr {
                            proof {
                                assert(!self.no_conflict(pos)) by {
                                    assert(self.cells@[idx as int] is Some
                                        && !(dist_sq(self.cells@[idx as int]->Some_0, pos)
                                            > (self.radius as int) * (self.radius as int)));
                                }
                            }
                            return false;
                        }
                        proof {
                            assert forall|i: int|
                                0 <= i < self.cells@.len() implies (#[trigger] self.cells@[i] matches Some(pp) ==> {
                                    ((w as int) <= self.cell_x(pp) < (w as int) + 1
                                        && (h_lo as int) <= self.cell_y(pp) < (h as int) + 1)
                                        ==> dist_sq(pp, pos) > self.radius * self.radius
                                }) by {
                                if self.cells@[i] is Some {
                                    let pp = self.cells@[i]->Some_0;
                                    if (w as int) <= self.cell_x(pp) < (w as int) + 1
                                        && (h_lo as int) <= self.cell_y(pp) < (h as int) + 1 {
                                        if self.cell_y(pp) == h as int {
                                            lemma_decomp_unique(
                                                self.cell_x(pp),
                                                self.cell_y(pp),
                                                w as int,
                                                h as int,
                                                self.width as int,
                                            );
                                        }
                                    }
                                }
                            }
                        }
                    },
                    None => {
                        proof {
                            assert forall|i: int|
                                0 <= i < self.cells@.len() implies (#[trigger] self.cells@[i] matches Some(pp) ==> {
                                    ((w as int) <= self.cell_x(pp) < (w as int) + 1
                                        && (h_lo as int) <= self.cell_y(pp) < (h as int) + 1)
                                        ==> dist_sq(pp, pos) > self.radius * self.radius
                                }) by {
                                if self.cells@[i] is Some {
                                    let pp = self.cells@[i]->Some_0;
                                    if (w as int) <= self.cell_x(pp) < (w as int) + 1
                                        && (h_lo as int) <= self.cell_y(pp) < (h as int) + 1 {
                                        if self.cell_y(pp) == h as int {
                                            lemma_decomp_unique(
                                                self.cell_x(pp),
                                                self.cell_y(pp),
                                                w as int,
                                                h as int,
                                                self.width as int,
                                            );
                                        }
                                    }
                                }
                            }
                        }
                    },
                }
                h += 1;
            }
            w += 1;
        }
        proof {
            assert forall|i: int|
                0 <= i < self.cells@.len() implies (#[trigger] self.cells@[i] matches Some(p)
                    ==> dist_sq(p, pos) > self.radius * self.radius) by {
                if self.cells@[i] is Some {
                    let p = self.cells@[i]->Some_0;
                    if dist_sq(p, pos) <= (self.radius as int) * (self.radius as int) {
                        lemma_component_bound(p, pos, self.radius as int);
                        lemma_quot_diff(
                            p.x - self.bottom_left.x,
                            pos.x - self.bottom_left.x,
                            self.cell_size as int,
                            self.radius as int,
                        );
                        lemma_quot_diff(
                            p.y - self.bottom_left.y,
                            pos.y - self.bottom_left.y,
                            self.cell_size as int,
                            self.radius as int,
                        );
                        assert(w_lo as int <= self.cell_x(p) < w_hi as int);
                        assert(h_lo as int <= self.cell_y(p) < h_hi as int);
                        assert(false);
                    }
                }
            }
        }
        true
    }
}

} // verus!
