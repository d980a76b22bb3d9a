//! Fixed-point 2D coordinates and squared-distance arithmetic.

use vstd::prelude::*;

verus! {

/// Largest magnitude allowed for a domain corner coordinate or a sampling
/// radius. Keeping domain values this small lets every squared distance the
/// sampler computes fit comfortably in an `i64`.
pub const COORD_LIMIT: i64 = 1_000_000;

/// Largest magnitude a coordinate can reach anywhere in the sampler: a point
/// of the domain plus a proposal offset of at most twice the radius. The
/// fixed-point model does not represent positions beyond this bound: grid
/// queries require their argument to stay within it, where an unbounded
/// model would simply report such a position as out of the domain.
pub const VALUE_LIMIT: i64 = 8_000_000;

/// A 2D position or offset in fixed-point coordinates.
#[derive(Clone, Copy, PartialEq, Eq, Structural, Debug)]
pub struct Vec2 {
    pub x: i64,
    pub y: i64,
}

/// Squared Euclidean length of `v`.
pub open spec fn len_sq(v: Vec2) -> int {
    v.x * v.x + v.y * v.y
}

/// Squared Euclidean distance between `p` and `q`.
pub open spec fn dist_sq(p: Vec2, q: Vec2) -> int {
    (p.x - q.x) * (p.x - q.x) + (p.y - q.y) * (p.y - q.y)
}

/// The point reached from `p` by the offset `off`, when both sums fit the
/// coordinate type.
pub open spec fn shifted(p: Vec2, off: Vec2) -> Vec2 {
    Vec2 { x: (p.x + off.x) as i64, y: (p.y + off.y) as i64 }
}

/// Both components of `v` have magnitude at most `VALUE_LIMIT`.
pub open spec fn bounded(v: Vec2) -> bool {
    &&& -VALUE_LIMIT <= v.x <= VALUE_LIMIT
    &&& -VALUE_LIMIT <= v.y <= VALUE_LIMIT
}

impl Vec2 {
    /// Builds a vector from its two components.
    pub fn new(x: i64, y: i64) -> (v: Vec2)
        ensures
            v.x == x,
            v.y == y,
    {
        Vec2 { x, y }
    }
}

/// Computes the squared distance between two bounded points exactly.
pub fn dist_sq_i64(p: Vec2, q: Vec2) -> (r: i64)
    requires
        bounded(p),
        bounded(q),
    ensures
        r == dist_sq(p, q),
{
    let dx = p.x - q.x;
    let dy = p.y - q.y;
    proof {
        assert(dx * dx + dy * dy <= 2 * (2 * VALUE_LIMIT) * (2 * VALUE_LIMIT)
            && 0 <= dx * dx && 0 <= dy * dy) by (nonlinear_arith)
            requires
                -2 * VALUE_LIMIT <= dx <= 2 * VALUE_LIMIT,
                -2 * VALUE_LIMIT <= dy <= 2 * VALUE_LIMIT,
        ;
    }
    dx * dx + dy * dy
}

/// A squared quantity bounds each of its parts: if the squared distance
/// between two points is at most `r * r`, each coordinate difference has
/// magnitude at most `r`.
pub proof fn lemma_component_bound(p: Vec2, q: Vec2, r: int)
    requires
        0 <= r,
        dist_sq(p, q) <= r * r,
    ensures
        -r <= p.x - q.x <= r,
        -r <= p.y - q.y <= r,
{
    assert(-r <= p.x - q.x <= r && -r <= p.y - q.y <= r) by (nonlinear_arith)
        requires
            0 <= r,
            (p.x - q.x) * (p.x - q.x) + (p.y - q.y) * (p.y - q.y) <= r * r,
    ;
}

/// Shifting a point by an offset moves it by exactly the offset's length,
/// as long as the sums stay inside the coordinate range.
pub proof fn lemma_shift_dist(p: Vec2, off: Vec2)
    requires
        -COORD_LIMIT <= p.x <= COORD_LIMIT,
        -COORD_LIMIT <= p.y <= COORD_LIMIT,
        -2 * COORD_LIMIT <= off.x <= 2 * COORD_LIMIT,
        -2 * COORD_LIMIT <= off.y <= 2 * COORD_LIMIT,
    ensures
        dist_sq(shifted(p, off), p) == len_sq(off),
{
    assert(shifted(p, off).x == p.x + off.x);
    assert(shifted(p, off).y == p.y + off.y);
    assert(dist_sq(shifted(p, off), p) == len_sq(off)) by (nonlinear_arith)
        requires
            shifted(p, off).x == p.x + off.x,
            shifted(p, off).y == p.y + off.y,
    ;
}

/// A point is at squared distance zero only from itself, so any positive
/// separation makes two points distinct.
pub proof fn lemma_dist_sq_zero(p: Vec2, q: Vec2)
    ensures
        dist_sq(p, q) == 0 <==> p == q,
        dist_sq(p, q) >= 0,
{
    assert(dist_sq(p, q) >= 0) by (nonlinear_arith);
    if dist_sq(p, q) == 0 {
        assert(p.x == q.x && p.y == q.y) by (nonlinear_arith)
            requires
                (p.x - q.x) * (p.x - q.x) + (p.y - q.y) * (p.y - q.y) == 0,
        ;
    }
    if p == q {
        assert(dist_sq(p, q) == 0) by (nonlinear_arith)
            requires
                p.x == q.x,
                p.y == q.y,
        ;
    }
}

} // verus!
