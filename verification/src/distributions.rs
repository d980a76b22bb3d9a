//! Offset distribution over a ring around the origin.

use vstd::prelude::*;
use crate::vec2::{Vec2, COORD_LIMIT, len_sq};
use crate::rng::gen_range_i64;

verus! {

/// How many rejection draws `sample` makes before falling back to a fixed
/// in-ring offset. For a ring `[r, 2r]` a draw lands inside with probability
/// about 0.59, so the fallback is effectively unreachable.
pub const SAMPLE_ATTEMPTS: u32 = 64;

/// Samples offset vectors whose length lies in a ring `[low, high]` around
/// the origin, uniformly over the ring's area: a draw is taken uniformly over
/// the enclosing square and kept only when it lands inside the ring, which
/// preserves the uniform area density.
pub struct AnnulusDistribution {
    low: i64,
    high: i64,
}

impl AnnulusDistribution {
    /// Inner ring radius.
    pub closed spec fn low_spec(&self) -> int {
        self.low as int
    }

    /// Outer ring radius.
    pub closed spec fn high_spec(&self) -> int {
        self.high as int
    }

    /// The ring's radii are positive, ordered, and small enough that all
    /// squared lengths fit in `i64` arithmetic.
    pub open spec fn wf(&self) -> bool {
        1 <= self.low_spec() <= self.high_spec() <= 2 * COORD_LIMIT
    }

    /// Builds the distribution over the ring of inner radius `low` and outer
    /// radius `high`.
    pub fn new(low: i64, high: i64) -> (d: AnnulusDistribution)
        requires
            1 <= low <= high <= 2 * COORD_LIMIT,
        ensures
            d.wf(),
            d.low_spec() == low,
            d.high_spec() == high,
    {
        AnnulusDistribution { low, high }
    }

    /// Draws one offset whose length lies in the ring: its squared length is
    /// between the squares of the inner and outer radii, and each component
    /// is bounded by the outer radius.
    pub fn sample(&self, rng: &mut rand::rngs::StdRng) -> (v: Vec2)
        requires
            self.wf(),
        ensures
            self.low_spec() * self.low_spec() <= len_sq(v),
            len_sq(v) <= self.high_spec() * self.high_spec(),
            -self.high_spec() <= v.x <= self.high_spec(),
            -self.high_spec() <= v.y <= self.high_spec(),
    {
        proof {
            assert(1 <= self.low_spec() * self.low_spec()
                && self.low_spec() * self.low_spec() <= self.high_spec() * self.high_spec()
                && self.high_spec() * self.high_spec() <= 4 * COORD_LIMIT * COORD_LIMIT)
                by (nonlinear_arith)
                requires
                    1 <= self.low_spec() <= self.high_spec() <= 2 * COORD_LIMIT,
            ;
        }
        let low_sq = self.low * self.low;
        let high_sq = self.high * self.high;
        let mut attempt: u32 = 0;
        while attempt < SAMPLE_ATTEMPTS
            invariant
                self.wf(),
                low_sq == self.low_spec() * self.low_spec(),
                high_sq == self.high_spec() * self.high_spec(),
            decreases SAMPLE_ATTEMPTS - attempt,
        {
            let dx = gen_range_i64(rng, -self.high, self.high);
            let dy = gen_range_i64(rng, -self.high, self.high);
            proof {
                assert(0 <= dx * dx && 0 <= dy * dy
                    && dx * dx + dy * dy <= 2 * (2 * COORD_LIMIT) * (2 * COORD_LIMIT))
                    by (nonlinear_arith)
                    requires
                        -2 * COORD_LIMIT <= dx <= 2 * COORD_LIMIT,
                        -2 * COORD_LIMIT <= dy <= 2 * COORD_LIMIT,
                ;
            }
            let s = dx * dx + dy * dy;
            if low_sq <= s && s <= high_sq {
                return Vec2 { x: dx, y: dy };
            }
            attempt += 1;
        }
        proof {
            assert(self.low_spec() * self.low_spec() <= self.high_spec() * self.high_spec())
                by (nonlinear_arith)
                requires
                    1 <= self.low_spec() <= self.high_spec(),
            ;
        }
        Vec2 { x: self.low, y: 0 }
    }
}

} // verus!
