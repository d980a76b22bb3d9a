//! Dart-throwing active-list Poisson-disk sampler and its pull-based wrapper.

use vstd::prelude::*;
use crate::vec2::{Vec2, COORD_LIMIT, dist_sq, lemma_dist_sq_zero, lemma_shift_dist, shifted};
use crate::grid::{Grid, grid_height_of, grid_width_of, session_ok};
use crate::distributions::AnnulusDistribution;
use crate::rng::{gen_range_i64, gen_index};
use vstd::set_lib::{set_int_range, lemma_int_range, lemma_len_subset};

verus! {

/// How many candidate proposals are tried around one active point before it
/// is retired from the active set.
pub const PROPOSAL_ATTEMPTS: u32 = 30;

/// A sampling algorithm driven by `init` once and then `next` until it
/// signals termination with `None`.
pub trait PoissonDiskAlgorithm: Sized {
    /// Invariant of the algorithm state.
    spec fn wf(&self) -> bool;

    /// The state is fresh: `init` has not run yet.
    spec fn not_started(&self) -> bool;

    /// The points emitted so far, in order of emission.
    spec fn emitted(&self) -> Seq<Vec2>;

    /// Squared separation threshold: any two emitted points are strictly
    /// farther apart than this.
    spec fn sep_sq(&self) -> int;

    /// The region every emitted point lies in.
    spec fn in_domain(&self, p: Vec2) -> bool;

    /// The session has started and no further point will be emitted. A
    /// fresh state is not exhausted: its first pull still yields the seed.
    spec fn exhausted(&self) -> bool;

    /// Upper bound on how many points one session can ever emit; a sampling
    /// step never changes it.
    spec fn capacity(&self) -> int;

    /// The emitted points are pairwise separated and lie in the domain.
    proof fn lemma_emitted_ok(&self)
        requires
            self.wf(),
        ensures
            0 <= self.sep_sq(),
            self.emitted().len() <= self.capacity(),
            forall|t: int|
                0 <= t < self.emitted().len() ==> self.in_domain(#[trigger] self.emitted()[t]),
            forall|t1: int, t2: int|
                #![trigger self.emitted()[t1], self.emitted()[t2]]
                0 <= t1 < self.emitted().len() && 0 <= t2 < self.emitted().len() && t1 != t2
                    ==> dist_sq(self.emitted()[t1], self.emitted()[t2]) > self.sep_sq(),
    ;

    /// Seeds the session with its first point. Shall be called only once.
    fn init(&mut self, rng: &mut rand::rngs::StdRng) -> (r: Option<Vec2>)
        requires
            old(self).wf(),
            old(self).not_started(),
        ensures
            final(self).wf(),
            !final(self).not_started(),
            final(self).sep_sq() == old(self).sep_sq(),
            final(self).capacity() == old(self).capacity(),
            forall|p: Vec2| (#[trigger] final(self).in_domain(p)) == old(self).in_domain(p),
            match r {
                Some(p) => final(self).emitted() == old(self).emitted().push(p)
                    && !final(self).exhausted(),
                None => final(self).emitted() == old(self).emitted() && final(self).exhausted(),
            },
    ;

    /// Emits the next accepted point, or returns `None` once the active set
    /// is exhausted; from then on every call returns `None` and leaves the
    /// state unchanged.
    fn next(&mut self, rng: &mut rand::rngs::StdRng) -> (r: Option<Vec2>)
        requires
            old(self).wf(),
            !old(self).not_started(),
        ensures
            final(self).wf(),
            !final(self).not_started(),
            final(self).sep_sq() == old(self).sep_sq(),
            final(self).capacity() == old(self).capacity(),
            forall|p: Vec2| (#[trigger] final(self).in_domain(p)) == old(self).in_domain(p),
            old(self).exhausted() ==> *final(self) == *old(self),
            match r {
                Some(p) => final(self).emitted() == old(self).emitted().push(p)
                    && !old(self).exhausted() && !final(self).exhausted(),
                None => final(self).emitted() == old(self).emitted() && final(self).exhausted(),
            },
    ;
}

/// The grid-accelerated dart-throwing sampler after Bridson: one seed point,
/// then bounded annulus proposals around randomly chosen active points.
///
/// The seed is drawn uniformly over the strict interior of the box, so a
/// draw can never land on the boundary and the session always starts with
/// one accepted point.
pub struct RobertBridson {
    /// Spatial grid holding every accepted point.
    pub grid: Grid,
    /// Active set: flat grid indices of accepted points that may still spawn
    /// proposals. Order is not meaningful; removal swaps with the last slot.
    pub indices: Vec<usize>,
    /// Proposal offsets: lengths in `[radius, 2 * radius]`.
    pub annulus_distr: AnnulusDistribution,
    /// History of accepted points, in order of emission.
    pub emitted: Ghost<Seq<Vec2>>,
}

impl RobertBridson {
    /// Builds a sampler for one session over the open box
    /// `(extent[0], extent[1])` with minimum separation `radius`.
    pub fn new(radius: i64, extent: [Vec2; 2]) -> (alg: RobertBridson)
        requires
            session_ok(radius as int, extent[0], extent[1]),
        ensures
            alg.wf(),
            alg.not_started(),
            alg.grid.radius == radius,
            alg.grid.bottom_left == extent[0],
            alg.grid.top_right == extent[1],
            alg.emitted@.len() == 0,
            alg.capacity() == grid_width_of(radius as int, extent[0], extent[1])
                * grid_height_of(radius as int, extent[0], extent[1]),
    {
        let grid = Grid::new(radius, extent);
        let annulus_distr = AnnulusDistribution::new(radius, 2 * radius);
        RobertBridson {
            grid,
            indices: Vec::new(),
            annulus_distr,
            emitted: Ghost(Seq::empty()),
        }
    }

    /// Decides one dart throw deterministically: the point `active` plus
    /// `offset` is accepted if and only if it lies strictly inside the
    /// domain and conflicts with no stored point. On acceptance the
    /// candidate joins the grid, the active set and the emitted history; on
    /// rejection nothing changes. Randomness only chooses the arguments, so
    /// equal states and arguments always decide alike.
    pub fn try_candidate(&mut self, active: Vec2, offset: Vec2) -> (r: Option<Vec2>)
        requires
            old(self).wf(),
            old(self).grid.in_domain(active),
            -2 * COORD_LIMIT <= offset.x <= 2 * COORD_LIMIT,
            -2 * COORD_LIMIT <= offset.y <= 2 * COORD_LIMIT,
        ensures
            final(self).wf(),
            final(self).grid.radius == old(self).grid.radius,
            final(self).grid.cell_size == old(self).grid.cell_size,
            final(self).grid.width == old(self).grid.width,
            final(self).grid.height == old(self).grid.height,
            final(self).grid.bottom_left == old(self).grid.bottom_left,
            final(self).grid.top_right == old(self).grid.top_right,
            final(self).annulus_distr == old(self).annulus_distr,
            match r {
                Some(p) => {
                    &&& p == shifted(active, offset)
                    &&& old(self).grid.in_domain(p)
                    &&& old(self).grid.no_conflict(p)
                    &&& old(self).grid.cells@[old(self).grid.cell_index_of(p)] is None
                    &&& final(self).grid.cells@ == old(self).grid.cells@.update(
                        old(self).grid.cell_index_of(p),
                        Some(p),
                    )
                    &&& final(self).indices@ == old(self).indices@.push(
                        old(self).grid.cell_index_of(p) as usize,
                    )
                    &&& final(self).emitted@ == old(self).emitted@.push(p)
                },
                None => *final(self) == *old(self)
                    && !(old(self).grid.in_domain(shifted(active, offset))
                        && old(self).grid.no_conflict(shifted(active, offset))),
            },
    {
        let x = Vec2 { x: active.x + offset.x, y: active.y + offset.y };
        proof {
            assert(x == shifted(active, offset));
        }
        if self.grid.can_insert(x) {
            let ghost pre = *self;
            proof {
                self.grid.lemma_free_cell(x);
                self.grid.lemma_cell_range(x);
            }
            let idx = match self.grid.insert(x) {
                Some(i) => i,
                None => {
                    // an accepted candidate is in the domain
                    proof {
                        assert(false);
                    }
                    return None;
                },
            };
            self.indices.push(idx);
            self.emitted = Ghost(self.emitted@.push(x));
            proof {
                lemma_accept(pre, *self, x, idx);
                assert(idx == pre.grid.cell_index_of(x) as usize);
            }
            Some(x)
        } else {
            None
        }
    }

    /// Every active-set entry indexes an occupied grid cell.
    pub open spec fn active_ok(self) -> bool {
        forall|k: int|
            0 <= k < self.indices@.len() ==> (#[trigger] self.indices@[k] as int)
                < self.grid.cells@.len() && self.grid.cells@[self.indices@[k] as int] is Some
    }

    /// Every emitted point is stored in the grid at its own cell and lies in
    /// the domain.
    pub open spec fn emitted_stored(self) -> bool {
        forall|t: int|
            0 <= t < self.emitted@.len() ==> {
                &&& self.grid.in_domain(#[trigger] self.emitted@[t])
                &&& self.grid.cells@[self.grid.cell_index_of(self.emitted@[t])]
                    == Some(self.emitted@[t])
            }
    }

    /// Any two points emitted at different times are farther apart than the
    /// radius.
    pub open spec fn emitted_separated(self) -> bool {
        forall|t1: int, t2: int|
            #![trigger self.emitted@[t1], self.emitted@[t2]]
            0 <= t1 < self.emitted@.len() && 0 <= t2 < self.emitted@.len() && t1 != t2
                ==> dist_sq(self.emitted@[t1], self.emitted@[t2])
                    > (self.grid.radius as int) * (self.grid.radius as int)
    }
}

impl PoissonDiskAlgorithm for RobertBridson {
    open spec fn wf(&self) -> bool {
        &&& self.grid.wf()
        &&& self.annulus_distr.wf()
        &&& self.annulus_distr.low_spec() == self.grid.radius as int
        &&& self.annulus_distr.high_spec() == 2 * (self.grid.radius as int)
        &&& self.active_ok()
        &&& self.emitted_stored()
        &&& self.emitted_separated()
    }

    open spec fn not_started(&self) -> bool {
        &&& self.indices@.len() == 0
        &&& self.emitted@.len() == 0
        &&& forall|i: int| 0 <= i < self.grid.cells@.len() ==> #[trigger] self.grid.cells@[i] is None
    }

    open spec fn emitted(&self) -> Seq<Vec2> {
        self.emitted@
    }

    open spec fn sep_sq(&self) -> int {
        (self.grid.radius as int) * (self.grid.radius as int)
    }

    open spec fn in_domain(&self, p: Vec2) -> bool {
        self.grid.in_domain(p)
    }

    open spec fn exhausted(&self) -> bool {
        &&& !self.not_started()
        &&& self.indices@.len() == 0
    }

    open spec fn capacity(&self) -> int {
        self.grid.cells@.len() as int
    }

    proof fn lemma_emitted_ok(&self) {
        assert(0 <= (self.grid.radius as int) * (self.grid.radius as int)) by (nonlinear_arith)
            requires
                2 <= self.grid.radius as int,
        ;
        self.lemma_emitted_bounded();
    }

    fn init(&mut self, rng: &mut rand::rngs::StdRng) -> (r: Option<Vec2>)
        ensures
            r is Some,
            final(self).grid.bottom_left == old(self).grid.bottom_left,
            final(self).grid.top_right == old(self).grid.top_right,
            final(self).grid.radius == old(self).grid.radius,
            r matches Some(p) ==> {
                &&& old(self).grid.in_domain(p)
                &&& final(self).grid.cells@ == old(self).grid.cells@.update(
                    final(self).grid.cell_index_of(p),
                    Some(p),
                )
                &&& final(self).indices@.len() == 1
                &&& final(self).indices@[0] as int == final(self).grid.cell_index_of(p)
            },
    {
        let bl = self.grid.bottom_left;
        let tr = self.grid.top_right;
        let sx = gen_range_i64(rng, bl.x + 1, tr.x - 1);
        let sy = gen_range_i64(rng, bl.y + 1, tr.y - 1);
        let x0 = Vec2 { x: sx, y: sy };
        let ghost old_grid = self.grid;
        let idx = match self.grid.insert(x0) {
            Some(i) => i,
            None => {
                // the seed was drawn strictly inside the box
                proof {
                    assert(false);
                }
                return None;
            },
        };
        self.indices.push(idx);
        proof {
            self.grid.lemma_cell_range(x0);
        }
        self.emitted = Ghost(self.emitted@.push(x0));
        proof {
            assert forall|i: int, j: int|
                0 <= i < self.grid.cells@.len() && 0 <= j < self.grid.cells@.len() && i != j
                    implies (#[trigger] self.grid.cells@[i] matches Some(p)
                    ==> (#[trigger] self.grid.cells@[j] matches Some(q)
                    ==> dist_sq(p, q) > self.grid.radius * self.grid.radius)) by {
                assert(i != idx as int || j != idx as int);
                assert(old_grid.cells@[i] is None && old_grid.cells@[j] is None);
            }
            assert(self.emitted@ =~= seq![x0]);
        }
        Some(x0)
    }

    fn next(&mut self, rng: &mut rand::rngs::StdRng) -> (r: Option<Vec2>)
        ensures
            final(self).grid.bottom_left == old(self).grid.bottom_left,
            final(self).grid.top_right == old(self).grid.top_right,
            final(self).grid.radius == old(self).grid.radius,
            final(self).grid.cell_size == old(self).grid.cell_size,
            final(self).grid.width == old(self).grid.width,
            final(self).grid.height == old(self).grid.height,
            final(self).grid.cells@.len() == old(self).grid.cells@.len(),
            forall|i: int|
                0 <= i < old(self).grid.cells@.len()
                    && (#[trigger] old(self).grid.cells@[i]) is Some
                    ==> final(self).grid.cells@[i] == old(self).grid.cells@[i],
            r matches Some(p) ==> {
                &&& old(self).grid.in_domain(p)
                &&& old(self).grid.no_conflict(p)
                &&& final(self).grid.cells@[final(self).grid.cell_index_of(p)] == Some(p)
                &&& final(self).indices@.len() >= 1
                &&& final(self).indices@.last() as int == final(self).grid.cell_index_of(p)
                &&& exists|i: int|
                    {
                        &&& 0 <= i < old(self).grid.cells@.len()
                        &&& (#[trigger] old(self).grid.cells@[i]) matches Some(q)
                            && dist_sq(p, q) <= 4 * old(self).sep_sq()
                    }
            },
    {
        if self.indices.len() == 0 {
            return None;
        }
        loop
            invariant
                self.wf(),
                old(self).wf(),
                self.grid == old(self).grid,
                self.annulus_distr == old(self).annulus_distr,
                self.emitted == old(self).emitted,
                old(self).indices@.len() > 0,
            decreases self.indices@.len(),
        {
            if self.indices.len() == 0 {
                proof {
                    assert(old(self).grid.cells@[old(self).indices@[0] as int] is Some);
                }
                return None;
            }
            let k = gen_index(rng, self.indices.len());
            let slot = self.indices[k];
            let xi = match self.grid.get(slot) {
                Some(p) => p,
                None => {
                    // the active set only references occupied cells
                    proof {
                        assert(false);
                    }
                    return None;
                },
            };
            proof {
                assert(self.grid.cells@[slot as int] matches Some(p) && p == xi);
            }
            let ghost inds = self.indices@;
            let mut attempt: u32 = 0;
            while attempt < PROPOSAL_ATTEMPTS
                invariant
                    self.wf(),
                    old(self).wf(),
                    self.grid == old(self).grid,
                    self.annulus_distr == old(self).annulus_distr,
                    self.emitted == old(self).emitted,
                    self.indices@ == inds,
                    self.indices@.len() > 0,
                    old(self).indices@.len() > 0,
                    k < self.indices@.len(),
                    (slot as int) < self.grid.cells@.len(),
                    self.grid.cells@[slot as int] == Some(xi),
                    self.grid.in_domain(xi),
                    attempt <= PROPOSAL_ATTEMPTS,
                decreases PROPOSAL_ATTEMPTS - attempt,
            {
                let off = self.annulus_distr.sample(rng);
                let ghost pre = *self;
                match self.try_candidate(xi, off) {
                    Some(x) => {
                        proof {
                            lemma_shift_dist(xi, off);
                            assert(pre.grid.cells@[slot as int] matches Some(q)
                                && dist_sq(x, q) <= 4 * pre.sep_sq()) by {
                                lemma_dist_sq_symm_vals(x, xi);
                                assert(4 * pre.sep_sq()
                                    == (2 * (pre.grid.radius as int)) * (2 * (pre.grid.radius as int)))
                                    by (nonlinear_arith);
                            }
                            pre.grid.lemma_cell_range(x);
                            assert(self.grid.cell_index_of(x) == pre.grid.cell_index_of(x));
                            assert(self.grid.cells@[self.grid.cell_index_of(x)] == Some(x));
                            assert(self.indices@.last() as int == self.grid.cell_index_of(x));
                            assert forall|i: int|
                                0 <= i < old(self).grid.cells@.len()
                                    && (#[trigger] old(self).grid.cells@[i]) is Some
                                    implies self.grid.cells@[i] == old(self).grid.cells@[i] by {
                                assert(i != pre.grid.cell_index_of(x));
                            }
                            assert(!self.not_started());
                        }
                        return Some(x);
                    },
                    None => {},
                }
                attempt += 1;
            }
            let ghost pre_remove = self.indices@;
            self.indices.swap_remove(k);
            proof {
                assert forall|t: int| 0 <= t < self.indices@.len() implies
                    (#[trigger] self.indices@[t] as int) < self.grid.cells@.len()
                        && self.grid.cells@[self.indices@[t] as int] is Some by {
                    assert(self.indices@[t] == pre_remove[t]
                        || self.indices@[t] == pre_remove[pre_remove.len() - 1]);
                }
            }
        }
    }
}

/// After a successful insertion of an accepted candidate, the sampler's
/// invariant holds again and the candidate joins the emitted history.
proof fn lemma_accept(pre: RobertBridson, post: RobertBridson, x: Vec2, idx: usize)
    requires
        pre.wf(),
        pre.grid.in_domain(x),
        pre.grid.no_conflict(x),
        pre.grid.cells@[pre.grid.cell_index_of(x)] is None,
        idx as int == pre.grid.cell_index_of(x),
        post.grid.cells@ == pre.grid.cells@.update(idx as int, Some(x)),
        post.grid.wf_dims(),
        post.grid.width == pre.grid.width,
        post.grid.height == pre.grid.height,
        post.grid.cell_size == pre.grid.cell_size,
        post.grid.radius == pre.grid.radius,
        post.grid.bottom_left == pre.grid.bottom_left,
        post.grid.top_right == pre.grid.top_right,
        post.indices@ == pre.indices@.push(idx),
        post.emitted@ == pre.emitted@.push(x),
        post.annulus_distr == pre.annulus_distr,
    ensures
        post.wf(),
{
    pre.grid.lemma_cell_range(x);
    // cell coordinates agree between pre and post: they depend only on the
    // scalar fields, which are unchanged
    assert forall|p: Vec2| post.grid.cell_x(p) == pre.grid.cell_x(p)
        && post.grid.cell_y(p) == pre.grid.cell_y(p)
        && #[trigger] post.grid.cell_index_of(p) == pre.grid.cell_index_of(p) by {}
    // the grid stays anchored
    assert forall|i: int|
        0 <= i < post.grid.cells@.len() implies (#[trigger] post.grid.cells@[i] matches Some(p)
            ==> {
            &&& post.grid.in_domain(p)
            &&& 0 <= post.grid.cell_x(p) < post.grid.width
            &&& 0 <= post.grid.cell_y(p) < post.grid.height
            &&& post.grid.cell_index_of(p) == i
        }) by {
        if i == idx as int {
        } else {
            assert(post.grid.cells@[i] == pre.grid.cells@[i]);
        }
    }
    // the grid stays separated: the new point conflicts with nothing stored
    assert forall|i: int, j: int|
        0 <= i < post.grid.cells@.len() && 0 <= j < post.grid.cells@.len() && i != j
            implies (#[trigger] post.grid.cells@[i] matches Some(p)
            ==> (#[trigger] post.grid.cells@[j] matches Some(q)
            ==> dist_sq(p, q) > post.grid.radius * post.grid.radius)) by {
        if post.grid.cells@[i] is Some && post.grid.cells@[j] is Some {
            let p = post.grid.cells@[i]->Some_0;
            let q = post.grid.cells@[j]->Some_0;
            if i == idx as int {
                assert(pre.grid.cells@[j] matches Some(qq) && qq == q);
                lemma_dist_sq_symm_vals(p, q);
            } else if j == idx as int {
                assert(pre.grid.cells@[i] matches Some(pp) && pp == p);
            } else {
                assert(pre.grid.cells@[i] == post.grid.cells@[i]);
                assert(pre.grid.cells@[j] == post.grid.cells@[j]);
            }
        }
    }
    // the active set still references occupied cells
    assert forall|t: int| 0 <= t < post.indices@.len() implies
        (#[trigger] post.indices@[t] as int) < post.grid.cells@.len()
            && post.grid.cells@[post.indices@[t] as int] is Some by {
        if t < pre.indices@.len() {
            assert(post.indices@[t] == pre.indices@[t]);
            assert(pre.indices@[t] as int != idx as int);
        }
    }
    // the emitted history stays stored and separated
    assert forall|t: int| 0 <= t < post.emitted@.len() implies {
        &&& post.grid.in_domain(#[trigger] post.emitted@[t])
        &&& post.grid.cells@[post.grid.cell_index_of(post.emitted@[t])] == Some(post.emitted@[t])
    } by {
        if t < pre.emitted@.len() {
            assert(post.emitted@[t] == pre.emitted@[t]);
            assert(pre.grid.in_domain(pre.emitted@[t]));
            pre.grid.lemma_cell_range(pre.emitted@[t]);
            assert(pre.grid.cells@[pre.grid.cell_index_of(pre.emitted@[t])]
                == Some(pre.emitted@[t]));
            assert(pre.grid.cell_index_of(pre.emitted@[t]) != idx as int);
        } else {
            assert(t == pre.emitted@.len());
            assert(post.emitted@[t] == x);
            assert(post.grid.cells@[idx as int] == Some(x));
        }
    }
    assert forall|t1: int, t2: int|
        #![trigger post.emitted@[t1], post.emitted@[t2]]
        0 <= t1 < post.emitted@.len() && 0 <= t2 < post.emitted@.len() && t1 != t2
            implies dist_sq(post.emitted@[t1], post.emitted@[t2])
                > (post.grid.radius as int) * (post.grid.radius as int) by {
        let e1 = post.emitted@[t1];
        let e2 = post.emitted@[t2];
        if t1 < pre.emitted@.len() && t2 < pre.emitted@.len() {
            assert(e1 == pre.emitted@[t1] && e2 == pre.emitted@[t2]);
        } else if t1 < pre.emitted@.len() {
            // e2 is the new point: e1 is stored, so no conflict with it
            assert(e1 == pre.emitted@[t1]);
            assert(t2 == pre.emitted@.len() && e2 == x);
            pre.grid.lemma_cell_range(pre.emitted@[t1]);
            assert(pre.grid.cells@[pre.grid.cell_index_of(pre.emitted@[t1])]
                == Some(pre.emitted@[t1]));
            assert(dist_sq(e1, x) > pre.grid.radius * pre.grid.radius);
        } else {
            assert(e2 == pre.emitted@[t2]);
            assert(t1 == pre.emitted@.len() && e1 == x);
            pre.grid.lemma_cell_range(pre.emitted@[t2]);
            assert(pre.grid.cells@[pre.grid.cell_index_of(pre.emitted@[t2])]
                == Some(pre.emitted@[t2]));
            assert(dist_sq(e2, x) > pre.grid.radius * pre.grid.radius);
            lemma_dist_sq_symm_vals(e1, e2);
        }
    }
}

impl RobertBridson {
    /// A session is finite: distinct emitted points occupy distinct grid
    /// cells, so no more points can be emitted than the grid has cells.
    pub proof fn lemma_emitted_bounded(&self)
        requires
            self.wf(),
        ensures
            self.emitted@.len() <= self.grid.cells@.len(),
    {
        let n = self.grid.cells@.len() as int;
        let e = self.emitted@;
        let cis = Seq::new(e.len(), |t: int| self.grid.cell_index_of(e[t]));
        assert forall|t1: int, t2: int|
            #![trigger cis[t1], cis[t2]]
            0 <= t1 < cis.len() && 0 <= t2 < cis.len() && t1 != t2 implies cis[t1] != cis[t2] by {
            if self.grid.cell_index_of(e[t1]) == self.grid.cell_index_of(e[t2]) {
                assert(self.grid.cells@[self.grid.cell_index_of(e[t1])] == Some(e[t1]));
                assert(self.grid.cells@[self.grid.cell_index_of(e[t2])] == Some(e[t2]));
                assert(e[t1] == e[t2]);
                lemma_dist_sq_zero(e[t1], e[t2]);
                assert(0 <= (self.grid.radius as int) * (self.grid.radius as int))
                    by (nonlinear_arith)
                    requires
                        2 <= self.grid.radius as int,
                ;
            }
        }
        assert(cis.no_duplicates());
        cis.unique_seq_to_set();
        assert forall|x: int| cis.to_set().contains(x) implies set_int_range(0, n).contains(x) by {
            let t = choose|t: int| 0 <= t < cis.len() && cis[t] == x;
            self.grid.lemma_cell_range(e[t]);
        }
        lemma_int_range(0, n);
        lemma_len_subset(cis.to_set(), set_int_range(0, n));
    }
}

/// Pull-based, single-pass sequence of accepted points: the first pull runs
/// `init`, every later pull runs `next` on the algorithm. A consumed
/// sequence cannot be rewound; a new session needs a new wrapper and
/// algorithm instance.
pub struct PoissonDisk<T: PoissonDiskAlgorithm> {
    /// Randomness source owned for the whole session.
    pub rng: rand::rngs::StdRng,
    /// The algorithm this sequence drives.
    pub poisson_algo: T,
    /// Whether the first pull has already happened.
    pub init: bool,
}

impl<T: PoissonDiskAlgorithm> PoissonDisk<T> {
    /// Invariant of the sequence: the algorithm is well formed, and until
    /// the first pull it is still fresh.
    pub open spec fn wf(self) -> bool {
        &&& self.poisson_algo.wf()
        &&& !self.init ==> self.poisson_algo.not_started()
        &&& self.init ==> !self.poisson_algo.not_started()
    }

    /// The points this sequence has produced so far.
    pub open spec fn emitted(self) -> Seq<Vec2> {
        self.poisson_algo.emitted()
    }

    /// The sequence has signalled termination and will keep signalling it.
    pub open spec fn done(self) -> bool {
        self.init && self.poisson_algo.exhausted()
    }

    /// Couples a randomness source with a fresh algorithm instance.
    pub fn new(rng: rand::rngs::StdRng, poisson_algo: T) -> (s: PoissonDisk<T>)
        requires
            poisson_algo.wf(),
            poisson_algo.not_started(),
        ensures
            s.wf(),
            s.poisson_algo == poisson_algo,
            !s.init,
    {
        PoissonDisk { rng, poisson_algo, init: false }
    }

    /// Pulls the next accepted point, or `None` once the session is over;
    /// after the first `None` every further pull returns `None` again and
    /// leaves the emitted history unchanged.
    pub fn next(&mut self) -> (r: Option<Vec2>)
        requires
            old(self).wf(),
        ensures
            final(self).wf(),
            final(self).poisson_algo.sep_sq() == old(self).poisson_algo.sep_sq(),
            final(self).poisson_algo.capacity() == old(self).poisson_algo.capacity(),
            forall|p: Vec2|
                (#[trigger] final(self).poisson_algo.in_domain(p))
                    == old(self).poisson_algo.in_domain(p),
            old(self).done() ==> r is None && final(self).poisson_algo == old(self).poisson_algo
                && final(self).init == old(self).init,
            match r {
                Some(p) => final(self).emitted() == old(self).emitted().push(p)
                    && !old(self).done() && !final(self).done(),
                None => final(self).emitted() == old(self).emitted() && final(self).done(),
            },
    {
        if !self.init {
            self.init = true;
            self.poisson_algo.init(&mut self.rng)
        } else {
            self.poisson_algo.next(&mut self.rng)
        }
    }
}

/// Minimum separation: any two points emitted in one session are distinct
/// and lie strictly farther apart than the separation threshold.
pub proof fn lemma_minimum_separation<T: PoissonDiskAlgorithm>(s: &PoissonDisk<T>, t1: int, t2: int)
    requires
        s.wf(),
        0 <= t1 < s.emitted().len(),
        0 <= t2 < s.emitted().len(),
        t1 != t2,
    ensures
        dist_sq(s.emitted()[t1], s.emitted()[t2]) > s.poisson_algo.sep_sq(),
        s.emitted()[t1] != s.emitted()[t2],
{
    s.poisson_algo.lemma_emitted_ok();
    lemma_dist_sq_zero(s.emitted()[t1], s.emitted()[t2]);
}

/// Finiteness: one session can never have emitted more points than the
/// algorithm's capacity, which a pull never changes; for the sampler built
/// by `RobertBridson::new` the capacity is the cell count of the grid built
/// at construction.
pub proof fn lemma_session_bounded<T: PoissonDiskAlgorithm>(s: &PoissonDisk<T>)
    requires
        s.wf(),
    ensures
        s.emitted().len() <= s.poisson_algo.capacity(),
{
    s.poisson_algo.lemma_emitted_ok();
}

/// Containment: every point emitted in one session lies strictly inside the
/// session's domain.
pub proof fn lemma_containment<T: PoissonDiskAlgorithm>(s: &PoissonDisk<T>, t: int)
    requires
        s.wf(),
        0 <= t < s.emitted().len(),
    ensures
        s.poisson_algo.in_domain(s.emitted()[t]),
{
    s.poisson_algo.lemma_emitted_ok();
}

/// Squared distance is symmetric in its arguments.
proof fn lemma_dist_sq_symm_vals(p: Vec2, q: Vec2)
    ensures
        dist_sq(p, q) == dist_sq(q, p),
{
    assert(dist_sq(p, q) == dist_sq(q, p)) by (nonlinear_arith);
}

} // verus!
