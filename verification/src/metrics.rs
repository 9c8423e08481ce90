//! Smoothed measures of how the swarm is doing.
use crate::number::{one, zero, Number};
use crate::scalar::Scalar;
use vstd::prelude::*;

verus! {

/// What the display reports of the swarm.
#[derive(Clone, Copy, Debug)]
pub struct Metrics {
    /// Neighbours within the perception radius per drone.
    pub avg_neighbors: Scalar,
    /// Mean speed (m/s).
    pub avg_speed: Scalar,
    /// Share of the drones near the goal.
    pub frac_at_goal: Scalar,
    /// Distance of the closest pair (m).
    pub nearest_pair: Scalar,
    /// Root mean square error of the neighbour estimates (m).
    pub est_error: Scalar,
    /// Root mean square error of the drones' estimates of themselves (m).
    pub self_error: Scalar,
    /// Share of the drones that know the goal.
    pub goal_coverage: Scalar,
    /// Mean charge of the batteries.
    pub battery: Scalar,
    /// Landmarks mapped well enough to localise against.
    pub map_built: usize,
    /// Root mean square error of those landmarks (m).
    pub map_error: Scalar,
}

impl Default for Metrics {
    fn default() -> (r: Metrics)
        ensures
            r.avg_neighbors@ == zero(),
            r.avg_speed@ == zero(),
            r.frac_at_goal@ == zero(),
            r.nearest_pair@ == zero(),
            r.est_error@ == zero(),
            r.self_error@ == zero(),
            r.goal_coverage@ == zero(),
            r.battery@ == zero(),
            r.map_built == 0,
            r.map_error@ == zero(),
    {
        let o = Scalar::zero();
        Metrics {
            avg_neighbors: o,
            avg_speed: o,
            frac_at_goal: o,
            nearest_pair: o,
            est_error: o,
            self_error: o,
            goal_coverage: o,
            battery: o,
            map_built: 0,
            map_error: o,
        }
    }
}

/// One, added up `n` times.
pub open spec fn tally(n: nat) -> Number
    decreases n,
{
    if n == 0 {
        zero()
    } else {
        tally((n - 1) as nat) + one()
    }
}

/// `a` moved the share `k` of the way to `b`.
pub open spec fn eased(a: Number, b: Number, k: Number) -> Number {
    a + k * (b - a)
}

/// `a` moved the share `k` of the way to `b`.
pub fn ease(a: Scalar, b: Scalar, k: Scalar) -> (r: Scalar)
    ensures
        r@ == eased(a@, b@, k@),
{
    a + k * (b - a)
}

/// How many of the first `n` indices have the property.
pub open spec fn how_many(p: spec_fn(int) -> bool, n: int) -> nat
    decreases n,
{
    if n <= 0 {
        0
    } else {
        how_many(p, n - 1) + (if p(n - 1) {
            1nat
        } else {
            0nat
        })
    }
}

/// A count depends on the indices counted alone.
pub proof fn lemma_how_many_same(p: spec_fn(int) -> bool, q: spec_fn(int) -> bool, n: int)
    requires
        forall|i: int| 0 <= i < n ==> #[trigger] p(i) == q(i),
    ensures
        how_many(p, n) == how_many(q, n),
    decreases n,
{
    if n > 0 {
        assert(p(n - 1) == q(n - 1));
        lemma_how_many_same(p, q, n - 1);
    }
}

/// The sum of `f` over those of the first `n` indices that have the property.
pub open spec fn total(f: spec_fn(int) -> Number, p: spec_fn(int) -> bool, n: int) -> Number
    decreases n,
{
    if n <= 0 {
        zero()
    } else if p(n - 1) {
        total(f, p, n - 1) + f(n - 1)
    } else {
        total(f, p, n - 1)
    }
}

/// A sum depends on the values added alone.
pub proof fn lemma_total_same(
    f: spec_fn(int) -> Number,
    g: spec_fn(int) -> Number,
    p: spec_fn(int) -> bool,
    n: int,
)
    requires
        forall|i: int| 0 <= i < n ==> #[trigger] f(i) == g(i),
    ensures
        total(f, p, n) == total(g, p, n),
    decreases n,
{
    if n > 0 {
        assert(f(n - 1) == g(n - 1));
        lemma_total_same(f, g, p, n - 1);
    }
}

} // verus!
