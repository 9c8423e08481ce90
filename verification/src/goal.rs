//! Agreeing on the goal by gossip.
//!
//! Only the informed drones observe the goal. Every drone holds a belief and
//! takes over the best of its neighbours' beliefs, one hop per step; beliefs
//! grow stale, because the goal moves.
use crate::config::{
    GOAL_DECAY_VAR, GOAL_INIT_VAR, GOAL_MEAS_STD, GOAL_RELAY_PENALTY, GOAL_USABLE_VAR, GOAL_Y,
    MIN_FIX_VAR, MIN_STEP, ONE_TENTH,
};
use crate::metrics::{ease, eased, how_many, tally, Metrics};
use crate::noise::{Draws, Jitter};
use crate::number::{at_most, decode, infinity, is_single, larger, less, one, zero, Number};
use crate::order::{
    lemma_harmonic, lemma_less_irreflexive, lemma_less_transitive, lemma_product_of_growth,
    lemma_single_is_rounded, lemma_sum_grows,
};
use crate::scalar::Scalar;
use crate::sim::{Drone, Mode, SimState};
use crate::swarm::{radio, Radio, Seen, Snapshot};
use crate::vector::{V3, Vec3};
use vstd::prelude::*;

verus! {

/// Where the goal is believed to be, and the variance of that.
#[verifier::ext_equal]
pub struct Belief {
    pub pos: V3,
    pub var: Number,
}

/// A drone's belief about the goal.
#[derive(Clone, Copy, Debug)]
pub struct GoalBelief {
    pub pos: Vec3,
    pub var: Scalar,
}

impl View for GoalBelief {
    type V = Belief;

    open spec fn view(&self) -> Belief {
        Belief { pos: self.pos@, var: self.var@ }
    }
}

/// Where the goal starts, in the middle of the room.
pub open spec fn goal_start() -> V3 {
    V3 { x: zero(), y: decode(GOAL_Y), z: zero() }
}

impl Default for GoalBelief {
    /// The belief of a drone that has not heard of the goal.
    fn default() -> (r: GoalBelief)
        ensures
            r@ == (Belief { pos: goal_start(), var: decode(GOAL_INIT_VAR) }),
    {
        GoalBelief {
            pos: Vec3::new(Scalar::zero(), Scalar::from_bits(GOAL_Y), Scalar::zero()),
            var: Scalar::from_bits(GOAL_INIT_VAR),
        }
    }
}

/// The views of the elements.
pub open spec fn beliefs(s: Seq<GoalBelief>) -> Seq<Belief> {
    s.map_values(|b: GoalBelief| b@)
}

/// Two independent beliefs, weighted by their inverse variances.
pub open spec fn fused(a: Belief, b: Belief) -> Belief {
    let var = one() / (one() / a.var + one() / b.var);
    Belief { pos: (a.pos / a.var + b.pos / b.var) * var, var }
}

/// Fuses two independent beliefs, weighted by their inverse variances.
pub fn fuse_belief(a: GoalBelief, b: GoalBelief) -> (r: GoalBelief)
    ensures
        r@ == fused(a@, b@),
{
    let one = Scalar::one();
    let var = one / (one / a.var + one / b.var);
    let pos = (a.pos / a.var + b.pos / b.var) * var;
    GoalBelief { pos, var }
}

/// Whether a belief is good enough to navigate by.
pub open spec fn is_known(var: Number) -> bool {
    less(var, decode(GOAL_USABLE_VAR))
}

impl GoalBelief {
    /// Whether the belief is good enough to navigate by.
    pub fn known(&self) -> (r: bool)
        ensures
            r == is_known(self@.var),
    {
        self.var.lt(Scalar::from_bits(GOAL_USABLE_VAR))
    }
}

/// The belief one step later, staler.
pub open spec fn stale(b: Belief, dt: Number) -> Belief {
    Belief { pos: b.pos, var: b.var + decode(GOAL_DECAY_VAR) * dt }
}

/// The variance of a direct observation.
pub open spec fn observation_var() -> Number {
    larger(decode(GOAL_MEAS_STD) * decode(GOAL_MEAS_STD), decode(MIN_FIX_VAR))
}

/// A direct observation of the goal.
pub open spec fn observation(goal: V3, noise: bool, d: Draws) -> V3 {
    let std = if noise {
        decode(GOAL_MEAS_STD)
    } else {
        zero()
    };
    goal + d.noise(std, std, std)
}

/// A neighbour's belief after the hop.
pub open spec fn relayed(b: Belief) -> Belief {
    Belief { pos: b.pos, var: b.var + decode(GOAL_RELAY_PENALTY) }
}

/// The variance that a further candidate has to beat.
pub open spec fn to_beat(best: Option<Belief>) -> Number {
    match best {
        Some(b) => b.var,
        None => infinity(),
    }
}

/// The first of the least uncertain beliefs heard from the first `n` drones.
pub open spec fn best_relay(radio: Radio, gossip: Seq<Belief>, n: int) -> Option<Belief>
    decreases n,
{
    if n <= 0 {
        None
    } else {
        let best = best_relay(radio, gossip, n - 1);
        let cand = relayed(gossip[n - 1]);
        if radio.hears(n - 1) && less(cand.var, to_beat(best)) {
            Some(cand)
        } else {
            best
        }
    }
}

/// The belief after a relayed one is taken in, if it is the surer of the two.
pub open spec fn gossiped(b: Belief, best: Option<Belief>) -> Belief {
    match best {
        Some(cand) => if less(cand.var, b.var) {
            fused(b, cand)
        } else {
            b
        },
        None => b,
    }
}

/// One drone's belief one step later: staler; refreshed by an observation if
/// the drone is informed; and gossiped.
pub open spec fn updated(
    b: Belief,
    informed: bool,
    seen_at: V3,
    best: Option<Belief>,
    dt: Number,
) -> Belief {
    let aged = stale(b, dt);
    let own = if informed {
        fused(aged, Belief { pos: seen_at, var: observation_var() })
    } else {
        aged
    };
    gossiped(own, best)
}

/// The random draws of one drone's step: those of its observation of the goal
/// and one for each packet that may reach it.
pub struct GoalDraws {
    pub observation: Jitter,
    pub packets: Vec<Scalar>,
}

/// The belief of the drone `d` after a step of the whole swarm.
pub open spec fn next_belief(
    snap: Seq<Seen>,
    gossip: Seq<Belief>,
    goal: V3,
    m: Mode,
    dt: Number,
    d: Drone,
    b: Belief,
    draws: GoalDraws,
) -> Belief {
    if snap[d.id as int].alive {
        let r = radio(snap, d.id as int, m, draws.packets@);
        updated(
            b,
            d.informed,
            observation(goal, m.noise, draws.observation@),
            best_relay(r, gossip, snap.len() as int),
            dt,
        )
    } else {
        b
    }
}

fn best_of_gossip(
    snap: &Snapshot,
    gossip: &Vec<GoalBelief>,
    sim: &SimState,
    id: usize,
    packets: &Vec<Scalar>,
) -> (best: Option<GoalBelief>)
    requires
        id < snap@.len(),
        gossip@.len() >= snap@.len(),
        packets@.len() >= snap@.len(),
    ensures
        best_view(best) == best_relay(
            radio(snap@, id as int, sim@, packets@),
            beliefs(gossip@),
            snap@.len() as int,
        ),
{
    let me = snap.0[id].pos;
    let ghost r = radio(snap@, id as int, sim@, packets@);
    let mut best: Option<GoalBelief> = None;
    let mut j: usize = 0;
    while j < snap.0.len()
        invariant
            j <= snap@.len(),
            id < snap@.len(),
            gossip@.len() >= snap@.len(),
            packets@.len() >= snap@.len(),
            r == radio(snap@, id as int, sim@, packets@),
            me@ == snap@[id as int].pos,
            best_view(best) == best_relay(r, beliefs(gossip@), j as int),
        decreases snap@.len() - j,
    {
        assert(r.draws[j as int] == packets@[j as int]@);
        assert(beliefs(gossip@)[j as int] == gossip@[j as int]@);
        if snap.hears(id, me, j, sim.perception, sim.noise, packets[j]) {
            let other = gossip[j];
            let var = other.var + Scalar::from_bits(GOAL_RELAY_PENALTY);
            let bar = match best {
                Some(b) => b.var,
                None => Scalar::infinity(),
            };
            if var.lt(bar) {
                best = Some(GoalBelief { pos: other.pos, var });
            }
        }
        j = j + 1;
    }
    best
}

spec fn best_view(b: Option<GoalBelief>) -> Option<Belief> {
    match b {
        Some(b) => Some(b@),
        None => None,
    }
}

fn step_belief(
    b: GoalBelief,
    informed: bool,
    seen_at: Vec3,
    best: Option<GoalBelief>,
    dt: Scalar,
) -> (r: GoalBelief)
    ensures
        r@ == updated(b@, informed, seen_at@, best_view(best), dt@),
{
    let aged = GoalBelief { pos: b.pos, var: b.var + Scalar::from_bits(GOAL_DECAY_VAR) * dt };
    let std = Scalar::from_bits(GOAL_MEAS_STD);
    let own = if informed {
        let var = (std * std).max(Scalar::from_bits(MIN_FIX_VAR));
        fuse_belief(aged, GoalBelief { pos: seen_at, var })
    } else {
        aged
    };
    match best {
        Some(cand) => if cand.var.lt(own.var) {
            fuse_belief(own, cand)
        } else {
            own
        },
        None => own,
    }
}

/// What the step does to the measure of how many know the goal.
pub open spec fn next_coverage(before: Number, known: nat, total: nat) -> Number {
    if less(zero(), tally(total)) {
        eased(before, tally(known) / tally(total), decode(ONE_TENTH))
    } else {
        before
    }
}

/// A step of the whole swarm's consensus on the goal. `drones`, `belief` and
/// `draws` go together; `gossip` holds what each drone last broadcast.
pub fn goal_consensus(
    snap: &Snapshot,
    gossip: &Vec<GoalBelief>,
    goal: Vec3,
    sim: &SimState,
    delta: Scalar,
    metrics: &mut Metrics,
    drones: &Vec<Drone>,
    belief: &mut Vec<GoalBelief>,
    draws: &Vec<GoalDraws>,
)
    requires
        drones@.len() == old(belief)@.len(),
        drones@.len() == draws@.len(),
        gossip@.len() >= snap@.len(),
        forall|i: int| 0 <= i < drones@.len() ==> (#[trigger] drones@[i]).id < snap@.len(),
        forall|i: int| 0 <= i < draws@.len() ==> (#[trigger] draws@[i]).packets@.len() >= snap@.len(),
    ensures
        sim.paused ==> final(belief)@ == old(belief)@ && *final(metrics) == *old(metrics),
        !sim.paused ==> {
            let dt = larger(delta@, decode(MIN_STEP));
            let n = drones@.len() as int;
            &&& final(belief)@.len() == n
            &&& forall|i: int|
                0 <= i < n ==> (#[trigger] final(belief)@[i])@ == next_belief(
                    snap@,
                    beliefs(gossip@),
                    goal@,
                    sim@,
                    dt,
                    drones@[i],
                    old(belief)@[i]@,
                    draws@[i],
                )
            &&& *final(metrics) == (Metrics {
                goal_coverage: final(metrics).goal_coverage,
                ..*old(metrics)
            })
            &&& final(metrics).goal_coverage@ == next_coverage(
                old(metrics).goal_coverage@,
                how_many(
                    |i: int|
                        snap@[drones@[i].id as int].alive && is_known(final(belief)@[i]@.var),
                    n,
                ),
                how_many(|i: int| snap@[drones@[i].id as int].alive, n),
            )
        },
{
    if sim.paused {
        return ;
    }
    let dt = delta.max(Scalar::from_bits(MIN_STEP));
    let std = if sim.noise {
        Scalar::from_bits(GOAL_MEAS_STD)
    } else {
        Scalar::zero()
    };
    let ghost before = belief@;
    let ghost lives = |i: int| snap@[drones@[i].id as int].alive;
    let ghost mut known_count: nat = 0;
    let mut known = Scalar::zero();
    let mut total = Scalar::zero();
    let mut i: usize = 0;
    while i < drones.len()
        invariant
            i <= drones@.len(),
            drones@.len() == before.len(),
            drones@.len() == belief@.len(),
            drones@.len() == draws@.len(),
            gossip@.len() >= snap@.len(),
            forall|i: int| 0 <= i < drones@.len() ==> (#[trigger] drones@[i]).id < snap@.len(),
            forall|i: int|
                0 <= i < draws@.len() ==> (#[trigger] draws@[i]).packets@.len() >= snap@.len(),
            std@ == (if sim.noise {
                decode(GOAL_MEAS_STD)
            } else {
                zero()
            }),
            forall|k: int| i <= k < drones@.len() ==> #[trigger] belief@[k] == before[k],
            forall|k: int|
                0 <= k < i ==> (#[trigger] belief@[k])@ == next_belief(
                    snap@,
                    beliefs(gossip@),
                    goal@,
                    sim@,
                    dt@,
                    drones@[k],
                    before[k]@,
                    draws@[k],
                ),
            lives == (|i: int| snap@[drones@[i].id as int].alive),
            total@ == tally(how_many(lives, i as int)),
            known@ == tally(known_count),
            known_count == how_many(
                |k: int| snap@[drones@[k].id as int].alive && is_known(belief@[k]@.var),
                i as int,
            ),
        decreases drones@.len() - i,
    {
        let drone = drones[i];
        let ghost prior = belief@;
        if snap.0[drone.id].alive {
            let seen_at = goal + draws[i].observation.noise(std, std, std);
            let best = best_of_gossip(snap, gossip, sim, drone.id, &draws[i].packets);
            let b = step_belief(belief[i], drone.informed, seen_at, best, dt);
            belief.set(i, b);
            total = total + Scalar::one();
            if b.known() {
                known = known + Scalar::one();
                proof {
                    known_count = known_count + 1;
                }
            }
        }
        proof {
            let p = |k: int| snap@[drones@[k].id as int].alive && is_known(prior[k]@.var);
            let q = |k: int| snap@[drones@[k].id as int].alive && is_known(belief@[k]@.var);
            crate::metrics::lemma_how_many_same(p, q, i as int);
        }
        i = i + 1;
    }
    if total.gt(Scalar::zero()) {
        metrics.goal_coverage =
        ease(metrics.goal_coverage, known / total, Scalar::from_bits(ONE_TENTH));
    }
}

/// Of all beliefs heard, the relay taken is one of the least uncertain.
pub proof fn law_relay_is_least(r: Radio, gossip: Seq<Belief>, n: int, j: int)
    requires
        0 <= j < n,
        r.hears(j),
    ensures
        !less(relayed(gossip[j]).var, to_beat(best_relay(r, gossip, n))),
    decreases n,
{
    let cand = relayed(gossip[n - 1]).var;
    let before = to_beat(best_relay(r, gossip, n - 1));
    let d = relayed(gossip[j]).var;
    lemma_less_irreflexive(d);
    if j < n - 1 {
        law_relay_is_least(r, gossip, n - 1, j);
        if less(d, cand) && less(cand, before) {
            lemma_less_transitive(d, cand, before);
        }
    }
}

/// The relay taken is what some drone within hearing said.
pub proof fn law_relay_was_heard(r: Radio, gossip: Seq<Belief>, n: int) -> (j: int)
    requires
        best_relay(r, gossip, n) is Some,
    ensures
        0 <= j < n,
        r.hears(j),
        best_relay(r, gossip, n) == Some(relayed(gossip[j])),
    decreases n,
{
    if r.hears(n - 1) && less(relayed(gossip[n - 1]).var, to_beat(best_relay(r, gossip, n - 1))) {
        n - 1
    } else {
        law_relay_was_heard(r, gossip, n - 1)
    }
}

/// Gossip never makes a drone less sure of the goal.
pub proof fn law_gossip_is_monotone(b: Belief, best: Option<Belief>)
    requires
        is_single(b.var),
        less(zero(), b.var),
        best matches Some(c) ==> is_single(c.var) && less(zero(), c.var),
    ensures
        at_most(gossiped(b, best).var, b.var),
        at_most(zero(), gossiped(b, best).var),
{
    if let Some(c) = best {
        if less(c.var, b.var) {
            lemma_single_is_rounded(b.var);
            lemma_single_is_rounded(c.var);
            lemma_harmonic(b.var, c.var);
        }
    }
    assert(at_most(b.var, b.var) && at_most(zero(), b.var)) by {
        reveal(less);
    }
}

/// A belief that is not refreshed grows no surer.
pub proof fn law_beliefs_grow_stale(b: Belief, dt: Number)
    requires
        is_single(b.var),
        at_most(zero(), b.var),
        at_most(zero(), dt),
    ensures
        at_most(b.var, stale(b, dt).var),
        stale(b, dt).pos == b.pos,
{
    let rate = decode(GOAL_DECAY_VAR);
    assert(at_most(zero(), rate) && rate is Finite && rate->mag > 0) by {
        reveal(less);
        vstd::arithmetic::power2::lemma_pow2_pos(125);
        assert(0x99_999a * vstd::arithmetic::power2::pow2(125) > 0) by (nonlinear_arith)
            requires
                vstd::arithmetic::power2::pow2(125) > 0,
        ;
    }
    lemma_product_of_growth(rate, dt);
    lemma_sum_grows(b.var, rate * dt);
}

/// A drone that is not informed and hears nobody keeps its belief of where the
/// goal is.
pub proof fn law_silence_keeps_the_place(b: Belief, seen_at: V3, dt: Number)
    ensures
        updated(b, false, seen_at, None, dt) == stale(b, dt),
{
}

/// A drone that is not informed learns of the goal by gossip alone: its belief
/// does not depend on where the goal is.
pub proof fn law_others_learn_by_gossip(
    snap: Seq<Seen>,
    gossip: Seq<Belief>,
    here: V3,
    there: V3,
    m: Mode,
    dt: Number,
    d: Drone,
    b: Belief,
    draws: GoalDraws,
)
    requires
        !d.informed,
    ensures
        next_belief(snap, gossip, here, m, dt, d, b, draws) == next_belief(
            snap,
            gossip,
            there,
            m,
            dt,
            d,
            b,
            draws,
        ),
{
}

} // verus!
