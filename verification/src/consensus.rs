//! What a step of consensus makes of a drone's belief of where the goal is: an
//! observation draws it to the true place, and a surer word to what was said.
use crate::agreement::{is_usual, law_fused_place_lies_between, law_precisions_add_up, lies_between};
use crate::config::{GOAL_DECAY_VAR, GOAL_MEAS_STD, GOAL_RELAY_PENALTY, MIN_FIX_VAR};
use crate::error::{
    eps, lemma_less_value, lemma_product_error, lemma_sum_error, lemma_tiny, lemma_units, size,
    tiny, value,
};
use crate::foresight::{is_share, row_close, row_within};
use crate::forms::{triple, Triple};
use crate::goal::{
    best_relay, fused, next_belief, observation, observation_var, relayed, stale, Belief,
    GoalDraws,
};
use crate::metric::lemma_product_size;
use crate::noise::{law_no_deviation_no_noise, Draws};
use crate::number::{decode, infinity, less, zero, Number};
use crate::sim::{Drone, Mode};
use crate::swarm::{radio, Radio, Seen};
use crate::tolerance::{
    both, lemma_itself, lemma_origin_close, lemma_product_near, lemma_sum_close, lemma_sum_near,
};
use crate::vector::V3;
use vstd::arithmetic::power2::{lemma2_to64, lemma_pow2_adds, pow2};
use vstd::prelude::*;

verus! {

/// What noise adds to an observation of the goal.
pub open spec fn glimpse_error(noise: bool, d: Draws) -> Triple {
    if noise {
        let s = decode(GOAL_MEAS_STD);
        triple(d.noise(s, s, s))
    } else {
        Triple { x: 0 as real, y: 0 as real, z: 0 as real }
    }
}

pub open spec fn is_glimpse_error_within(noise: bool, d: Draws, b: real) -> bool {
    noise ==> {
        let s = decode(GOAL_MEAS_STD);
        row_within(d.noise(s, s, s), b)
    }
}

/// An informed drone observes the goal where it is, but for noise.
pub proof fn law_observation_is_of_the_goal(goal: V3, noise: bool, d: Draws, b: real)
    requires
        row_within(goal, b),
        is_glimpse_error_within(noise, d, b),
        b >= 1 as real,
        b <= 0x100_0000_0000_0000 as real,
    ensures
        row_close(
            observation(goal, noise, d),
            both(triple(goal), glimpse_error(noise, d)),
            8 as real * (b * eps()),
        ),
{
    let s = if noise {
        decode(GOAL_MEAS_STD)
    } else {
        zero()
    };
    lemma_itself(goal);
    lemma_origin_close();
    law_no_deviation_no_noise(d);
    let n = d.noise(s, s, s);
    if noise {
        lemma_itself(n);
    }
    lemma_sum_close(
        goal,
        n,
        triple(goal),
        glimpse_error(noise, d),
        0 as real,
        0 as real,
        2 as real * b,
    );
    let e = eps();
    assert((2 as real * b) * e == 2 as real * (b * e)) by (nonlinear_arith);
}

/// The variance of an observation is a quarter of a square metre.
proof fn lemma_observation_var()
    ensures
        observation_var() is Finite,
        size(value(observation_var()) - 1 as real / (4 as real)) <= eps(),
{
    lemma_tiny();
    lemma2_to64();
    assert(pow2(24) as real == 0x100_0000 as real);
    assert(pow2(37) as real == 0x20_0000_0000 as real) by {
        lemma_pow2_adds(32, 5);
        assert(pow2(5) == 32);
    }
    let (s, m) = (decode(GOAL_MEAS_STD), decode(MIN_FIX_VAR));
    lemma_units(s, 0x80_0000, 125, 24);
    lemma_units(m, 0xd1_b717, 112, 37);
    let h = 1 as real / (2 as real);
    assert(value(s) == h);
    assert(h * h == 1 as real / (4 as real)) by (nonlinear_arith)
        requires
            h == 1 as real / (2 as real),
    ;
    lemma_product_error(s, s);
    lemma_less_value(s * s, m);
    let e = eps();
    assert((1 as real / (4 as real)) * e + tiny() <= e) by (nonlinear_arith)
        requires
            tiny() <= e * e,
            e == (1 as real) / (0x100_0000 as real),
    ;
}

/// The mean of `x` and `y`, weighed by the variances `a` and `o` of the two.
pub open spec fn weighed_mean(x: real, y: real, a: real, o: real) -> real {
    (x * o + y * a) / (a + o)
}

/// The mean does not move more than what goes into it.
proof fn lemma_mean_moves(x: real, y: real, z: real, a: real, o: real, t: real)
    requires
        a > 0 as real,
        o > 0 as real,
        size(y - z) <= t,
    ensures
        size(weighed_mean(x, y, a, o) - weighed_mean(x, z, a, o)) <= t,
{
    let (s, d) = (a + o, y - z);
    let (p, q) = (weighed_mean(x, y, a, o), weighed_mean(x, z, a, o));
    assert(p * s == x * o + y * a && q * s == x * o + z * a) by (nonlinear_arith)
        requires
            p == (x * o + y * a) / s,
            q == (x * o + z * a) / s,
            s > 0 as real,
    ;
    let m = p - q;
    assert(m * s == d * a) by (nonlinear_arith)
        requires
            m == p - q,
            p * s == x * o + y * a,
            q * s == x * o + z * a,
            d == y - z,
    ;
    assert(size(m) <= t) by (nonlinear_arith)
        requires
            m * s == d * a,
            size(d) <= t,
            a > 0 as real,
            s > a,
    ;
}

/// One coordinate of a belief fused with what is near `y`.
proof fn lemma_drawn(r: Number, c: Number, d: Number, a: Number, o: Number, y: real, t: real, most: real)
    requires
        lies_between(r, c, d, a, o, most),
        value(a) > 0 as real,
        value(o) > 0 as real,
        size(value(d) - y) <= t,
    ensures
        r is Finite,
        size(value(r) - weighed_mean(value(c), y, value(a), value(o))) <= (most + 1 as real) * (
        16 as real * eps()) + t,
{
    lemma_mean_moves(value(c), value(d), y, value(a), value(o), t);
}

/// Whether a place is where two are drawn together: the mean of `x` and `y`, weighed
/// by the variances `a` and `o`, within `tol`.
pub open spec fn is_drawn_to(r: V3, x: Triple, y: Triple, a: real, o: real, tol: real) -> bool {
    row_close(
        r,
        Triple {
            x: weighed_mean(x.x, y.x, a, o),
            y: weighed_mean(x.y, y.y, a, o),
            z: weighed_mean(x.z, y.z, a, o),
        },
        tol,
    )
}

proof fn lemma_nothing_heard(r: Radio, gossip: Seq<Belief>, n: int)
    requires
        forall|j: int| 0 <= j < n ==> !(#[trigger] r.hears(j)),
    ensures
        best_relay(r, gossip, n) is None,
    decreases n,
{
    if n > 0 {
        lemma_nothing_heard(r, gossip, n - 1);
        assert(!r.hears(n - 1));
    }
}

proof fn lemma_one_heard(r: Radio, gossip: Seq<Belief>, n: int, j: int)
    requires
        0 <= j < n,
        forall|i: int| 0 <= i < n ==> (#[trigger] r.hears(i) <==> i == j),
        relayed(gossip[j]).var is Finite,
    ensures
        best_relay(r, gossip, n) == Some(relayed(gossip[j])),
    decreases n,
{
    assert(r.hears(n - 1) <==> n - 1 == j);
    if n - 1 == j {
        lemma_nothing_heard(r, gossip, n - 1);
        assert(less(relayed(gossip[j]).var, infinity())) by {
            reveal(less);
        }
    } else {
        lemma_one_heard(r, gossip, n - 1, j);
    }
}

/// The variance of a belief that has aged.
pub open spec fn aged_var(b: Belief, dt: Number) -> real {
    value(stale(b, dt).var)
}

/// In a step a belief gets vaguer by the time, at the rate of decay.
pub proof fn law_belief_ages_with_time(b: Belief, dt: Number, m: real, t: real)
    requires
        b.var is Finite,
        size(value(b.var)) <= m,
        is_share(dt, t),
        m >= 1 as real,
        t >= 1 as real,
        m <= 0x100_0000_0000_0000 as real,
        t <= 0x100_0000_0000_0000 as real,
    ensures
        stale(b, dt).pos == b.pos,
        stale(b, dt).var is Finite,
        size(
            aged_var(b, dt) - (value(b.var) + value(decode(GOAL_DECAY_VAR)) * value(dt)),
        ) <= 8 as real * ((m + t) * eps()),
        value(decode(GOAL_DECAY_VAR)) >= 59 as real / (100 as real),
        value(decode(GOAL_DECAY_VAR)) <= 61 as real / (100 as real),
{
    lemma_tiny();
    lemma2_to64();
    assert(pow2(24) as real == 0x100_0000 as real);
    let (k, e, s) = (decode(GOAL_DECAY_VAR), eps(), m + t);
    lemma_units(k, 0x99_999a, 125, 24);
    lemma_product_size(value(k), value(dt), 1 as real, t);
    lemma_product_near(k, dt, s);
    lemma_sum_near(b.var, k * dt, 2 as real * s);
    assert((2 as real * s) * e == 2 as real * (s * e)) by (nonlinear_arith);
}

/// An informed drone that hears nobody is drawn to where the goal truly is, on every
/// axis, from where it believed it: by as much as the variances of its belief and of
/// the observation give. And it gets surer as they say. `most` bounds the coordinates.
pub proof fn law_informed_drone_learns_the_goal(
    snap: Seq<Seen>,
    gossip: Seq<Belief>,
    goal: V3,
    m: Mode,
    dt: Number,
    d: Drone,
    b: Belief,
    draws: GoalDraws,
    most: real,
)
    requires
        snap[d.id as int].alive,
        d.informed,
        forall|j: int|
            0 <= j < snap.len() ==> !(#[trigger] radio(
                snap,
                d.id as int,
                m,
                draws.packets@,
            ).hears(j)),
        row_within(goal, most),
        row_within(b.pos, most),
        is_glimpse_error_within(m.noise, draws.observation@, most),
        is_usual(stale(b, dt).var),
        most >= 1 as real,
        most <= 0x4_0000 as real,
    ensures
        ({
            let after = next_belief(snap, gossip, goal, m, dt, d, b, draws);
            let (a, o) = (aged_var(b, dt), value(observation_var()));
            let seen = both(triple(goal), glimpse_error(m.noise, draws.observation@));
            &&& is_drawn_to(
                after.pos,
                triple(b.pos),
                seen,
                a,
                o,
                72 as real * ((most + 1 as real) * eps()),
            )
            &&& size(value(after.var) * (a + o) - a * o) <= (a * o) * (5 as real * eps())
            &&& size(o - 1 as real / (4 as real)) <= eps()
        }),
{
    lemma_tiny();
    lemma_observation_var();
    let r = radio(snap, d.id as int, m, draws.packets@);
    lemma_nothing_heard(r, gossip, snap.len() as int);
    let y = observation(goal, m.noise, draws.observation@);
    law_observation_is_of_the_goal(goal, m.noise, draws.observation@, most);
    let (aged, seen) = (stale(b, dt), Belief { pos: y, var: observation_var() });
    let e = eps();
    let me = most * e;
    assert(8 as real * me <= most / (1000 as real) && me > 0 as real) by (nonlinear_arith)
        requires
            me == most * e,
            most >= 1 as real,
            e == (1 as real) / (0x100_0000 as real),
    ;
    let w = 3 as real * most;
    law_fused_place_lies_between(aged, seen, w);
    law_precisions_add_up(aged, seen);
    let t = both(triple(goal), glimpse_error(m.noise, draws.observation@));
    let f = fused(aged, seen);
    lemma_drawn(f.pos.x, b.pos.x, y.x, aged.var, seen.var, t.x, 8 as real * me, w);
    lemma_drawn(f.pos.y, b.pos.y, y.y, aged.var, seen.var, t.y, 8 as real * me, w);
    lemma_drawn(f.pos.z, b.pos.z, y.z, aged.var, seen.var, t.z, 8 as real * me, w);
    assert((w + 1 as real) * (16 as real * e) + 8 as real * me <= 72 as real * ((most + 1 as real)
        * e)) by (nonlinear_arith)
        requires
            w == 3 as real * most,
            me == most * e,
            most >= 1 as real,
            e > 0 as real,
    ;
}

/// A drone that is not informed and hears one word that is surer than its own belief,
/// the hop counted, is drawn to where the word puts the goal, by as much as the
/// variances give; a word that is no surer leaves its belief as it was, but older.
pub proof fn law_surer_word_is_learned(
    snap: Seq<Seen>,
    gossip: Seq<Belief>,
    goal: V3,
    m: Mode,
    dt: Number,
    d: Drone,
    b: Belief,
    draws: GoalDraws,
    j: int,
    most: real,
)
    requires
        snap[d.id as int].alive,
        !d.informed,
        0 <= j < snap.len(),
        forall|i: int|
            0 <= i < snap.len() ==> (#[trigger] radio(
                snap,
                d.id as int,
                m,
                draws.packets@,
            ).hears(i) <==> i == j),
        row_within(gossip[j].pos, most),
        row_within(b.pos, most),
        is_usual(stale(b, dt).var),
        gossip[j].var is Finite,
        value(gossip[j].var) >= 0 as real,
        value(gossip[j].var) <= 0x80_0000_0000 as real,
        most >= 1 as real,
        most <= 0x10_0000 as real,
    ensures
        ({
            let after = next_belief(snap, gossip, goal, m, dt, d, b, draws);
            let a = aged_var(b, dt);
            let o = value(gossip[j].var + decode(GOAL_RELAY_PENALTY));
            &&& o < a ==> is_drawn_to(
                after.pos,
                triple(b.pos),
                triple(gossip[j].pos),
                a,
                o,
                (most + 1 as real) * (16 as real * eps()),
            ) && size(value(after.var) * (a + o) - a * o) <= (a * o) * (5 as real * eps())
            &&& o >= a ==> after == stale(b, dt)
        }),
{
    lemma_tiny();
    lemma2_to64();
    assert(pow2(25) as real == 0x200_0000 as real);
    let p = decode(GOAL_RELAY_PENALTY);
    lemma_units(p, 0x99_999a, 124, 25);
    let (aged, word) = (stale(b, dt), relayed(gossip[j]));
    lemma_sum_near(gossip[j].var, p, 0x90_0000_0000 as real);
    let e = eps();
    lemma_sum_error(gossip[j].var, p);
    let x = value(gossip[j].var) + value(p);
    assert(size(x) * e + tiny() <= x / (2 as real)) by (nonlinear_arith)
        requires
            x >= 29 as real / (100 as real),
            tiny() <= e,
            e == (1 as real) / (0x100_0000 as real),
    ;
    let r = radio(snap, d.id as int, m, draws.packets@);
    lemma_one_heard(r, gossip, snap.len() as int, j);
    lemma_less_value(word.var, aged.var);
    if value(word.var) < value(aged.var) {
        law_fused_place_lies_between(aged, word, most);
        law_precisions_add_up(aged, word);
        let f = fused(aged, word);
        let t = triple(word.pos);
        lemma_drawn(f.pos.x, b.pos.x, word.pos.x, aged.var, word.var, t.x, 0 as real, most);
        lemma_drawn(f.pos.y, b.pos.y, word.pos.y, aged.var, word.var, t.y, 0 as real, most);
        lemma_drawn(f.pos.z, b.pos.z, word.pos.z, aged.var, word.var, t.z, 0 as real, most);
    }
}

} // verus!
