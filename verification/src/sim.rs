//! The simulation's switches, its clock and the drones that fly.
use crate::config::{
    N_INFORMED, PERCEPTION_LARGE, PERCEPTION_LEAST, PERCEPTION_START, PERCEPTION_STEP,
};
use crate::number::{decode, less, Number};
use crate::order::{halves, lemma_halves};
use crate::scalar::Scalar;
use vstd::arithmetic::power2::{lemma2_to64, lemma_pow2_adds, pow2};
use vstd::prelude::*;

verus! {

/// What is switched on.
#[verifier::ext_equal]
pub struct Mode {
    pub paused: bool,
    pub goal_seek: bool,
    pub show_links: bool,
    pub noise: bool,
    pub show_estimator: bool,
    pub avoidance: bool,
    pub cooperative: bool,
    pub perception: Number,
}

/// The switches, and the radius within which drones sense each other.
#[derive(Clone, Copy, Debug)]
pub struct SimState {
    pub paused: bool,
    pub goal_seek: bool,
    pub show_links: bool,
    pub noise: bool,
    pub show_estimator: bool,
    pub avoidance: bool,
    pub cooperative: bool,
    pub perception: Scalar,
}

impl View for SimState {
    type V = Mode;

    open spec fn view(&self) -> Mode {
        Mode {
            paused: self.paused,
            goal_seek: self.goal_seek,
            show_links: self.show_links,
            noise: self.noise,
            show_estimator: self.show_estimator,
            avoidance: self.avoidance,
            cooperative: self.cooperative,
            perception: self.perception@,
        }
    }
}

impl Default for SimState {
    /// Running, with noise, seeking the goal, avoiding collisions and
    /// cooperating; nothing extra is drawn.
    fn default() -> (r: SimState)
        ensures
            r@ == (Mode {
                paused: false,
                goal_seek: true,
                show_links: false,
                noise: true,
                show_estimator: false,
                avoidance: true,
                cooperative: true,
                perception: decode(PERCEPTION_START),
            }),
    {
        SimState {
            paused: false,
            goal_seek: true,
            show_links: false,
            noise: true,
            show_estimator: false,
            avoidance: true,
            cooperative: true,
            perception: Scalar::from_bits(PERCEPTION_START),
        }
    }
}

/// Which keys went down since the last frame.
#[derive(Clone, Copy, Debug)]
pub struct Keys {
    pub escape: bool,
    pub space: bool,
    pub g: bool,
    pub l: bool,
    pub n: bool,
    pub e: bool,
    pub o: bool,
    pub c: bool,
    pub p: bool,
    pub r: bool,
}

/// What is to be done beyond the switches.
#[derive(Clone, Copy, Debug, PartialEq, Eq, Structural)]
pub struct Effects {
    pub quit: bool,
    pub scatter: bool,
}

/// The perception radius after `p`.
pub open spec fn next_perception(p: Number) -> Number {
    if less(decode(PERCEPTION_LARGE), p) {
        decode(PERCEPTION_LEAST)
    } else {
        p + decode(PERCEPTION_STEP)
    }
}

/// The switches after these keys.
pub open spec fn pressed(m: Mode, keys: Keys) -> Mode {
    Mode {
        paused: m.paused != keys.space,
        goal_seek: m.goal_seek != keys.g,
        show_links: m.show_links != keys.l,
        noise: m.noise != keys.n,
        show_estimator: m.show_estimator != keys.e,
        avoidance: m.avoidance != keys.o,
        cooperative: m.cooperative != keys.c,
        perception: if keys.p {
            next_perception(m.perception)
        } else {
            m.perception
        },
    }
}

impl SimState {
    /// Acts on the keys that went down: each switch has one, P moves on to the
    /// next perception radius, R scatters the drones again and Escape quits.
    pub fn handle_input(&mut self, keys: &Keys) -> (r: Effects)
        ensures
            final(self)@ == pressed(old(self)@, *keys),
            r == (Effects { quit: keys.escape, scatter: keys.r }),
    {
        if keys.space {
            self.paused = !self.paused;
        }
        if keys.g {
            self.goal_seek = !self.goal_seek;
        }
        if keys.l {
            self.show_links = !self.show_links;
        }
        if keys.n {
            self.noise = !self.noise;
        }
        if keys.e {
            self.show_estimator = !self.show_estimator;
        }
        if keys.o {
            self.avoidance = !self.avoidance;
        }
        if keys.c {
            self.cooperative = !self.cooperative;
        }
        if keys.p {
            self.perception = if self.perception.gt(Scalar::from_bits(PERCEPTION_LARGE)) {
                Scalar::from_bits(PERCEPTION_LEAST)
            } else {
                self.perception + Scalar::from_bits(PERCEPTION_STEP)
            };
        }
        Effects { quit: keys.escape, scatter: keys.r }
    }
}

/// A switch turns when its key goes down, and no other key turns it.
pub proof fn law_each_switch_has_its_key(m: Mode, keys: Keys)
    ensures
        ({
            let after = pressed(m, keys);
            &&& after.paused == m.paused <==> !keys.space
            &&& after.goal_seek == m.goal_seek <==> !keys.g
            &&& after.show_links == m.show_links <==> !keys.l
            &&& after.noise == m.noise <==> !keys.n
            &&& after.show_estimator == m.show_estimator <==> !keys.e
            &&& after.avoidance == m.avoidance <==> !keys.o
            &&& after.cooperative == m.cooperative <==> !keys.c
            &&& !keys.p ==> after.perception == m.perception
        }),
{
}

/// Pressing the same keys again restores the switches.
pub proof fn law_pressing_twice_restores(m: Mode, keys: Keys)
    requires
        !keys.p,
    ensures
        pressed(pressed(m, keys), keys) == m,
{
}

proof fn lemma_radii()
    ensures
        decode(PERCEPTION_START) == halves(10),
        decode(PERCEPTION_LARGE) == halves(13),
        decode(PERCEPTION_LEAST) == halves(7),
        decode(PERCEPTION_STEP) == halves(3),
{
    lemma2_to64();
    lemma_pow2_adds(128, 20);
    lemma_pow2_adds(127, 21);
    lemma_pow2_adds(126, 22);
    assert(0xa0_0000 * pow2(128) == 10 * (pow2(128) * 0x10_0000)) by (nonlinear_arith);
    assert(0xd0_0000 * pow2(128) == 13 * (pow2(128) * 0x10_0000)) by (nonlinear_arith);
    assert(0xe0_0000 * pow2(127) == 7 * (pow2(127) * 0x20_0000)) by (nonlinear_arith);
    assert(0xc0_0000 * pow2(126) == 3 * (pow2(126) * 0x40_0000)) by (nonlinear_arith);
}

/// The perception radii go round: 5 m, 6.5 m, 8 m, 3.5 m and 5 m again, so
/// four steps from any of them come back to it.
pub proof fn law_perception_goes_round(p: Number)
    requires
        p == halves(10) || p == halves(13) || p == halves(16) || p == halves(7),
    ensures
        decode(PERCEPTION_START) == halves(10),
        next_perception(halves(10)) == halves(13),
        next_perception(halves(13)) == halves(16),
        next_perception(halves(16)) == halves(7),
        next_perception(halves(7)) == halves(10),
        next_perception(next_perception(next_perception(next_perception(p)))) == p,
{
    lemma_radii();
    lemma_halves(13, 10);
    lemma_halves(13, 13);
    lemma_halves(13, 16);
    lemma_halves(13, 7);
    lemma_halves(10, 3);
    lemma_halves(13, 3);
    lemma_halves(7, 3);
}

/// A count of physics steps.
#[derive(Clone, Copy, Debug, PartialEq, Eq, Structural)]
pub struct Tick(pub u64);

/// Counts a step unless the simulation is paused; starts over after the largest
/// count.
pub fn advance_tick(tick: &mut Tick, sim: &SimState)
    ensures
        final(tick).0 == (if sim.paused {
            old(tick).0
        } else if old(tick).0 == u64::MAX {
            0
        } else {
            (old(tick).0 + 1) as u64
        }),
{
    if !sim.paused {
        tick.0 = tick.0.wrapping_add(1);
    }
}

/// A drone: its number, whether it observes the goal itself, and on which
/// ticks it plans anew, every `period` of them and `phase` early.
#[derive(Clone, Copy, Debug, PartialEq, Eq, Structural)]
pub struct Drone {
    pub id: usize,
    pub informed: bool,
    pub period: u64,
    pub phase: u64,
}

/// Whether a drone plans anew on the tick `t`.
pub open spec fn plans_on(t: int, period: int, phase: int) -> bool {
    (t + phase) % period == 0
}

impl Drone {
    /// A drone is informed if it is one of the first.
    pub fn new(id: usize, period: u64, phase: u64) -> (r: Drone)
        ensures
            r == (Drone { id, informed: id < N_INFORMED, period, phase }),
    {
        Drone { id, informed: id < N_INFORMED, period, phase }
    }

    /// Whether the drone plans anew on this tick. Between, it holds its last
    /// command.
    pub fn replans(&self, tick: Tick) -> (r: bool)
        requires
            self.period > 0,
            tick.0 + self.phase <= u64::MAX,
        ensures
            r == plans_on(tick.0 as int, self.period as int, self.phase as int),
    {
        (tick.0 + self.phase) % self.period == 0
    }
}

/// Of `period` ticks in a row, a drone plans anew on exactly one.
pub proof fn law_plans_once_per_period(t: int, period: int, phase: int) -> (k: int)
    requires
        period > 0,
    ensures
        t <= k < t + period,
        plans_on(k, period, phase),
        forall|i: int| t <= i < t + period && #[trigger] plans_on(i, period, phase) ==> i == k,
{
    let over = (t + phase) % period;
    vstd::arithmetic::div_mod::lemma_mod_bound(t + phase, period);
    let k = if over == 0 {
        t
    } else {
        t + period - over
    };
    vstd::arithmetic::div_mod::lemma_fundamental_div_mod(t + phase, period);
    let q = (t + phase) / period;
    assert forall|i: int| t <= i < t + period && #[trigger] plans_on(i, period, phase) implies i == k by {
        let p = (i + phase) / period;
        vstd::arithmetic::div_mod::lemma_fundamental_div_mod(i + phase, period);
        assert(i + phase == period * p);
        assert(t + phase == period * q + over);
        if over == 0 {
            assert(p == q) by (nonlinear_arith)
                requires
                    0 <= period * p - period * q < period,
                    period > 0,
            ;
        } else {
            assert(p == q + 1) by (nonlinear_arith)
                requires
                    over <= period * p - period * q < period + over,
                    0 < over < period,
            ;
            assert(period * (q + 1) == period * q + period) by (nonlinear_arith);
        }
    }
    assert(plans_on(k, period, phase)) by {
        if over != 0 {
            assert(k + phase == period * (q + 1) + 0) by (nonlinear_arith)
                requires
                    k + phase == period * q + over + period - over,
            ;
            vstd::arithmetic::div_mod::lemma_fundamental_div_mod_converse(
                k + phase,
                period,
                q + 1,
                0,
            );
        }
    }
    k
}

/// A drone of period one plans anew on every tick.
pub proof fn law_period_one_always_plans(t: int, phase: int)
    ensures
        plans_on(t, 1, phase),
{
}

/// `rand::Rng::gen_range` on the generator of this thread, over the inclusive
/// range from `low` to `high`: some value of that range. It panics on an empty
/// range. Which value comes is left open: it is drawn at random.
#[verifier::external_body]
fn draw_between(low: u64, high: u64) -> (r: u64)
    requires
        low <= high,
    ensures
        low <= r <= high,
{
    rand::Rng::gen_range(&mut rand::thread_rng(), low..=high)
}

/// `n` drones, numbered from zero, each with a planning rate of its own.
pub fn launch(n: usize) -> (r: Vec<Drone>)
    ensures
        r@.len() == n,
        forall|i: int|
            0 <= i < n ==> {
                let d = #[trigger] r@[i];
                &&& d.id == i
                &&& d.informed == (i < N_INFORMED)
                &&& 1 <= d.period <= 4
                &&& d.phase < 4
            },
{
    let mut r: Vec<Drone> = Vec::new();
    let mut id: usize = 0;
    while id < n
        invariant
            id <= n,
            r@.len() == id,
            forall|i: int|
                0 <= i < id ==> {
                    let d = #[trigger] r@[i];
                    &&& d.id == i
                    &&& d.informed == (i < N_INFORMED)
                    &&& 1 <= d.period <= 4
                    &&& d.phase < 4
                },
        decreases n - id,
    {
        let period = draw_between(1, 4);
        let phase = draw_between(0, 3);
        r.push(Drone::new(id, period, phase));
        id = id + 1;
    }
    r
}

} // verus!
