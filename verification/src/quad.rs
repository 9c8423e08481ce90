//! The quadrotor: what velocity a drone prefers, which one it flies, and the
//! thrust for it.
use crate::avoid::{
    bodies, boundary_push, push_from_walls, safe_velocity, select_safe_velocity, Body, VoConstraint,
};
use crate::config::{
    ACTUATION_NOISE_STD, BATTERY_CHARGE_SHARE, BATTERY_DRAIN, BATTERY_FLAT_SHARE, BATTERY_MIN,
    BATTERY_RECHARGE, CRUISE_SPEED, DRONE_RADIUS, GOAL_ARRIVE_RADIUS, GOAL_NEAR, GRAVITY_ACCEL,
    MAX_LATERAL_ACCEL, MAX_SPEED, MIN_CONTROL_STEP, ONE_TWENTIETH, THRUST_MAX, TILT_ACCEL_RATE, TWO,
    VEL_KP, VO_BASE_MARGIN, VO_SIGMA_INFLATE, W_ALIGNMENT, W_BOUNDARY, W_COHESION, W_GOAL,
};
use crate::goal::{is_known, Belief, GoalBelief};
use crate::metrics::{ease, eased, how_many, tally, total, Metrics};
use crate::neighbors::{Beliefs, Entry};
use crate::noise::{Draws, Jitter};
use crate::number::{
    at_most, clamped, count, decode, is_nought, larger, less, limit, one, product, quotient, rounded,
    smaller, square_root, sum, unit, zero, Number,
};
use crate::order::{
    lemma_at_most_transitive, lemma_clamped, lemma_product_monotone, lemma_product_of_growth,
    lemma_root_monotone, lemma_sum_commutes, lemma_sum_monotone, lemma_sum_of_growth,
    lemma_zero_quotient,
};
use crate::rounding::{lemma_rounded_again, lemma_rounded_cancel, lemma_rounded_root_positive};
use crate::scalar::Scalar;
use crate::selfloc::SelfLoc;
use crate::sim::{plans_on, Drone, Mode, SimState, Tick};
use crate::swarm::{numbers, Seen, Snapshot};
use crate::track::{sigma, spread};
use crate::vector::{Vec3, V3};
use vstd::arithmetic::power2::{lemma2_to64, lemma_pow2_adds, lemma_pow2_pos, pow2};
use vstd::prelude::*;

verus! {

/// The state of a drone's actuators.
#[verifier::ext_equal]
pub struct Craft {
    pub horiz: V3,
    pub battery: Number,
    pub last_thrust: V3,
}

/// The state of a drone's actuators: the horizontal thrust, which follows the
/// demand as fast as the airframe can tilt; the battery's charge; and the last
/// thrust, which is held between plans.
#[derive(Clone, Copy, Debug)]
pub struct Quad {
    pub horiz: Vec3,
    pub battery: Scalar,
    pub last_thrust: Vec3,
}

impl View for Quad {
    type V = Craft;

    open spec fn view(&self) -> Craft {
        Craft { horiz: self.horiz@, battery: self.battery@, last_thrust: self.last_thrust@ }
    }
}

impl Quad {
    /// Level, fully charged and hovering.
    pub fn new() -> (r: Quad)
        ensures
            r@ == (Craft {
                horiz: V3::origin(),
                battery: one(),
                last_thrust: V3::up() * decode(GRAVITY_ACCEL),
            }),
    {
        Quad {
            horiz: Vec3::origin(),
            battery: Scalar::one(),
            last_thrust: Vec3::up() * Scalar::from_bits(GRAVITY_ACCEL),
        }
    }
}

/// A pillar's place and the radius to keep clear of it.
#[derive(Clone, Copy, Debug)]
pub struct Pillar {
    pub pos: Vec3,
    pub radius: Scalar,
}

/// The obstacles: pillars that stand still and one body that moves.
pub struct Obstacles {
    pub pillars: Vec<Pillar>,
    pub moving: Vec3,
    pub moving_radius: Scalar,
    pub moving_vel: Vec3,
}

/// Whether a neighbour is believed to be within the perception radius.
pub open spec fn in_view(e: Entry, p: V3, perception: Number) -> bool {
    !less(perception * perception, (e.est.pos - p).length_squared())
}

/// The neighbours in view, added up.
#[verifier::ext_equal]
pub struct Flock {
    pub count: Number,
    pub align: V3,
    pub center: V3,
}

/// The flock that those of the first `n` neighbours that are in view make.
pub open spec fn flock(s: Seq<Entry>, p: V3, perception: Number, n: int) -> Flock
    decreases n,
{
    if n <= 0 {
        Flock { count: zero(), align: V3::origin(), center: V3::origin() }
    } else {
        let f = flock(s, p, perception, n - 1);
        let e = s[n - 1];
        if in_view(e, p, perception) {
            Flock {
                count: f.count + one(),
                align: f.align + e.est.vel,
                center: f.center + e.est.pos,
            }
        } else {
            f
        }
    }
}

/// The radius to keep clear of a neighbour, which grows with the uncertainty of
/// its position.
pub open spec fn safety_radius(worst: Number) -> Number {
    decode(TWO) * decode(DRONE_RADIUS) + decode(VO_BASE_MARGIN) + decode(VO_SIGMA_INFLATE) * spread(
        worst,
    )
}

/// Those of the first `n` neighbours that are in view, as bodies to avoid.
pub open spec fn neighbor_bodies(
    s: Seq<Entry>,
    worst: Seq<Number>,
    p: V3,
    perception: Number,
    n: int,
) -> Seq<Body>
    decreases n,
{
    if n <= 0 {
        Seq::empty()
    } else {
        let before = neighbor_bodies(s, worst, p, perception, n - 1);
        let e = s[n - 1];
        if in_view(e, p, perception) {
            before.push(
                Body {
                    rel: e.est.pos - p,
                    vel: e.est.vel,
                    radius: safety_radius(worst[n - 1]),
                    planar: false,
                },
            )
        } else {
            before
        }
    }
}

/// The pillars as bodies to avoid.
pub open spec fn pillar_bodies(pillars: Seq<Pillar>, p: V3) -> Seq<Body> {
    pillars.map_values(
        |c: Pillar|
            Body { rel: c.pos@ - p, vel: V3::origin(), radius: c.radius@, planar: true },
    )
}

/// Everything that a drone has to avoid.
pub open spec fn surroundings(
    s: Seq<Entry>,
    worst: Seq<Number>,
    o: Obstacles,
    p: V3,
    perception: Number,
) -> Seq<Body> {
    (neighbor_bodies(s, worst, p, perception, s.len() as int) + pillar_bodies(
        o.pillars@,
        p,
    )).push(
        Body {
            rel: o.moving@ - p,
            vel: o.moving_vel@,
            radius: o.moving_radius@,
            planar: false,
        },
    )
}

/// The velocity towards the goal, slower near it.
pub open spec fn towards(goal: V3, p: V3) -> V3 {
    let way = goal - p;
    let d = way.length();
    let scale = smaller(d / decode(GOAL_ARRIVE_RADIUS), one());
    way * (one() / d) * decode(CRUISE_SPEED) * decode(W_GOAL) * scale
}

/// The velocity that flocking alone asks for.
pub open spec fn flocking(f: Flock, p: V3) -> V3 {
    if less(zero(), f.count) {
        V3::origin() + (f.align / f.count) * decode(W_ALIGNMENT) + (f.center / f.count - p)
            * decode(W_COHESION)
    } else {
        V3::origin()
    }
}

/// The velocity that a drone prefers: that of the flock, towards its centre,
/// towards the goal if it knows it, and away from the walls.
pub open spec fn preferred(f: Flock, goal_seek: bool, b: Belief, p: V3) -> V3 {
    let base = flocking(f, p);
    let led = if goal_seek && is_known(b.var) && less(decode(GOAL_NEAR), (b.pos - p).length()) {
        base + towards(b.pos, p)
    } else {
        base
    };
    (led + push_from_walls(p) * decode(W_BOUNDARY)).clamp_length_max(decode(MAX_SPEED))
}

/// The acceleration towards the velocity `v_new`.
pub open spec fn demanded(v_new: V3, v_cur: V3, noise: bool, d: Draws) -> V3 {
    let std = if noise {
        decode(ACTUATION_NOISE_STD)
    } else {
        zero()
    };
    ((v_new - v_cur) * decode(VEL_KP)).clamp_length_max(decode(MAX_LATERAL_ACCEL)) + d.noise(
        std,
        std,
        std,
    )
}

/// The horizontal thrust after tilting for `dt` towards the demand.
pub open spec fn tilted(horiz: V3, accel: V3, dt: Number) -> V3 {
    horiz + (accel.level() - horiz).clamp_length_max(decode(TILT_ACCEL_RATE) * dt)
}

/// The thrust that this charge can give.
pub open spec fn budget(battery: Number) -> Number {
    decode(THRUST_MAX) * (decode(BATTERY_FLAT_SHARE) + decode(BATTERY_CHARGE_SHARE) * battery)
}

/// The thrust with its vertical part, against gravity.
pub open spec fn wanted(horiz: V3, accel: V3) -> V3 {
    horiz + V3::up() * (accel.y + decode(GRAVITY_ACCEL))
}

/// The thrust within the budget `most`: what is over comes off the horizontal
/// part first.
pub open spec fn limited(thrust: V3, horiz: V3, most: Number) -> V3 {
    if less(most, thrust.length()) {
        let v = smaller(thrust.y, most);
        let h = square_root(larger(most * most - v * v, zero()));
        horiz.clamp_length_max(h) + V3::up() * v
    } else {
        thrust
    }
}

/// The charge after flying with this thrust for `dt`.
pub open spec fn drained(battery: Number, thrust: V3, dt: Number) -> Number {
    clamped(
        battery - decode(BATTERY_DRAIN) * thrust.length() * dt + decode(BATTERY_RECHARGE) * dt,
        decode(BATTERY_MIN),
        one(),
    )
}

/// The actuators after holding the last thrust for `dt`.
pub open spec fn held(q: Craft, dt: Number) -> Craft {
    Craft { battery: drained(q.battery, q.last_thrust, dt), ..q }
}

/// The actuators after a plan that demands the acceleration `accel`.
pub open spec fn thrusting(q: Craft, accel: V3, dt: Number) -> Craft {
    let horiz = tilted(q.horiz, accel, dt);
    let thrust = limited(wanted(horiz, accel), horiz, budget(q.battery));
    Craft { horiz, battery: drained(q.battery, thrust, dt), last_thrust: thrust }
}

/// What a drone knows when it plans.
#[verifier::ext_equal]
pub struct Situation {
    pub p: V3,
    pub v_cur: V3,
    pub tracks: Seq<Entry>,
    pub worst: Seq<Number>,
    pub goal: Belief,
}

/// The velocity that a drone sets out to fly.
pub open spec fn planned(s: Situation, o: Obstacles, m: Mode) -> V3 {
    let f = flock(s.tracks, s.p, m.perception, s.tracks.len() as int);
    let v_pref = preferred(f, m.goal_seek, s.goal, s.p);
    if m.avoidance {
        safe_velocity(
            v_pref,
            s.v_cur,
            surroundings(s.tracks, s.worst, o, s.p, m.perception),
        )
    } else {
        v_pref
    }
}

/// The actuators of one drone one step later.
pub open spec fn next_quad(
    q: Craft,
    me: Seen,
    d: Drone,
    tick: int,
    s: Situation,
    o: Obstacles,
    m: Mode,
    dt: Number,
    draws: Draws,
) -> Craft {
    if !me.alive {
        q
    } else if plans_on(tick, d.period as int, d.phase as int) {
        thrusting(q, demanded(planned(s, o, m), s.v_cur, m.noise, draws), dt)
    } else {
        held(q, dt)
    }
}

/// The situation of a drone that believes itself at `pose`.
pub open spec fn situation(
    me: Seen,
    pose: SelfLoc,
    tracks: Beliefs,
    worst: Seq<Scalar>,
    goal: GoalBelief,
) -> Situation {
    Situation {
        p: pose@.x,
        v_cur: me.vel,
        tracks: tracks@,
        worst: numbers(worst),
        goal: goal@,
    }
}

fn drain(battery: Scalar, thrust: Vec3, dt: Scalar) -> (r: Scalar)
    ensures
        r@ == drained(battery@, thrust@, dt@),
{
    (battery - Scalar::from_bits(BATTERY_DRAIN) * thrust.length() * dt + Scalar::from_bits(
        BATTERY_RECHARGE,
    ) * dt).clamp(Scalar::from_bits(BATTERY_MIN), Scalar::one())
}

impl Quad {
    /// Holds the last thrust for `dt`.
    pub fn hold(&mut self, dt: Scalar)
        ensures
            final(self)@ == held(old(self)@, dt@),
    {
        self.battery = drain(self.battery, self.last_thrust, dt);
    }

    /// Thrusts for the acceleration `accel`: the horizontal part follows as
    /// fast as the airframe tilts, the vertical one bears the weight too, and
    /// the battery limits the whole.
    pub fn thrust(&mut self, accel: Vec3, dt: Scalar)
        ensures
            final(self)@ == thrusting(old(self)@, accel@, dt@),
    {
        let dh = (accel.level() - self.horiz).clamp_length_max(
            Scalar::from_bits(TILT_ACCEL_RATE) * dt,
        );
        let horiz = self.horiz + dh;
        let vert = accel.y + Scalar::from_bits(GRAVITY_ACCEL);
        let mut thrust = horiz + Vec3::up() * vert;
        let most = Scalar::from_bits(THRUST_MAX) * (Scalar::from_bits(BATTERY_FLAT_SHARE)
            + Scalar::from_bits(BATTERY_CHARGE_SHARE) * self.battery);
        if thrust.length().gt(most) {
            let v = thrust.y.min(most);
            let h_budget = (most * most - v * v).max(Scalar::zero()).sqrt();
            thrust = horiz.clamp_length_max(h_budget) + Vec3::up() * v;
        }
        self.horiz = horiz;
        self.last_thrust = thrust;
        self.battery = drain(self.battery, thrust, dt);
    }
}

/// The flock, added up as it is counted.
struct Sums {
    count: Scalar,
    align: Vec3,
    center: Vec3,
}

impl View for Sums {
    type V = Flock;

    closed spec fn view(&self) -> Flock {
        Flock { count: self.count@, align: self.align@, center: self.center@ }
    }
}

fn look_around(
    tracks: &Beliefs,
    worst: &Vec<Scalar>,
    p: Vec3,
    perception: Scalar,
) -> (r: (Sums, Vec<VoConstraint>))
    requires
        worst@.len() >= tracks@.len(),
    ensures
        r.0@ == flock(tracks@, p@, perception@, tracks@.len() as int),
        bodies(r.1@) == neighbor_bodies(
            tracks@,
            numbers(worst@),
            p@,
            perception@,
            tracks@.len() as int,
        ),
{
    let mut sums = Sums { count: Scalar::zero(), align: Vec3::origin(), center: Vec3::origin() };
    let mut constraints: Vec<VoConstraint> = Vec::new();
    let perception_sq = perception * perception;
    let mut i: usize = 0;
    assert(bodies(constraints@) =~= Seq::empty());
    while i < tracks.0.len()
        invariant
            i <= tracks@.len(),
            worst@.len() >= tracks@.len(),
            perception_sq@ == perception@ * perception@,
            sums@ == flock(tracks@, p@, perception@, i as int),
            bodies(constraints@) == neighbor_bodies(
                tracks@,
                numbers(worst@),
                p@,
                perception@,
                i as int,
            ),
        decreases tracks@.len() - i,
    {
        let track = tracks.0[i].track;
        assert(tracks@[i as int].est == track@);
        assert(numbers(worst@)[i as int] == worst@[i as int]@);
        let rel = track.pos - p;
        if !rel.length_squared().gt(perception_sq) {
            sums = Sums {
                count: sums.count + Scalar::one(),
                align: sums.align + track.vel,
                center: sums.center + track.pos,
            };
            let radius = Scalar::from_bits(TWO) * Scalar::from_bits(DRONE_RADIUS)
                + Scalar::from_bits(VO_BASE_MARGIN) + Scalar::from_bits(VO_SIGMA_INFLATE) * sigma(
                worst[i],
            );
            let c = VoConstraint { rel, vel: track.vel, radius, planar: false };
            let ghost before = constraints@;
            constraints.push(c);
            assert(bodies(constraints@) =~= bodies(before).push(c@));
        }
        i = i + 1;
    }
    (sums, constraints)
}

fn add_obstacles(constraints: &mut Vec<VoConstraint>, o: &Obstacles, p: Vec3)
    ensures
        bodies(final(constraints)@) == (bodies(old(constraints)@) + pillar_bodies(
            o.pillars@,
            p@,
        )).push(
            Body {
                rel: o.moving@ - p@,
                vel: o.moving_vel@,
                radius: o.moving_radius@,
                planar: false,
            },
        ),
{
    let ghost start = bodies(constraints@);
    let ghost all = pillar_bodies(o.pillars@, p@);
    let mut i: usize = 0;
    assert(bodies(constraints@) =~= start + all.take(0));
    while i < o.pillars.len()
        invariant
            i <= o.pillars@.len(),
            all == pillar_bodies(o.pillars@, p@),
            bodies(constraints@) == start + all.take(i as int),
        decreases o.pillars@.len() - i,
    {
        let c = o.pillars[i];
        let body = VoConstraint {
            rel: c.pos - p,
            vel: Vec3::origin(),
            radius: c.radius,
            planar: true,
        };
        let ghost before = constraints@;
        constraints.push(body);
        assert(bodies(constraints@) =~= bodies(before).push(body@));
        assert(all[i as int] == body@);
        assert(start + all.take(i + 1) =~= (start + all.take(i as int)).push(body@));
        i = i + 1;
    }
    assert(all.take(i as int) =~= all);
    let ghost before = constraints@;
    let last = VoConstraint {
        rel: o.moving - p,
        vel: o.moving_vel,
        radius: o.moving_radius,
        planar: false,
    };
    constraints.push(last);
    assert(bodies(constraints@) =~= bodies(before).push(last@));
}

fn prefer(f: &Sums, goal_seek: bool, b: &GoalBelief, p: Vec3) -> (v: Vec3)
    ensures
        v@ == preferred(f@, goal_seek, b@, p@),
{
    let mut v_pref = Vec3::origin();
    if f.count.gt(Scalar::zero()) {
        v_pref = v_pref + (f.align / f.count) * Scalar::from_bits(W_ALIGNMENT);
        v_pref = v_pref + (f.center / f.count - p) * Scalar::from_bits(W_COHESION);
    }
    if goal_seek && b.known() {
        let to_goal = b.pos - p;
        let d = to_goal.length();
        if d.gt(Scalar::from_bits(GOAL_NEAR)) {
            let scale = (d / Scalar::from_bits(GOAL_ARRIVE_RADIUS)).min(Scalar::one());
            let ahead = to_goal * (Scalar::one() / d);
            v_pref = v_pref + ahead * Scalar::from_bits(CRUISE_SPEED) * Scalar::from_bits(W_GOAL)
                * scale;
        }
    }
    v_pref = v_pref + boundary_push(p) * Scalar::from_bits(W_BOUNDARY);
    v_pref.clamp_length_max(Scalar::from_bits(MAX_SPEED))
}

/// Plans the velocity of a drone that is believed to be at `p` and flies with
/// `v_cur`. `worst` holds the largest eigenvalue of each track's covariance of
/// the position.
pub fn plan(
    p: Vec3,
    v_cur: Vec3,
    tracks: &Beliefs,
    worst: &Vec<Scalar>,
    goal: &GoalBelief,
    o: &Obstacles,
    sim: &SimState,
) -> (v: Vec3)
    requires
        worst@.len() >= tracks@.len(),
    ensures
        v@ == planned(
            Situation {
                p: p@,
                v_cur: v_cur@,
                tracks: tracks@,
                worst: numbers(worst@),
                goal: goal@,
            },
            *o,
            sim@,
        ),
{
    let (sums, mut constraints) = look_around(tracks, worst, p, sim.perception);
    let v_pref = prefer(&sums, sim.goal_seek, goal, p);
    add_obstacles(&mut constraints, o, p);
    if sim.avoidance {
        select_safe_velocity(v_pref, v_cur, &constraints)
    } else {
        v_pref
    }
}

/// What the step does to the measure of the batteries' charge.
pub open spec fn next_charge(before: Number, charges: Number, counted: nat) -> Number {
    if less(zero(), tally(counted)) {
        eased(before, charges / tally(counted), decode(ONE_TWENTIETH))
    } else {
        before
    }
}

/// The thrust that a drone's engines give in this step, if it lives.
pub open spec fn push_of(me: Seen, q: Craft) -> Option<V3> {
    if me.alive {
        Some(q.last_thrust)
    } else {
        None
    }
}

/// The view of a thrust.
pub open spec fn push_view(p: Option<Vec3>) -> Option<V3> {
    match p {
        Some(v) => Some(v@),
        None => None,
    }
}

/// A step of the whole swarm's control; yields the thrust of each drone that
/// lives. `drones`, `tracks`, `worst`, `poses`, `goals`, `quads` and `jitters`
/// go together.
pub fn actuate_swarm(
    snap: &Snapshot,
    sim: &SimState,
    obstacles: &Obstacles,
    delta: Scalar,
    tick: Tick,
    metrics: &mut Metrics,
    drones: &Vec<Drone>,
    tracks: &Vec<Beliefs>,
    worst: &Vec<Vec<Scalar>>,
    poses: &Vec<SelfLoc>,
    goals: &Vec<GoalBelief>,
    quads: &mut Vec<Quad>,
    jitters: &Vec<Jitter>,
) -> (pushes: Vec<Option<Vec3>>)
    requires
        drones@.len() == tracks@.len(),
        drones@.len() == worst@.len(),
        drones@.len() == poses@.len(),
        drones@.len() == goals@.len(),
        drones@.len() == old(quads)@.len(),
        drones@.len() == jitters@.len(),
        forall|i: int|
            0 <= i < drones@.len() ==> {
                let d = #[trigger] drones@[i];
                &&& d.id < snap@.len()
                &&& d.period > 0
                &&& tick.0 + d.phase <= u64::MAX
            },
        forall|i: int| 0 <= i < drones@.len() ==> (#[trigger] worst@[i])@.len() >= tracks@[i]@.len(),
    ensures
        sim.paused ==> pushes@.len() == 0 && final(quads)@ == old(quads)@ && *final(metrics)
            == *old(metrics),
        !sim.paused ==> {
            let dt = larger(delta@, decode(MIN_CONTROL_STEP));
            let n = drones@.len() as int;
            &&& final(quads)@.len() == n
            &&& pushes@.len() == n
            &&& forall|i: int|
                0 <= i < n ==> (#[trigger] final(quads)@[i])@ == next_quad(
                    old(quads)@[i]@,
                    snap@[drones@[i].id as int],
                    drones@[i],
                    tick.0 as int,
                    situation(
                        snap@[drones@[i].id as int],
                        poses@[i],
                        tracks@[i],
                        worst@[i]@,
                        goals@[i],
                    ),
                    *obstacles,
                    sim@,
                    dt,
                    jitters@[i]@,
                )
            &&& forall|i: int|
                0 <= i < n ==> push_view(#[trigger] pushes@[i]) == push_of(
                    snap@[drones@[i].id as int],
                    final(quads)@[i]@,
                )
            &&& *final(metrics) == (Metrics {
                battery: final(metrics).battery,
                ..*old(metrics)
            })
            &&& final(metrics).battery@ == next_charge(
                old(metrics).battery@,
                total(
                    |i: int| final(quads)@[i]@.battery,
                    |i: int| snap@[drones@[i].id as int].alive,
                    n,
                ),
                how_many(|i: int| snap@[drones@[i].id as int].alive, n),
            )
        },
{
    let mut pushes: Vec<Option<Vec3>> = Vec::new();
    if sim.paused {
        return pushes;
    }
    let dt = delta.max(Scalar::from_bits(MIN_CONTROL_STEP));
    let std = if sim.noise {
        Scalar::from_bits(ACTUATION_NOISE_STD)
    } else {
        Scalar::zero()
    };
    let ghost before = quads@;
    let ghost lives = |i: int| snap@[drones@[i].id as int].alive;
    let mut charges = Scalar::zero();
    let mut counted = Scalar::zero();
    let mut i: usize = 0;
    while i < drones.len()
        invariant
            i <= drones@.len(),
            drones@.len() == tracks@.len(),
            drones@.len() == worst@.len(),
            drones@.len() == poses@.len(),
            drones@.len() == goals@.len(),
            drones@.len() == before.len(),
            drones@.len() == quads@.len(),
            drones@.len() == jitters@.len(),
            pushes@.len() == i,
            forall|i: int|
                0 <= i < drones@.len() ==> {
                    let d = #[trigger] drones@[i];
                    &&& d.id < snap@.len()
                    &&& d.period > 0
                    &&& tick.0 + d.phase <= u64::MAX
                },
            forall|i: int|
                0 <= i < drones@.len() ==> (#[trigger] worst@[i])@.len() >= tracks@[i]@.len(),
            std@ == (if sim.noise {
                decode(ACTUATION_NOISE_STD)
            } else {
                zero()
            }),
            forall|k: int| i <= k < drones@.len() ==> #[trigger] quads@[k] == before[k],
            forall|k: int|
                0 <= k < i ==> (#[trigger] quads@[k])@ == next_quad(
                    before[k]@,
                    snap@[drones@[k].id as int],
                    drones@[k],
                    tick.0 as int,
                    situation(
                        snap@[drones@[k].id as int],
                        poses@[k],
                        tracks@[k],
                        worst@[k]@,
                        goals@[k],
                    ),
                    *obstacles,
                    sim@,
                    dt@,
                    jitters@[k]@,
                ),
            forall|k: int|
                0 <= k < i ==> push_view(#[trigger] pushes@[k]) == push_of(
                    snap@[drones@[k].id as int],
                    quads@[k]@,
                ),
            lives == (|i: int| snap@[drones@[i].id as int].alive),
            counted@ == tally(how_many(lives, i as int)),
            charges@ == total(|k: int| quads@[k]@.battery, lives, i as int),
        decreases drones@.len() - i,
    {
        let drone = drones[i];
        let me = snap.0[drone.id];
        let ghost prior = quads@;
        if me.alive {
            let mut quad = quads[i];
            if drone.replans(tick) {
                let v_new = plan(
                    poses[i].x,
                    me.vel,
                    &tracks[i],
                    &worst[i],
                    &goals[i],
                    obstacles,
                    sim,
                );
                let accel = ((v_new - me.vel) * Scalar::from_bits(VEL_KP)).clamp_length_max(
                    Scalar::from_bits(MAX_LATERAL_ACCEL),
                ) + jitters[i].noise(std, std, std);
                quad.thrust(accel, dt);
            } else {
                quad.hold(dt);
            }
            quads.set(i, quad);
            pushes.push(Some(quad.last_thrust));
            charges = charges + quad.battery;
            counted = counted + Scalar::one();
        } else {
            pushes.push(None);
        }
        proof {
            let f = |k: int| prior[k]@.battery;
            let g = |k: int| quads@[k]@.battery;
            crate::metrics::lemma_total_same(f, g, lives, i as int);
        }
        i = i + 1;
    }
    if counted.gt(Scalar::zero()) {
        metrics.battery = ease(metrics.battery, charges / counted, Scalar::from_bits(ONE_TWENTIETH));
    }
    pushes
}

/// The charge stays between its floor and full.
pub proof fn law_battery_never_dies(
    q: Craft,
    me: Seen,
    d: Drone,
    tick: int,
    s: Situation,
    o: Obstacles,
    m: Mode,
    dt: Number,
    draws: Draws,
)
    requires
        me.alive,
    ensures
        ({
            let b = next_quad(q, me, d, tick, s, o, m, dt, draws).battery;
            b !is Nan ==> at_most(decode(BATTERY_MIN), b) && at_most(b, one())
        }),
{
    assert(at_most(decode(BATTERY_MIN), one())) by {
        reveal(less);
        lemma2_to64();
        lemma_pow2_adds(24, 125);
        let p = pow2(125);
        assert(decode(BATTERY_MIN) == (Number::Finite { neg: false, mag: 0x8c_cccd * p }));
        assert(0x8c_cccd * p <= 0x100_0000 * p);
    }
    let accel = demanded(planned(s, o, m), s.v_cur, m.noise, draws);
    let thrust = if plans_on(tick, d.period as int, d.phase as int) {
        thrusting(q, accel, dt).last_thrust
    } else {
        q.last_thrust
    };
    let raw = q.battery - decode(BATTERY_DRAIN) * thrust.length() * dt + decode(BATTERY_RECHARGE)
        * dt;
    if raw !is Nan {
        lemma_clamped(raw, decode(BATTERY_MIN), one());
    }
    reveal(less);
}

/// Between plans the thrust is held.
pub proof fn law_thrust_is_held(
    q: Craft,
    me: Seen,
    d: Drone,
    tick: int,
    s: Situation,
    o: Obstacles,
    m: Mode,
    dt: Number,
    draws: Draws,
)
    requires
        !plans_on(tick, d.period as int, d.phase as int),
    ensures
        next_quad(q, me, d, tick, s, o, m, dt, draws).last_thrust == q.last_thrust,
        next_quad(q, me, d, tick, s, o, m, dt, draws).horiz == q.horiz,
{
}

/// A drone that does not know the goal is not led by where it believes it to
/// be.
pub proof fn law_blind_drone_ignores_goal(f: Flock, goal_seek: bool, a: Belief, b: Belief, p: V3)
    requires
        !is_known(a.var),
        !is_known(b.var),
    ensures
        preferred(f, goal_seek, a, p) == preferred(f, goal_seek, b, p),
{
}

/// A vector that is level stays so when it is shortened.
pub proof fn lemma_clamp_nought(v: V3, max: Number)
    requires
        is_nought(v.y),
    ensures
        is_nought(v.clamp_length_max(max).y),
{
    let squared = v.length_squared();
    if less(max * max, squared) {
        let root = square_root(squared);
        let unit = unit();
        lemma_pow2_pos(149);
        lemma_pow2_pos(277);
        lemma_zero_quotient(unit);
        assert(less(zero(), squared) && max is Finite) by {
            reveal(less);
            reveal(product);
        }
        assert(less(zero(), root)) by {
            reveal(less);
            reveal(square_root);
            if let Number::Finite { mag, .. } = squared {
                assert(mag * unit >= 1) by (nonlinear_arith)
                    requires
                        mag > 0,
                        unit > 0,
                ;
                lemma_rounded_root_positive(mag * unit, 1);
            }
        }
        assert(is_nought(v.y / root)) by {
            reveal(less);
            reveal(quotient);
            assert(0 * unit == 0);
            if let Number::Finite { mag, .. } = root {
                lemma_zero_quotient(mag);
            }
        }
        assert(is_nought((v.y / root) * max)) by {
            reveal(product);
            assert(0 * max->mag == 0);
        }
    }
}

/// Tilting gives no vertical thrust: a horizontal thrust that is level stays
/// so.
pub proof fn law_tilt_stays_level(q: Craft, accel: V3, dt: Number)
    requires
        is_nought(q.horiz.y),
    ensures
        is_nought(thrusting(q, accel, dt).horiz.y),
{
    let d = accel.level() - q.horiz;
    assert(is_nought(d.y)) by {
        reveal(sum);
    }
    lemma_clamp_nought(d, decode(TILT_ACCEL_RATE) * dt);
    reveal(sum);
}

/// `a` and `b` are the same, but for the sign of a zero.
pub open spec fn same(a: Number, b: Number) -> bool {
    at_most(a, b) && at_most(b, a)
}

proof fn lemma_upright(h: Number, v: Number)
    requires
        is_nought(h),
        v !is Nan,
        v matches Number::Finite { mag, .. } ==> rounded(mag, 1) == mag && mag < limit(),
    ensures
        same(h + one() * v, v),
{
    reveal(less);
    reveal(sum);
    reveal(product);
    lemma_pow2_pos(149);
    lemma_pow2_pos(277);
    if let Number::Finite { mag, .. } = v {
        lemma_rounded_cancel(mag, 1, unit());
        assert(1 * unit() == unit());
        assert(unit() * mag == mag * unit()) by (nonlinear_arith);
    }
}

/// What is over the battery's budget comes off the horizontal thrust: the
/// vertical one is kept as far as the budget reaches.
pub proof fn law_altitude_first(horiz: V3, accel: V3, battery: Number)
    requires
        is_nought(horiz.y),
        less(budget(battery), wanted(horiz, accel).length()),
    ensures
        ({
            let up = wanted(horiz, accel).y;
            let most = budget(battery);
            same(limited(wanted(horiz, accel), horiz, most).y, smaller(up, most))
        }),
{
    let w = wanted(horiz, accel);
    let most = budget(battery);
    let v = smaller(w.y, most);
    let h = square_root(larger(most * most - v * v, zero()));
    lemma_clamp_nought(horiz, h);
    assert(w.y !is Nan && most !is Nan) by {
        reveal(less);
        reveal(sum);
        reveal(product);
        reveal(square_root);
    }
    lemma_pow2_pos(149);
    lemma_pow2_pos(277);
    assert(w.y matches Number::Finite { mag, .. } ==> rounded(mag, 1) == mag && mag < limit()) by {
        reveal(sum);
        let (a, b) = (horiz.y, one() * (accel.y + decode(GRAVITY_ACCEL)));
        lemma_zero_quotient(1);
        if a is Finite && b is Finite {
            let s = count(a->Finite_neg, a->mag) + count(b->Finite_neg, b->mag);
            lemma_rounded_again((if s < 0 { -s } else { s }) as nat, 1);
        }
    }
    assert(most matches Number::Finite { mag, .. } ==> rounded(mag, 1) == mag && mag < limit()) by {
        reveal(product);
        let (a, b) = (
            decode(THRUST_MAX),
            decode(BATTERY_FLAT_SHARE) + decode(BATTERY_CHARGE_SHARE) * battery,
        );
        if a is Finite && b is Finite {
            lemma_rounded_again(a->mag * b->mag, unit());
        }
    }
    lemma_upright(horiz.clamp_length_max(h).y, v);
}

/// The less certain a neighbour's position, the wider the berth.
pub proof fn law_uncertainty_widens_the_berth(a: Number, b: Number)
    requires
        at_most(a, b),
    ensures
        at_most(safety_radius(a), safety_radius(b)),
{
    let (x, y) = (larger(a, zero()), larger(b, zero()));
    assert(at_most(zero(), x) && at_most(x, y)) by {
        reveal(less);
    }
    lemma_root_monotone(x, y);
    let k = decode(VO_SIGMA_INFLATE);
    let base = decode(TWO) * decode(DRONE_RADIUS) + decode(VO_BASE_MARGIN);
    assert(k is Finite && k->mag > 0 && less(zero(), k)) by {
        reveal(less);
        lemma_pow2_pos(127);
        assert(0x80_0000 * pow2(127) > 0) by (nonlinear_arith)
            requires
                pow2(127) > 0,
        ;
    }
    lemma_product_monotone(k, spread(a), spread(b));
    lemma_sum_commutes(base, k * spread(a));
    lemma_sum_commutes(base, k * spread(b));
    let (r, margin) = (decode(DRONE_RADIUS), decode(VO_BASE_MARGIN));
    assert(at_most(zero(), k) && at_most(zero(), r) && at_most(zero(), margin)) by {
        reveal(less);
    }
    lemma_product_of_growth(k, r);
    lemma_sum_of_growth(k * r, margin);
    lemma_at_most_transitive(zero(), spread(a), spread(b));
    lemma_product_of_growth(k, spread(a));
    lemma_product_of_growth(k, spread(b));
    lemma_sum_of_growth(k * spread(a), base);
    lemma_sum_of_growth(k * spread(b), base);
    lemma_sum_monotone(k * spread(a), k * spread(b), base);
}

/// Control reads no true position, only what the drone believes: two swarms
/// that differ in where the drone truly is are controlled alike.
pub proof fn law_control_reads_no_true_position(
    q: Craft,
    a: Seen,
    b: Seen,
    d: Drone,
    tick: int,
    pose: SelfLoc,
    tracks: Beliefs,
    worst: Seq<Scalar>,
    goal: GoalBelief,
    o: Obstacles,
    m: Mode,
    dt: Number,
    draws: Draws,
)
    requires
        a.vel == b.vel,
        a.alive == b.alive,
    ensures
        next_quad(q, a, d, tick, situation(a, pose, tracks, worst, goal), o, m, dt, draws)
            == next_quad(q, b, d, tick, situation(b, pose, tracks, worst, goal), o, m, dt, draws),
{
}

} // verus!
