//! Self-localisation: each drone estimates its own position, without a global
//! reference.
//!
//! Odometry drifts. It is corrected by ranges to anchors at known places, by
//! ranges to landmarks that the swarm has mapped, and by fixes relative to
//! neighbours that broadcast their own estimates.
use crate::config::{
    ANCHOR_RANGE, ANCHOR_RANGE_STD, COOP_REL_STD, LANDMARK_OBS_RANGE, LANDMARK_USABLE_VAR,
    MIN_ANCHOR_RANGE, MIN_FIX_VAR, MIN_INNOVATION_VAR, MIN_STEP, ODOM_NOISE_STD, ONE_TENTH,
    SELF_INIT_VAR, SELF_PROCESS_VAR,
};
use crate::fusion::{covariance_intersection, intersected, Fix};
use crate::matrix::{Mat3, M3};
use crate::metrics::{ease, eased, how_many, tally, total, Metrics};
use crate::noise::{gauss, noise_of, Draws, Jitter};
use crate::number::{at_most, decode, is_single, larger, less, one, square_root, zero, Number};
use crate::order::{lemma_product_of_growth, lemma_sum_grows};
use crate::scalar::Scalar;
use crate::sim::{Drone, Mode, SimState};
use crate::slam::{Landmark, LandmarkEst};
use crate::swarm::{radio, Radio, Seen, Snapshot};
use crate::vector::{Vec3, V3};
use vstd::arithmetic::power2::{lemma_pow2_pos, pow2};
use vstd::prelude::*;

verus! {

/// A drone's belief about its own position.
#[verifier::ext_equal]
pub struct Pose {
    pub x: V3,
    pub p: M3,
    pub bias: V3,
}

/// A drone's estimate of its own position: where it believes to be, the
/// covariance of that, and the fixed bias of its odometry.
#[derive(Clone, Copy, Debug)]
pub struct SelfLoc {
    pub x: Vec3,
    pub p: Mat3,
    pub bias: Vec3,
}

impl View for SelfLoc {
    type V = Pose;

    open spec fn view(&self) -> Pose {
        Pose { x: self.x@, p: self.p@, bias: self.bias@ }
    }
}

/// The estimate at launch, where the position is known.
pub open spec fn launched(start: V3, bias: V3) -> Pose {
    Pose { x: start, p: M3::identity().scaled(decode(SELF_INIT_VAR)), bias }
}

/// The estimate after moving for `dt` with the velocity that odometry reports.
pub open spec fn moved(s: Pose, odom: V3, dt: Number) -> Pose {
    Pose {
        x: s.x + odom * dt,
        p: s.p + M3::identity().scaled(decode(SELF_PROCESS_VAR) * dt),
        bias: s.bias,
    }
}

/// The range from an estimated position to an anchor, never quite zero.
pub open spec fn expected_range(s: Pose, anchor: V3) -> Number {
    larger((s.x - anchor).length(), decode(MIN_ANCHOR_RANGE))
}

/// How the range changes with the position.
pub open spec fn range_gradient(s: Pose, anchor: V3) -> V3 {
    (s.x - anchor) / expected_range(s, anchor)
}

/// The variance of the innovation.
pub open spec fn range_var(s: Pose, anchor: V3, r_var: Number) -> Number {
    let h = range_gradient(s, anchor);
    h.dot(s.p.apply(h)) + r_var
}

/// The estimate after a range `z` to `anchor` with variance `r_var`.
#[verifier::opaque]
pub open spec fn ranged(s: Pose, anchor: V3, z: Number, r_var: Number) -> Pose {
    let h = range_gradient(s, anchor);
    let v = range_var(s, anchor, r_var);
    if less(v, decode(MIN_INNOVATION_VAR)) {
        s
    } else {
        let k = s.p.apply(h) / v;
        Pose {
            x: s.x + k * (z - expected_range(s, anchor)),
            p: (M3::identity() - M3::outer(k, h)) * s.p,
            bias: s.bias,
        }
    }
}

impl SelfLoc {
    /// The estimate of a drone that starts at `start`.
    pub fn new(start: Vec3, bias: Vec3) -> (r: SelfLoc)
        ensures
            r@ == launched(start@, bias@),
    {
        SelfLoc { x: start, p: Mat3::identity().scale(Scalar::from_bits(SELF_INIT_VAR)), bias }
    }

    /// Dead reckoning: moves with the velocity that odometry reports and grows
    /// the covariance.
    pub fn predict(&mut self, odom_vel: Vec3, dt: Scalar)
        ensures
            final(self)@ == moved(old(self)@, odom_vel@, dt@),
    {
        self.x = self.x + odom_vel * dt;
        self.p = self.p.plus(Mat3::identity().scale(Scalar::from_bits(SELF_PROCESS_VAR) * dt));
    }

    /// Corrects the estimate by one range.
    pub fn update_range(&mut self, anchor: Vec3, z_range: Scalar, r_var: Scalar)
        ensures
            final(self)@ == ranged(old(self)@, anchor@, z_range@, r_var@),
    {
        reveal(ranged);
        let d = self.x - anchor;
        let rng = d.length().max(Scalar::from_bits(MIN_ANCHOR_RANGE));
        let h = d / rng;
        let pht = self.p.apply(h);
        let s = h.dot(pht) + r_var;
        if s.lt(Scalar::from_bits(MIN_INNOVATION_VAR)) {
            return ;
        }
        let k = pht / s;
        self.x = self.x + k * (z_range - rng);
        self.p = Mat3::identity().minus(Mat3::outer(k, h)).times(self.p);
    }
}

/// The views of the elements.
pub open spec fn places(s: Seq<Vec3>) -> Seq<V3> {
    s.map_values(|v: Vec3| v@)
}

pub open spec fn jitters(s: Seq<Jitter>) -> Seq<Draws> {
    s.map_values(|j: Jitter| j@)
}

/// Two uniform draws between -1 and 1.
#[derive(Clone, Copy, Debug)]
pub struct Pair {
    pub first: Scalar,
    pub second: Scalar,
}

/// The random draws of one drone's step: those of its odometry, of the range
/// to each anchor and to each landmark, one for each packet that may reach it,
/// and those of its fix relative to each neighbour.
pub struct SelfDraws {
    pub odometry: Jitter,
    pub anchors: Vec<Pair>,
    pub landmarks: Vec<Pair>,
    pub packets: Vec<Scalar>,
    pub fixes: Vec<Jitter>,
}

/// The velocity that odometry reports.
pub open spec fn odometry(vel: V3, bias: V3, noise: bool, d: Draws) -> V3 {
    let std = if noise {
        decode(ODOM_NOISE_STD)
    } else {
        zero()
    };
    vel + (if noise {
        bias
    } else {
        V3::origin()
    }) + d.noise(std, std, std)
}

/// The standard deviation of a range to an anchor or a landmark.
pub open spec fn range_noise(noise: bool) -> Number {
    if noise {
        decode(ANCHOR_RANGE_STD)
    } else {
        zero()
    }
}

/// The variance that such a range is taken to have.
pub open spec fn anchor_var(noise: bool) -> Number {
    larger(range_noise(noise) * range_noise(noise), decode(MIN_FIX_VAR))
}

/// The estimate after the ranges to those of the first `n` anchors that are in
/// reach of the drone at `truth`.
pub open spec fn anchored(
    s: Pose,
    truth: V3,
    anchors: Seq<V3>,
    draws: Seq<Pair>,
    noise: bool,
    n: int,
) -> Pose
    decreases n,
{
    if n <= 0 {
        s
    } else {
        let before = anchored(s, truth, anchors, draws, noise, n - 1);
        let a = anchors[n - 1];
        let range = (truth - a).length();
        if less(decode(ANCHOR_RANGE), range) {
            before
        } else {
            let d = draws[n - 1];
            let z = range + noise_of(d.first@, d.second@, range_noise(noise));
            ranged(before, a, z, anchor_var(noise))
        }
    }
}

/// What the drones know of the landmarks: the map, and the largest eigenvalue
/// of each covariance in it.
#[verifier::ext_equal]
pub struct Chart {
    pub map: Seq<Landmark>,
    pub worst: Seq<Number>,
}

impl Chart {
    /// The variance along the worst axis.
    pub open spec fn var(self, l: int) -> Number {
        larger(self.worst[l], zero())
    }

    /// Whether the landmark is mapped well enough to localise against.
    pub open spec fn usable(self, l: int) -> bool {
        self.map[l].seen && !less(decode(LANDMARK_USABLE_VAR), self.var(l))
    }
}

/// The estimate after the ranges to those of the first `n` landmarks that are
/// in reach and usable. The uncertainty of the map counts as noise.
pub open spec fn charted(
    s: Pose,
    truth: V3,
    landmarks: Seq<V3>,
    chart: Chart,
    draws: Seq<Pair>,
    noise: bool,
    n: int,
) -> Pose
    decreases n,
{
    if n <= 0 {
        s
    } else {
        let before = charted(s, truth, landmarks, chart, draws, noise, n - 1);
        let l = n - 1;
        let range = (truth - landmarks[l]).length();
        if less(decode(LANDMARK_OBS_RANGE), range) || !chart.usable(l) {
            before
        } else {
            let d = draws[l];
            let z = range + noise_of(d.first@, d.second@, range_noise(noise));
            ranged(before, chart.map[l].pos, z, anchor_var(noise) + chart.var(l))
        }
    }
}

/// The covariance of a fix relative to a neighbour.
pub open spec fn fix_cov() -> M3 {
    M3::identity().scaled(
        larger(decode(COOP_REL_STD) * decode(COOP_REL_STD), decode(MIN_FIX_VAR)),
    )
}

/// Where a neighbour's broadcast puts the drone, given the noisy offset to it.
pub open spec fn fix_from(r: Radio, broadcast: Fix, j: int, d: Draws) -> Fix {
    let std = if r.noise {
        decode(COOP_REL_STD)
    } else {
        zero()
    };
    let offset = (r.others[j].pos - r.others[r.id].pos) + d.noise(std, std, std);
    Fix { pos: broadcast.pos - offset, cov: broadcast.cov + fix_cov() }
}

/// The estimate after the fixes relative to those of the first `n` drones that
/// are heard.
pub open spec fn assisted(
    s: Pose,
    r: Radio,
    broadcast: Seq<Fix>,
    fixes: Seq<Draws>,
    n: int,
) -> Pose
    decreases n,
{
    if n <= 0 {
        s
    } else {
        let before = assisted(s, r, broadcast, fixes, n - 1);
        if r.hears(n - 1) {
            let f = intersected(
                Fix { pos: before.x, cov: before.p },
                fix_from(r, broadcast[n - 1], n - 1, fixes[n - 1]),
            );
            Pose { x: f.pos, p: f.cov, bias: before.bias }
        } else {
            before
        }
    }
}

/// One drone's estimate one step later.
pub open spec fn next_pose(
    snap: Seq<Seen>,
    anchors: Seq<V3>,
    landmarks: Seq<V3>,
    chart: Chart,
    broadcast: Seq<Fix>,
    m: Mode,
    dt: Number,
    id: int,
    s: Pose,
    draws: SelfDraws,
) -> Pose {
    let truth = snap[id];
    if !truth.alive {
        s
    } else {
        let reckoned = moved(s, odometry(truth.vel, s.bias, m.noise, draws.odometry@), dt);
        let near = anchored(
            reckoned,
            truth.pos,
            anchors,
            draws.anchors@,
            m.noise,
            anchors.len() as int,
        );
        let placed = charted(
            near,
            truth.pos,
            landmarks,
            chart,
            draws.landmarks@,
            m.noise,
            landmarks.len() as int,
        );
        if m.cooperative {
            assisted(
                placed,
                radio(snap, id, m, draws.packets@),
                broadcast,
                jitters(draws.fixes@),
                snap.len() as int,
            )
        } else {
            placed
        }
    }
}

/// What a drone broadcasts of itself: its estimate and the covariance of that.
#[derive(Clone, Copy, Debug)]
pub struct PoseFix {
    pub pos: Vec3,
    pub cov: Mat3,
}

impl View for PoseFix {
    type V = Fix;

    open spec fn view(&self) -> Fix {
        Fix { pos: self.pos@, cov: self.cov@ }
    }
}

/// The views of the elements.
pub open spec fn fixes(s: Seq<PoseFix>) -> Seq<Fix> {
    s.map_values(|f: PoseFix| f@)
}

fn range_std(noise: bool) -> (r: Scalar)
    ensures
        r@ == range_noise(noise),
{
    if noise {
        Scalar::from_bits(ANCHOR_RANGE_STD)
    } else {
        Scalar::zero()
    }
}

fn range_to_anchors(
    sl: &mut SelfLoc,
    truth: Vec3,
    anchors: &Vec<Vec3>,
    draws: &Vec<Pair>,
    noise: bool,
)
    requires
        draws@.len() >= anchors@.len(),
    ensures
        final(sl)@ == anchored(
            old(sl)@,
            truth@,
            places(anchors@),
            draws@,
            noise,
            anchors@.len() as int,
        ),
{
    let ghost start = sl@;
    let std = range_std(noise);
    let r_var = (std * std).max(Scalar::from_bits(MIN_FIX_VAR));
    let mut i: usize = 0;
    while i < anchors.len()
        invariant
            i <= anchors@.len(),
            draws@.len() >= anchors@.len(),
            std@ == range_noise(noise),
            r_var@ == anchor_var(noise),
            sl@ == anchored(start, truth@, places(anchors@), draws@, noise, i as int),
        decreases anchors@.len() - i,
    {
        let a = anchors[i];
        assert(places(anchors@)[i as int] == a@);
        let true_range = (truth - a).length();
        if !true_range.gt(Scalar::from_bits(ANCHOR_RANGE)) {
            let d = draws[i];
            let z = true_range + gauss(d.first, d.second, std);
            sl.update_range(a, z, r_var);
        }
        i = i + 1;
    }
}

/// The chart that a map and the largest eigenvalues make.
pub open spec fn chart_of(map: Seq<LandmarkEst>, worst: Seq<Scalar>) -> Chart {
    Chart {
        map: crate::slam::marks(map),
        worst: crate::swarm::numbers(worst),
    }
}

fn range_to_landmarks(
    sl: &mut SelfLoc,
    truth: Vec3,
    landmarks: &Vec<Vec3>,
    map: &Vec<LandmarkEst>,
    worst: &Vec<Scalar>,
    draws: &Vec<Pair>,
    noise: bool,
)
    requires
        draws@.len() >= landmarks@.len(),
        map@.len() >= landmarks@.len(),
        worst@.len() >= landmarks@.len(),
    ensures
        final(sl)@ == charted(
            old(sl)@,
            truth@,
            places(landmarks@),
            chart_of(map@, worst@),
            draws@,
            noise,
            landmarks@.len() as int,
        ),
{
    let ghost start = sl@;
    let ghost chart = chart_of(map@, worst@);
    let std = range_std(noise);
    let r_var = (std * std).max(Scalar::from_bits(MIN_FIX_VAR));
    let mut i: usize = 0;
    while i < landmarks.len()
        invariant
            i <= landmarks@.len(),
            draws@.len() >= landmarks@.len(),
            map@.len() >= landmarks@.len(),
            worst@.len() >= landmarks@.len(),
            std@ == range_noise(noise),
            r_var@ == anchor_var(noise),
            chart == chart_of(map@, worst@),
            sl@ == charted(start, truth@, places(landmarks@), chart, draws@, noise, i as int),
        decreases landmarks@.len() - i,
    {
        assert(places(landmarks@)[i as int] == landmarks@[i as int]@);
        assert(chart.map[i as int] == map@[i as int]@);
        assert(chart.worst[i as int] == worst@[i as int]@);
        let true_range = (truth - landmarks[i]).length();
        if !true_range.gt(Scalar::from_bits(LANDMARK_OBS_RANGE)) {
            let est = map[i];
            let map_var = worst[i].max(Scalar::zero());
            if est.seen && !map_var.gt(Scalar::from_bits(LANDMARK_USABLE_VAR)) {
                let d = draws[i];
                let z = true_range + gauss(d.first, d.second, std);
                sl.update_range(est.pos, z, r_var + map_var);
            }
        }
        i = i + 1;
    }
}

fn fix_by_neighbors(
    sl: &mut SelfLoc,
    id: usize,
    snap: &Snapshot,
    sim: &SimState,
    broadcast: &Vec<PoseFix>,
    packets: &Vec<Scalar>,
    draws: &Vec<Jitter>,
)
    requires
        id < snap@.len(),
        broadcast@.len() >= snap@.len(),
        packets@.len() >= snap@.len(),
        draws@.len() >= snap@.len(),
    ensures
        final(sl)@ == assisted(
            old(sl)@,
            radio(snap@, id as int, sim@, packets@),
            fixes(broadcast@),
            jitters(draws@),
            snap@.len() as int,
        ),
{
    let ghost start = sl@;
    let ghost r = radio(snap@, id as int, sim@, packets@);
    let me = snap.0[id].pos;
    let rel = Scalar::from_bits(COOP_REL_STD);
    let std = if sim.noise {
        rel
    } else {
        Scalar::zero()
    };
    let meas_cov = Mat3::identity().scale((rel * rel).max(Scalar::from_bits(MIN_FIX_VAR)));
    let mut j: usize = 0;
    while j < snap.0.len()
        invariant
            j <= snap@.len(),
            id < snap@.len(),
            broadcast@.len() >= snap@.len(),
            packets@.len() >= snap@.len(),
            draws@.len() >= snap@.len(),
            me@ == snap@[id as int].pos,
            std@ == (if sim.noise {
                decode(COOP_REL_STD)
            } else {
                zero()
            }),
            meas_cov@ == fix_cov(),
            r == radio(snap@, id as int, sim@, packets@),
            sl@ == assisted(start, r, fixes(broadcast@), jitters(draws@), j as int),
        decreases snap@.len() - j,
    {
        assert(r.draws[j as int] == packets@[j as int]@);
        assert(fixes(broadcast@)[j as int] == broadcast@[j as int]@);
        assert(jitters(draws@)[j as int] == draws@[j as int]@);
        if snap.hears(id, me, j, sim.perception, sim.noise, packets[j]) {
            let other = snap.0[j].pos;
            let d_meas = (other - me) + draws[j].noise(std, std, std);
            let said = broadcast[j];
            let (x, p) = covariance_intersection(
                sl.x,
                sl.p,
                said.pos - d_meas,
                said.cov.plus(meas_cov),
            );
            sl.x = x;
            sl.p = p;
        }
        j = j + 1;
    }
}

/// What the step does to the measure of the drones' own errors, where `errors`
/// is the sum of their squares.
pub open spec fn next_self_error(before: Number, errors: Number, counted: nat) -> Number {
    if less(zero(), tally(counted)) {
        eased(before, square_root(errors / tally(counted)), decode(ONE_TENTH))
    } else {
        before
    }
}

/// A step of the whole swarm's self-localisation. `drones`, `poses` and
/// `draws` go together; `worst` holds the largest eigenvalue of each covariance
/// in the map, and `broadcast` what each drone last said of itself.
pub fn self_localize(
    snap: &Snapshot,
    anchors: &Vec<Vec3>,
    landmarks: &Vec<Vec3>,
    map: &Vec<LandmarkEst>,
    worst: &Vec<Scalar>,
    broadcast: &Vec<PoseFix>,
    sim: &SimState,
    delta: Scalar,
    metrics: &mut Metrics,
    drones: &Vec<Drone>,
    poses: &mut Vec<SelfLoc>,
    draws: &Vec<SelfDraws>,
)
    requires
        drones@.len() == old(poses)@.len(),
        drones@.len() == draws@.len(),
        map@.len() >= landmarks@.len(),
        worst@.len() >= landmarks@.len(),
        broadcast@.len() >= snap@.len(),
        forall|i: int| 0 <= i < drones@.len() ==> (#[trigger] drones@[i]).id < snap@.len(),
        forall|i: int|
            0 <= i < draws@.len() ==> {
                let d = #[trigger] draws@[i];
                &&& d.anchors@.len() >= anchors@.len()
                &&& d.landmarks@.len() >= landmarks@.len()
                &&& d.packets@.len() >= snap@.len()
                &&& d.fixes@.len() >= snap@.len()
            },
    ensures
        sim.paused ==> final(poses)@ == old(poses)@ && *final(metrics) == *old(metrics),
        !sim.paused ==> {
            let dt = larger(delta@, decode(MIN_STEP));
            let n = drones@.len() as int;
            &&& final(poses)@.len() == n
            &&& forall|i: int|
                0 <= i < n ==> (#[trigger] final(poses)@[i])@ == next_pose(
                    snap@,
                    places(anchors@),
                    places(landmarks@),
                    chart_of(map@, worst@),
                    fixes(broadcast@),
                    sim@,
                    dt,
                    drones@[i].id as int,
                    old(poses)@[i]@,
                    draws@[i],
                )
            &&& *final(metrics) == (Metrics {
                self_error: final(metrics).self_error,
                ..*old(metrics)
            })
            &&& final(metrics).self_error@ == next_self_error(
                old(metrics).self_error@,
                total(
                    |i: int| final(poses)@[i]@.x.distance_squared(snap@[drones@[i].id as int].pos),
                    |i: int| snap@[drones@[i].id as int].alive,
                    n,
                ),
                how_many(|i: int| snap@[drones@[i].id as int].alive, n),
            )
        },
{
    if sim.paused {
        return ;
    }
    let dt = delta.max(Scalar::from_bits(MIN_STEP));
    let std = if sim.noise {
        Scalar::from_bits(ODOM_NOISE_STD)
    } else {
        Scalar::zero()
    };
    let ghost before = poses@;
    let ghost lives = |i: int| snap@[drones@[i].id as int].alive;
    let mut err_sum = Scalar::zero();
    let mut counted = Scalar::zero();
    let mut i: usize = 0;
    while i < drones.len()
        invariant
            i <= drones@.len(),
            drones@.len() == before.len(),
            drones@.len() == poses@.len(),
            drones@.len() == draws@.len(),
            map@.len() >= landmarks@.len(),
            worst@.len() >= landmarks@.len(),
            broadcast@.len() >= snap@.len(),
            forall|i: int| 0 <= i < drones@.len() ==> (#[trigger] drones@[i]).id < snap@.len(),
            forall|i: int|
                0 <= i < draws@.len() ==> {
                    let d = #[trigger] draws@[i];
                    &&& d.anchors@.len() >= anchors@.len()
                    &&& d.landmarks@.len() >= landmarks@.len()
                    &&& d.packets@.len() >= snap@.len()
                    &&& d.fixes@.len() >= snap@.len()
                },
            std@ == (if sim.noise {
                decode(ODOM_NOISE_STD)
            } else {
                zero()
            }),
            forall|k: int| i <= k < drones@.len() ==> #[trigger] poses@[k] == before[k],
            forall|k: int|
                0 <= k < i ==> (#[trigger] poses@[k])@ == next_pose(
                    snap@,
                    places(anchors@),
                    places(landmarks@),
                    chart_of(map@, worst@),
                    fixes(broadcast@),
                    sim@,
                    dt@,
                    drones@[k].id as int,
                    before[k]@,
                    draws@[k],
                ),
            lives == (|i: int| snap@[drones@[i].id as int].alive),
            counted@ == tally(how_many(lives, i as int)),
            err_sum@ == total(
                |k: int| poses@[k]@.x.distance_squared(snap@[drones@[k].id as int].pos),
                lives,
                i as int,
            ),
        decreases drones@.len() - i,
    {
        let id = drones[i].id;
        let truth = snap.0[id];
        let ghost prior = poses@;
        if truth.alive {
            let mut sl = poses[i];
            let d = &draws[i];
            let bias = if sim.noise {
                sl.bias
            } else {
                Vec3::origin()
            };
            sl.predict(truth.vel + bias + d.odometry.noise(std, std, std), dt);
            range_to_anchors(&mut sl, truth.pos, anchors, &d.anchors, sim.noise);
            range_to_landmarks(
                &mut sl,
                truth.pos,
                landmarks,
                map,
                worst,
                &d.landmarks,
                sim.noise,
            );
            if sim.cooperative {
                fix_by_neighbors(&mut sl, id, snap, sim, broadcast, &d.packets, &d.fixes);
            }
            poses.set(i, sl);
            err_sum = err_sum + sl.x.distance_squared(truth.pos);
            counted = counted + Scalar::one();
        }
        proof {
            let f = |k: int| prior[k]@.x.distance_squared(snap@[drones@[k].id as int].pos);
            let g = |k: int| poses@[k]@.x.distance_squared(snap@[drones@[k].id as int].pos);
            crate::metrics::lemma_total_same(f, g, lives, i as int);
        }
        i = i + 1;
    }
    if counted.gt(Scalar::zero()) {
        metrics.self_error =
        ease(metrics.self_error, (err_sum / counted).sqrt(), Scalar::from_bits(ONE_TENTH));
    }
}

/// The bias of a drone's odometry never changes.
pub proof fn law_bias_is_fixed(
    snap: Seq<Seen>,
    anchors: Seq<V3>,
    landmarks: Seq<V3>,
    chart: Chart,
    broadcast: Seq<Fix>,
    m: Mode,
    dt: Number,
    id: int,
    s: Pose,
    draws: SelfDraws,
)
    ensures
        next_pose(snap, anchors, landmarks, chart, broadcast, m, dt, id, s, draws).bias == s.bias,
{
    let truth = snap[id];
    let reckoned = moved(s, odometry(truth.vel, s.bias, m.noise, draws.odometry@), dt);
    let na = anchors.len() as int;
    let nl = landmarks.len() as int;
    let near = anchored(reckoned, truth.pos, anchors, draws.anchors@, m.noise, na);
    lemma_anchored_bias(reckoned, truth.pos, anchors, draws.anchors@, m.noise, na);
    let placed = charted(near, truth.pos, landmarks, chart, draws.landmarks@, m.noise, nl);
    lemma_charted_bias(near, truth.pos, landmarks, chart, draws.landmarks@, m.noise, nl);
    lemma_assisted_bias(
        placed,
        radio(snap, id, m, draws.packets@),
        broadcast,
        jitters(draws.fixes@),
        snap.len() as int,
    );
}

proof fn lemma_anchored_bias(
    s: Pose,
    truth: V3,
    anchors: Seq<V3>,
    draws: Seq<Pair>,
    noise: bool,
    n: int,
)
    ensures
        anchored(s, truth, anchors, draws, noise, n).bias == s.bias,
    decreases n,
{
    if n > 0 {
        reveal(ranged);
        lemma_anchored_bias(s, truth, anchors, draws, noise, n - 1);
    }
}

proof fn lemma_charted_bias(
    s: Pose,
    truth: V3,
    landmarks: Seq<V3>,
    chart: Chart,
    draws: Seq<Pair>,
    noise: bool,
    n: int,
)
    ensures
        charted(s, truth, landmarks, chart, draws, noise, n).bias == s.bias,
    decreases n,
{
    if n > 0 {
        reveal(ranged);
        lemma_charted_bias(s, truth, landmarks, chart, draws, noise, n - 1);
    }
}

proof fn lemma_assisted_bias(s: Pose, r: Radio, broadcast: Seq<Fix>, fixes: Seq<Draws>, n: int)
    ensures
        assisted(s, r, broadcast, fixes, n).bias == s.bias,
    decreases n,
{
    if n > 0 {
        lemma_assisted_bias(s, r, broadcast, fixes, n - 1);
    }
}

/// With uncertainty switched off, odometry depends neither on the bias nor on
/// the draws.
pub proof fn law_quiet_odometry_has_no_error(vel: V3, a: V3, b: V3, d: Draws, e: Draws)
    ensures
        odometry(vel, a, false, d) == odometry(vel, b, false, e),
{
    crate::noise::law_no_deviation_no_noise(d);
    crate::noise::law_no_deviation_no_noise(e);
}

/// A drone out of reach of all anchors, with no usable landmark in reach and
/// without cooperation, flies by dead reckoning alone.
pub proof fn law_dead_reckoning(
    snap: Seq<Seen>,
    anchors: Seq<V3>,
    landmarks: Seq<V3>,
    chart: Chart,
    broadcast: Seq<Fix>,
    m: Mode,
    dt: Number,
    id: int,
    s: Pose,
    draws: SelfDraws,
)
    requires
        snap[id].alive,
        !m.cooperative,
        forall|i: int|
            0 <= i < anchors.len() ==> less(
                decode(ANCHOR_RANGE),
                (snap[id].pos - #[trigger] anchors[i]).length(),
            ),
        forall|l: int|
            0 <= l < landmarks.len() ==> less(
                decode(LANDMARK_OBS_RANGE),
                (snap[id].pos - #[trigger] landmarks[l]).length(),
            ) || !chart.usable(l),
    ensures
        next_pose(snap, anchors, landmarks, chart, broadcast, m, dt, id, s, draws) == moved(
            s,
            odometry(snap[id].vel, s.bias, m.noise, draws.odometry@),
            dt,
        ),
{
    let reckoned = moved(s, odometry(snap[id].vel, s.bias, m.noise, draws.odometry@), dt);
    let (na, nl) = (anchors.len() as int, landmarks.len() as int);
    lemma_no_anchor(reckoned, snap[id].pos, anchors, draws.anchors@, m.noise, na);
    lemma_no_landmark(reckoned, snap[id].pos, landmarks, chart, draws.landmarks@, m.noise, nl);
}

pub proof fn lemma_no_anchor(
    s: Pose,
    truth: V3,
    anchors: Seq<V3>,
    draws: Seq<Pair>,
    noise: bool,
    n: int,
)
    requires
        n <= anchors.len(),
        forall|i: int|
            0 <= i < anchors.len() ==> less(
                decode(ANCHOR_RANGE),
                (truth - #[trigger] anchors[i]).length(),
            ),
    ensures
        anchored(s, truth, anchors, draws, noise, n) == s,
    decreases n,
{
    if n > 0 {
        lemma_no_anchor(s, truth, anchors, draws, noise, n - 1);
    }
}

pub proof fn lemma_no_landmark(
    s: Pose,
    truth: V3,
    landmarks: Seq<V3>,
    chart: Chart,
    draws: Seq<Pair>,
    noise: bool,
    n: int,
)
    requires
        n <= landmarks.len(),
        forall|l: int|
            0 <= l < landmarks.len() ==> less(
                decode(LANDMARK_OBS_RANGE),
                (truth - #[trigger] landmarks[l]).length(),
            ) || !chart.usable(l),
    ensures
        charted(s, truth, landmarks, chart, draws, noise, n) == s,
    decreases n,
{
    if n > 0 {
        lemma_no_landmark(s, truth, landmarks, chart, draws, noise, n - 1);
    }
}

/// Whether a number is a pattern's and not negative.
pub open spec fn is_variance(a: Number) -> bool {
    is_single(a) && at_most(zero(), a)
}

/// Dead reckoning makes a drone no surer of its position: no variance shrinks.
pub proof fn law_reckoning_grows_uncertainty(s: Pose, odom: V3, dt: Number)
    requires
        is_variance(s.p.r0.x),
        is_variance(s.p.r1.y),
        is_variance(s.p.r2.z),
        at_most(zero(), dt),
    ensures
        at_most(s.p.r0.x, moved(s, odom, dt).p.r0.x),
        at_most(s.p.r1.y, moved(s, odom, dt).p.r1.y),
        at_most(s.p.r2.z, moved(s, odom, dt).p.r2.z),
{
    let rate = decode(SELF_PROCESS_VAR);
    assert(at_most(zero(), rate) && rate is Finite && rate->mag > 0) by {
        reveal(less);
        lemma_pow2_pos(122);
        assert(0xa3_d70a * pow2(122) > 0) by (nonlinear_arith)
            requires
                pow2(122) > 0,
        ;
    }
    lemma_product_of_growth(rate, dt);
    assert(at_most(zero(), one()) && one()->mag > 0) by {
        reveal(less);
        lemma_pow2_pos(149);
    }
    lemma_product_of_growth(one(), rate * dt);
    let step = one() * (rate * dt);
    lemma_sum_grows(s.p.r0.x, step);
    lemma_sum_grows(s.p.r1.y, step);
    lemma_sum_grows(s.p.r2.z, step);
}

/// Without cooperation, what the neighbours say has no effect.
pub proof fn law_words_count_only_in_cooperation(
    snap: Seq<Seen>,
    anchors: Seq<V3>,
    landmarks: Seq<V3>,
    chart: Chart,
    said: Seq<Fix>,
    other: Seq<Fix>,
    m: Mode,
    dt: Number,
    id: int,
    s: Pose,
    draws: SelfDraws,
)
    requires
        !m.cooperative,
    ensures
        next_pose(snap, anchors, landmarks, chart, said, m, dt, id, s, draws) == next_pose(
            snap,
            anchors,
            landmarks,
            chart,
            other,
            m,
            dt,
            id,
            s,
            draws,
        ),
{
}

} // verus!
