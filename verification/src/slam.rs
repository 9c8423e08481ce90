//! Mapping landmarks together.
//!
//! Drones see landmarks at unknown places, by range and bearing from where they
//! believe to be, and fuse each sighting into one map.
use crate::config::{
    BEARING_STD, LANDMARK_INIT_VAR, LANDMARK_OBS_RANGE, LANDMARK_USABLE_VAR, MIN_FIX_VAR,
    RANGE_STD,
};
use crate::diagonal::is_diagonal;
use crate::error::{lemma_tiny, value};
use crate::fusion::{
    covariance_intersection, information, intersected, law_no_larger_than_alone, Fix,
};
use crate::intersection::law_fusing_does_not_grow;
use crate::matrix::{M3, Mat3};
use crate::merging::law_fusing_does_not_blur;
use crate::metrics::{how_many, total, Metrics};
use crate::number::{at_most, decode, larger, less, one, square_root, whole, Number};
use crate::relative::grain;
use crate::scalar::Scalar;
use crate::selection::{is_covariance, lemma_square_size, square};
use crate::selfloc::{Pose, SelfLoc};
use crate::sim::{Drone, SimState};
use crate::swarm::{Seen, Snapshot};
use crate::vector::{V3, Vec3};
use vstd::prelude::*;

verus! {

/// What is known of a landmark.
#[verifier::ext_equal]
pub struct Landmark {
    pub pos: V3,
    pub cov: M3,
    pub seen: bool,
}

/// A landmark's estimate in the map.
#[derive(Clone, Copy, Debug)]
pub struct LandmarkEst {
    pub pos: Vec3,
    pub cov: Mat3,
    pub seen: bool,
}

impl View for LandmarkEst {
    type V = Landmark;

    open spec fn view(&self) -> Landmark {
        Landmark { pos: self.pos@, cov: self.cov@, seen: self.seen }
    }
}

/// The views of the elements.
pub open spec fn marks(s: Seq<LandmarkEst>) -> Seq<Landmark> {
    s.map_values(|l: LandmarkEst| l@)
}

impl LandmarkEst {
    /// A landmark that no drone has seen.
    pub fn unseen() -> (r: LandmarkEst)
        ensures
            r@ == (Landmark {
                pos: V3::origin(),
                cov: M3::identity().scaled(decode(LANDMARK_INIT_VAR)),
                seen: false,
            }),
    {
        LandmarkEst {
            pos: Vec3::origin(),
            cov: Mat3::identity().scale(Scalar::from_bits(LANDMARK_INIT_VAR)),
            seen: false,
        }
    }
}

/// The variance of a sighting from this range.
pub open spec fn sighting_var(range: Number) -> Number {
    let spread = larger(decode(RANGE_STD), range * decode(BEARING_STD));
    larger(spread * spread, decode(MIN_FIX_VAR))
}

/// The sighting of a landmark at `offset` from where the drone believes to be.
pub open spec fn sighting(s: Pose, range: Number, offset: V3) -> Fix {
    Fix { pos: s.x + offset, cov: s.p + M3::identity().scaled(sighting_var(range)) }
}

/// The landmark after a sighting: the first one is taken as it is, a further
/// one is fused.
pub open spec fn sighted(l: Landmark, f: Fix) -> Landmark {
    let g = if l.seen {
        intersected(Fix { pos: l.pos, cov: l.cov }, f)
    } else {
        f
    };
    Landmark { pos: g.pos, cov: g.cov, seen: true }
}

/// The landmark after one drone, which is truly at `me`, has looked for it.
pub open spec fn looked_for(l: Landmark, truth: V3, me: V3, s: Pose, offset: V3) -> Landmark {
    let range = (truth - me).length();
    if less(decode(LANDMARK_OBS_RANGE), range) {
        l
    } else {
        sighted(l, sighting(s, range, offset))
    }
}

/// The landmark `k` after the first `n` drones have looked for it.
pub open spec fn after_looks(
    l: Landmark,
    truth: V3,
    snap: Seq<Seen>,
    drones: Seq<Drone>,
    poses: Seq<SelfLoc>,
    offsets: Seq<Vec<Vec3>>,
    k: int,
    n: int,
) -> Landmark
    decreases n,
{
    if n <= 0 {
        l
    } else {
        looked_for(
            after_looks(l, truth, snap, drones, poses, offsets, k, n - 1),
            truth,
            snap[drones[n - 1].id as int].pos,
            poses[n - 1]@,
            offsets[n - 1]@[k]@,
        )
    }
}

fn look_for(l: LandmarkEst, truth: Vec3, me: Vec3, sl: &SelfLoc, offset: Vec3) -> (r: LandmarkEst)
    ensures
        r@ == looked_for(l@, truth@, me@, sl@, offset@),
{
    let true_range = (truth - me).length();
    if true_range.gt(Scalar::from_bits(LANDMARK_OBS_RANGE)) {
        return l;
    }
    let world = sl.x + offset;
    let spread = Scalar::from_bits(RANGE_STD).max(true_range * Scalar::from_bits(BEARING_STD));
    let var = (spread * spread).max(Scalar::from_bits(MIN_FIX_VAR));
    let cov = sl.p.plus(Mat3::identity().scale(var));
    if l.seen {
        let (pos, fused) = covariance_intersection(l.pos, l.cov, world, cov);
        LandmarkEst { pos, cov: fused, seen: true }
    } else {
        LandmarkEst { pos: world, cov, seen: true }
    }
}

/// A step of mapping. `drones`, `poses` and `offsets` go together; `offsets`
/// holds, for each drone and each landmark, the offset that the drone's noisy
/// range and bearing give.
pub fn slam_mapping(
    snap: &Snapshot,
    landmarks: &Vec<Vec3>,
    sim: &SimState,
    map: &mut Vec<LandmarkEst>,
    drones: &Vec<Drone>,
    poses: &Vec<SelfLoc>,
    offsets: &Vec<Vec<Vec3>>,
)
    requires
        old(map)@.len() >= landmarks@.len(),
        drones@.len() == poses@.len(),
        drones@.len() == offsets@.len(),
        forall|i: int| 0 <= i < drones@.len() ==> (#[trigger] drones@[i]).id < snap@.len(),
        forall|i: int| 0 <= i < offsets@.len() ==> (#[trigger] offsets@[i])@.len() >= landmarks@.len(),
    ensures
        final(map)@.len() == old(map)@.len(),
        sim.paused ==> final(map)@ == old(map)@,
        !sim.paused ==> forall|k: int|
            0 <= k < final(map)@.len() ==> (#[trigger] final(map)@[k])@ == (if k
                < landmarks@.len() {
                after_looks(
                    old(map)@[k]@,
                    landmarks@[k]@,
                    snap@,
                    drones@,
                    poses@,
                    offsets@,
                    k,
                    drones@.len() as int,
                )
            } else {
                old(map)@[k]@
            }),
{
    if sim.paused {
        return ;
    }
    let ghost before = map@;
    let mut i: usize = 0;
    while i < drones.len()
        invariant
            i <= drones@.len(),
            map@.len() == before.len(),
            map@.len() >= landmarks@.len(),
            drones@.len() == poses@.len(),
            drones@.len() == offsets@.len(),
            forall|i: int| 0 <= i < drones@.len() ==> (#[trigger] drones@[i]).id < snap@.len(),
            forall|i: int|
                0 <= i < offsets@.len() ==> (#[trigger] offsets@[i])@.len() >= landmarks@.len(),
            forall|k: int|
                0 <= k < map@.len() ==> (#[trigger] map@[k])@ == (if k < landmarks@.len() {
                    after_looks(
                        before[k]@,
                        landmarks@[k]@,
                        snap@,
                        drones@,
                        poses@,
                        offsets@,
                        k,
                        i as int,
                    )
                } else {
                    before[k]@
                }),
        decreases drones@.len() - i,
    {
        let me = snap.0[drones[i].id].pos;
        let sl = poses[i];
        assert(offsets@[i as int]@.len() >= landmarks@.len());
        let mut k: usize = 0;
        while k < landmarks.len()
            invariant
                k <= landmarks@.len(),
                i < drones@.len(),
                map@.len() == before.len(),
                map@.len() >= landmarks@.len(),
                drones@.len() == poses@.len(),
                drones@.len() == offsets@.len(),
                drones@[i as int].id < snap@.len(),
                offsets@[i as int]@.len() >= landmarks@.len(),
                me@ == snap@[drones@[i as int].id as int].pos,
                sl == poses@[i as int],
                forall|j: int|
                    0 <= j < map@.len() ==> (#[trigger] map@[j])@ == (if j < landmarks@.len() {
                        after_looks(
                            before[j]@,
                            landmarks@[j]@,
                            snap@,
                            drones@,
                            poses@,
                            offsets@,
                            j,
                            if j < k {
                                i + 1
                            } else {
                                i as int
                            },
                        )
                    } else {
                        before[j]@
                    }),
            decreases landmarks@.len() - k,
        {
            let l = look_for(map[k], landmarks[k], me, &sl, offsets[i][k]);
            map.set(k, l);
            k = k + 1;
        }
        i = i + 1;
    }
}

/// Whether a landmark counts as mapped.
pub open spec fn is_built(l: Landmark, worst: Number) -> bool {
    l.seen && at_most(worst, decode(LANDMARK_USABLE_VAR))
}

/// Measures the map: how many landmarks are mapped, and how well. `worst`
/// holds the largest eigenvalue of each covariance in the map.
pub fn measure_map(
    landmarks: &Vec<Vec3>,
    map: &Vec<LandmarkEst>,
    worst: &Vec<Scalar>,
    sim: &SimState,
    metrics: &mut Metrics,
)
    requires
        map@.len() >= landmarks@.len(),
        worst@.len() >= landmarks@.len(),
    ensures
        sim.paused ==> *final(metrics) == *old(metrics),
        !sim.paused ==> {
            let n = landmarks@.len() as int;
            let built = how_many(|k: int| is_built(map@[k]@, worst@[k]@), n);
            let errors = total(
                |k: int| map@[k]@.pos.distance_squared(landmarks@[k]@),
                |k: int| is_built(map@[k]@, worst@[k]@),
                n,
            );
            &&& *final(metrics) == (Metrics {
                map_built: final(metrics).map_built,
                map_error: final(metrics).map_error,
                ..*old(metrics)
            })
            &&& final(metrics).map_built == built
            &&& final(metrics).map_error@ == (if built > 0 {
                square_root(errors / whole(built))
            } else {
                old(metrics).map_error@
            })
        },
{
    if sim.paused {
        return ;
    }
    let ghost p = |k: int| is_built(map@[k]@, worst@[k]@);
    let ghost f = |k: int| map@[k]@.pos.distance_squared(landmarks@[k]@);
    let mut built: usize = 0;
    let mut err_sq = Scalar::zero();
    let mut k: usize = 0;
    while k < landmarks.len()
        invariant
            k <= landmarks@.len(),
            map@.len() >= landmarks@.len(),
            worst@.len() >= landmarks@.len(),
            p == (|k: int| is_built(map@[k]@, worst@[k]@)),
            f == (|k: int| map@[k]@.pos.distance_squared(landmarks@[k]@)),
            built <= k,
            built == how_many(p, k as int),
            err_sq@ == total(f, p, k as int),
        decreases landmarks@.len() - k,
    {
        let est = map[k];
        if est.seen && worst[k].le(Scalar::from_bits(LANDMARK_USABLE_VAR)) {
            built = built + 1;
            err_sq = err_sq + est.pos.distance_squared(landmarks[k]);
        }
        k = k + 1;
    }
    metrics.map_built = built;
    if built > 0 {
        metrics.map_error = (err_sq / Scalar::from_whole(built as u64)).sqrt();
    }
}

/// A landmark that was seen stays seen.
pub proof fn law_seen_stays_seen(l: Landmark, truth: V3, me: V3, s: Pose, offset: V3)
    requires
        l.seen,
    ensures
        looked_for(l, truth, me, s, offset).seen,
{
}

/// A landmark out of range is left as it was.
pub proof fn law_far_landmark_is_kept(l: Landmark, truth: V3, me: V3, s: Pose, offset: V3)
    requires
        less(decode(LANDMARK_OBS_RANGE), (truth - me).length()),
    ensures
        looked_for(l, truth, me, s, offset) == l,
{
}

/// Over a whole step, whichever drones look for it, a landmark that was seen
/// stays seen.
pub proof fn law_step_keeps_seen(
    l: Landmark,
    truth: V3,
    snap: Seq<Seen>,
    drones: Seq<Drone>,
    poses: Seq<SelfLoc>,
    offsets: Seq<Vec<Vec3>>,
    k: int,
    n: int,
)
    requires
        l.seen,
    ensures
        after_looks(l, truth, snap, drones, poses, offsets, k, n).seen,
    decreases n,
{
    if n > 0 {
        law_step_keeps_seen(l, truth, snap, drones, poses, offsets, k, n - 1);
    }
}

/// Over a whole step a landmark that is out of range of every drone is left as
/// it was.
pub proof fn law_step_keeps_far_landmark(
    l: Landmark,
    truth: V3,
    snap: Seq<Seen>,
    drones: Seq<Drone>,
    poses: Seq<SelfLoc>,
    offsets: Seq<Vec<Vec3>>,
    k: int,
    n: int,
)
    requires
        n <= drones.len(),
        forall|i: int|
            0 <= i < n ==> less(
                decode(LANDMARK_OBS_RANGE),
                (truth - snap[(#[trigger] drones[i]).id as int].pos).length(),
            ),
    ensures
        after_looks(l, truth, snap, drones, poses, offsets, k, n) == l,
    decreases n,
{
    if n > 0 {
        assert(drones[n - 1] == drones[n - 1]);
        law_step_keeps_far_landmark(l, truth, snap, drones, poses, offsets, k, n - 1);
    }
}

/// A further sighting leaves a landmark's covariance with no larger
/// determinant than the map alone gives, which is that of the covariance itself
/// but for the rounding of two inversions.
pub proof fn law_sighting_shrinks_the_map(l: Landmark, f: Fix)
    requires
        l.seen,
        !l.cov.is_singular(),
        !f.cov.is_singular(),
        !information(l.cov.inverse(), f.cov.inverse(), one()).is_singular(),
    ensures
        ({
            let alone = information(l.cov.inverse(), f.cov.inverse(), one()).inverse();
            !less(alone.determinant(), sighted(l, f).cov.determinant())
        }),
{
    law_no_larger_than_alone(Fix { pos: l.pos, cov: l.cov }, f);
}

/// Nobody makes a landmark that was seen any vaguer by looking for it: the
/// determinant of its covariance is at most what it was, but for roundings. This
/// holds of diagonal covariances, with variances between 2^-16 and 2^16.
pub proof fn law_look_does_not_blur(l: Landmark, truth: V3, me: V3, s: Pose, offset: V3)
    requires
        l.seen,
        is_diagonal(l.cov, 0x1_0000 as real),
        is_diagonal(sighting(s, (truth - me).length(), offset).cov, 0x1_0000 as real),
    ensures
        ({
            let after = looked_for(l, truth, me, s, offset).cov.determinant();
            &&& after is Finite
            &&& value(after) <= value(l.cov.determinant()) * (1 as real + 124 as real * grain())
        }),
{
    let f = sighting(s, (truth - me).length(), offset);
    law_fusing_does_not_grow(Fix { pos: l.pos, cov: l.cov }, f);
    lemma_tiny();
    lemma_more(value(l.cov.determinant()), 124 as real * grain());
}

/// The same for any covariances that are symmetric within roundings and stretch no
/// direction more than `k` times as much as another; `p` and `q` are their least stretches, and the
/// roundings go with the square of `k`.
pub proof fn law_look_blurs_no_landmark(
    l: Landmark,
    truth: V3,
    me: V3,
    s: Pose,
    offset: V3,
    p: real,
    q: real,
    k: real,
)
    requires
        l.seen,
        is_covariance(l.cov, p, k),
        is_covariance(sighting(s, (truth - me).length(), offset).cov, q, k),
        square(k) <= (1 as real) / (10000 as real),
    ensures
        ({
            let after = looked_for(l, truth, me, s, offset).cov.determinant();
            &&& after is Finite
            &&& value(after) <= value(l.cov.determinant()) * (1 as real + 510 as real * square(k))
        }),
{
    let f = sighting(s, (truth - me).length(), offset);
    law_fusing_does_not_blur(Fix { pos: l.pos, cov: l.cov }, f, p, q, k);
    lemma_square_size(k, square(k));
    lemma_tiny();
    lemma_more(value(l.cov.determinant()), 510 as real * square(k));
}

proof fn lemma_more(x: real, t: real)
    requires
        x > 0 as real,
        t >= 0 as real,
    ensures
        x <= x * (1 as real + t),
{
    let k = 1 as real + t;
    assert(x <= x * k) by (nonlinear_arith)
        requires
            x > 0 as real,
            k >= 1 as real,
    ;
}

/// The first sighting of a landmark is taken as it is.
pub proof fn law_first_sighting_counts(l: Landmark, f: Fix)
    requires
        !l.seen,
    ensures
        sighted(l, f) == (Landmark { pos: f.pos, cov: f.cov, seen: true }),
{
}

/// Whether a covariance is symmetric within roundings and stretches no direction
/// more than `k` times as much as another.
pub open spec fn is_firm(m: M3, k: real) -> bool {
    exists|p: real| is_covariance(m, p, k)
}

/// What roundings can make of the determinant in `n` looks.
pub open spec fn blurred(k: real, n: int) -> real
    decreases n,
{
    if n <= 0 {
        1 as real
    } else {
        blurred(k, n - 1) * (1 as real + 510 as real * square(k))
    }
}

/// Over a whole step no landmark that was seen gets vaguer, whichever drones look
/// for it: the determinant of its covariance is at most what it was, but for the
/// roundings of as many looks.
pub proof fn law_step_blurs_no_landmark(
    l: Landmark,
    truth: V3,
    snap: Seq<Seen>,
    drones: Seq<Drone>,
    poses: Seq<SelfLoc>,
    offsets: Seq<Vec<Vec3>>,
    i: int,
    n: int,
    k: real,
)
    requires
        l.seen,
        n > 0,
        square(k) <= (1 as real) / (10000 as real),
        forall|j: int|
            0 <= j < n ==> is_firm(
                (#[trigger] after_looks(l, truth, snap, drones, poses, offsets, i, j)).cov,
                k,
            ) && is_firm(
                sighting(
                    poses[j]@,
                    (truth - snap[drones[j].id as int].pos).length(),
                    offsets[j]@[i]@,
                ).cov,
                k,
            ),
    ensures
        ({
            let after = after_looks(
                l,
                truth,
                snap,
                drones,
                poses,
                offsets,
                i,
                n,
            ).cov.determinant();
            &&& after is Finite
            &&& value(after) <= value(l.cov.determinant()) * blurred(k, n)
        }),
    decreases n,
{
    let before = after_looks(l, truth, snap, drones, poses, offsets, i, n - 1);
    let (me, s, o) = (snap[drones[n - 1].id as int].pos, poses[n - 1]@, offsets[n - 1]@[i]@);
    law_step_keeps_seen(l, truth, snap, drones, poses, offsets, i, n - 1);
    let f = sighting(s, (truth - me).length(), o);
    assert(is_firm(before.cov, k) && is_firm(f.cov, k));
    let p = choose|p: real| is_covariance(before.cov, p, k);
    let q = choose|q: real| is_covariance(f.cov, q, k);
    law_look_blurs_no_landmark(before, truth, me, s, o, p, q, k);
    lemma_tiny();
    lemma_square_size(k, square(k));
    let after = after_looks(l, truth, snap, drones, poses, offsets, i, n);
    assert(after == looked_for(before, truth, me, s, o));
    let c = 1 as real + 510 as real * square(k);
    let (d, e) = (value(l.cov.determinant()), value(before.cov.determinant()));
    if n > 1 {
        law_step_blurs_no_landmark(l, truth, snap, drones, poses, offsets, i, n - 1, k);
        lemma_blurred_more(e, d, blurred(k, n - 1), c);
    } else {
        assert(before == l);
        lemma_blurred_more(e, d, 1 as real, c);
    }
}

proof fn lemma_blurred_more(e: real, d: real, b: real, c: real)
    requires
        e <= d * b || (e == d && b == 1 as real),
        c >= 0 as real,
    ensures
        e * c <= d * (b * c),
{
    let db = d * b;
    assert(b == 1 as real ==> db == d) by (nonlinear_arith)
        requires
            db == d * b,
    ;
    assert(e * c <= db * c) by (nonlinear_arith)
        requires
            e <= db,
            c >= 0 as real,
    ;
    assert((d * b) * c == d * (b * c)) by (nonlinear_arith);
}

} // verus!
