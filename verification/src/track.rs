//! Estimating a neighbour from ranges and bearings: a six-state extended
//! Kalman filter in position and velocity.
use crate::angle::{can_wrap, wrap_angle, wrapped};
use crate::config::{
    BEARING_STD, FOUR, KF_ACCEL_VAR, KF_INIT_POS_VAR, KF_INIT_VEL_VAR, MINUS_ONE, MIN_LEVEL_RANGE,
    MIN_MEAS_VAR, MIN_RANGE, RANGE_STD, TWO,
};
use crate::matrix::{Mat3, Mat6, M3, M6};
use crate::noise::{Draws, Jitter};
use crate::number::{clamped, decode, larger, one, square_root, zero, Number};
use crate::scalar::Scalar;
use crate::vector::{Vec3, V3};
use vstd::prelude::*;

verus! {

/// What is believed of a neighbour.
#[verifier::ext_equal]
pub struct Estimate {
    pub pos: V3,
    pub vel: V3,
    pub cov: M6,
    pub last_seen: Number,
}

/// One drone's belief about one neighbour, in the world frame.
#[derive(Clone, Copy, Debug)]
pub struct Track {
    pub pos: Vec3,
    pub vel: Vec3,
    pub cov: Mat6,
    pub last_seen: Scalar,
}

impl View for Track {
    type V = Estimate;

    open spec fn view(&self) -> Estimate {
        Estimate { pos: self.pos@, vel: self.vel@, cov: self.cov@, last_seen: self.last_seen@ }
    }
}

/// `q` on the diagonal.
pub open spec fn diagonal3(q: Number) -> M3 {
    M3::diagonal(q, q, q)
}

/// A fresh belief: unsure of the position, very unsure of the velocity.
pub open spec fn first_estimate(ego: V3, offset: V3, now: Number) -> Estimate {
    Estimate {
        pos: ego + offset,
        vel: V3::origin(),
        cov: M6 {
            pp: diagonal3(decode(KF_INIT_POS_VAR)),
            pv: M3::nil(),
            vp: M3::nil(),
            vv: diagonal3(decode(KF_INIT_VEL_VAR)),
        },
        last_seen: now,
    }
}

/// The motion model over `dt`: position grows by `dt` times velocity.
pub open spec fn transition(dt: Number) -> M6 {
    M6 { pp: M3::identity(), pv: diagonal3(dt), vp: M3::nil(), vv: M3::identity() }
}

pub open spec fn squared(a: Number) -> Number {
    a * a
}

/// The noise of an unknown constant acceleration over `dt`.
pub open spec fn process_noise(dt: Number) -> M6 {
    let q = decode(KF_ACCEL_VAR);
    let q11 = q * squared(squared(dt)) / decode(FOUR);
    let q12 = q * (dt * squared(dt)) / decode(TWO);
    let q22 = q * squared(dt);
    M6 { pp: diagonal3(q11), pv: diagonal3(q12), vp: diagonal3(q12), vv: diagonal3(q22) }
}

/// The belief carried forward by `dt`.
#[verifier::opaque]
pub open spec fn carried(e: Estimate, dt: Number) -> Estimate {
    let f = transition(dt);
    Estimate {
        pos: f.pv.apply_onto(f.pp.apply(e.pos), e.vel),
        vel: f.vv.apply_onto(f.vp.apply(e.pos), e.vel),
        cov: f * e.cov * f.transposed() + process_noise(dt),
        last_seen: e.last_seen,
    }
}

/// How range, azimuth and elevation change with the position.
pub open spec fn position_jacobian(d: V3) -> M3 {
    let r = larger(d.length(), decode(MIN_RANGE));
    let level2 = larger(d.x * d.x + d.z * d.z, decode(MIN_LEVEL_RANGE));
    let level = square_root(level2);
    M3 {
        r0: V3 { x: d.x / r, y: d.y / r, z: d.z / r },
        r1: V3 { x: d.z / level2, y: zero(), z: -d.x / level2 },
        r2: V3 {
            x: -d.y * d.x / (level * r * r),
            y: level / (r * r),
            z: -d.y * d.z / (level * r * r),
        },
    }
}

/// A three-by-six matrix, by its blocks for position and velocity, times a
/// six-by-six one.
pub open spec fn wide_times(p: M3, v: M3, m: M6) -> (M3, M3) {
    (v.product_onto(p * m.pp, m.vp), v.product_onto(p * m.pv, m.vv))
}

/// A six-by-six matrix times a six-by-three one, by its blocks.
pub open spec fn times_tall(m: M6, p: M3, v: M3) -> (M3, M3) {
    (m.pv.product_onto(m.pp * p, v), m.vv.product_onto(m.vp * p, v))
}

/// The variance of the innovation.
pub open spec fn innovation_cov(cov: M6, h: M3, r: M3) -> M3 {
    let (p, v) = wide_times(h, M3::nil(), cov);
    v.product_onto(p * h.transposed(), M3::nil().transposed()) + r
}

/// The measurement minus what was predicted, with the azimuth wrapped.
pub open spec fn innovation(z: V3, predicted: V3) -> V3 {
    let y = z - predicted;
    V3 { x: y.x, y: wrapped(y.y), z: y.z }
}

/// The belief after a measurement `z` where `predicted` was expected of a
/// neighbour at `d` from the drone, with measurement noise `r`.
#[verifier::opaque]
pub open spec fn corrected(e: Estimate, d: V3, z: V3, predicted: V3, r: M3, now: Number) -> Estimate {
    let h = position_jacobian(d);
    let s = innovation_cov(e.cov, h, r);
    if s.is_singular() {
        e
    } else {
        let (tp, tv) = times_tall(e.cov, h.transposed(), M3::nil().transposed());
        let (kp, kv) = (tp * s.inverse(), tv * s.inverse());
        let y = innovation(z, predicted);
        let kh = M6 { pp: kp * h, pv: kp * M3::nil(), vp: kv * h, vv: kv * M3::nil() };
        Estimate {
            pos: e.pos + kp.apply(y),
            vel: e.vel + kv.apply(y),
            cov: (M6::identity() - kh) * e.cov,
            last_seen: now,
        }
    }
}

fn diagonal3_exec(q: Scalar) -> (r: Mat3)
    ensures
        r@ == diagonal3(q@),
{
    Mat3::diagonal(q, q, q)
}

fn squared_exec(a: Scalar) -> (r: Scalar)
    ensures
        r@ == squared(a@),
{
    a * a
}

fn process_noise_exec(dt: Scalar) -> (r: Mat6)
    ensures
        r@ == process_noise(dt@),
{
    let q = Scalar::from_bits(KF_ACCEL_VAR);
    let dt2 = squared_exec(dt);
    let q11 = q * squared_exec(dt2) / Scalar::from_bits(FOUR);
    let q12 = q * (dt * dt2) / Scalar::from_bits(TWO);
    let q22 = q * dt2;
    Mat6 {
        pp: diagonal3_exec(q11),
        pv: diagonal3_exec(q12),
        vp: diagonal3_exec(q12),
        vv: diagonal3_exec(q22),
    }
}

/// How range, azimuth and elevation change with the position of a neighbour at
/// `d` from the drone. They do not change with its velocity.
pub fn measurement_jacobian(d: Vec3) -> (h: Mat3)
    ensures
        h@ == position_jacobian(d@),
{
    let r = d.length().max(Scalar::from_bits(MIN_RANGE));
    let level2 = (d.x * d.x + d.z * d.z).max(Scalar::from_bits(MIN_LEVEL_RANGE));
    let level = level2.sqrt();
    Mat3 {
        r0: Vec3::new(d.x / r, d.y / r, d.z / r),
        r1: Vec3::new(d.z / level2, Scalar::zero(), d.x.negate() / level2),
        r2: Vec3::new(
            d.y.negate() * d.x / (level * r * r),
            level / (r * r),
            d.y.negate() * d.z / (level * r * r),
        ),
    }
}

impl Track {
    /// A track from a first measurement that puts the neighbour at `offset`
    /// from the drone.
    pub fn new(ego: Vec3, offset: Vec3, now: Scalar) -> (r: Track)
        ensures
            r@ == first_estimate(ego@, offset@, now@),
    {
        Track {
            pos: ego + offset,
            vel: Vec3::origin(),
            cov: Mat6 {
                pp: diagonal3_exec(Scalar::from_bits(KF_INIT_POS_VAR)),
                pv: Mat3::nil(),
                vp: Mat3::nil(),
                vv: diagonal3_exec(Scalar::from_bits(KF_INIT_VEL_VAR)),
            },
            last_seen: now,
        }
    }

    /// Carries the track forward by `dt` at constant velocity and grows its
    /// covariance.
    pub fn predict(&mut self, dt: Scalar)
        ensures
            final(self)@ == carried(old(self)@, dt@),
    {
        reveal(carried);
        let f = Mat6 {
            pp: Mat3::identity(),
            pv: diagonal3_exec(dt),
            vp: Mat3::nil(),
            vv: Mat3::identity(),
        };
        let pos = f.pv.apply_onto(f.pp.apply(self.pos), self.vel);
        let vel = f.vv.apply_onto(f.vp.apply(self.pos), self.vel);
        let cov = f.times(self.cov).times(f.transpose()).plus(process_noise_exec(dt));
        self.pos = pos;
        self.vel = vel;
        self.cov = cov;
    }

    /// Fuses a range, azimuth and elevation `z` measured from `ego`, where
    /// `predicted` was expected of the present estimate and `r` is the
    /// covariance of the measurement.
    pub fn update(&mut self, ego: Vec3, z: Vec3, predicted: Vec3, r: &Mat3, now: Scalar)
        requires
            can_wrap((z@ - predicted@).y),
        ensures
            final(self)@ == corrected(
                old(self)@,
                old(self)@.pos - ego@,
                z@,
                predicted@,
                r@,
                now@,
            ),
    {
        reveal(corrected);
        let h = measurement_jacobian(self.pos - ego);
        let o = Mat3::nil();
        let ht = h.transpose();
        let ot = o.transpose();
        let wp = o.times_onto(h.times(self.cov.pp), self.cov.vp);
        let wv = o.times_onto(h.times(self.cov.pv), self.cov.vv);
        let s = wv.times_onto(wp.times(ht), ot).plus(*r);
        let s_inv = match s.try_inverse() {
            Some(m) => m,
            None => return ,
        };
        let kp = self.cov.pv.times_onto(self.cov.pp.times(ht), ot).times(s_inv);
        let kv = self.cov.vv.times_onto(self.cov.vp.times(ht), ot).times(s_inv);
        let raw = z - predicted;
        let y = Vec3::new(raw.x, wrap_angle(raw.y), raw.z);
        let kh = Mat6 { pp: kp.times(h), pv: kp.times(o), vp: kv.times(h), vv: kv.times(o) };
        let cov = Mat6::identity().minus(kh).times(self.cov);
        self.pos = self.pos + kp.apply(y);
        self.vel = self.vel + kv.apply(y);
        self.cov = cov;
        self.last_seen = now;
    }

    /// The position's covariance.
    pub fn pos_cov(&self) -> (r: Mat3)
        ensures
            r@ == self@.cov.pp,
    {
        self.cov.pp
    }
}

/// The standard deviation along the worst axis, from the largest eigenvalue of
/// a covariance.
pub open spec fn spread(largest: Number) -> Number {
    square_root(larger(largest, zero()))
}

/// The standard deviation along the worst axis, from the largest eigenvalue of
/// a covariance.
pub fn sigma(largest: Scalar) -> (r: Scalar)
    ensures
        r@ == spread(largest@),
{
    largest.max(Scalar::zero()).sqrt()
}

/// The range to `d` and the sine of its elevation.
pub fn range_and_rise(d: Vec3) -> (r: (Scalar, Scalar))
    ensures
        r.0@ == larger(d@.length(), decode(MIN_RANGE)),
        r.1@ == clamped(d@.y / r.0@, decode(MINUS_ONE), one()),
{
    let r = d.length().max(Scalar::from_bits(MIN_RANGE));
    (r, (d.y / r).clamp(Scalar::from_bits(MINUS_ONE), Scalar::one()))
}

/// The sine and cosine of an angle.
#[derive(Clone, Copy, Debug)]
pub struct Bearing {
    pub sin: Scalar,
    pub cos: Scalar,
}

/// The vector of length `r` in the direction of this azimuth and elevation.
pub fn relative_from_bearing(r: Scalar, az: Bearing, el: Bearing) -> (d: Vec3)
    ensures
        d@ == (V3 {
            x: r@ * el.cos@ * az.sin@,
            y: r@ * el.sin@,
            z: r@ * el.cos@ * az.cos@,
        }),
{
    let level = r * el.cos;
    Vec3::new(level * az.sin, r * el.sin, level * az.cos)
}

/// The standard deviations of a range and of a bearing.
pub open spec fn sensor_noise(noise: bool) -> (Number, Number) {
    if noise {
        (decode(RANGE_STD), decode(BEARING_STD))
    } else {
        (zero(), zero())
    }
}

/// The standard deviations of a range and of a bearing: none where uncertainty
/// is switched off.
pub fn sensor_stds(noise: bool) -> (r: (Scalar, Scalar))
    ensures
        (r.0@, r.1@) == sensor_noise(noise),
{
    if noise {
        (Scalar::from_bits(RANGE_STD), Scalar::from_bits(BEARING_STD))
    } else {
        (Scalar::zero(), Scalar::zero())
    }
}

/// The covariance of a range and two bearings.
pub open spec fn sensor_cov(noise: bool) -> M3 {
    let (range, bearing) = sensor_noise(noise);
    let least = decode(MIN_MEAS_VAR);
    M3::diagonal(
        larger(range * range, least),
        larger(bearing * bearing, least),
        larger(bearing * bearing, least),
    )
}

/// The covariance of a range and two bearings, never quite zero.
pub fn measurement_cov(noise: bool) -> (r: Mat3)
    ensures
        r@ == sensor_cov(noise),
{
    let (range, bearing) = sensor_stds(noise);
    let least = Scalar::from_bits(MIN_MEAS_VAR);
    let b = (bearing * bearing).max(least);
    Mat3::diagonal((range * range).max(least), b, b)
}

/// What the sensor reports of a range, azimuth and elevation.
pub open spec fn reported(z: V3, noise: bool, d: Draws) -> V3 {
    let (range, bearing) = sensor_noise(noise);
    z + d.noise(range, bearing, bearing)
}

/// What the sensor reports of a true range, azimuth and elevation.
pub fn report(z: Vec3, noise: bool, jitter: &Jitter) -> (r: Vec3)
    ensures
        r@ == reported(z@, noise, jitter@),
{
    let (range, bearing) = sensor_stds(noise);
    z + jitter.noise(range, bearing, bearing)
}

/// A track whose innovation cannot be inverted is left as it was; any other
/// is stamped with the time of the measurement.
pub proof fn law_update_stamps(e: Estimate, d: V3, z: V3, predicted: V3, r: M3, now: Number)
    ensures
        ({
            let s = innovation_cov(e.cov, position_jacobian(d), r);
            let after = corrected(e, d, z, predicted, r, now);
            &&& s.is_singular() ==> after == e
            &&& !s.is_singular() ==> after.last_seen == now
        }),
{
    reveal(corrected);
}

/// Prediction does not count as having seen the neighbour.
pub proof fn law_prediction_keeps_last_seen(e: Estimate, dt: Number)
    ensures
        carried(e, dt).last_seen == e.last_seen,
{
    reveal(carried);
}

} // verus!
