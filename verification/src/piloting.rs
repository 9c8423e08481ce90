//! What control makes of the velocity that a drone sets out to fly: the thrust that
//! takes it there.
use crate::config::{
    ACTUATION_NOISE_STD, BATTERY_DRAIN, BATTERY_MIN, BATTERY_RECHARGE, GRAVITY_ACCEL,
    MAX_LATERAL_ACCEL, TILT_ACCEL_RATE, VEL_KP,
};
use crate::consistency::lemma_one;
use crate::error::{eps, lemma_less_value, lemma_no_value, lemma_tiny, lemma_units, size, value};
use crate::foresight::{is_share, row_close, row_within};
use crate::forms::{triple, Triple};
use crate::limits::lemma_capped_to;
use crate::metric::lemma_product_size;
use crate::noise::{law_no_deviation_no_noise, Draws};
use crate::number::{decode, less, one, zero, Number};
use crate::quad::{
    budget, demanded, drained, next_quad, planned, thrusting, wanted, Craft, Obstacles, Situation,
};
use crate::relative::lemma_nothing_times;
use crate::sim::{plans_on, Drone, Mode};
use crate::swarm::Seen;
use crate::tolerance::{
    both, lemma_difference_close, lemma_difference_near, lemma_itself, lemma_multiple_close,
    lemma_origin_close, lemma_product_near, lemma_sum_close, lemma_sum_near, stretched,
};
use crate::vector::V3;
use vstd::arithmetic::power2::{lemma2_to64, lemma_pow2_adds, pow2};
use vstd::prelude::*;

verus! {

/// The gain of the velocity controller, the cap on the acceleration that it demands,
/// gravity, and how fast the airframe tilts.
proof fn lemma_control_values()
    ensures
        decode(VEL_KP) is Finite,
        value(decode(VEL_KP)) == 4 as real,
        decode(MAX_LATERAL_ACCEL) is Finite,
        value(decode(MAX_LATERAL_ACCEL)) == 14 as real,
        decode(GRAVITY_ACCEL) is Finite,
        value(decode(GRAVITY_ACCEL)) >= 98 as real / (10 as real),
        value(decode(GRAVITY_ACCEL)) <= 982 as real / (100 as real),
{
    lemma2_to64();
    assert(pow2(20) as real == 0x10_0000 as real);
    assert(pow2(21) as real == 0x20_0000 as real);
    lemma_units(decode(VEL_KP), 0x80_0000, 128, 21);
    lemma_units(decode(MAX_LATERAL_ACCEL), 0xe0_0000, 129, 20);
    lemma_units(decode(GRAVITY_ACCEL), 0x9c_f5c3, 129, 20);
}

/// The change of velocity that is asked for.
pub open spec fn wanted_change(v_new: V3, v_cur: V3) -> Triple {
    triple(v_new).minus(triple(v_cur))
}

/// What noise adds to the acceleration.
pub open spec fn shake(noise: bool, d: Draws) -> Triple {
    if noise {
        let s = decode(ACTUATION_NOISE_STD);
        triple(d.noise(s, s, s))
    } else {
        Triple { x: 0 as real, y: 0 as real, z: 0 as real }
    }
}

pub open spec fn is_shake_within(noise: bool, d: Draws, b: real) -> bool {
    noise ==> {
        let s = decode(ACTUATION_NOISE_STD);
        row_within(d.noise(s, s, s), b)
    }
}

/// The acceleration demanded before the cap.
pub open spec fn uncapped(v_new: V3, v_cur: V3) -> V3 {
    (v_new - v_cur) * decode(VEL_KP)
}

/// The acceleration that is demanded points from the velocity flown to the one set
/// out for: four times the change, per second, or as much less on every axis as the
/// cap asks for; and what noise adds. Yields the share `k` that the cap leaves.
pub proof fn law_demand_is_towards_the_velocity(
    v_new: V3,
    v_cur: V3,
    noise: bool,
    d: Draws,
    b: real,
) -> (k: real)
    requires
        row_within(v_new, b),
        row_within(v_cur, b),
        is_shake_within(noise, d, b),
        b >= 1 as real,
        b <= 0x1000_0000_0000 as real,
    ensures
        k >= 0 as real,
        k <= 2 as real,
        row_close(
            demanded(v_new, v_cur, noise, d),
            both(
                stretched(wanted_change(v_new, v_cur), 4 as real * k),
                shake(noise, d),
            ),
            700 as real * (b * eps()),
        ),
        ({
            let (u, most) = (uncapped(v_new, v_cur), decode(MAX_LATERAL_ACCEL));
            &&& !less(most * most, u.length_squared()) ==> k == 1 as real
            &&& less(most * most, u.length_squared()) && u.length_squared() is Finite ==> value(
                u.length(),
            ) > 0 as real && k * value(u.length()) == 14 as real
        }),
{
    lemma_tiny();
    lemma_control_values();
    let e = eps();
    let be = b * e;
    assert((2 as real * b) * e == 2 as real * be && (8 as real * b) * e == 8 as real * be && (
    40 as real * b) * e == 40 as real * be && be <= b / (10000 as real) && be >= e)
        by (nonlinear_arith)
        requires
            be == b * e,
            b >= 1 as real,
            e == (1 as real) / (0x100_0000 as real),
    ;
    let (kp, most) = (decode(VEL_KP), decode(MAX_LATERAL_ACCEL));
    lemma_itself(v_new);
    lemma_itself(v_cur);
    let c = wanted_change(v_new, v_cur);
    lemma_difference_close(
        v_new,
        v_cur,
        triple(v_new),
        triple(v_cur),
        0 as real,
        0 as real,
        2 as real * b,
    );
    let u = uncapped(v_new, v_cur);
    let t = stretched(c, 4 as real);
    lemma_multiple_close(v_new - v_cur, kp, c, 8 as real * be, 4 as real, 8 as real * b);
    assert(row_close(u, t, 64 as real * be));
    lemma_product_near(most, most, 196 as real);
    let k = lemma_capped_to(u, most);
    let w = u.clamp_length_max(most);
    assert((14 as real + 1 as real) * (8 as real * e) == 120 as real * e);
    let ct = stretched(c, 4 as real * k);
    lemma_share_of_change(value(w.x), value(u.x), c.x, k, be);
    lemma_share_of_change(value(w.y), value(u.y), c.y, k, be);
    lemma_share_of_change(value(w.z), value(u.z), c.z, k, be);
    assert(row_close(w, ct, 248 as real * be));
    let n = if noise {
        decode(ACTUATION_NOISE_STD)
    } else {
        zero()
    };
    law_no_deviation_no_noise(d);
    lemma_origin_close();
    if noise {
        lemma_itself(d.noise(n, n, n));
    }
    lemma_size_of_change(c.x, k, b);
    lemma_size_of_change(c.y, k, b);
    lemma_size_of_change(c.z, k, b);
    lemma_sum_close(
        w,
        d.noise(n, n, n),
        ct,
        shake(noise, d),
        248 as real * be,
        0 as real,
        40 as real * b,
    );
    k
}

proof fn lemma_share_of_change(w: real, u: real, c: real, k: real, be: real)
    requires
        size(w - k * u) <= 120 as real * be,
        size(u - c * (4 as real)) <= 64 as real * be,
        k >= 0 as real,
        k <= 2 as real,
        be >= 0 as real,
    ensures
        size(w - c * (4 as real * k)) <= 248 as real * be,
{
    let d = u - c * (4 as real);
    lemma_product_size(k, d, 2 as real, 64 as real * be);
    assert(k * u == c * (4 as real * k) + k * d) by (nonlinear_arith)
        requires
            d == u - c * (4 as real),
    ;
}

proof fn lemma_size_of_change(c: real, k: real, b: real)
    requires
        size(c) <= 2 as real * b,
        k >= 0 as real,
        k <= 2 as real,
    ensures
        size(c * (4 as real * k)) <= 16 as real * b,
{
    lemma_product_size(c, 4 as real * k, 2 as real * b, 8 as real);
}

/// The horizontal thrust tilts towards the demanded one, and no farther: it moves by
/// the share `k` of what is missing, all of it where the airframe tilts fast enough.
pub proof fn law_tilt_is_towards_the_demand(q: Craft, accel: V3, dt: Number, b: real) -> (k: real)
    requires
        row_within(q.horiz, b),
        row_within(accel, b),
        (decode(TILT_ACCEL_RATE) * dt) is Finite,
        ((decode(TILT_ACCEL_RATE) * dt) * (decode(TILT_ACCEL_RATE) * dt)) is Finite,
        value(decode(TILT_ACCEL_RATE) * dt) >= 0 as real,
        value(decode(TILT_ACCEL_RATE) * dt) <= b,
        b >= 1 as real,
        b <= 0x1000_0000_0000 as real,
    ensures
        k >= 0 as real,
        k <= 2 as real,
        ({
            let missing = triple(accel.level()).minus(triple(q.horiz));
            let r = decode(TILT_ACCEL_RATE) * dt;
            let u = accel.level() - q.horiz;
            &&& row_close(
                thrusting(q, accel, dt).horiz,
                both(triple(q.horiz), stretched(missing, k)),
                72 as real * (b * eps()),
            )
            &&& !less(r * r, u.length_squared()) ==> k == 1 as real
            &&& less(r * r, u.length_squared()) && u.length_squared() is Finite ==> value(
                u.length(),
            ) > 0 as real && k * value(u.length()) == value(r)
        }),
{
    lemma_tiny();
    lemma_no_value(zero());
    let e = eps();
    let be = b * e;
    assert((2 as real * b) * e == 2 as real * be && (6 as real * b) * e == 6 as real * be && be
        <= b / (10000 as real) && be >= e) by (nonlinear_arith)
        requires
            be == b * e,
            b >= 1 as real,
            e == (1 as real) / (0x100_0000 as real),
    ;
    let r = decode(TILT_ACCEL_RATE) * dt;
    let (a, h) = (accel.level(), q.horiz);
    lemma_itself(a);
    lemma_itself(h);
    let c = triple(a).minus(triple(h));
    lemma_difference_close(a, h, triple(a), triple(h), 0 as real, 0 as real, 2 as real * b);
    let u = a - h;
    let k = lemma_capped_to(u, r);
    let (w, m) = (u.clamp_length_max(r), value(r));
    assert((m + 1 as real) * (8 as real * e) <= 16 as real * be) by (nonlinear_arith)
        requires
            m <= b,
            b >= 1 as real,
            be == b * e,
            e > 0 as real,
    ;
    lemma_share_of_missing(value(w.x), value(u.x), c.x, k, be, b);
    lemma_share_of_missing(value(w.y), value(u.y), c.y, k, be, b);
    lemma_share_of_missing(value(w.z), value(u.z), c.z, k, be, b);
    let ct = stretched(c, k);
    lemma_sum_close(h, w, triple(h), ct, 0 as real, 32 as real * be, 6 as real * b);
    k
}

proof fn lemma_share_of_missing(w: real, u: real, c: real, k: real, be: real, b: real)
    requires
        size(w - k * u) <= 16 as real * be,
        size(u - c) <= 8 as real * be,
        size(c) <= 2 as real * b,
        k >= 0 as real,
        k <= 2 as real,
    ensures
        size(w - c * k) <= 32 as real * be,
        size(c * k) <= 4 as real * b,
{
    let d = u - c;
    lemma_product_size(k, d, 2 as real, 8 as real * be);
    lemma_product_size(c, k, 2 as real * b, 2 as real);
    assert(k * u == c * k + k * d) by (nonlinear_arith)
        requires
            d == u - c,
    ;
}

/// The thrust bears the weight and gives what is demanded, where the battery lets it:
/// the horizontal part as far as the airframe has tilted, and upwards the demanded
/// acceleration and gravity.
pub proof fn law_thrust_bears_the_weight(q: Craft, accel: V3, dt: Number, b: real)
    requires
        row_within(thrusting(q, accel, dt).horiz, b),
        row_within(accel, b),
        b >= 10 as real,
        b <= 0x1000_0000_0000 as real,
        ({
            let horiz = thrusting(q, accel, dt).horiz;
            !less(budget(q.battery), wanted(horiz, accel).length())
        }),
    ensures
        ({
            let after = thrusting(q, accel, dt);
            let h = triple(after.horiz);
            row_close(
                after.last_thrust,
                Triple {
                    x: h.x,
                    y: h.y + (value(accel.y) + value(decode(GRAVITY_ACCEL))),
                    z: h.z,
                },
                40 as real * (b * eps()),
            )
        }),
{
    lemma_tiny();
    lemma_control_values();
    lemma_one();
    lemma_no_value(zero());
    let e = eps();
    let be = b * e;
    assert((2 as real * b) * e == 2 as real * be && (4 as real * b) * e == 4 as real * be && be
        <= b / (10000 as real) && be > 0 as real) by (nonlinear_arith)
        requires
            be == b * e,
            b >= 1 as real,
            e == (1 as real) / (0x100_0000 as real),
    ;
    let h = thrusting(q, accel, dt).horiz;
    let g = decode(GRAVITY_ACCEL);
    lemma_sum_near(accel.y, g, 2 as real * b);
    let y = accel.y + g;
    lemma_alone(y, 4 as real * b);
    let (o, i) = (zero(), one());
    lemma_sum_near(h.x, o * y, 2 as real * b);
    lemma_sum_near(h.z, o * y, 2 as real * b);
    lemma_sum_near(h.y, i * y, 4 as real * b);
}

/// One and nothing, times a number.
proof fn lemma_alone(y: Number, m: real)
    requires
        y is Finite,
        size(value(y)) <= m,
        m >= 1 as real,
        m <= 0x1000_0000_0000_0000 as real,
    ensures
        (zero() * y) is Finite,
        value(zero() * y) == 0 as real,
        (one() * y) is Finite,
        size(value(one() * y) - value(y)) <= 2 as real * (m * eps()),
{
    lemma_one();
    lemma_no_value(zero());
    lemma_nothing_times(zero(), y);
    lemma_no_value(zero() * y);
    let v = value(y);
    assert(1 as real * v == v) by (nonlinear_arith);
    lemma_product_near(one(), y, m);
}

/// A drone that plans thrusts for the velocity that it sets out to fly: where
/// neither the cap on the acceleration nor the airframe nor the battery holds it
/// back, the thrust is four times the change of velocity, per second, and gravity
/// upwards. `b` bounds the velocities, the tilt and what the airframe can do.
pub proof fn law_craft_thrusts_for_the_planned_velocity(
    q: Craft,
    me: Seen,
    d: Drone,
    tick: int,
    s: Situation,
    o: Obstacles,
    m: Mode,
    dt: Number,
    draws: Draws,
    b: real,
)
    requires
        me.alive,
        plans_on(tick, d.period as int, d.phase as int),
        !m.noise,
        row_within(planned(s, o, m), b),
        row_within(s.v_cur, b),
        row_within(q.horiz, b),
        b >= 1 as real,
        b <= 0x80_0000_0000 as real,
        ({
            let most = decode(MAX_LATERAL_ACCEL);
            !less(most * most, uncapped(planned(s, o, m), s.v_cur).length_squared())
        }),
        ({
            let a = demanded(planned(s, o, m), s.v_cur, false, draws);
            let r = decode(TILT_ACCEL_RATE) * dt;
            let horiz = thrusting(q, a, dt).horiz;
            &&& r is Finite
            &&& (r * r) is Finite
            &&& value(r) >= 0 as real
            &&& value(r) <= b
            &&& !less(r * r, (a.level() - q.horiz).length_squared())
            &&& !less(budget(q.battery), wanted(horiz, a).length())
        }),
    ensures
        ({
            let c = wanted_change(planned(s, o, m), s.v_cur);
            row_close(
                next_quad(q, me, d, tick, s, o, m, dt, draws).last_thrust,
                Triple {
                    x: 4 as real * c.x,
                    y: 4 as real * c.y + value(decode(GRAVITY_ACCEL)),
                    z: 4 as real * c.z,
                },
                4000 as real * (b * eps()),
            )
        }),
{
    lemma_tiny();
    lemma_control_values();
    lemma_no_value(zero());
    let e = eps();
    let (be, w) = (b * e, 20 as real * b);
    assert(w * e == 20 as real * be && 4000 as real * be <= b && be > 0 as real) by (nonlinear_arith)
        requires
            be == b * e,
            w == 20 as real * b,
            b >= 1 as real,
            e == (1 as real) / (0x100_0000 as real),
    ;
    let v = planned(s, o, m);
    let k = law_demand_is_towards_the_velocity(v, s.v_cur, false, draws, b);
    let a = demanded(v, s.v_cur, false, draws);
    let c = wanted_change(v, s.v_cur);
    lemma_four_times(c.x, k);
    lemma_four_times(c.y, k);
    lemma_four_times(c.z, k);
    let j = law_tilt_is_towards_the_demand(q, a, dt, w);
    let miss = triple(a.level()).minus(triple(q.horiz));
    lemma_four_times(miss.x, j);
    lemma_four_times(miss.y, j);
    lemma_four_times(miss.z, j);
    law_thrust_bears_the_weight(q, a, dt, w);
}

proof fn lemma_four_times(c: real, k: real)
    ensures
        k == 1 as real ==> c * (4 as real * k) == 4 as real * c && c * k == c,
{
    if k == 1 as real {
        assert(c * (4 as real * k) == 4 as real * c && c * k == c) by (nonlinear_arith)
            requires
                k == 1 as real,
        ;
    }
}

/// A number, kept between two others.
pub open spec fn kept_between(x: real, low: real, high: real) -> real {
    if x < low {
        low
    } else if x > high {
        high
    } else {
        x
    }
}

/// Flying drains the battery by the thrust times the time, and it recharges by the
/// time, between its least charge and a full one; but for rounding. `b` bounds the
/// thrust and `t` the time.
pub proof fn law_thrust_drains_the_battery(battery: Number, thrust: V3, dt: Number, b: real, t: real)
    requires
        battery is Finite,
        size(value(battery)) <= 1 as real,
        thrust.length() is Finite,
        size(value(thrust.length())) <= b,
        is_share(dt, t),
        b >= 1 as real,
        t >= 1 as real,
        b * t <= 0x1000_0000_0000 as real,
    ensures
        ({
            let (drain, gain) = (value(decode(BATTERY_DRAIN)), value(decode(BATTERY_RECHARGE)));
            let exact = value(battery) - (drain * value(thrust.length())) * value(dt) + gain * value(
                dt,
            );
            let after = drained(battery, thrust, dt);
            &&& after is Finite
            &&& size(
                value(after) - kept_between(exact, value(decode(BATTERY_MIN)), 1 as real),
            ) <= 40 as real * ((b * t) * eps())
            &&& drain > 0 as real
            &&& gain > 0 as real
        }),
{
    lemma_tiny();
    lemma_battery_values();
    lemma_one();
    let (e, bt) = (eps(), b * t);
    let z = bt * e;
    assert(bt >= b && bt >= t && z <= bt / (10000 as real) && (3 as real * bt) * e == 3 as real * z
        && (4 as real * bt) * e == 4 as real * z && z > 0 as real) by (nonlinear_arith)
        requires
            bt == b * t,
            z == bt * e,
            b >= 1 as real,
            t >= 1 as real,
            e == (1 as real) / (0x100_0000 as real),
    ;
    let (d, g, l) = (decode(BATTERY_DRAIN), decode(BATTERY_RECHARGE), thrust.length());
    let (dv, gv, lv, tv) = (value(d), value(g), value(l), value(dt));
    lemma_product_size(dv, lv, 1 as real, b);
    lemma_product_near(d, l, b);
    let p = d * l;
    let x = value(p) - dv * lv;
    assert(b * e <= z) by (nonlinear_arith)
        requires
            z == bt * e,
            bt >= b,
            e > 0 as real,
    ;
    lemma_product_size(value(p), tv, 2 as real * b, t);
    assert((2 as real * b) * t == 2 as real * bt) by (nonlinear_arith)
        requires
            bt == b * t,
    ;
    lemma_product_near(p, dt, 2 as real * bt);
    assert((2 as real * bt) * e == 2 as real * z) by (nonlinear_arith)
        requires
            z == bt * e,
    ;
    lemma_product_size(x, tv, 2 as real * (b * e), t);
    assert((2 as real * (b * e)) * t == 2 as real * z) by (nonlinear_arith)
        requires
            z == bt * e,
            bt == b * t,
    ;
    assert(value(p) * tv == (dv * lv) * tv + x * tv) by (nonlinear_arith)
        requires
            x == value(p) - dv * lv,
    ;
    lemma_product_size(gv, tv, 1 as real, t);
    lemma_product_near(g, dt, bt);
    let (r, s) = (p * dt, g * dt);
    lemma_difference_near(battery, r, 4 as real * bt);
    lemma_sum_near(battery - r, s, 4 as real * bt + 4 as real * bt);
    assert((8 as real * bt) * e == 8 as real * z) by (nonlinear_arith)
        requires
            z == bt * e,
    ;
    let y = battery - r + s;
    lemma_less_value(y, decode(BATTERY_MIN));
    lemma_less_value(one(), y);
}

proof fn lemma_battery_values()
    ensures
        decode(BATTERY_DRAIN) is Finite,
        value(decode(BATTERY_DRAIN)) > 0 as real,
        value(decode(BATTERY_DRAIN)) <= 1 as real,
        decode(BATTERY_RECHARGE) is Finite,
        value(decode(BATTERY_RECHARGE)) > 0 as real,
        value(decode(BATTERY_RECHARGE)) <= 1 as real,
        decode(BATTERY_MIN) is Finite,
        value(decode(BATTERY_MIN)) <= 1 as real,
{
    lemma2_to64();
    assert(pow2(33) as real == 0x2_0000_0000 as real) by {
        lemma_pow2_adds(32, 1);
        assert(pow2(1) == 2);
    }
    assert(pow2(30) as real == 0x4000_0000 as real);
    assert(pow2(24) as real == 0x100_0000 as real);
    lemma_units(decode(BATTERY_DRAIN), 0xd1_b717, 116, 33);
    lemma_units(decode(BATTERY_RECHARGE), 0xc4_9ba6, 119, 30);
    lemma_units(decode(BATTERY_MIN), 0x8c_cccd, 125, 24);
}

} // verus!
