//! What keeping to the cap on closing in on a body guarantees: no collision
//! within the horizon.
use crate::avoid::{limit_on_closing, safe_velocity, seen, Body, HalfSpace};
use crate::config::VO_TIME_HORIZON;
use crate::direction::{lemma_normal, lemma_spans};
use crate::error::{
    eps, lemma_negated_value, lemma_no_value, lemma_quotient_error, lemma_square_sign,
    lemma_sum_error, lemma_tiny, lemma_units, size, value, within,
};
use crate::metric::{finite, inner, lemma_components, lemma_dot_error, lemma_step};
use crate::number::{decode, is_nought, quotient, unit, zero, Number};
use crate::order::lemma_zero_quotient;
use crate::safety::law_lone_body_is_not_rushed;
use crate::vector::V3;
use vstd::arithmetic::power2::{lemma2_to64, lemma_pow2_pos, pow2};
use vstd::prelude::*;

verus! {

/// The square of the distance to the body after the time `t`, when the drone
/// flies with the velocity `v` and the body keeps its own; the horizontal
/// distance, where only that matters.
pub open spec fn apart(c: Body, v: V3, t: real) -> real {
    let (rel, vel) = (seen(c).rel, seen(c).vel);
    let x = value(rel.x) + (value(vel.x) - value(v.x)) * t;
    let y = value(rel.y) + (value(vel.y) - value(v.y)) * t;
    let z = value(rel.z) + (value(vel.z) - value(v.z)) * t;
    if c.planar {
        x * x + z * z
    } else {
        x * x + y * y + z * z
    }
}

pub proof fn lemma_horizon()
    ensures
        decode(VO_TIME_HORIZON) is Finite,
        decode(VO_TIME_HORIZON)->mag > 0,
        value(decode(VO_TIME_HORIZON)) == 5 as real / (2 as real),
{
    lemma2_to64();
    lemma_pow2_pos(127);
    assert(pow2(22) as real == 0x40_0000 as real);
    lemma_units(decode(VO_TIME_HORIZON), 0xa0_0000, 127, 22);
    let v = value(decode(VO_TIME_HORIZON));
    assert(v * (0x40_0000 as real) == 0xa0_0000 as real);
    let p = pow2(127);
    assert(0xa0_0000 * p > 0) by (nonlinear_arith)
        requires
            p > 0,
    ;
}

/// The cap, in real numbers.
pub proof fn lemma_cap(c: Body, v_cur: V3, h: HalfSpace)
    requires
        limit_on_closing(c, v_cur) == Some(h),
        finite(seen(c).rel),
        finite(seen(c).vel),
        seen(c).rel.length() is Finite,
        value(seen(c).rel.length()) <= 128 as real,
        inner(seen(c).vel, seen(c).vel) <= 64 as real,
        c.radius is Finite,
        value(c.radius) >= 0 as real,
        value(c.radius) <= 128 as real,
    ensures
        h.b is Finite,
        ({
            let free = value(seen(c).rel.length()) - value(c.radius);
            within(
                value(h.b),
                inner(seen(c).vel, h.n) + free * (2 as real / (5 as real)),
                1000 as real * eps(),
            )
        }),
{
    lemma_tiny();
    lemma_horizon();
    let (rel, vel) = (seen(c).rel, seen(c).vel);
    let dist = rel.length();
    let horizon = decode(VO_TIME_HORIZON);
    lemma_normal(rel, dist);
    lemma_spans(rel, dist);
    let n = h.n;
    assert(inner(n, n) <= 2 as real * (2 as real));
    lemma_components(n, 2 as real);
    lemma_components(vel, 8 as real);
    lemma_dot_error(vel, n);
    let (y, r) = (value(dist), value(c.radius));
    lemma_negated_value(c.radius);
    lemma_sum_error(dist, -c.radius);
    let free = dist - c.radius;
    lemma_step(value(free), y - r, 128 as real);
    let exact = value(free) * (2 as real / (5 as real));
    lemma_quotient_error(free, horizon, exact);
    let s = free / horizon;
    lemma_step(value(s), exact, 52 as real);
    let d = vel.dot(n);
    lemma_sum_error(d, s);
    lemma_step(value(d + s), value(d) + value(s), 120 as real);
}

/// One component of the way along the direction `n`.
proof fn lemma_line(n: real, r: real, a: real, v: real, t: real)
    ensures
        n * (r + (a - v) * t) == n * r + t * (a * n) - t * (v * n),
{
    let (p, q) = (a * t, v * t);
    assert((a - v) * t == p - q) by (nonlinear_arith)
        requires
            p == a * t,
            q == v * t,
    ;
    let w = p - q;
    assert(n * (r + w) == n * r + n * w) by (nonlinear_arith);
    assert(n * w == n * p - n * q) by (nonlinear_arith)
        requires
            w == p - q,
    ;
    assert(n * (a * t) == t * (a * n)) by (nonlinear_arith);
    assert(n * (v * t) == t * (v * n)) by (nonlinear_arith);
}

/// The square of a number less the part `g` of `n`.
proof fn lemma_shifted(x: real, n: real, g: real)
    ensures
        x * x >= 2 as real * (g * (n * x)) - g * g * (n * n),
{
    let m = g * n;
    lemma_square_sign(x - m);
    assert((x - m) * (x - m) == x * x - 2 as real * (m * x) + m * m) by (nonlinear_arith);
    assert(g * n * x == g * (n * x)) by (nonlinear_arith);
    assert((g * n) * (g * n) == g * g * (n * n)) by (nonlinear_arith);
}

/// A vector is about as long as its part along a direction, or longer.
proof fn lemma_part_along(n: V3, x: real, y: real, z: real)
    requires
        size(inner(n, n) - 1 as real) <= 100 as real * eps(),
    ensures
        ({
            let g = value(n.x) * x + value(n.y) * y + value(n.z) * z;
            x * x + y * y + z * z >= g * g - g * g * (100 as real * eps())
        }),
{
    let (n1, n2, n3) = (value(n.x), value(n.y), value(n.z));
    let (p1, p2, p3) = (n1 * x, n2 * y, n3 * z);
    let g = p1 + p2 + p3;
    lemma_shifted(x, n1, g);
    lemma_shifted(y, n2, g);
    lemma_shifted(z, n3, g);
    let (gg, nn) = (g * g, inner(n, n));
    assert(g * g == g * p1 + g * p2 + g * p3) by (nonlinear_arith)
        requires
            g == p1 + p2 + p3,
    ;
    let (a1, a2, a3) = (n1 * n1, n2 * n2, n3 * n3);
    assert(gg * nn == gg * a1 + gg * a2 + gg * a3) by (nonlinear_arith)
        requires
            nn == a1 + a2 + a3,
    ;
    lemma_square_sign(g);
    let w = 100 as real * eps();
    assert(gg * nn <= gg + gg * w) by (nonlinear_arith)
        requires
            nn <= 1 as real + w,
            gg >= 0 as real,
    ;
}

/// How far along the direction to the body it still is after the time `t`.
proof fn lemma_ahead(y: real, r: real, b: real, p: real, q: real, s: real, t: real)
    requires
        y <= 128 as real,
        r <= y,
        r >= 0 as real,
        within(b, p + (y - r) * (2 as real / (5 as real)), 1000 as real * eps()),
        q <= b + s,
        t >= 0 as real,
        t <= 5 as real / (2 as real),
    ensures
        y - y * (40 as real * eps()) + t * p - t * q >= r - t * s - 1 as real / (1000 as real),
{
    lemma_tiny();
    let e = eps();
    let f = (y - r) * (2 as real / (5 as real));
    let k = 1000 as real * e;
    let d = q - p;
    assert(t * d == t * q - t * p) by (nonlinear_arith)
        requires
            d == q - p,
    ;
    let m = f + k + s;
    assert(t * d <= t * m) by (nonlinear_arith)
        requires
            d <= m,
            t >= 0 as real,
    ;
    assert(t * m == t * f + t * k + t * s) by (nonlinear_arith)
        requires
            m == f + k + s,
    ;
    assert(t * f <= y - r) by (nonlinear_arith)
        requires
            f == (y - r) * (2 as real / (5 as real)),
            y - r >= 0 as real,
            t >= 0 as real,
            t <= 5 as real / (2 as real),
    ;
    assert(t * k <= 3 as real * k) by (nonlinear_arith)
        requires
            t <= 3 as real,
            k >= 0 as real,
    ;
    assert(y * (40 as real * e) <= 128 as real * (40 as real * e)) by (nonlinear_arith)
        requires
            y <= 128 as real,
            e >= 0 as real,
    ;
}

/// A part along the direction that leaves some room.
proof fn lemma_room(g: real, rho: real, all: real)
    requires
        g >= rho + 1 as real / (1000 as real),
        rho >= 0 as real,
        rho <= 128 as real,
        all >= g * g - g * g * (100 as real * eps()),
    ensures
        all >= rho * rho,
{
    lemma_tiny();
    let e = eps();
    let k = 1 as real / (1000 as real);
    let m = rho + k;
    let (gg, mm, rr) = (g * g, m * m, rho * rho);
    assert(gg >= mm) by (nonlinear_arith)
        requires
            gg == g * g,
            mm == m * m,
            g >= m,
            m >= 0 as real,
    ;
    let w = 100 as real * e;
    assert(mm == rr + 2 as real * (rho * k) + k * k) by (nonlinear_arith)
        requires
            mm == m * m,
            rr == rho * rho,
            m == rho + k,
    ;
    assert(rr <= 128 as real * rho) by (nonlinear_arith)
        requires
            rr == rho * rho,
            rho >= 0 as real,
            rho <= 128 as real,
    ;
    assert(gg - gg * w >= mm - mm * w) by (nonlinear_arith)
        requires
            gg >= mm,
            w <= 1 as real,
    ;
    assert(k * k == 1 as real / (1000000 as real));
    assert(rho * k == rho / (1000 as real)) by (nonlinear_arith)
        requires
            k == 1 as real / (1000 as real),
    ;
    assert(mm * w == 100 as real * mm / (0x100_0000 as real)) by (nonlinear_arith)
        requires
            w == 100 as real * e,
            e == (1 as real) / (0x100_0000 as real),
    ;
}

/// A velocity that keeps to the cap, within `s`, is collision-free for the
/// horizon: after any time `t` up to it, the body is no nearer than the safety
/// radius, less what the breach `s` makes of the time, and two millimetres.
pub proof fn law_kept_cap_is_collision_free(
    c: Body,
    v_cur: V3,
    h: HalfSpace,
    v: V3,
    s: real,
    t: real,
)
    requires
        limit_on_closing(c, v_cur) == Some(h),
        finite(seen(c).rel),
        finite(seen(c).vel),
        seen(c).rel.length() is Finite,
        value(seen(c).rel.length()) <= 128 as real,
        inner(seen(c).vel, seen(c).vel) <= 64 as real,
        c.radius is Finite,
        value(c.radius) >= 0 as real,
        value(c.radius) <= value(seen(c).rel.length()),
        inner(v, h.n) <= value(h.b) + s,
        t >= 0 as real,
        t <= value(decode(VO_TIME_HORIZON)),
        s >= 0 as real,
        t * s + 1 as real / (500 as real) <= value(c.radius),
    ensures
        ({
            let rho = value(c.radius) - t * s - 1 as real / (500 as real);
            apart(c, v, t) >= rho * rho
        }),
{
    lemma_tiny();
    lemma_horizon();
    lemma_cap(c, v_cur, h);
    let (rel, vel, n) = (seen(c).rel, seen(c).vel, h.n);
    let dist = rel.length();
    lemma_normal(rel, dist);
    lemma_spans(rel, dist);
    let (p, q, r) = (inner(vel, n), inner(v, n), value(c.radius));
    lemma_ahead(value(dist), r, value(h.b), p, q, s, t);
    lemma_no_breach(t, s);
    let rho = r - t * s - 1 as real / (500 as real);
    if c.planar {
        lemma_level_direction(dist);
    }
    lemma_clear(c, h, v, rho, t);
}

proof fn lemma_times_three(t: real, a: real, b: real, c: real)
    ensures
        t * (a + b + c) == t * a + t * b + t * c,
{
    assert(t * (a + b + c) == t * a + t * b + t * c) by (nonlinear_arith);
}

proof fn lemma_no_breach(t: real, s: real)
    requires
        t >= 0 as real,
        s >= 0 as real,
    ensures
        t * s >= 0 as real,
{
    assert(t * s >= 0 as real) by (nonlinear_arith)
        requires
            t >= 0 as real,
            s >= 0 as real,
    ;
}

/// No height, no vertical part of the direction.
proof fn lemma_level_direction(dist: Number)
    requires
        dist is Finite,
        value(dist) > 0 as real,
    ensures
        value(zero() / dist) == 0 as real,
{
    if dist->mag == 0 {
        lemma_no_value(dist);
    }
    lemma_pow2_pos(277);
    lemma_zero_quotient(dist->mag);
    assert(0 * unit() == 0);
    assert(is_nought(zero() / dist)) by {
        reveal(quotient);
    }
    lemma_no_value(zero() / dist);
}

/// A drone that has one body to avoid does not run into it within the horizon,
/// though the body comes on: it stays out of the safety radius, but for a
/// centimetre per second and two millimetres. The drone may have to back away with
/// up to five and a half metres per second.
pub proof fn law_lone_body_is_not_hit(v_pref: V3, v_cur: V3, c: Body, h: HalfSpace, t: real)
    requires
        limit_on_closing(c, v_cur) == Some(h),
        finite(seen(c).rel),
        finite(seen(c).vel),
        seen(c).rel.length() is Finite,
        value(seen(c).rel.length()) <= 128 as real,
        inner(seen(c).vel, seen(c).vel) <= 64 as real,
        c.radius is Finite,
        value(c.radius) >= 3 as real / (100 as real),
        value(c.radius) <= value(seen(c).rel.length()),
        value(h.b) >= -(11 as real / (2 as real)),
        finite(safe_velocity(v_pref, v_cur, seq![c])),
        t >= 0 as real,
        t <= value(decode(VO_TIME_HORIZON)),
    ensures
        ({
            let rho = value(c.radius) - t / (100 as real) - 1 as real / (500 as real);
            rho >= 0 as real && apart(c, safe_velocity(v_pref, v_cur, seq![c]), t) >= rho * rho
        }),
{
    lemma_horizon();
    lemma_cap(c, v_cur, h);
    law_lone_body_is_not_rushed(v_pref, v_cur, c, h);
    let s = 1 as real / (100 as real);
    assert(t * s == t / (100 as real)) by (nonlinear_arith)
        requires
            s == 1 as real / (100 as real),
    ;
    law_kept_cap_is_collision_free(c, v_cur, h, safe_velocity(v_pref, v_cur, seq![c]), s, t);
}

/// How far along the direction to a body that is too near it is after the time
/// `t`.
proof fn lemma_opening(y: real, r: real, b: real, p: real, q: real, s: real, t: real)
    requires
        y <= 128 as real,
        y >= 0 as real,
        r >= y,
        within(b, p + (y - r) * (2 as real / (5 as real)), 1000 as real * eps()),
        q <= b + s,
        t >= 0 as real,
        t <= 5 as real / (2 as real),
    ensures
        y - y * (40 as real * eps()) + t * p - t * q >= y + (r - y) * ((2 as real * t) / (
        5 as real)) - t * s - 1 as real / (1000 as real),
{
    lemma_tiny();
    let e = eps();
    let f = (y - r) * (2 as real / (5 as real));
    let k = 1000 as real * e;
    let d = q - p;
    assert(t * d == t * q - t * p) by (nonlinear_arith)
        requires
            d == q - p,
    ;
    let m = f + k + s;
    assert(t * d <= t * m) by (nonlinear_arith)
        requires
            d <= m,
            t >= 0 as real,
    ;
    assert(t * m == t * f + t * k + t * s) by (nonlinear_arith)
        requires
            m == f + k + s,
    ;
    assert(t * f == -((r - y) * ((2 as real * t) / (5 as real)))) by (nonlinear_arith)
        requires
            f == (y - r) * (2 as real / (5 as real)),
    ;
    assert(t * k <= 3 as real * k) by (nonlinear_arith)
        requires
            t <= 3 as real,
            k >= 0 as real,
    ;
    assert(y * (40 as real * e) <= 128 as real * (40 as real * e)) by (nonlinear_arith)
        requires
            y <= 128 as real,
            e >= 0 as real,
    ;
}

/// A drone that is within the safety radius of a lone body leaves it: the distance
/// grows evenly, to the radius at the horizon, but for a centimetre per second and
/// two millimetres. The drone may have to back away with up to five and a half
/// metres per second.
pub proof fn law_overlap_is_left(v_pref: V3, v_cur: V3, c: Body, h: HalfSpace, t: real)
    requires
        limit_on_closing(c, v_cur) == Some(h),
        finite(seen(c).rel),
        finite(seen(c).vel),
        seen(c).rel.length() is Finite,
        inner(seen(c).vel, seen(c).vel) <= 64 as real,
        c.radius is Finite,
        value(c.radius) <= 128 as real,
        value(c.radius) >= value(seen(c).rel.length()),
        value(h.b) >= -(11 as real / (2 as real)),
        finite(safe_velocity(v_pref, v_cur, seq![c])),
        t >= 0 as real,
        t <= value(decode(VO_TIME_HORIZON)),
    ensures
        ({
            let (r, y) = (value(c.radius), value(seen(c).rel.length()));
            let rho = y + (r - y) * ((2 as real * t) / (5 as real)) - t / (100 as real) - 1 as real
                / (500 as real);
            rho >= 0 as real ==> apart(c, safe_velocity(v_pref, v_cur, seq![c]), t) >= rho * rho
        }),
{
    lemma_tiny();
    lemma_horizon();
    let (rel, vel, n) = (seen(c).rel, seen(c).vel, h.n);
    let dist = rel.length();
    lemma_normal(rel, dist);
    lemma_spans(rel, dist);
    lemma_cap(c, v_cur, h);
    law_lone_body_is_not_rushed(v_pref, v_cur, c, h);
    let v = safe_velocity(v_pref, v_cur, seq![c]);
    let s = 1 as real / (100 as real);
    assert(t * s == t / (100 as real)) by (nonlinear_arith)
        requires
            s == 1 as real / (100 as real),
    ;
    let (r, yd) = (value(c.radius), value(dist));
    let rho = yd + (r - yd) * ((2 as real * t) / (5 as real)) - t * s - 1 as real / (500 as real);
    let p = inner(vel, n);
    lemma_opening(yd, r, value(h.b), p, inner(v, n), s, t);
    let k = (2 as real * t) / (5 as real);
    assert((r - yd) * k <= r - yd) by (nonlinear_arith)
        requires
            r >= yd,
            k <= 1 as real,
            k >= 0 as real,
    ;
    lemma_no_breach(t, s);
    if c.planar {
        lemma_level_direction(dist);
    }
    if rho >= 0 as real {
        lemma_clear(c, h, v, rho, t);
    }
}

/// A part along the direction to the body that leaves some room.
proof fn lemma_clear(c: Body, h: HalfSpace, v: V3, rho: real, t: real)
    requires
        size(inner(h.n, h.n) - 1 as real) <= 100 as real * eps(),
        ({
            let (rel, vel) = (seen(c).rel, seen(c).vel);
            inner(h.n, rel) + t * inner(vel, h.n) - t * inner(v, h.n) >= rho + 1 as real / (
            1000 as real)
        }),
        rho >= 0 as real,
        rho <= 128 as real,
        c.planar ==> value(h.n.y) == 0 as real,
    ensures
        apart(c, v, t) >= rho * rho,
{
    let (rel, vel, n) = (seen(c).rel, seen(c).vel, h.n);
    let (n1, n2, n3) = (value(n.x), value(n.y), value(n.z));
    let x = value(rel.x) + (value(vel.x) - value(v.x)) * t;
    let y = value(rel.y) + (value(vel.y) - value(v.y)) * t;
    let z = value(rel.z) + (value(vel.z) - value(v.z)) * t;
    lemma_line(n1, value(rel.x), value(vel.x), value(v.x), t);
    lemma_line(n2, value(rel.y), value(vel.y), value(v.y), t);
    lemma_line(n3, value(rel.z), value(vel.z), value(v.z), t);
    lemma_times_three(t, value(vel.x) * n1, value(vel.y) * n2, value(vel.z) * n3);
    lemma_times_three(t, value(v.x) * n1, value(v.y) * n2, value(v.z) * n3);
    let g = n1 * x + n2 * y + n3 * z;
    if c.planar {
        assert(n2 * y == 0 as real) by (nonlinear_arith)
            requires
                n2 == 0 as real,
        ;
        lemma_part_along(n, x, 0 as real, z);
        assert(n2 * (0 as real) == 0 as real) by (nonlinear_arith);
        assert(0 as real * (0 as real) == 0 as real);
        lemma_room(g, rho, x * x + z * z);
    } else {
        lemma_part_along(n, x, y, z);
        lemma_room(g, rho, x * x + y * y + z * z);
    }
}

} // verus!
