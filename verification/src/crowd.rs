//! What the caps on closing in on several bodies guarantee together, in real
//! numbers.
use crate::avoid::{
    excess, limit_on_closing, limits_on_closing, projected, safe_velocity, seen, settled, Body,
    HalfSpace,
};
use crate::clearance::{apart, law_kept_cap_is_collision_free, lemma_horizon};
use crate::config::{MAX_SPEED, VO_TIME_HORIZON};
use crate::direction::lemma_normal;
use crate::error::{eps, lemma_square_sign, lemma_tiny, size, value};
use crate::metric::{finite, inner, lemma_components, lemma_inner_error, lemma_product_size};
use crate::number::{decode, less, zero};
use crate::push::{
    is_cap, is_within, lemma_bulk_along, lemma_excess, lemma_moved_along, lemma_moved_length,
    lemma_pushed, lemma_unit_parts, pushed,
};
use crate::retreat::lemma_share_left;
use crate::safety::{lemma_nan_excess, lemma_scaled_inner};
use crate::speed::{has_nan, law_speed_limit_holds, lemma_clamp, lemma_clamp_not_finite};
use crate::vector::V3;
use vstd::prelude::*;

verus! {

/// Whether a cap allows to stand still.
pub open spec fn is_open(h: HalfSpace) -> bool {
    is_cap(h) && value(h.b) >= 0 as real
}

/// What is taken away along the direction is at least what comes back.
proof fn lemma_gain(e: real, vn: real, nn: real)
    requires
        e > 0 as real,
        e <= 32 as real,
        e <= vn + 1000 as real * eps(),
        size(nn - 1 as real) <= 100 as real * eps(),
    ensures
        (e * e) * nn - 2 as real * (e * vn) <= 100 as real * eps(),
{
    lemma_tiny();
    let (ee, k) = (e * e, eps());
    assert(e * vn >= ee - 1000 as real * (e * k)) by (nonlinear_arith)
        requires
            ee == e * e,
            e > 0 as real,
            vn >= e - 1000 as real * k,
    ;
    assert(ee >= 0 as real) by (nonlinear_arith)
        requires
            ee == e * e,
    ;
    assert(ee * nn <= ee + 100 as real * (ee * k)) by (nonlinear_arith)
        requires
            ee >= 0 as real,
            nn <= 1 as real + 100 as real * k,
    ;
    // (1 - 100 k) e^2 - 2000 k e is least where e is about 1000 k.
    let r = e * k;
    assert(100 as real * (ee * k) <= ee / (2 as real)) by (nonlinear_arith)
        requires
            ee >= 0 as real,
            k == (1 as real) / (0x100_0000 as real),
    ;
    let z = 2000 as real * k;
    assert(ee / (2 as real) - z * e >= -(z * z) / (2 as real)) by {
        let w = e - z;
        lemma_square_sign(w);
        assert(w * w == ee - 2 as real * (z * e) + z * z) by (nonlinear_arith)
            requires
                w == e - z,
                ee == e * e,
        ;
    }
    assert(z * e == 2000 as real * r) by (nonlinear_arith)
        requires
            z == 2000 as real * k,
            r == e * k,
    ;
    assert(z * z <= 100 as real * k) by (nonlinear_arith)
        requires
            z == 2000 as real * k,
            k == (1 as real) / (0x100_0000 as real),
    ;
}

/// A push onto one cap that allows to stand still: the velocity keeps to it and
/// gets no longer.
proof fn lemma_push(v: V3, h: HalfSpace)
    requires
        finite(v),
        inner(v, v) <= 50 as real,
        is_open(h),
    ensures
        finite(pushed(v, h)),
        inner(pushed(v, h), pushed(v, h)) <= inner(v, v) + 9000 as real * eps(),
        inner(pushed(v, h), h.n) <= value(h.b) + 5000 as real * eps(),
{
    lemma_tiny();
    let (m, f) = (8 as real, eps());
    lemma_components(v, m);
    lemma_unit_parts(h);
    lemma_excess(v, h, m);
    let e = excess(v, h);
    if less(zero(), e) {
        lemma_pushed(v, h, m);
        let u = pushed(v, h);
        let (ev, nn, t) = (value(e), inner(h.n, h.n), 20 as real * (m * f));
        lemma_moved_along(u, v, h.n, ev, t, h.n);
        lemma_gain(ev, inner(v, h.n), nn);
        lemma_moved_length(u, v, h.n, ev, t, m);
        assert(6 as real * (m * t) + 3 as real * (t * t) <= 8000 as real * f) by (nonlinear_arith)
            requires
                t == 160 as real * f,
                m == 8 as real,
                f == (1 as real) / (0x100_0000 as real),
        ;
        let off = 1 as real - nn;
        lemma_product_size(ev, off, 32 as real, 100 as real * f);
        assert(ev * nn == ev - ev * off) by (nonlinear_arith)
            requires
                off == 1 as real - nn,
        ;
    }
}

/// A push breaks no other cap whose normal does not point away. `m` bounds the
/// components.
proof fn lemma_push_keeps(v: V3, h: HalfSpace, g: HalfSpace, m: real)
    requires
        is_within(v, m),
        m >= 8 as real,
        m <= 100 as real,
        is_cap(h),
        is_cap(g),
        inner(h.n, g.n) >= 0 as real,
    ensures
        inner(pushed(v, h), g.n) <= inner(v, g.n) + 61 as real * (m * eps()),
{
    lemma_tiny();
    lemma_unit_parts(g);
    lemma_excess(v, h, m);
    let e = excess(v, h);
    let f = m * eps();
    assert(f >= 0 as real) by (nonlinear_arith)
        requires
            f == m * eps(),
            m >= 8 as real,
            eps() > 0 as real,
    ;
    if less(zero(), e) {
        lemma_pushed(v, h, m);
        let u = pushed(v, h);
        let (ev, hg) = (value(e), inner(h.n, g.n));
        lemma_moved_along(u, v, h.n, ev, 20 as real * f, g.n);
        assert(ev * hg >= 0 as real) by (nonlinear_arith)
            requires
                ev > 0 as real,
                hg >= 0 as real,
        ;
    }
}

/// Whether all are caps, and no normal points away from another.
pub open spec fn agree(hs: Seq<HalfSpace>) -> bool {
    &&& forall|i: int| 0 <= i < hs.len() ==> is_cap(#[trigger] hs[i])
    &&& forall|i: int, j: int|
        0 <= i < j < hs.len() ==> inner((#[trigger] hs[j]).n, (#[trigger] hs[i]).n) >= 0 as real
}

/// One round of projection onto caps that allow to stand still.
proof fn lemma_round(v: V3, hs: Seq<HalfSpace>)
    requires
        finite(v),
        inner(v, v) <= 49 as real + (1 as real) / (1000 as real),
        agree(hs),
        forall|i: int| 0 <= i < hs.len() ==> is_open(#[trigger] hs[i]),
        hs.len() <= 1000,
    ensures
        ({
            let (u, k) = (projected(v, hs), hs.len() as real);
            &&& finite(u)
            &&& inner(u, u) <= inner(v, v) + k * (9000 as real * eps())
            &&& forall|i: int|
                0 <= i < hs.len() ==> inner(u, (#[trigger] hs[i]).n) <= value(hs[i].b) + (
                5000 as real + k * (488 as real)) * eps()
        }),
    decreases hs.len(),
{
    lemma_tiny();
    if hs.len() > 0 {
        let (before, h) = (hs.drop_last(), hs.last());
        assert forall|i: int| 0 <= i < before.len() implies is_cap(#[trigger] before[i]) by {
            assert(before[i] == hs[i]);
        }
        assert forall|i: int| 0 <= i < before.len() implies is_open(#[trigger] before[i]) by {
            assert(before[i] == hs[i]);
        }
        assert forall|i: int, j: int| 0 <= i < j < before.len() implies inner(
            (#[trigger] before[j]).n,
            (#[trigger] before[i]).n,
        ) >= 0 as real by {
            assert(before[i] == hs[i] && before[j] == hs[j]);
        }
        lemma_round(v, before);
        let u = projected(v, before);
        let (k, l) = (before.len() as real, hs.len() as real);
        assert(l == k + 1 as real);
        assert(k * (9000 as real * eps()) <= (6 as real) / (10 as real)) by (nonlinear_arith)
            requires
                k <= 1000 as real,
                k >= 0 as real,
                eps() == (1 as real) / (0x100_0000 as real),
        ;
        let w = projected(v, hs);
        assert(w == pushed(u, h));
        assert(h == hs[hs.len() - 1]);
        lemma_push(u, h);
        lemma_components(u, 8 as real);
        assert(l * (9000 as real * eps()) == k * (9000 as real * eps()) + 9000 as real * eps())
            by (nonlinear_arith)
            requires
                l == k + 1 as real,
        ;
        let (p, q) = (
            (5000 as real + k * (488 as real)) * eps(),
            (5000 as real + l * (488 as real)) * eps(),
        );
        assert(q == p + 488 as real * eps() && p >= 5000 as real * eps()) by (nonlinear_arith)
            requires
                p == (5000 as real + k * (488 as real)) * eps(),
                q == (5000 as real + l * (488 as real)) * eps(),
                l == k + 1 as real,
                k >= 0 as real,
                eps() > 0 as real,
        ;
        assert forall|i: int| 0 <= i < hs.len() implies inner(w, (#[trigger] hs[i]).n) <= value(
            hs[i].b,
        ) + q by {
            if i < hs.len() - 1 {
                assert(before[i] == hs[i]);
                assert(inner(hs[hs.len() - 1].n, hs[i].n) >= 0 as real);
                lemma_push_keeps(u, h, hs[i], 8 as real);
            }
        }
    }
}

proof fn lemma_nan_projected(v: V3, hs: Seq<HalfSpace>)
    requires
        has_nan(v),
    ensures
        projected(v, hs) == v,
    decreases hs.len(),
{
    if hs.len() > 0 {
        lemma_nan_projected(v, hs.drop_last());
        lemma_nan_excess(v, hs.last());
    }
}

/// The normals of the caps that come of bodies are unit vectors.
proof fn lemma_caps(cs: Seq<Body>, v_cur: V3)
    requires
        forall|k: int|
            0 <= k < cs.len() ==> finite(seen(#[trigger] cs[k]).rel) && seen(
                cs[k],
            ).rel.length() is Finite,
    ensures
        forall|i: int|
            0 <= i < limits_on_closing(cs, v_cur).len() ==> {
                let h = #[trigger] limits_on_closing(cs, v_cur)[i];
                finite(h.n) && size(inner(h.n, h.n) - 1 as real) <= 100 as real * eps()
            },
    decreases cs.len(),
{
    if cs.len() > 0 {
        let before = cs.drop_last();
        assert forall|k: int| 0 <= k < before.len() implies finite(seen(#[trigger] before[k]).rel)
            && seen(before[k]).rel.length() is Finite by {
            assert(before[k] == cs[k]);
        }
        lemma_caps(before, v_cur);
        let c = cs.last();
        assert(c == cs[cs.len() - 1]);
        if limit_on_closing(c, v_cur) is Some {
            lemma_normal(seen(c).rel, seen(c).rel.length());
        }
    }
}

/// Once it was under the speed limit, a velocity keeps to all caps after each
/// round of projection, where each of them allows to stand still and no normal
/// points away from another: a push never breaks an earlier cap. The breach is at
/// most a millimetre per second, and a thirtieth of one for each cap.
pub proof fn law_caps_hold_together(v: V3, v_cur: V3, cs: Seq<Body>, rounds: nat, i: int)
    requires
        forall|k: int|
            0 <= k < cs.len() ==> finite(seen(#[trigger] cs[k]).rel) && seen(
                cs[k],
            ).rel.length() is Finite,
        ({
            let hs = limits_on_closing(cs, v_cur);
            &&& 0 <= i < hs.len()
            &&& hs.len() <= 1000
            &&& forall|k: int|
                0 <= k < hs.len() ==> (#[trigger] hs[k]).b is Finite && value(hs[k].b) >= 0 as real
            &&& forall|j: int, k: int|
                0 <= j < k < hs.len() ==> inner((#[trigger] hs[k]).n, (#[trigger] hs[j]).n)
                    >= 0 as real
            &&& finite(settled(v, hs, rounds))
        }),
        rounds >= 2,
    ensures
        ({
            let hs = limits_on_closing(cs, v_cur);
            inner(settled(v, hs, rounds), hs[i].n) <= value(hs[i].b) + (1 as real) / (1000 as real)
                + (hs.len() as real) / (30000 as real)
        }),
{
    lemma_tiny();
    lemma_caps(cs, v_cur);
    let hs = limits_on_closing(cs, v_cur);
    let last = (rounds - 1) as nat;
    let before = projected(settled(v, hs, (rounds - 2) as nat), hs);
    let x = settled(v, hs, last);
    assert(x == before.clamp_length_max(decode(MAX_SPEED)));
    let u = projected(x, hs);
    let w = settled(v, hs, rounds);
    assert(w == u.clamp_length_max(decode(MAX_SPEED)));
    if !finite(x) {
        if finite(before) {
            let s = lemma_clamp(before);
        } else {
            lemma_clamp_not_finite(before);
        }
        lemma_nan_projected(x, hs);
        lemma_clamp_not_finite(u);
    }
    law_speed_limit_holds(before);
    law_speed_limit_holds(u);
    lemma_round(x, hs);
    let h = hs[i];
    lemma_components(w, 8 as real);
    lemma_unit_parts(h);
    let s = lemma_clamp(u);
    lemma_scaled_inner(u, w, h.n, s);
    lemma_clamped_cap(inner(u, h.n), value(h.b), s, hs.len() as real, inner(w, h.n), w, h);
}

proof fn lemma_clamped_cap(t: real, b: real, s: real, k: real, r: real, w: V3, h: HalfSpace)
    requires
        t <= b + (5000 as real + k * (488 as real)) * eps(),
        r <= s * t + 192 as real * eps(),
        r == inner(w, h.n),
        s >= 0 as real,
        s <= 1 as real + (1 as real) / (100000 as real),
        b >= 0 as real,
        k >= 0 as real,
        k <= 1000 as real,
        size(value(h.n.x)) <= 1001 as real / (1000 as real),
        size(value(h.n.y)) <= 1001 as real / (1000 as real),
        size(value(h.n.z)) <= 1001 as real / (1000 as real),
        size(value(w.x)) <= 8 as real,
        size(value(w.y)) <= 8 as real,
        size(value(w.z)) <= 8 as real,
    ensures
        r <= b + (1 as real) / (1000 as real) + k / (30000 as real),
{
    let n = 1001 as real / (1000 as real);
    lemma_product_size(value(w.x), value(h.n.x), 8 as real, n);
    lemma_product_size(value(w.y), value(h.n.y), 8 as real, n);
    lemma_product_size(value(w.z), value(h.n.z), 8 as real, n);
    if b <= 64 as real {
        let e = eps();
        let m = b + (5000 as real + k * (488 as real)) * e;
        assert((5000 as real + k * (488 as real)) * e == 5000 as real * e + 488 as real * (k * e))
            by (nonlinear_arith);
        assert(k * e == k / (0x100_0000 as real)) by (nonlinear_arith)
            requires
                e == (1 as real) / (0x100_0000 as real),
        ;
        assert(s * t <= m + m / (100000 as real)) by (nonlinear_arith)
            requires
                t <= m,
                m >= 0 as real,
                s >= 0 as real,
                s <= 1 as real + (1 as real) / (100000 as real),
        ;
    }
}

/// A body that has to be avoided has its cap among those of all bodies.
pub proof fn lemma_listed(cs: Seq<Body>, v_cur: V3, j: int, h: HalfSpace) -> (i: int)
    requires
        0 <= j < cs.len(),
        limit_on_closing(cs[j], v_cur) == Some(h),
    ensures
        0 <= i < limits_on_closing(cs, v_cur).len(),
        limits_on_closing(cs, v_cur)[i] == h,
    decreases cs.len(),
{
    if j == cs.len() - 1 {
        limits_on_closing(cs, v_cur).len() - 1
    } else {
        assert(cs.drop_last()[j] == cs[j]);
        lemma_listed(cs.drop_last(), v_cur, j, h)
    }
}

/// A drone with several bodies in the way, each at a distance that still allows
/// to come nearer and none on a side away from another, runs into none of them
/// within the horizon: it stays out of each safety radius, but for the breach of
/// the cap times the time, and two millimetres.
pub proof fn law_no_body_is_hit(
    v_pref: V3,
    v_cur: V3,
    cs: Seq<Body>,
    j: int,
    h: HalfSpace,
    t: real,
)
    requires
        0 <= j < cs.len(),
        limit_on_closing(cs[j], v_cur) == Some(h),
        forall|k: int|
            0 <= k < cs.len() ==> finite(seen(#[trigger] cs[k]).rel) && seen(
                cs[k],
            ).rel.length() is Finite,
        ({
            let hs = limits_on_closing(cs, v_cur);
            &&& hs.len() <= 1000
            &&& forall|k: int|
                0 <= k < hs.len() ==> (#[trigger] hs[k]).b is Finite && value(hs[k].b) >= 0 as real
            &&& forall|i: int, k: int|
                0 <= i < k < hs.len() ==> inner((#[trigger] hs[k]).n, (#[trigger] hs[i]).n)
                    >= 0 as real
        }),
        finite(safe_velocity(v_pref, v_cur, cs)),
        finite(seen(cs[j]).vel),
        value(seen(cs[j]).rel.length()) <= 128 as real,
        inner(seen(cs[j]).vel, seen(cs[j]).vel) <= 64 as real,
        cs[j].radius is Finite,
        value(cs[j].radius) >= 1 as real / (10 as real),
        value(cs[j].radius) <= value(seen(cs[j]).rel.length()),
        t >= 0 as real,
        t <= value(decode(VO_TIME_HORIZON)),
    ensures
        ({
            let breach = (1 as real) / (1000 as real) + (limits_on_closing(cs, v_cur).len() as real)
                / (30000 as real);
            let rho = value(cs[j].radius) - t * breach - 1 as real / (500 as real);
            rho >= 0 as real && apart(cs[j], safe_velocity(v_pref, v_cur, cs), t) >= rho * rho
        }),
{
    lemma_horizon();
    let hs = limits_on_closing(cs, v_cur);
    let i = lemma_listed(cs, v_cur, j, h);
    law_caps_hold_together(v_pref, v_cur, cs, 16, i);
    let breach = (1 as real) / (1000 as real) + (hs.len() as real) / (30000 as real);
    let v = safe_velocity(v_pref, v_cur, cs);
    assert(t * breach <= 9 as real / (100 as real)) by (nonlinear_arith)
        requires
            t >= 0 as real,
            t <= 5 as real / (2 as real),
            breach >= 0 as real,
            breach <= 35 as real / (1000 as real),
    ;
    law_kept_cap_is_collision_free(cs[j], v_cur, h, v, breach, t);
}

/// The square of the length after a push, without the rounding of the push: `y` is
/// the part along the normal and `z` the rounding of the excess `e`.
proof fn lemma_any_length(e: real, y: real, b: real, nn: real, z: real)
    requires
        e == y - b + z,
        e > 0 as real,
        e <= 228 as real,
        size(z) <= 2280 as real * eps(),
        b >= -(7 as real),
        b <= 456 as real,
        size(nn - 1 as real) <= 100 as real * eps(),
    ensures
        (e * e) * nn - 2 as real * (e * y) <= 49 as real + (6 as real) / (10 as real),
{
    lemma_tiny();
    let (f, ee) = (eps(), e * e);
    assert(ee <= 51984 as real && ee >= 0 as real) by (nonlinear_arith)
        requires
            ee == e * e,
            e > 0 as real,
            e <= 228 as real,
    ;
    assert(ee * nn <= ee + 5198400 as real * f) by (nonlinear_arith)
        requires
            nn <= 1 as real + 100 as real * f,
            ee <= 51984 as real,
            ee >= 0 as real,
            f > 0 as real,
    ;
    // e * e - 2 e y is (b - z) * (b - z) - y * y, with b - z below y.
    let g = b - z;
    assert(ee - 2 as real * (e * y) == g * g - y * y) by (nonlinear_arith)
        requires
            ee == e * e,
            e == y - g,
    ;
    if g >= 0 as real {
        assert(g * g - y * y <= 0 as real) by (nonlinear_arith)
            requires
                g >= 0 as real,
                y >= g,
        ;
    } else {
        lemma_square_sign(y);
        assert(g * g <= 49 as real + (1 as real) / (100 as real)) by (nonlinear_arith)
            requires
                g < 0 as real,
                g >= -(7 as real) - 2280 as real * f,
                f == (1 as real) / (0x100_0000 as real),
        ;
    }
}

/// A push onto any cap that holds velocities under the speed limit.
proof fn lemma_push_any(v: V3, h: HalfSpace)
    requires
        finite(v),
        inner(v, v) <= 3199 as real,
        is_cap(h),
    ensures
        finite(pushed(v, h)),
        inner(pushed(v, h), pushed(v, h)) <= inner(v, v) + 49 as real + (7 as real) / (10 as real),
        inner(pushed(v, h), h.n) <= value(h.b) + (1 as real) / (500 as real),
{
    lemma_tiny();
    let (m, f) = (57 as real, eps());
    assert(m * m == 3249 as real) by (nonlinear_arith)
        requires
            m == 57 as real,
    ;
    lemma_components(v, m);
    lemma_unit_parts(h);
    lemma_excess(v, h, m);
    let e = excess(v, h);
    if less(zero(), e) {
        lemma_pushed(v, h, m);
        let u = pushed(v, h);
        let (ev, nn, t, y, b) = (
            value(e),
            inner(h.n, h.n),
            20 as real * (m * f),
            inner(v, h.n),
            value(h.b),
        );
        lemma_moved_along(u, v, h.n, ev, t, h.n);
        lemma_any_length(ev, y, b, nn, ev - (y - b));
        lemma_moved_length(u, v, h.n, ev, t, m);
        assert(6 as real * (m * t) + 3 as real * (t * t) <= (1 as real) / (30 as real))
            by (nonlinear_arith)
            requires
                t == 1140 as real * f,
                m == 57 as real,
                f == (1 as real) / (0x100_0000 as real),
        ;
        let off = 1 as real - nn;
        lemma_product_size(ev, off, 228 as real, 100 as real * f);
        assert(ev * nn == ev - ev * off) by (nonlinear_arith)
            requires
                off == 1 as real - nn,
        ;
    }
}

/// The pushes of one round, onto any caps whose normals do not point away from
/// each other.
proof fn lemma_round_any(v: V3, hs: Seq<HalfSpace>)
    requires
        finite(v),
        inner(v, v) <= 49 as real + (1 as real) / (1000 as real),
        agree(hs),
        hs.len() <= 64,
    ensures
        ({
            let (u, k) = (projected(v, hs), hs.len() as real);
            &&& finite(u)
            &&& inner(u, u) <= 50 as real + k * (497 as real / (10 as real))
            &&& forall|i: int|
                0 <= i < hs.len() ==> inner(u, (#[trigger] hs[i]).n) <= value(hs[i].b) + (
                1 as real) / (500 as real) + k / (4000 as real)
        }),
    decreases hs.len(),
{
    lemma_tiny();
    if hs.len() > 0 {
        let (before, h) = (hs.drop_last(), hs.last());
        assert forall|i: int| 0 <= i < before.len() implies is_cap(#[trigger] before[i]) by {
            assert(before[i] == hs[i]);
        }
        assert forall|i: int, j: int| 0 <= i < j < before.len() implies inner(
            (#[trigger] before[j]).n,
            (#[trigger] before[i]).n,
        ) >= 0 as real by {
            assert(before[i] == hs[i] && before[j] == hs[j]);
        }
        lemma_round_any(v, before);
        let u = projected(v, before);
        let (k, l) = (before.len() as real, hs.len() as real);
        assert(l == k + 1 as real);
        let w = projected(v, hs);
        assert(w == pushed(u, h));
        assert(h == hs[hs.len() - 1]);
        let c = 497 as real / (10 as real);
        assert(k * c <= 63 as real * c && l * c == k * c + c) by (nonlinear_arith)
            requires
                k <= 63 as real,
                l == k + 1 as real,
                c == 497 as real / (10 as real),
        ;
        lemma_push_any(u, h);
        let m = 57 as real;
        assert(m * m == 3249 as real) by (nonlinear_arith)
            requires
                m == 57 as real,
        ;
        lemma_components(u, m);
        assert forall|i: int| 0 <= i < hs.len() implies inner(w, (#[trigger] hs[i]).n) <= value(
            hs[i].b,
        ) + (1 as real) / (500 as real) + l / (4000 as real) by {
            if i < hs.len() - 1 {
                assert(before[i] == hs[i]);
                assert(inner(hs[hs.len() - 1].n, hs[i].n) >= 0 as real);
                lemma_push_keeps(u, h, hs[i], m);
            }
        }
    }
}

/// The caps that come of bodies, where each holds velocities under the speed limit.
proof fn lemma_agree(cs: Seq<Body>, v_cur: V3)
    requires
        forall|k: int|
            0 <= k < cs.len() ==> finite(seen(#[trigger] cs[k]).rel) && seen(
                cs[k],
            ).rel.length() is Finite,
        ({
            let hs = limits_on_closing(cs, v_cur);
            &&& forall|k: int|
                0 <= k < hs.len() ==> (#[trigger] hs[k]).b is Finite && value(hs[k].b) >= -(
                7 as real)
            &&& forall|j: int, k: int|
                0 <= j < k < hs.len() ==> inner((#[trigger] hs[k]).n, (#[trigger] hs[j]).n)
                    >= 0 as real
        }),
    ensures
        agree(limits_on_closing(cs, v_cur)),
{
    lemma_caps(cs, v_cur);
}

/// What is known at the end of a round, whose pushes end at `u`.
proof fn lemma_round_end(v: V3, hs: Seq<HalfSpace>, rounds: nat)
    requires
        agree(hs),
        hs.len() <= 64,
        rounds >= 2,
        finite(settled(v, hs, rounds)),
    ensures
        ({
            let u = projected(settled(v, hs, (rounds - 1) as nat), hs);
            &&& finite(u)
            &&& settled(v, hs, rounds) == u.clamp_length_max(decode(MAX_SPEED))
            &&& inner(u, u) <= 3249 as real
            &&& forall|i: int|
                0 <= i < hs.len() ==> inner(u, (#[trigger] hs[i]).n) <= value(hs[i].b) + (
                1 as real) / (500 as real) + (hs.len() as real) / (4000 as real)
        }),
{
    let last = (rounds - 1) as nat;
    let before = projected(settled(v, hs, (rounds - 2) as nat), hs);
    let x = settled(v, hs, last);
    assert(x == before.clamp_length_max(decode(MAX_SPEED)));
    let u = projected(x, hs);
    if !finite(x) {
        if finite(before) {
            let s = lemma_clamp(before);
        } else {
            lemma_clamp_not_finite(before);
        }
        lemma_nan_projected(x, hs);
        lemma_clamp_not_finite(u);
    }
    law_speed_limit_holds(before);
    lemma_round_any(x, hs);
    let (k, c) = (hs.len() as real, 497 as real / (10 as real));
    assert(k * c <= 64 as real * c) by (nonlinear_arith)
        requires
            k <= 64 as real,
            c == 497 as real / (10 as real),
    ;
}

/// The pushes of each round end at a velocity that keeps to all caps, also to those
/// that ask to back away, where no normal points away from another. The speed limit
/// that ends the round takes from each cap that asks to back away no more than the
/// share by which the velocity is too fast: `d` bounds by how much the square of its
/// length is above that of the limit. So all caps are kept where a velocity under
/// the limit comes out of the pushes.
pub proof fn law_caps_hold_up_to_the_limit(
    v: V3,
    v_cur: V3,
    cs: Seq<Body>,
    rounds: nat,
    i: int,
    d: real,
)
    requires
        forall|k: int|
            0 <= k < cs.len() ==> finite(seen(#[trigger] cs[k]).rel) && seen(
                cs[k],
            ).rel.length() is Finite,
        ({
            let hs = limits_on_closing(cs, v_cur);
            &&& 0 <= i < hs.len()
            &&& hs.len() <= 64
            &&& forall|k: int|
                0 <= k < hs.len() ==> (#[trigger] hs[k]).b is Finite && value(hs[k].b) >= -(
                7 as real)
            &&& forall|j: int, k: int|
                0 <= j < k < hs.len() ==> inner((#[trigger] hs[k]).n, (#[trigger] hs[j]).n)
                    >= 0 as real
            &&& rounds >= 2
            &&& finite(settled(v, hs, rounds))
            &&& ({
                let u = projected(settled(v, hs, (rounds - 1) as nat), hs);
                inner(u, u) <= 49 as real + d
            })
        }),
        d >= 0 as real,
    ensures
        ({
            let hs = limits_on_closing(cs, v_cur);
            let breach = (3 as real) / (500 as real) + (hs.len() as real) / (2000 as real);
            let (u, b) = (
                projected(settled(v, hs, (rounds - 1) as nat), hs),
                value(hs[i].b),
            );
            &&& inner(u, hs[i].n) <= b + breach
            &&& b <= 0 as real ==> inner(settled(v, hs, rounds), hs[i].n) <= b + (-b) * (d / (
            49 as real)) + breach
            &&& b >= 0 as real ==> inner(settled(v, hs, rounds), hs[i].n) <= b + breach
        }),
{
    lemma_tiny();
    lemma_agree(cs, v_cur);
    let hs = limits_on_closing(cs, v_cur);
    lemma_round_end(v, hs, rounds);
    let u = projected(settled(v, hs, (rounds - 1) as nat), hs);
    let w = settled(v, hs, rounds);
    let h = hs[i];
    lemma_unit_parts(h);
    let s = lemma_clamp(u);
    let m = 57 as real;
    assert(m * m == 3249 as real) by (nonlinear_arith)
        requires
            m == 57 as real,
    ;
    lemma_components(u, m);
    lemma_length_is_finite(u);
    lemma_scaled_inner(u, w, h.n, s);
    lemma_squares_not_negative(u);
    lemma_share_at_least(s, inner(u, u), d);
    let c = (1 as real) / (500 as real) + (hs.len() as real) / (4000 as real);
    law_speed_limit_holds(u);
    lemma_components(w, 8 as real);
    lemma_bulk_along(w, h.n, 8 as real);
    lemma_cap_after_limit(s, inner(u, h.n), inner(w, h.n), value(h.b), d, c);
}

proof fn lemma_squares_not_negative(u: V3)
    ensures
        inner(u, u) >= 0 as real,
{
    lemma_square_sign(value(u.x));
    lemma_square_sign(value(u.y));
    lemma_square_sign(value(u.z));
}

proof fn lemma_length_is_finite(u: V3)
    requires
        is_within(u, 57 as real),
    ensures
        u.length_squared() is Finite,
{
    let (x, y, z, m) = (value(u.x), value(u.y), value(u.z), 57 as real);
    lemma_product_size(x, x, m, m);
    lemma_product_size(y, y, m, m);
    lemma_product_size(z, z, m, m);
    assert(m * m == 3249 as real) by (nonlinear_arith)
        requires
            m == 57 as real,
    ;
    lemma_inner_error(u, u);
}

/// What the speed limit leaves of a vector.
proof fn lemma_share_at_least(s: real, q: real, d: real)
    requires
        s >= 0 as real,
        s <= 1 as real + (1 as real) / (100000 as real),
        s == 1 as real || size((s * s) * q - 49 as real) <= (1 as real) / (1000 as real),
        q <= 49 as real + d,
        d >= 0 as real,
    ensures
        s >= 1 as real - d / (49 as real) - (1 as real) / (10000 as real),
{
    if d <= 60 as real {
        lemma_share_left(s, q, d);
    }
}

proof fn lemma_cap_after_limit(s: real, un: real, t: real, b: real, d: real, c: real)
    requires
        s >= 0 as real,
        s <= 1 as real + (1 as real) / (100000 as real),
        s >= 1 as real - d / (49 as real) - (1 as real) / (10000 as real),
        un <= b + c,
        t <= s * un + 192 as real * eps(),
        t <= 25 as real,
        b >= -(7 as real),
        d >= 0 as real,
        c >= (1 as real) / (500 as real),
        c <= 1 as real,
    ensures
        b <= 0 as real ==> t <= b + (-b) * (d / (49 as real)) + (2 as real) * c,
        b >= 0 as real ==> t <= b + (2 as real) * c,
{
    lemma_tiny();
    let m = b + c;
    assert(s * un <= s * m) by (nonlinear_arith)
        requires
            un <= m,
            s >= 0 as real,
    ;
    assert(s * m == s * b + s * c) by (nonlinear_arith)
        requires
            m == b + c,
    ;
    assert(s * c <= c + c / (100000 as real)) by (nonlinear_arith)
        requires
            s <= 1 as real + (1 as real) / (100000 as real),
            c >= 0 as real,
    ;
    if b <= 0 as real {
        let (a, l) = (-b, 1 as real - d / (49 as real) - (1 as real) / (10000 as real));
        assert(s * a >= l * a) by (nonlinear_arith)
            requires
                s >= l,
                a >= 0 as real,
        ;
        assert(s * b == -(s * a)) by (nonlinear_arith)
            requires
                a == -b,
        ;
        assert(l * a == a - a * (d / (49 as real)) - a / (10000 as real)) by (nonlinear_arith)
            requires
                l == 1 as real - d / (49 as real) - (1 as real) / (10000 as real),
        ;
    } else if b <= 25 as real {
        assert(s * b <= b + b / (100000 as real)) by (nonlinear_arith)
            requires
                s <= 1 as real + (1 as real) / (100000 as real),
                b >= 0 as real,
        ;
    }
}

/// A drone with several bodies in the way, of which some may have to be backed away
/// from and none is on a side away from another, runs into none of them within the
/// horizon: it stays out of each safety radius, but for the breach of the cap times
/// the time, and two millimetres. As above, `d` bounds by how much the square of the
/// speed that the last pushes ask for is above that of the limit.
pub proof fn law_no_body_is_hit_in_retreat(
    v_pref: V3,
    v_cur: V3,
    cs: Seq<Body>,
    j: int,
    h: HalfSpace,
    d: real,
    t: real,
)
    requires
        0 <= j < cs.len(),
        limit_on_closing(cs[j], v_cur) == Some(h),
        forall|k: int|
            0 <= k < cs.len() ==> finite(seen(#[trigger] cs[k]).rel) && seen(
                cs[k],
            ).rel.length() is Finite,
        ({
            let hs = limits_on_closing(cs, v_cur);
            &&& hs.len() <= 64
            &&& forall|k: int|
                0 <= k < hs.len() ==> (#[trigger] hs[k]).b is Finite && value(hs[k].b) >= -(
                7 as real)
            &&& forall|i: int, k: int|
                0 <= i < k < hs.len() ==> inner((#[trigger] hs[k]).n, (#[trigger] hs[i]).n)
                    >= 0 as real
            &&& ({
                let u = projected(settled(v_pref, hs, 15), hs);
                inner(u, u) <= 49 as real + d
            })
        }),
        d >= 0 as real,
        finite(safe_velocity(v_pref, v_cur, cs)),
        finite(seen(cs[j]).vel),
        value(seen(cs[j]).rel.length()) <= 128 as real,
        inner(seen(cs[j]).vel, seen(cs[j]).vel) <= 64 as real,
        cs[j].radius is Finite,
        value(cs[j].radius) >= 0 as real,
        value(cs[j].radius) <= value(seen(cs[j]).rel.length()),
        t >= 0 as real,
        t <= value(decode(VO_TIME_HORIZON)),
    ensures
        ({
            let breach = (3 as real) / (500 as real) + (limits_on_closing(cs, v_cur).len() as real)
                / (2000 as real) + d / (7 as real);
            let rho = value(cs[j].radius) - t * breach - 1 as real / (500 as real);
            rho >= 0 as real ==> apart(cs[j], safe_velocity(v_pref, v_cur, cs), t) >= rho * rho
        }),
{
    let hs = limits_on_closing(cs, v_cur);
    let i = lemma_listed(cs, v_cur, j, h);
    law_caps_hold_up_to_the_limit(v_pref, v_cur, cs, 16, i, d);
    let breach = (3 as real) / (500 as real) + (hs.len() as real) / (2000 as real) + d / (7 as real);
    let (b, v) = (value(h.b), safe_velocity(v_pref, v_cur, cs));
    if b <= 0 as real {
        let x = d / (49 as real);
        assert((-b) * x <= 7 as real * x) by (nonlinear_arith)
            requires
                b >= -(7 as real),
                x >= 0 as real,
        ;
    }
    let rho = value(cs[j].radius) - t * breach - 1 as real / (500 as real);
    if rho >= 0 as real {
        law_kept_cap_is_collision_free(cs[j], v_cur, h, v, breach, t);
    }
}

} // verus!
