//! What the cap on closing in guarantees where a drone has to back away from a
//! body, in real numbers.
use crate::avoid::{
    excess, limit_on_closing, projected, safe_velocity, seen, settled, Body, HalfSpace,
};
use crate::cauchy::lemma_bulk;
use crate::config::MAX_SPEED;
use crate::direction::lemma_normal;
use crate::error::{eps, lemma_square_sign, lemma_tiny, size, value};
use crate::metric::{
    bulk, finite, inner, lemma_components, lemma_inner_error, lemma_product_size, lemma_root_size,
};
use crate::number::{decode, less, zero};
use crate::push::{
    is_cap, is_within, lemma_excess, lemma_moved_along, lemma_moved_length, lemma_pushed,
    lemma_unit_parts, pushed,
};
use crate::safety::{lemma_lone, lemma_nan_excess, lemma_scaled_inner};
use crate::speed::{law_speed_limit_holds, lemma_clamp, lemma_clamp_not_finite};
use crate::vector::V3;
use vstd::prelude::*;

verus! {

/// The part of a velocity under the speed limit along a normal.
proof fn lemma_part(x: V3, h: HalfSpace)
    requires
        finite(x),
        inner(x, x) <= 49 as real + (1 as real) / (1000 as real),
        is_cap(h),
    ensures
        size(inner(x, h.n)) <= 701 as real / (100 as real),
        is_within(x, 8 as real),
{
    lemma_tiny();
    lemma_bulk(x, h.n);
    let (k, q, n) = (bulk(x, h.n), inner(x, x), inner(h.n, h.n));
    let m = 701 as real / (100 as real);
    lemma_components(x, 8 as real);
    lemma_square_sign(value(x.x));
    lemma_square_sign(value(x.y));
    lemma_square_sign(value(x.z));
    assert(q * n <= m * m) by (nonlinear_arith)
        requires
            q >= 0 as real,
            q <= 49 as real + (1 as real) / (1000 as real),
            n <= 1 as real + 100 as real * eps(),
            n >= 0 as real,
            eps() == (1 as real) / (0x100_0000 as real),
            m == 701 as real / (100 as real),
    ;
    lemma_root_size(k, m);
}

/// The push of a round: the velocity keeps to the cap, and the square of its
/// length is what it was across the normal, and that of the cap.
proof fn lemma_pushed_back(x: V3, h: HalfSpace, p: real)
    requires
        finite(x),
        inner(x, x) <= 49 as real + (1 as real) / (1000 as real),
        is_cap(h),
        value(h.b) <= 0 as real,
        p >= 0 as real,
        inner(x, x) - inner(x, h.n) * inner(x, h.n) + value(h.b) * value(h.b) <= 49 as real + p,
    ensures
        finite(pushed(x, h)),
        inner(pushed(x, h), h.n) <= value(h.b) + (1 as real) / (5000 as real),
        inner(pushed(x, h), pushed(x, h)) <= 49 as real + p + (3 as real) / (1000 as real),
{
    lemma_tiny();
    lemma_part(x, h);
    lemma_unit_parts(h);
    let m = 8 as real;
    lemma_excess(x, h, m);
    let f = eps();
    let e = excess(x, h);
    if less(zero(), e) {
        lemma_pushed(x, h, m);
        let (u, ev, y, nn, b) = (
            pushed(x, h),
            value(e),
            inner(x, h.n),
            inner(h.n, h.n),
            value(h.b),
        );
        let t = 20 as real * (m * f);
        lemma_moved_along(u, x, h.n, ev, t, h.n);
        lemma_back_along(ev, y, b, nn);
        lemma_back_length(ev, y, b, nn, inner(x, x), p);
        lemma_moved_length(u, x, h.n, ev, t, 10 as real);
        assert(6 as real * (10 as real * t) + 3 as real * (t * t) <= (6 as real) / (10000 as real))
            by (nonlinear_arith)
            requires
                t == 160 as real * f,
                f == (1 as real) / (0x100_0000 as real),
        ;
    }
}

/// The part along the normal after the push.
proof fn lemma_back_along(e: real, y: real, b: real, nn: real)
    requires
        size(e - (y - b)) <= 320 as real * eps(),
        size(y) <= 701 as real / (100 as real),
        b >= -(7 as real),
        b <= 0 as real,
        e > 0 as real,
        size(nn - 1 as real) <= 100 as real * eps(),
    ensures
        size(y - e * nn - b) <= 2000 as real * eps(),
{
    lemma_tiny();
    let (f, d) = (eps(), nn - 1 as real);
    assert(e <= 15 as real);
    let ed = e * d;
    assert(size(ed) <= 1500 as real * f) by (nonlinear_arith)
        requires
            ed == e * d,
            size(d) <= 100 as real * f,
            e > 0 as real,
            e <= 15 as real,
    ;
    assert(e * nn == e + ed) by (nonlinear_arith)
        requires
            ed == e * d,
            d == nn - 1 as real,
    ;
}

/// The square of the length after the push, without rounding of the push.
proof fn lemma_back_length(e: real, y: real, b: real, nn: real, q: real, p: real)
    requires
        size(e - (y - b)) <= 320 as real * eps(),
        size(y) <= 701 as real / (100 as real),
        b >= -(7 as real),
        b <= 0 as real,
        e > 0 as real,
        size(nn - 1 as real) <= 100 as real * eps(),
        q - y * y + b * b <= 49 as real + p,
        q <= 49 as real + (1 as real) / (1000 as real),
    ensures
        q - 2 as real * (e * y) + (e * e) * nn <= 49 as real + p + (2 as real) / (1000 as real),
        q - 2 as real * (e * y) + (e * e) * nn <= 10 as real * (10 as real),
{
    lemma_tiny();
    let (f, d, z) = (eps(), nn - 1 as real, e - y + b);
    let ee = e * e;
    assert(e <= 15 as real);
    assert(ee <= 225 as real && ee >= 0 as real) by (nonlinear_arith)
        requires
            ee == e * e,
            e > 0 as real,
            e <= 15 as real,
    ;
    assert(ee * nn <= ee + 22500 as real * f) by (nonlinear_arith)
        requires
            nn <= 1 as real + 100 as real * f,
            ee <= 225 as real,
            ee >= 0 as real,
            f > 0 as real,
    ;
    // e - y is -b, but for rounding.
    let g = e - y;
    assert(g * g == ee - 2 as real * (e * y) + y * y) by (nonlinear_arith)
        requires
            g == e - y,
            ee == e * e,
    ;
    assert(g * g == b * b - 2 as real * (b * z) + z * z) by (nonlinear_arith)
        requires
            g == z - b,
    ;
    assert(-(b * z) <= 2240 as real * f) by (nonlinear_arith)
        requires
            size(z) <= 320 as real * f,
            b >= -(7 as real),
            b <= 0 as real,
    ;
    assert(z * z <= f) by (nonlinear_arith)
        requires
            size(z) <= 320 as real * f,
            f == (1 as real) / (0x100_0000 as real),
    ;
    assert(b * b <= 49 as real) by (nonlinear_arith)
        requires
            b >= -(7 as real),
            b <= 0 as real,
    ;
    lemma_square_sign(y);
}

/// How the speed limit acts on a velocity that keeps to the cap: `a` is what the
/// cap asks to back away with, and `d` how much the square of the length is above
/// the limit.
proof fn lemma_limited_back(u: V3, h: HalfSpace, a: real, d: real)
    requires
        finite(u),
        is_cap(h),
        a == -value(h.b),
        a >= 0 as real,
        inner(u, h.n) <= -a + (1 as real) / (5000 as real),
        inner(u, u) <= 49 as real + d,
        d >= 0 as real,
        d <= 60 as real,
    ensures
        ({
            let w = u.clamp_length_max(decode(MAX_SPEED));
            let t = inner(w, h.n);
            &&& finite(w)
            &&& inner(w, w) <= 49 as real + (1 as real) / (1000 as real)
            &&& t <= -a + (a * d) / (49 as real) + (1 as real) / (1000 as real)
            &&& inner(w, w) - t * t + a * a <= 49 as real + ((a * a) * d) / (49 as real)
                + (8 as real) / (1000 as real)
        }),
{
    lemma_tiny();
    lemma_unit_parts(h);
    let s = lemma_clamp(u);
    let w = u.clamp_length_max(decode(MAX_SPEED));
    let (q, un) = (inner(u, u), inner(u, h.n));
    lemma_components(u, 11 as real);
    lemma_finite_length(u);
    lemma_scaled_inner(u, w, h.n, s);
    lemma_share_left(s, q, d);
    lemma_back_after_limit(s, un, inner(w, h.n), a, d, inner(w, w));
}

proof fn lemma_finite_length(u: V3)
    requires
        is_within(u, 11 as real),
    ensures
        u.length_squared() is Finite,
{
    let (x, y, z) = (value(u.x), value(u.y), value(u.z));
    lemma_product_size(x, x, 11 as real, 11 as real);
    lemma_product_size(y, y, 11 as real, 11 as real);
    lemma_product_size(z, z, 11 as real, 11 as real);
    lemma_inner_error(u, u);
}

/// What is left of a vector whose squared length is at most `d` above the limit.
pub proof fn lemma_share_left(s: real, q: real, d: real)
    requires
        s >= 0 as real,
        s <= 1 as real + (1 as real) / (100000 as real),
        s == 1 as real || size((s * s) * q - 49 as real) <= (1 as real) / (1000 as real),
        q <= 49 as real + d,
        d >= 0 as real,
        d <= 60 as real,
    ensures
        s * s >= 1 as real - d / (49 as real) - (6 as real) / (100000 as real),
        s >= 1 as real - d / (49 as real) - (8 as real) / (100000 as real),
        s * s <= 1 as real + (3 as real) / (100000 as real),
{
    let ss = s * s;
    assert(ss <= 1 as real + (3 as real) / (100000 as real) && ss >= 0 as real) by (nonlinear_arith)
        requires
            ss == s * s,
            s >= 0 as real,
            s <= 1 as real + (1 as real) / (100000 as real),
    ;
    if s == 1 as real {
        assert(ss == 1 as real);
    } else {
        let m = 49 as real + d;
        assert(ss * q <= ss * m) by (nonlinear_arith)
            requires
                q <= m,
                ss >= 0 as real,
        ;
        assert(ss * m == 49 as real * ss + ss * d) by (nonlinear_arith)
            requires
                m == 49 as real + d,
        ;
        assert(ss * d <= d + (3 as real) * d / (100000 as real)) by (nonlinear_arith)
            requires
                ss <= 1 as real + (3 as real) / (100000 as real),
                d >= 0 as real,
        ;
    }
    // s is at least its square, where it is at most one.
    assert(s >= ss - (2 as real) / (100000 as real)) by (nonlinear_arith)
        requires
            ss == s * s,
            s >= 0 as real,
            s <= 1 as real + (1 as real) / (100000 as real),
    ;
}

proof fn lemma_back_after_limit(s: real, un: real, t: real, a: real, d: real, qw: real)
    requires
        s >= 0 as real,
        s <= 1 as real + (1 as real) / (100000 as real),
        s * s >= 1 as real - d / (49 as real) - (6 as real) / (100000 as real),
        s >= 1 as real - d / (49 as real) - (8 as real) / (100000 as real),
        un <= -a + (1 as real) / (5000 as real),
        t <= s * un + 192 as real * eps(),
        a >= 0 as real,
        a <= 7 as real,
        d >= 0 as real,
        d <= 60 as real,
        qw <= 49 as real + (1 as real) / (1000 as real),
    ensures
        t <= -a + (a * d) / (49 as real) + (1 as real) / (1000 as real),
        qw - t * t + a * a <= 49 as real + ((a * a) * d) / (49 as real) + (8 as real) / (
        1000 as real),
{
    lemma_tiny();
    let (c, ss, aa) = ((1 as real) / (5000 as real), s * s, a * a);
    let sa = s * a;
    assert(s * un <= -sa + s * c) by (nonlinear_arith)
        requires
            un <= -a + c,
            sa == s * a,
            s >= 0 as real,
    ;
    let k = (22 as real) / (100000 as real);
    assert(s * c <= (21 as real) / (100000 as real)) by (nonlinear_arith)
        requires
            c == (1 as real) / (5000 as real),
            s <= 1 as real + (1 as real) / (100000 as real),
    ;
    assert(t <= -sa + k);
    let ad = a * d;
    let l = 1 as real - d / (49 as real) - (8 as real) / (100000 as real);
    assert(sa >= a * l) by (nonlinear_arith)
        requires
            sa == s * a,
            s >= l,
            a >= 0 as real,
    ;
    assert(a * l == a - ad / (49 as real) - (8 as real) * a / (100000 as real)) by (nonlinear_arith)
        requires
            l == 1 as real - d / (49 as real) - (8 as real) / (100000 as real),
            ad == a * d,
    ;
    let aad = aa * d;
    let g = 1 as real - d / (49 as real) - (6 as real) / (100000 as real);
    assert(aa >= 0 as real && aa <= 49 as real) by (nonlinear_arith)
        requires
            aa == a * a,
            a >= 0 as real,
            a <= 7 as real,
    ;
    assert(ss * aa >= g * aa) by (nonlinear_arith)
        requires
            ss >= g,
            aa >= 0 as real,
    ;
    assert(g * aa == aa - aad / (49 as real) - (6 as real) * aa / (100000 as real))
        by (nonlinear_arith)
        requires
            g == 1 as real - d / (49 as real) - (6 as real) / (100000 as real),
            aad == aa * d,
    ;
    assert(sa * sa == ss * aa) by (nonlinear_arith)
        requires
            sa == s * a,
            ss == s * s,
            aa == a * a,
    ;
    lemma_square_sign(t);
    assert(sa <= 71 as real / (10 as real) && sa >= 0 as real) by (nonlinear_arith)
        requires
            sa == s * a,
            s <= 1 as real + (1 as real) / (100000 as real),
            s >= 0 as real,
            a >= 0 as real,
            a <= 7 as real,
    ;
    let r = sa - k;
    assert(r * r == sa * sa - 2 as real * (k * sa) + k * k) by (nonlinear_arith)
        requires
            r == sa - k,
    ;
    assert(k * sa <= (157 as real) / (100000 as real) && k * k >= 0 as real) by (nonlinear_arith)
        requires
            k == (22 as real) / (100000 as real),
            sa <= 71 as real / (10 as real),
    ;
    if r >= 0 as real {
        assert(t * t >= r * r) by (nonlinear_arith)
            requires
                t <= -r,
                r >= 0 as real,
        ;
    } else {
        assert(sa * sa <= k * k) by (nonlinear_arith)
            requires
                sa < k,
                sa >= 0 as real,
        ;
        assert(k * k <= (1 as real) / (100000 as real)) by (nonlinear_arith)
            requires
                k == (22 as real) / (100000 as real),
        ;
    }
}

/// By how much the square of the length can still be above the speed limit after
/// the push of round `j`, where the cap asks to back away with `a`.
pub open spec fn lag(a: real, j: nat) -> real
    decreases j,
{
    if j <= 2 {
        a * a + (12 as real) / (1000 as real)
    } else {
        ((a * a) / (49 as real)) * lag(a, (j - 1) as nat) + (12 as real) / (1000 as real)
    }
}

proof fn lemma_lag_range(a: real, j: nat)
    requires
        a >= 0 as real,
        a <= 7 as real,
        j <= 20,
    ensures
        lag(a, j) >= (12 as real) / (1000 as real),
        lag(a, j) <= 49 as real + (j as real) * ((12 as real) / (1000 as real)) + (12 as real) / (
        1000 as real),
        (a * a) / (49 as real) >= 0 as real,
        (a * a) / (49 as real) <= 1 as real,
    decreases j,
{
    let (aa, r) = (a * a, (a * a) / (49 as real));
    assert(aa >= 0 as real && aa <= 49 as real) by (nonlinear_arith)
        requires
            aa == a * a,
            a >= 0 as real,
            a <= 7 as real,
    ;
    if j > 2 {
        lemma_lag_range(a, (j - 1) as nat);
        let l = lag(a, (j - 1) as nat);
        assert(r * l >= 0 as real && r * l <= l) by (nonlinear_arith)
            requires
                r >= 0 as real,
                r <= 1 as real,
                l >= 0 as real,
        ;
    }
}

/// After `j` rounds on one cap: how far the velocity is from keeping to it, and
/// how long it will be after the next push.
proof fn lemma_backing(v: V3, h: HalfSpace, a: real, j: nat)
    requires
        is_cap(h),
        a == -value(h.b),
        a >= 0 as real,
        2 <= j <= 16,
        finite(settled(v, seq![h], j)),
    ensures
        ({
            let w = settled(v, seq![h], j);
            let t = inner(w, h.n);
            &&& inner(w, w) <= 49 as real + (1 as real) / (1000 as real)
            &&& t <= -a + (a * lag(a, j)) / (49 as real) + (1 as real) / (1000 as real)
            &&& inner(w, w) - t * t + a * a <= 49 as real + ((a * a) * lag(a, j)) / (49 as real) + (
            8 as real) / (1000 as real)
        }),
    decreases j,
{
    let hs = seq![h];
    let x = settled(v, hs, (j - 1) as nat);
    let w = settled(v, hs, j);
    lemma_one_push(x, h);
    let u = pushed(x, h);
    assert(w == u.clamp_length_max(decode(MAX_SPEED)));
    let before = projected(settled(v, hs, (j - 2) as nat), hs);
    assert(x == before.clamp_length_max(decode(MAX_SPEED)));
    if !finite(x) {
        if finite(before) {
            let s = lemma_clamp(before);
        } else {
            lemma_clamp_not_finite(before);
        }
        lemma_nan_excess(x, h);
        lemma_clamp_not_finite(u);
    }
    law_speed_limit_holds(before);
    lemma_lag_range(a, j);
    let (y, aa) = (inner(x, h.n), a * a);
    assert(value(h.b) * value(h.b) == aa) by (nonlinear_arith)
        requires
            a == -value(h.b),
            aa == a * a,
    ;
    lemma_square_sign(y);
    if j == 2 {
        let p = aa + (1 as real) / (1000 as real);
        lemma_square_sign(a);
        lemma_pushed_back(x, h, p);
    } else {
        lemma_backing(v, h, a, (j - 1) as nat);
        lemma_lag_range(a, (j - 1) as nat);
        let l = lag(a, (j - 1) as nat);
        let r = aa / (49 as real);
        assert(r * l == (aa * l) / (49 as real)) by (nonlinear_arith)
            requires
                r == aa / (49 as real),
        ;
        let p = (aa * l) / (49 as real) + (8 as real) / (1000 as real);
        assert(r * l >= 0 as real) by (nonlinear_arith)
            requires
                r >= 0 as real,
                l >= 0 as real,
        ;
        lemma_pushed_back(x, h, p);
    }
    lemma_limited_back(u, h, a, lag(a, j));
}

proof fn lemma_one_push(x: V3, h: HalfSpace)
    ensures
        projected(x, seq![h]) == pushed(x, h),
{
    let hs = seq![h];
    assert(hs.drop_last() =~= Seq::empty());
    assert(projected(x, hs.drop_last()) == x);
    assert(hs.last() == h);
}

/// What is missing of the speed to back away with, after all rounds and without
/// rounding: each of them takes off a share that goes with the square of the
/// speed.
pub open spec fn backlog(a: real, j: nat) -> real
    decreases j,
{
    if j == 0 {
        a * a
    } else {
        ((a * a) / (49 as real)) * backlog(a, (j - 1) as nat)
    }
}

proof fn lemma_lag_and_backlog(a: real, j: nat)
    requires
        a >= 0 as real,
        a <= 7 as real,
        j <= 14,
    ensures
        lag(a, j + 2) <= backlog(a, j) + ((j + 1) as real) * ((12 as real) / (1000 as real)),
    decreases j,
{
    lemma_lag_range(a, j + 2);
    if j > 0 {
        let i = (j - 1) as nat;
        lemma_lag_and_backlog(a, i);
        let (r, l, b, k) = (
            (a * a) / (49 as real),
            lag(a, i + 2),
            backlog(a, i),
            ((i + 1) as real) * ((12 as real) / (1000 as real)),
        );
        assert(r * l <= r * b + k) by (nonlinear_arith)
            requires
                l <= b + k,
                r >= 0 as real,
                r <= 1 as real,
                k >= 0 as real,
        ;
    }
}

/// A drone that has to back away from a body does so with the speed that the cap
/// asks for, up to the speed limit, within three centimetres per second and what
/// the rounds leave over: that is less the further the speed is from the limit.
pub proof fn law_lone_body_is_backed_away_from(v_pref: V3, v_cur: V3, c: Body, h: HalfSpace)
    requires
        limit_on_closing(c, v_cur) == Some(h),
        finite(seen(c).rel),
        seen(c).rel.length() is Finite,
        h.b is Finite,
        value(h.b) >= -(7 as real),
        value(h.b) <= 0 as real,
        finite(safe_velocity(v_pref, v_cur, seq![c])),
    ensures
        ({
            let a = -value(h.b);
            inner(safe_velocity(v_pref, v_cur, seq![c]), h.n) <= value(h.b) + (3 as real) / (
            100 as real) + (a * backlog(a, 14)) / (49 as real)
        }),
{
    lemma_lone(c, v_cur, h);
    lemma_normal(seen(c).rel, seen(c).rel.length());
    let a = -value(h.b);
    lemma_backing(v_pref, h, a, 16);
    lemma_lag_and_backlog(a, 14);
    let (l, b) = (lag(a, 16), backlog(a, 14));
    assert(a * l <= a * b + (13 as real) / (10 as real)) by (nonlinear_arith)
        requires
            l <= b + (18 as real) / (100 as real),
            a >= 0 as real,
            a <= 7 as real,
    ;
}

/// One step of the lag, where the speed is at most five and a half.
proof fn lemma_lag_step(a: real, j: nat, m: real)
    requires
        a >= 0 as real,
        a <= 11 as real / (2 as real),
        2 <= j < 16,
        lag(a, j) <= m,
        m >= 0 as real,
    ensures
        lag(a, j + 1) <= (618 as real / (1000 as real)) * m + (12 as real) / (1000 as real),
{
    lemma_lag_range(a, j);
    let (aa, l) = (a * a, lag(a, j));
    let r = aa / (49 as real);
    assert(r <= 618 as real / (1000 as real) && r >= 0 as real) by (nonlinear_arith)
        requires
            r == aa / (49 as real),
            aa == a * a,
            a >= 0 as real,
            a <= 11 as real / (2 as real),
    ;
    assert(r * l <= (618 as real / (1000 as real)) * m) by (nonlinear_arith)
        requires
            r <= 618 as real / (1000 as real),
            r >= 0 as real,
            l <= m,
            l >= 0 as real,
    ;
}

proof fn lemma_little_lag(a: real)
    requires
        a >= 0 as real,
        a <= 11 as real / (2 as real),
    ensures
        lag(a, 16) <= (7 as real) / (100 as real),
{
    assert(a * a <= 121 as real / (4 as real)) by (nonlinear_arith)
        requires
            a >= 0 as real,
            a <= 11 as real / (2 as real),
    ;
    lemma_lag_step(a, 2, 3027 as real / (100 as real));
    lemma_lag_step(a, 3, 1872 as real / (100 as real));
    lemma_lag_step(a, 4, 1159 as real / (100 as real));
    lemma_lag_step(a, 5, 718 as real / (100 as real));
    lemma_lag_step(a, 6, 445 as real / (100 as real));
    lemma_lag_step(a, 7, 2763 as real / (1000 as real));
    lemma_lag_step(a, 8, 1720 as real / (1000 as real));
    lemma_lag_step(a, 9, 1075 as real / (1000 as real));
    lemma_lag_step(a, 10, 677 as real / (1000 as real));
    lemma_lag_step(a, 11, 431 as real / (1000 as real));
    lemma_lag_step(a, 12, 279 as real / (1000 as real));
    lemma_lag_step(a, 13, 185 as real / (1000 as real));
    lemma_lag_step(a, 14, 127 as real / (1000 as real));
    lemma_lag_step(a, 15, 91 as real / (1000 as real));
}

/// Where the cap asks to back away with no more than five and a half metres per
/// second, the rounds leave nothing over that counts.
pub proof fn lemma_backed_away(v_pref: V3, v_cur: V3, c: Body, h: HalfSpace)
    requires
        limit_on_closing(c, v_cur) == Some(h),
        finite(seen(c).rel),
        seen(c).rel.length() is Finite,
        h.b is Finite,
        value(h.b) >= -(11 as real / (2 as real)),
        value(h.b) <= 0 as real,
        finite(safe_velocity(v_pref, v_cur, seq![c])),
    ensures
        inner(safe_velocity(v_pref, v_cur, seq![c]), h.n) <= value(h.b) + (1 as real) / (
        100 as real),
{
    lemma_lone(c, v_cur, h);
    lemma_normal(seen(c).rel, seen(c).rel.length());
    let a = -value(h.b);
    lemma_backing(v_pref, h, a, 16);
    lemma_little_lag(a);
    let l = lag(a, 16);
    assert(a * l <= (39 as real) / (100 as real)) by (nonlinear_arith)
        requires
            l <= (7 as real) / (100 as real),
            a >= 0 as real,
            a <= 11 as real / (2 as real),
    ;
}

} // verus!
