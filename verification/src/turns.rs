//! Why it does not matter to a track how many turns an azimuth counts.
use crate::angle::{can_wrap, lemma_step_down, lemma_step_up, turned_down, turned_up, wrapped};
use crate::config::{PI, TAU};
use crate::error::{
    eps, lemma_less_value, lemma_negated_value, lemma_sum_error, lemma_tiny, lemma_units, size,
    value,
};
use crate::matrix::{M3, M6};
use crate::metric::lemma_step;
use crate::number::{decode, less, unit, Number};
use crate::track::{corrected, innovation, innovation_cov, position_jacobian, times_tall, Estimate};
use crate::vector::V3;
use vstd::arithmetic::power2::{lemma2_to64, pow2};
use vstd::prelude::*;

verus! {

/// Half a turn and a turn, in real numbers.
proof fn lemma_turn_values()
    ensures
        decode(PI) is Finite,
        decode(TAU) is Finite,
        value(decode(TAU)) == 2 as real * value(decode(PI)),
        value(decode(PI)) >= 314 as real / (100 as real),
        value(decode(PI)) <= 315 as real / (100 as real),
{
    lemma2_to64();
    assert(pow2(22) as real == 0x40_0000 as real);
    assert(pow2(21) as real == 0x20_0000 as real);
    lemma_units(decode(PI), 0xc9_0fdb, 127, 22);
    lemma_units(decode(TAU), 0xc9_0fdb, 128, 21);
    let (p, t) = (value(decode(PI)), value(decode(TAU)));
    assert(p * (0x40_0000 as real) == 0xc9_0fdb as real);
    assert(t * (0x20_0000 as real) == 0xc9_0fdb as real);
}

/// Angles of a few turns can be wrapped.
proof fn lemma_can_wrap(a: Number)
    requires
        a is Finite,
        size(value(a)) <= 1000 as real,
    ensures
        can_wrap(a),
{
    vstd::arithmetic::power2::lemma_pow2_pos(149);
    let (m, u) = (a->mag as real, unit() as real);
    let v = m / u;
    assert(size(value(a)) == v) by (nonlinear_arith)
        requires
            v == m / u,
            u > 0 as real,
            m >= 0 as real,
            value(a) == (if a->Finite_neg {
                (-m) / u
            } else {
                m / u
            }),
    ;
    assert(m <= 1000 as real * u) by (nonlinear_arith)
        requires
            v == m / u,
            v <= 1000 as real,
            u > 0 as real,
    ;
    assert(a->mag <= 1000 * unit());
}

/// Turning down takes off whole turns, but for rounding.
proof fn lemma_down(a: Number, n: nat, c: real) -> (k: int)
    requires
        a is Finite,
        size(value(a)) <= c,
        c >= 16 as real,
        c <= 1000 as real,
        value(a) <= value(decode(PI)) + 6 as real * (n as real),
    ensures
        0 <= k <= n,
        turned_down(a) is Finite,
        value(turned_down(a)) <= value(decode(PI)),
        size(value(turned_down(a))) <= c,
        size(value(turned_down(a)) - (value(a) - (k as real) * value(decode(TAU)))) <= (n as real) * (c
            * (2 as real * eps())),
    decreases n,
{
    lemma_tiny();
    lemma_turn_values();
    lemma_can_wrap(a);
    lemma_less_value(decode(PI), a);
    let (e, t) = (c * (2 as real * eps()), value(decode(TAU)));
    lemma_little(c);
    if less(decode(PI), a) {
        assert(n > 0);
        lemma_step_down(a);
        lemma_negated_value(decode(TAU));
        lemma_sum_error(a, -decode(TAU));
        let b = a - decode(TAU);
        lemma_step(value(b), value(a) - t, c);
        let j = lemma_down(b, (n - 1) as nat, c);
        let k = j + 1;
        let (jr, kr) = (j as real, k as real);
        assert(kr * t == jr * t + t) by (nonlinear_arith)
            requires
                kr == jr + 1 as real,
        ;
        assert((n as real) * e == ((n - 1) as real) * e + e) by (nonlinear_arith)
            requires
                n as real == (n - 1) as real + 1 as real,
        ;
        k
    } else {
        assert(0 as real * t == 0 as real) by (nonlinear_arith);
        assert((n as real) * e >= 0 as real) by (nonlinear_arith)
            requires
                n as real >= 0 as real,
                e > 0 as real,
        ;
        0
    }
}

/// Turning up adds whole turns, but for rounding.
proof fn lemma_up(a: Number, n: nat, c: real) -> (k: int)
    requires
        a is Finite,
        size(value(a)) <= c,
        c >= 16 as real,
        c <= 1000 as real,
        value(a) >= -value(decode(PI)) - 6 as real * (n as real),
        value(a) <= value(decode(PI)),
    ensures
        0 <= k <= n,
        turned_up(a) is Finite,
        size(value(turned_up(a))) <= value(decode(PI)),
        size(value(turned_up(a)) - (value(a) + (k as real) * value(decode(TAU)))) <= (n as real) * (c
            * (2 as real * eps())),
    decreases n,
{
    lemma_tiny();
    lemma_turn_values();
    lemma_can_wrap(a);
    lemma_negated_value(decode(PI));
    lemma_less_value(a, -decode(PI));
    let (e, t) = (c * (2 as real * eps()), value(decode(TAU)));
    lemma_little(c);
    if less(a, -decode(PI)) {
        assert(n > 0);
        lemma_step_up(a);
        lemma_sum_error(a, decode(TAU));
        let b = a + decode(TAU);
        lemma_step(value(b), value(a) + t, c);
        lemma_less_value(decode(PI), b);
        let j = lemma_up(b, (n - 1) as nat, c);
        let k = j + 1;
        let (jr, kr) = (j as real, k as real);
        assert(kr * t == jr * t + t) by (nonlinear_arith)
            requires
                kr == jr + 1 as real,
        ;
        assert((n as real) * e == ((n - 1) as real) * e + e) by (nonlinear_arith)
            requires
                n as real == (n - 1) as real + 1 as real,
        ;
        k
    } else {
        assert(0 as real * t == 0 as real) by (nonlinear_arith);
        assert((n as real) * e >= 0 as real) by (nonlinear_arith)
            requires
                n as real >= 0 as real,
                e > 0 as real,
        ;
        0
    }
}

proof fn lemma_little(c: real)
    requires
        c >= 16 as real,
        c <= 1000 as real,
    ensures
        c * (2 as real * eps()) <= 1 as real / (1000 as real),
        c * (2 as real * eps()) > 0 as real,
{
    lemma_tiny();
    let e = eps();
    assert(c * (2 as real * e) <= 1 as real / (1000 as real) && c * (2 as real * e) > 0 as real)
        by (nonlinear_arith)
        requires
            c >= 16 as real,
            c <= 1000 as real,
            e == (1 as real) / (0x100_0000 as real),
    ;
}

/// A wrapped angle lies within half a turn of zero and differs from the angle by
/// `k` whole turns, but for rounding. `c` bounds the angle, and `n` the turns in it.
pub proof fn law_wrapping_takes_whole_turns(a: Number, n: nat, c: real) -> (k: int)
    requires
        a is Finite,
        size(value(a)) <= c,
        c >= 16 as real,
        c <= 1000 as real,
        c <= 3 as real + 6 as real * (n as real),
    ensures
        wrapped(a) is Finite,
        size(value(wrapped(a))) <= value(decode(PI)),
        size(value(wrapped(a)) - (value(a) - (k as real) * value(decode(TAU)))) <= 2 as real * ((
        n as real) * (c * (2 as real * eps()))),
{
    lemma_turn_values();
    let i = lemma_down(a, n, c);
    let b = turned_down(a);
    let j = lemma_up(b, n, c);
    let k = i - j;
    let (ir, jr, kr, t) = (i as real, j as real, k as real, value(decode(TAU)));
    assert(kr * t == ir * t - jr * t) by (nonlinear_arith)
        requires
            kr == ir - jr,
    ;
    k
}

/// The roundings of wrapping angles of at most `c` by at most `n` turns.
pub open spec fn wobble(n: nat, c: real) -> real {
    (8 as real * (n as real) + 6 as real) * (c * eps())
}

/// Two angles a full turn apart are the same when they are wrapped, but for
/// rounding and unless they are at the seam, within that of half a turn. `c`
/// bounds the angles, and `n` the turns in them.
pub proof fn law_full_turn_is_wrapped_away(a: Number, b: Number, n: nat, c: real)
    requires
        a is Finite,
        b is Finite,
        size(value(a)) <= c,
        size(value(b)) <= c,
        c >= 16 as real,
        c <= 1000 as real,
        c <= 3 as real + 6 as real * (n as real),
        size(value(b) - value(a) - value(decode(TAU))) <= 6 as real * (c * eps()) || size(
            value(a) - value(b) - value(decode(TAU)),
        ) <= 6 as real * (c * eps()),
        size(value(wrapped(a))) < value(decode(PI)) - wobble(n, c),
    ensures
        wrapped(a) is Finite,
        wrapped(b) is Finite,
        size(value(wrapped(b)) - value(wrapped(a))) <= wobble(n, c),
{
    lemma_tiny();
    lemma_turn_values();
    let (i, j) = (law_wrapping_takes_whole_turns(a, n, c), law_wrapping_takes_whole_turns(b, n, c));
    let (e, t, nr) = (eps(), value(decode(TAU)), n as real);
    let ce = c * e;
    lemma_wobble(nr, c, e);
    let s: int = if size(value(b) - value(a) - t) <= 6 as real * ce {
        1
    } else {
        -1
    };
    let m = i - j + s;
    let (ir, jr, mr, sr) = (i as real, j as real, m as real, s as real);
    assert(mr * t == ir * t - jr * t + sr * t) by (nonlinear_arith)
        requires
            mr == ir - jr + sr,
    ;
    assert(s == 1 ==> sr * t == t) by (nonlinear_arith)
        requires
            s == 1 ==> sr == 1 as real,
    ;
    assert(s == -1 ==> sr * t == -t) by (nonlinear_arith)
        requires
            s == -1 ==> sr == -(1 as real),
    ;
    let d = value(wrapped(b)) - value(wrapped(a));
    assert(size(d - mr * t) <= wobble(n, c));
    if m >= 1 {
        assert(mr * t >= t) by (nonlinear_arith)
            requires
                mr >= 1 as real,
                t > 0 as real,
        ;
    } else if m <= -1 {
        assert(mr * t <= -t) by (nonlinear_arith)
            requires
                mr <= -(1 as real),
                t > 0 as real,
        ;
    } else {
        assert(mr * t == 0 as real) by (nonlinear_arith)
            requires
                mr == 0 as real,
        ;
    }
}

proof fn lemma_wobble(n: real, c: real, e: real)
    ensures
        2 as real * (2 as real * (n * (c * (2 as real * e)))) + 6 as real * (c * e) == (8 as real * n
            + 6 as real) * (c * e),
{
    let f = c * e;
    assert(n * (c * (2 as real * e)) == 2 as real * (n * f)) by (nonlinear_arith)
        requires
            f == c * e,
    ;
    assert((8 as real * n + 6 as real) * f == 8 as real * (n * f) + 6 as real * f)
        by (nonlinear_arith);
}

/// The gains by which a track's position and velocity follow the innovation of
/// a measurement with noise `r` of a neighbour at `d`.
pub open spec fn gains(e: Estimate, d: V3, r: M3) -> (M3, M3) {
    let h = position_jacobian(d);
    let s = innovation_cov(e.cov, h, r);
    let (tp, tv) = times_tall(e.cov, h.transposed(), M3::nil().transposed());
    (tp * s.inverse(), tv * s.inverse())
}

/// A measurement whose azimuth is a full turn off leaves the same track: the
/// same covariance and time, and a position and a velocity moved by the same
/// gains times an innovation that differs in the azimuth alone, and there by
/// rounding. The neighbour must not be seen right where the azimuth jumps. `c`
/// bounds the angles, and `n` the turns in them.
pub proof fn law_full_turn_leaves_the_track(
    e: Estimate,
    d: V3,
    z: V3,
    shifted: V3,
    predicted: V3,
    r: M3,
    now: Number,
    n: nat,
    c: real,
)
    requires
        z.y is Finite,
        predicted.y is Finite,
        size(value(z.y)) + size(value(predicted.y)) <= c - 8 as real,
        c >= 16 as real,
        c <= 1000 as real,
        c <= 3 as real + 6 as real * (n as real),
        shifted == (V3 { y: z.y + decode(TAU), ..z }) || shifted == (V3 {
            y: z.y - decode(TAU),
            ..z
        }),
        size(value(innovation(z, predicted).y)) < value(decode(PI)) - wobble(n, c),
    ensures
        ({
            let (a, b) = (
                corrected(e, d, z, predicted, r, now),
                corrected(e, d, shifted, predicted, r, now),
            );
            let (y, w) = (innovation(z, predicted), innovation(shifted, predicted));
            let (gp, gv) = gains(e, d, r);
            &&& a.cov == b.cov
            &&& a.last_seen == b.last_seen
            &&& w.x == y.x && w.z == y.z
            &&& w.y is Finite && y.y is Finite
            &&& size(value(w.y) - value(y.y)) <= wobble(n, c)
            &&& a == b || {
                &&& a.pos == e.pos + gp.apply(y)
                &&& b.pos == e.pos + gp.apply(w)
                &&& a.vel == e.vel + gv.apply(y)
                &&& b.vel == e.vel + gv.apply(w)
            }
        }),
{
    lemma_innovations(z, shifted, predicted, n, c);
    lemma_gains(e, d, z, predicted, r, now);
    lemma_gains(e, d, shifted, predicted, r, now);
}

proof fn lemma_gains(e: Estimate, d: V3, z: V3, predicted: V3, r: M3, now: Number)
    ensures
        ({
            let h = position_jacobian(d);
            let s = innovation_cov(e.cov, h, r);
            let a = corrected(e, d, z, predicted, r, now);
            let y = innovation(z, predicted);
            let (gp, gv) = gains(e, d, r);
            if s.is_singular() {
                a == e
            } else {
                let kh = M6 { pp: gp * h, pv: gp * M3::nil(), vp: gv * h, vv: gv * M3::nil() };
                &&& a.pos == e.pos + gp.apply(y)
                &&& a.vel == e.vel + gv.apply(y)
                &&& a.cov == (M6::identity() - kh) * e.cov
                &&& a.last_seen == now
            }
        }),
{
    reveal(corrected);
}

/// Two innovations that are a full turn apart.
proof fn lemma_innovations(z: V3, shifted: V3, predicted: V3, n: nat, c: real)
    requires
        z.y is Finite,
        predicted.y is Finite,
        size(value(z.y)) + size(value(predicted.y)) <= c - 8 as real,
        c >= 16 as real,
        c <= 1000 as real,
        c <= 3 as real + 6 as real * (n as real),
        shifted.y == z.y + decode(TAU) || shifted.y == z.y - decode(TAU),
        size(value(wrapped(z.y - predicted.y))) < value(decode(PI)) - wobble(n, c),
    ensures
        ({
            let (a, b) = (wrapped(z.y - predicted.y), wrapped(shifted.y - predicted.y));
            a is Finite && b is Finite && size(value(b) - value(a)) <= wobble(n, c)
        }),
{
    lemma_turn_values();
    lemma_negated_value(decode(TAU));
    let (a, b) = (z.y - predicted.y, shifted.y - predicted.y);
    if shifted.y == z.y + decode(TAU) {
        lemma_shifted(z.y, predicted.y, decode(TAU), c);
    } else {
        lemma_shifted(z.y, predicted.y, -decode(TAU), c);
    }
    law_full_turn_is_wrapped_away(a, b, n, c);
}

/// A difference whose first term is shifted by `t`.
proof fn lemma_shifted(z: Number, p: Number, t: Number, c: real)
    requires
        z is Finite,
        p is Finite,
        t is Finite,
        size(value(z)) + size(value(p)) <= c - 8 as real,
        c >= 16 as real,
        c <= 1000 as real,
        size(value(t)) <= 7 as real,
    ensures
        (z - p) is Finite,
        ((z + t) - p) is Finite,
        size(value(z - p)) <= c,
        size(value((z + t) - p)) <= c,
        size(value((z + t) - p) - value(z - p) - value(t)) <= 6 as real * (c * eps()),
{
    lemma_tiny();
    lemma_little(c);
    lemma_negated_value(p);
    let (zv, pv, tv) = (value(z), value(p), value(t));
    lemma_sum_error(z, -p);
    lemma_sum_error(z, t);
    let (a, s) = (z - p, z + t);
    let (av, sv) = (value(a), value(s));
    lemma_apart(zv, pv, c);
    lemma_apart(zv, -tv, c);
    assert(zv - (-tv) == zv + tv);
    lemma_step(av, zv - pv, c);
    lemma_step(sv, zv + tv, c);
    let h = c * (2 as real * eps());
    lemma_shifted_size(zv, pv, tv, sv, c, h);
    lemma_sum_error(s, -p);
    let b = s - p;
    lemma_step(value(b), sv - pv, c);
    lemma_three_steps(zv, pv, tv, av, sv, value(b), c, h);
    assert(c * (2 as real * eps()) == 2 as real * (c * eps())) by (nonlinear_arith);
}

proof fn lemma_apart(z: real, p: real, c: real)
    requires
        size(z) + size(p) <= c,
    ensures
        size(z - p) <= c,
{
}

proof fn lemma_shifted_size(z: real, p: real, t: real, s: real, c: real, h: real)
    requires
        size(z) + size(p) <= c - 8 as real,
        size(t) <= 7 as real,
        size(s - (z + t)) <= h,
        h <= 1 as real / (1000 as real),
    ensures
        size(s - p) <= c,
{
}

proof fn lemma_three_steps(
    z: real,
    p: real,
    t: real,
    a: real,
    s: real,
    b: real,
    c: real,
    h: real,
)
    requires
        size(z) + size(p) <= c - 8 as real,
        size(t) <= 7 as real,
        size(a - (z - p)) <= h,
        size(s - (z + t)) <= h,
        size(b - (s - p)) <= h,
        h <= 1 as real / (1000 as real),
    ensures
        size(a) <= c,
        size(b) <= c,
        size(b - a - t) <= 3 as real * h,
{
}

} // verus!
