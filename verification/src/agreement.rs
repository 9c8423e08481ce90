//! What fusing beliefs about the goal guarantees, in real numbers.
use crate::config::{GOAL_DECAY_VAR, GOAL_MEAS_STD, GOAL_RELAY_PENALTY, MIN_FIX_VAR, MIN_STEP};
use crate::error::{
    eps, lemma_less_value, lemma_no_value, lemma_product_error, lemma_quotient_error,
    lemma_sum_error, lemma_tiny, lemma_tiny_fourth, lemma_units, size, tiny, value, within,
};
use crate::goal::{
    best_relay, fused, law_relay_was_heard, next_belief, observation_var, relayed, stale, Belief,
    GoalDraws,
};
use crate::metric::{finite, lemma_positive, lemma_product_size};
use crate::number::{
    at_most, decode, infinity, is_single, less, limit, one, product, quotient, rounded, sum, unit,
    zero, Number,
};
use crate::order::{
    is_rounded, lemma_at_most_transitive, lemma_harmonic, lemma_results_are_rounded,
    lemma_sum_commutes,
};
use crate::rounding::{lemma_rounded_keeps_most, lemma_rounded_monotone};
use crate::sim::{Drone, Mode};
use crate::swarm::{radio, Seen};
use crate::vector::V3;
use vstd::arithmetic::power2::{lemma2_to64, lemma_pow2_adds, lemma_pow2_pos, pow2};
use vstd::prelude::*;

verus! {

/// Fusing two beliefs in either order gives the same.
pub proof fn law_fusing_commutes(a: Belief, b: Belief)
    ensures
        fused(a, b) == fused(b, a),
{
    lemma_sum_commutes(one() / a.var, one() / b.var);
    lemma_sum_commutes(a.pos.x / a.var, b.pos.x / b.var);
    lemma_sum_commutes(a.pos.y / a.var, b.pos.y / b.var);
    lemma_sum_commutes(a.pos.z / a.var, b.pos.z / b.var);
}

/// A variance that is neither next to nothing nor beyond all use.
pub open spec fn is_usual(a: Number) -> bool {
    a is Finite && value(a) >= (1 as real) / (0x100_0000_0000 as real) && value(a) <= 0x1000_0000_0000_0000 as real
}

proof fn lemma_one_value()
    ensures
        value(one()) == 1 as real,
        one() is Finite,
{
    lemma_pow2_pos(149);
    let u = unit() as real;
    assert(u / u == 1 as real) by (nonlinear_arith)
        requires
            u > 0 as real,
    ;
}

proof fn lemma_not_nothing(a: Number)
    requires
        a is Finite,
        value(a) > 0 as real,
    ensures
        a->mag > 0,
{
    if a->mag == 0 {
        lemma_no_value(a);
    }
}

/// The reciprocal of a usual variance; `inv` is the exact one.
proof fn lemma_reciprocal(a: Number) -> (inv: real)
    requires
        is_usual(a),
    ensures
        (one() / a) is Finite,
        inv * value(a) == 1 as real,
        inv > 0 as real,
        inv <= 0x100_0000_0000 as real,
        inv >= (1 as real) / (0x1000_0000_0000_0000 as real),
        within(value(one() / a), inv, inv * eps() + tiny()),
        value(one() / a) > 0 as real,
{
    lemma_tiny();
    lemma_tiny_fourth();
    lemma_one_value();
    lemma_not_nothing(a);
    let x = value(a);
    let inv = (1 as real) / x;
    assert(inv * x == 1 as real && inv > 0 as real) by (nonlinear_arith)
        requires
            inv == (1 as real) / x,
            x > 0 as real,
    ;
    assert(inv <= 0x100_0000_0000 as real) by (nonlinear_arith)
        requires
            inv * x == 1 as real,
            inv > 0 as real,
            x >= (1 as real) / (0x100_0000_0000 as real),
    ;
    assert(inv >= (1 as real) / (0x1000_0000_0000_0000 as real)) by (nonlinear_arith)
        requires
            inv * x == 1 as real,
            x > 0 as real,
            x <= 0x1000_0000_0000_0000 as real,
    ;
    lemma_quotient_error(one(), a, inv);
    let (e, o) = (eps(), tiny());
    assert(inv * e + o < inv) by (nonlinear_arith)
        requires
            inv >= (1 as real) / (0x1000_0000_0000_0000 as real),
            o <= e * e * e * e,
            e == (1 as real) / (0x100_0000 as real),
    ;
    inv
}

/// The sum of the reciprocals of two usual variances, and the variance that it
/// gives.
proof fn lemma_fused_variance(a: Number, b: Number) -> (r: (real, real))
    requires
        is_usual(a),
        is_usual(b),
    ensures
        r.0 * value(a) == 1 as real,
        r.1 * value(b) == 1 as real,
        r.0 > 0 as real,
        r.1 > 0 as real,
        ({
            let s = one() / a + one() / b;
            &&& s is Finite
            &&& (one() / s) is Finite
            &&& value(one() / s) > 0 as real
            &&& size(value(s) - (r.0 + r.1)) <= (r.0 + r.1) * (3 as real * eps())
            &&& size(value(one() / s) * (r.0 + r.1) - 1 as real) <= 5 as real * eps()
        }),
{
    lemma_tiny();
    let (e, o) = (eps(), tiny());
    let (p, q) = (lemma_reciprocal(a), lemma_reciprocal(b));
    let (x, y) = (one() / a, one() / b);
    lemma_sum_error(x, y);
    let s = x + y;
    let t = p + q;
    let sv = value(s);
    lemma_sum_of_reciprocals(p, q, value(x), value(y), sv);
    lemma_one_value();
    lemma_not_nothing(s);
    let inv = (1 as real) / sv;
    assert(inv * sv == 1 as real && inv > 0 as real) by (nonlinear_arith)
        requires
            inv == (1 as real) / sv,
            sv > 0 as real,
    ;
    assert(inv <= 0x4000_0000_0000_0000 as real) by (nonlinear_arith)
        requires
            inv * sv == 1 as real,
            inv > 0 as real,
            sv >= (1 as real) / (0x4000_0000_0000_0000 as real),
    ;
    lemma_quotient_error(one(), s, inv);
    let v = value(one() / s);
    lemma_inverse_of_sum(t, sv, inv, v);
    (p, q)
}

/// The rounded sum of two rounded reciprocals.
proof fn lemma_sum_of_reciprocals(p: real, q: real, x: real, y: real, s: real)
    requires
        within(x, p, p * eps() + tiny()),
        within(y, q, q * eps() + tiny()),
        within(s, x + y, size(x + y) * eps() + tiny()),
        p >= (1 as real) / (0x1000_0000_0000_0000 as real),
        q >= (1 as real) / (0x1000_0000_0000_0000 as real),
    ensures
        size(s - (p + q)) <= (p + q) * (3 as real * eps()),
        s >= (1 as real) / (0x4000_0000_0000_0000 as real),
{
    lemma_tiny();
    lemma_tiny_fourth();
    let (e, o, t) = (eps(), tiny(), p + q);
    let g = size(x + y);
    let te = t * e;
    assert(p * e + q * e == te) by (nonlinear_arith)
        requires
            t == p + q,
            te == t * e,
    ;
    assert(te >= 0 as real && te <= t / (1000 as real) && o * 100 as real <= te) by (nonlinear_arith)
        requires
            te == t * e,
            t >= (1 as real) / (0x1000_0000_0000_0000 as real),
            o <= e * e * e * e,
            e == (1 as real) / (0x100_0000 as real),
    ;
    assert(g <= t + te + 2 as real * o);
    assert(g * e <= te + te / (100 as real)) by (nonlinear_arith)
        requires
            g <= t + te + 2 as real * o,
            te <= t / (1000 as real),
            o * 100 as real <= te,
            te == t * e,
            e > 0 as real,
            t > 0 as real,
    ;
    assert(t * (3 as real * e) == 3 as real * te) by (nonlinear_arith)
        requires
            te == t * e,
    ;
}

/// The rounded reciprocal of what is near `t`.
proof fn lemma_inverse_of_sum(t: real, s: real, inv: real, v: real)
    requires
        size(s - t) <= t * (3 as real * eps()),
        t > 0 as real,
        t <= 0x400_0000_0000 as real,
        inv * s == 1 as real,
        s > 0 as real,
        inv > 0 as real,
        within(v, inv, inv * eps() + tiny()),
    ensures
        size(v * t - 1 as real) <= 5 as real * eps(),
        v > 0 as real,
{
    lemma_tiny();
    lemma_tiny_fourth();
    let (e, o) = (eps(), tiny());
    let (it, vt, d) = (inv * t, v * t, v - inv);
    let w = s - t;
    let iw = inv * w;
    assert(iw == 1 as real - it) by (nonlinear_arith)
        requires
            iw == inv * w,
            w == s - t,
            it == inv * t,
            inv * s == 1 as real,
    ;
    let k = 3 as real * e;
    assert(size(iw) <= it * k) by (nonlinear_arith)
        requires
            iw == inv * w,
            it == inv * t,
            size(w) <= t * k,
            inv > 0 as real,
    ;
    assert(it > 0 as real) by (nonlinear_arith)
        requires
            it == inv * t,
            inv > 0 as real,
            t > 0 as real,
    ;
    assert(it * k <= it / (1000 as real)) by (nonlinear_arith)
        requires
            it > 0 as real,
            k == 3 as real * e,
            e == (1 as real) / (0x100_0000 as real),
    ;
    assert(it <= 2 as real);
    assert(it * k <= 3 as real * e + e / (100 as real)) by (nonlinear_arith)
        requires
            it <= 1 as real + it * k,
            it <= 2 as real,
            it > 0 as real,
            k == 3 as real * e,
            e == (1 as real) / (0x100_0000 as real),
    ;
    let ie = inv * e;
    assert(vt == it + d * t) by (nonlinear_arith)
        requires
            vt == v * t,
            it == inv * t,
            d == v - inv,
    ;
    let dt = d * t;
    assert(size(dt) <= it * e + o * t) by (nonlinear_arith)
        requires
            dt == d * t,
            size(d) <= inv * e + o,
            t > 0 as real,
            it == inv * t,
    ;
    assert(o * t <= e / (100 as real)) by (nonlinear_arith)
        requires
            t <= 0x400_0000_0000 as real,
            t > 0 as real,
            o <= e * e * e * e,
            e == (1 as real) / (0x100_0000 as real),
    ;
    assert(it * e <= e + e / (100 as real)) by (nonlinear_arith)
        requires
            it <= 1 as real + 3 as real * e + e / (100 as real),
            e == (1 as real) / (0x100_0000 as real),
    ;
    assert(v > 0 as real) by (nonlinear_arith)
        requires
            vt > 0 as real,
            vt == v * t,
            t > 0 as real,
    ;
}

/// A fused belief is surer than either of the two, where neither variance is a
/// million times the other.
pub proof fn law_fusing_makes_surer(a: Belief, b: Belief)
    requires
        is_usual(a.var),
        is_usual(b.var),
        value(a.var) <= 0x10_0000 as real * value(b.var),
        value(b.var) <= 0x10_0000 as real * value(a.var),
    ensures
        ({
            let v = fused(a, b).var;
            &&& v is Finite
            &&& value(v) > 0 as real
            &&& value(v) < value(a.var)
            &&& value(v) < value(b.var)
        }),
{
    lemma_below_first(a.var, b.var);
    lemma_below_first(b.var, a.var);
    lemma_sum_commutes(one() / a.var, one() / b.var);
}

proof fn lemma_below_first(a: Number, b: Number)
    requires
        is_usual(a),
        is_usual(b),
        value(b) <= 0x10_0000 as real * value(a),
    ensures
        ({
            let v = one() / (one() / a + one() / b);
            &&& v is Finite
            &&& value(v) > 0 as real
            &&& value(v) < value(a)
        }),
{
    let (p, q) = lemma_fused_variance(a, b);
    let v = value(one() / (one() / a + one() / b));
    let (x, y, t, e) = (value(a), value(b), p + q, eps());
    let qa = q * x;
    assert(qa >= 16 as real * e) by (nonlinear_arith)
        requires
            qa == q * x,
            q * y == 1 as real,
            q > 0 as real,
            y <= 0x10_0000 as real * x,
            e == (1 as real) / (0x100_0000 as real),
    ;
    assert(x * t == p * x + qa) by (nonlinear_arith)
        requires
            t == p + q,
            qa == q * x,
    ;
    assert(v < x) by (nonlinear_arith)
        requires
            v * t < x * t,
            t > 0 as real,
    ;
}

/// The precisions of two beliefs add up when they are fused, but for rounding:
/// the variance times the sum of the two is their product.
pub proof fn law_precisions_add_up(a: Belief, b: Belief)
    requires
        is_usual(a.var),
        is_usual(b.var),
    ensures
        ({
            let (x, y, v) = (value(a.var), value(b.var), value(fused(a, b).var));
            size(v * (x + y) - x * y) <= (x * y) * (5 as real * eps())
        }),
{
    let (p, q) = lemma_fused_variance(a.var, b.var);
    let (x, y, v) = (value(a.var), value(b.var), value(fused(a, b).var));
    let (t, xy) = (p + q, x * y);
    let d = v * t - 1 as real;
    assert(p * xy == y) by (nonlinear_arith)
        requires
            p * x == 1 as real,
            xy == x * y,
    ;
    assert(q * xy == x) by (nonlinear_arith)
        requires
            q * y == 1 as real,
            xy == x * y,
    ;
    assert(t * xy == p * xy + q * xy) by (nonlinear_arith)
        requires
            t == p + q,
    ;
    let vt = v * t;
    assert(v * (t * xy) == vt * xy) by (nonlinear_arith)
        requires
            vt == v * t,
    ;
    assert(vt * xy == xy + d * xy) by (nonlinear_arith)
        requires
            d == vt - 1 as real,
    ;
    assert(xy > 0 as real) by (nonlinear_arith)
        requires
            xy == x * y,
            x > 0 as real,
            y > 0 as real,
    ;
    let w = 5 as real * eps();
    assert(size(d * xy) <= xy * w) by (nonlinear_arith)
        requires
            size(d) <= w,
            xy > 0 as real,
    ;
}

/// One coordinate of a fused place; `mean` is the exact weighted mean.
proof fn lemma_coordinate(c: Number, d: Number, a: Number, b: Number, most: real, mean: real)
    requires
        is_usual(a),
        is_usual(b),
        c is Finite,
        d is Finite,
        size(value(c)) <= most,
        size(value(d)) <= most,
        most <= 0x10_0000 as real,
        size(mean) <= most,
        mean * (value(a) + value(b)) == value(c) * value(b) + value(d) * value(a),
    ensures
        ({
            let v = one() / (one() / a + one() / b);
            let r = (c / a + d / b) * v;
            &&& r is Finite
            &&& size(value(r) - mean) <= (most + 1 as real) * (16 as real * eps())
        }),
{
    lemma_tiny();
    let (p, q) = lemma_fused_variance(a, b);
    let var = one() / (one() / a + one() / b);
    let v = value(var);
    let (x, y) = (value(c), value(d));
    let t = p + q;
    lemma_not_nothing(a);
    lemma_not_nothing(b);
    let (m1, m2) = (x * p, y * q);
    assert(m1 * value(a) == x) by (nonlinear_arith)
        requires
            m1 == x * p,
            p * value(a) == 1 as real,
    ;
    assert(m2 * value(b) == y) by (nonlinear_arith)
        requires
            m2 == y * q,
            q * value(b) == 1 as real,
    ;
    lemma_usual_inverse(p, value(a));
    lemma_usual_inverse(q, value(b));
    lemma_product_size(x, p, most, p);
    lemma_product_size(y, q, most, q);
    assert(most * p <= 0x10_0000 as real * (0x100_0000_0000 as real)) by (nonlinear_arith)
        requires
            most <= 0x10_0000 as real,
            most >= 0 as real,
            p <= 0x100_0000_0000 as real,
            p > 0 as real,
    ;
    assert(most * q <= 0x10_0000 as real * (0x100_0000_0000 as real)) by (nonlinear_arith)
        requires
            most <= 0x10_0000 as real,
            most >= 0 as real,
            q <= 0x100_0000_0000 as real,
            q > 0 as real,
    ;
    lemma_quotient_error(c, a, m1);
    lemma_quotient_error(d, b, m2);
    let (g, h) = (c / a, d / b);
    let (e1, e2) = (size(m1) * eps(), size(m2) * eps());
    assert(e1 <= size(m1) && e2 <= size(m2)) by (nonlinear_arith)
        requires
            e1 == size(m1) * eps(),
            e2 == size(m2) * eps(),
            eps() <= 1 as real,
            eps() > 0 as real,
    ;
    lemma_sum_error(g, h);
    let n = value(g + h);
    lemma_numerator(m1, m2, value(g), value(h), n, most, p, q);
    lemma_mean_times(mean, x, y, p, q, value(a), value(b));
    lemma_product_bound(n, mean, v, t, most);
    lemma_product_error(g + h, var);
    lemma_coordinate_error(n * v, value((g + h) * var), mean, most);
}

proof fn lemma_usual_inverse(p: real, a: real)
    requires
        p * a == 1 as real,
        p > 0 as real,
        a >= (1 as real) / (0x100_0000_0000 as real),
        a <= 0x1000_0000_0000_0000 as real,
    ensures
        p <= 0x100_0000_0000 as real,
        p >= (1 as real) / (0x1000_0000_0000_0000 as real),
{
    assert(p <= 0x100_0000_0000 as real && p >= (1 as real) / (0x1000_0000_0000_0000 as real))
        by (nonlinear_arith)
        requires
            p * a == 1 as real,
            p > 0 as real,
            a >= (1 as real) / (0x100_0000_0000 as real),
            a <= 0x1000_0000_0000_0000 as real,
    ;
}

/// The rounded sum of two weighted coordinates.
proof fn lemma_numerator(
    m1: real,
    m2: real,
    g: real,
    h: real,
    n: real,
    most: real,
    p: real,
    q: real,
)
    requires
        within(g, m1, size(m1) * eps() + tiny()),
        within(h, m2, size(m2) * eps() + tiny()),
        within(n, g + h, size(g + h) * eps() + tiny()),
        size(m1) <= most * p,
        size(m2) <= most * q,
        most >= 0 as real,
        p >= (1 as real) / (0x1000_0000_0000_0000 as real),
        q >= (1 as real) / (0x1000_0000_0000_0000 as real),
    ensures
        size(n - (m1 + m2)) <= (most + 1 as real) * (p + q) * (3 as real * eps()),
{
    lemma_tiny();
    lemma_tiny_fourth();
    let (e, o, t) = (eps(), tiny(), p + q);
    let (k1, k2) = (most * p, most * q);
    let mt = (most + 1 as real) * t;
    assert(k1 + k2 + t == mt) by (nonlinear_arith)
        requires
            k1 == most * p,
            k2 == most * q,
            t == p + q,
            mt == (most + 1 as real) * t,
    ;
    let f = mt * e;
    let (s1, s2) = (size(m1) * e, size(m2) * e);
    assert(k1 >= 0 as real && k2 >= 0 as real) by (nonlinear_arith)
        requires
            k1 == most * p,
            k2 == most * q,
            most >= 0 as real,
            p > 0 as real,
            q > 0 as real,
    ;
    assert(t * e >= 100 as real * o) by (nonlinear_arith)
        requires
            t >= (1 as real) / (0x1000_0000_0000_0000 as real),
            o <= e * e * e * e,
            e == (1 as real) / (0x100_0000 as real),
    ;
    let te = t * e;
    let (u1, u2) = (k1 * e, k2 * e);
    assert(s1 <= u1 && s2 <= u2 && u1 + u2 + te == f && u1 >= 0 as real && u2 >= 0 as real)
        by (nonlinear_arith)
        requires
            s1 == size(m1) * e,
            s2 == size(m2) * e,
            size(m1) <= k1,
            size(m2) <= k2,
            u1 == k1 * e,
            u2 == k2 * e,
            te == t * e,
            f == mt * e,
            k1 + k2 + t == mt,
            k1 >= 0 as real,
            k2 >= 0 as real,
            e > 0 as real,
    ;
    let w = size(g + h);
    assert(f <= mt) by (nonlinear_arith)
        requires
            f == mt * e,
            mt >= 0 as real,
            e <= 1 as real,
    ;
    assert(w <= 2 as real * mt);
    assert(w * e <= 2 as real * f) by (nonlinear_arith)
        requires
            w <= 2 as real * mt,
            f == mt * e,
            e > 0 as real,
    ;
    assert(mt * (3 as real * e) == 3 as real * f) by (nonlinear_arith)
        requires
            f == mt * e,
    ;
}

/// The mean, weighted by the precisions.
proof fn lemma_mean_times(mean: real, x: real, y: real, p: real, q: real, a: real, b: real)
    requires
        mean * (a + b) == x * b + y * a,
        p * a == 1 as real,
        q * b == 1 as real,
    ensures
        mean * (p + q) == x * p + y * q,
{
    let pq = p * q;
    assert(pq * a == q && pq * b == p) by (nonlinear_arith)
        requires
            pq == p * q,
            p * a == 1 as real,
            q * b == 1 as real,
    ;
    let s = a + b;
    assert(pq * s == pq * a + pq * b) by (nonlinear_arith)
        requires
            s == a + b,
    ;
    let t = p + q;
    assert(pq * s == t);
    assert(mean * (pq * s) == pq * (mean * s)) by (nonlinear_arith);
    let (xb, ya) = (x * b, y * a);
    assert(pq * (xb + ya) == pq * xb + pq * ya) by (nonlinear_arith);
    assert(pq * (x * b) == x * (pq * b)) by (nonlinear_arith);
    assert(pq * (y * a) == y * (pq * a)) by (nonlinear_arith);
}

/// The numerator times the fused variance.
proof fn lemma_product_bound(n: real, mean: real, v: real, t: real, most: real)
    requires
        size(n - mean * t) <= (most + 1 as real) * t * (3 as real * eps()),
        size(v * t - 1 as real) <= 5 as real * eps(),
        size(mean) <= most,
        t > 0 as real,
        v > 0 as real,
    ensures
        size(n * v - mean) <= (most + 1 as real) * (9 as real * eps()),
{
    lemma_tiny();
    let (e, k) = (eps(), most + 1 as real);
    let (mt, vt) = (mean * t, v * t);
    let d = n - mt;
    let f = vt - 1 as real;
    assert(n * v == mt * v + d * v) by (nonlinear_arith)
        requires
            n == mt + d,
    ;
    assert(mt * v == mean * vt) by (nonlinear_arith)
        requires
            mt == mean * t,
            vt == v * t,
    ;
    assert(mean * vt == mean + mean * f) by (nonlinear_arith)
        requires
            f == vt - 1 as real,
    ;
    lemma_product_size(mean, f, most, 5 as real * e);
    let w = k * (3 as real * e);
    assert(k * t * (3 as real * e) == w * t) by (nonlinear_arith)
        requires
            w == k * (3 as real * e),
    ;
    let dv = d * v;
    assert(size(dv) <= w * vt) by (nonlinear_arith)
        requires
            dv == d * v,
            size(d) <= w * t,
            vt == v * t,
            v > 0 as real,
    ;
    assert(w >= 0 as real) by (nonlinear_arith)
        requires
            w == k * (3 as real * e),
            k >= 0 as real,
            e > 0 as real,
    ;
    assert(w * vt <= w + w / (4 as real)) by (nonlinear_arith)
        requires
            vt <= 1 as real + 1 as real / (4 as real),
            w >= 0 as real,
    ;
    let ke = k * e;
    assert(w == 3 as real * ke && k * (9 as real * e) == 9 as real * ke && most * (5 as real * e)
        <= 5 as real * ke && ke >= 0 as real) by (nonlinear_arith)
        requires
            w == k * (3 as real * e),
            ke == k * e,
            k == most + 1 as real,
            k >= 0 as real,
            e > 0 as real,
    ;
}

proof fn lemma_coordinate_error(exact: real, got: real, mean: real, most: real)
    requires
        size(exact - mean) <= (most + 1 as real) * (9 as real * eps()),
        within(got, exact, size(exact) * eps() + tiny()),
        size(mean) <= most,
    ensures
        size(got - mean) <= (most + 1 as real) * (16 as real * eps()),
{
    lemma_tiny();
    let (e, k) = (eps(), most + 1 as real);
    let ke = k * e;
    assert(k * (9 as real * e) == 9 as real * ke && k * (16 as real * e) == 16 as real * ke && ke
        >= e && 9 as real * ke <= k) by (nonlinear_arith)
        requires
            ke == k * e,
            k >= 1 as real,
            e > 0 as real,
            e <= 1 as real / (9 as real),
    ;
    let g = size(exact);
    assert(g * e <= 2 as real * ke) by (nonlinear_arith)
        requires
            g <= 2 as real * k,
            ke == k * e,
            e > 0 as real,
    ;
}

/// The weighted mean lies between the two, and its distances from them are as
/// their variances.
proof fn lemma_between(x: real, y: real, a: real, b: real, mean: real)
    requires
        a > 0 as real,
        b > 0 as real,
        mean * (a + b) == x * b + y * a,
    ensures
        (mean - x) * b == (y - mean) * a,
        x <= y ==> x <= mean && mean <= y,
        y <= x ==> y <= mean && mean <= x,
{
    assert(mean * (a + b) == mean * a + mean * b) by (nonlinear_arith);
    let (d, f) = (mean - x, y - mean);
    assert(d * b == mean * b - x * b) by (nonlinear_arith)
        requires
            d == mean - x,
    ;
    assert(f * a == y * a - mean * a) by (nonlinear_arith)
        requires
            f == y - mean,
    ;
    assert((d >= 0 as real && f >= 0 as real) || (d <= 0 as real && f <= 0 as real))
        by (nonlinear_arith)
        requires
            d * b == f * a,
            a > 0 as real,
            b > 0 as real,
    ;
}

/// The mean of two coordinates, each weighted by the variance of the other.
pub open spec fn mean_of(c: Number, d: Number, a: Number, b: Number) -> real {
    (value(c) * value(b) + value(d) * value(a)) / (value(a) + value(b))
}

/// Whether `r` is the mean of `c` and `d`, weighted by the inverses of the
/// variances `a` and `b`, but for rounding; that mean lies between the two,
/// nearer to the surer one.
pub open spec fn lies_between(r: Number, c: Number, d: Number, a: Number, b: Number, most: real) -> bool {
    let mean = mean_of(c, d, a, b);
    &&& r is Finite
    &&& size(value(r) - mean) <= (most + 1 as real) * (16 as real * eps())
    &&& (mean - value(c)) * value(b) == (value(d) - mean) * value(a)
    &&& value(c) <= value(d) ==> value(c) <= mean && mean <= value(d)
    &&& value(d) <= value(c) ==> value(d) <= mean && mean <= value(c)
}

proof fn lemma_lies_between(c: Number, d: Number, a: Number, b: Number, most: real)
    requires
        is_usual(a),
        is_usual(b),
        c is Finite,
        d is Finite,
        size(value(c)) <= most,
        size(value(d)) <= most,
        most <= 0x10_0000 as real,
    ensures
        lies_between((c / a + d / b) * (one() / (one() / a + one() / b)), c, d, a, b, most),
{
    let mean = mean_of(c, d, a, b);
    let (s, n) = (value(a) + value(b), value(c) * value(b) + value(d) * value(a));
    assert(mean * s == n) by (nonlinear_arith)
        requires
            mean == n / s,
            s > 0 as real,
    ;
    lemma_between(value(c), value(d), value(a), value(b), mean);
    lemma_coordinate(c, d, a, b, most, mean);
}

/// A fused belief lies between the two, nearer to the surer one: each
/// coordinate is the mean of theirs, weighted by the inverses of the variances,
/// but for rounding. `most` bounds the coordinates.
pub proof fn law_fused_place_lies_between(a: Belief, b: Belief, most: real)
    requires
        is_usual(a.var),
        is_usual(b.var),
        finite(a.pos),
        finite(b.pos),
        most <= 0x10_0000 as real,
        size(value(a.pos.x)) <= most && size(value(b.pos.x)) <= most,
        size(value(a.pos.y)) <= most && size(value(b.pos.y)) <= most,
        size(value(a.pos.z)) <= most && size(value(b.pos.z)) <= most,
    ensures
        lies_between(fused(a, b).pos.x, a.pos.x, b.pos.x, a.var, b.var, most),
        lies_between(fused(a, b).pos.y, a.pos.y, b.pos.y, a.var, b.var, most),
        lies_between(fused(a, b).pos.z, a.pos.z, b.pos.z, a.var, b.var, most),
{
    lemma_lies_between(a.pos.x, b.pos.x, a.var, b.var, most);
    lemma_lies_between(a.pos.y, b.pos.y, a.var, b.var, most);
    lemma_lies_between(a.pos.z, b.pos.z, a.var, b.var, most);
}

/// Whether `a` is positive, rounded, and not below `low`.
spec fn is_firm(a: Number, low: real) -> bool {
    &&& is_rounded(a)
    &&& less(zero(), a)
    &&& a is Finite ==> value(a) >= low
}

/// The reciprocal of a firm variance.
proof fn lemma_firm_reciprocal(a: Number, low: real)
    requires
        is_firm(a, low),
        low >= (1 as real) / (0x10_0000 as real),
        low <= 1 as real,
    ensures
        (one() / a) is Finite,
        !(one() / a)->Finite_neg,
        a is Finite ==> (one() / a)->mag > 0,
        value(one() / a) >= 0 as real,
        value(one() / a) * low <= 2 as real,
{
    lemma_tiny();
    lemma_one_value();
    let r = one() / a;
    assert(a !is Nan) by {
        reveal(less);
    }
    if a is Infinite {
        assert(r == zero()) by {
            reveal(quotient);
            reveal(less);
        }
        lemma_no_value(r);
        assert(0 as real * low == 0 as real) by (nonlinear_arith);
    } else {
        lemma_reciprocal_of_finite(a);
        let x = value(a);
        lemma_not_nothing(a);
        let inv = (1 as real) / x;
        assert(inv * x == 1 as real && inv > 0 as real && inv * low <= 1 as real)
            by (nonlinear_arith)
            requires
                inv == (1 as real) / x,
                x >= low,
                low > 0 as real,
        ;
        assert(inv <= 0x10_0000 as real) by (nonlinear_arith)
            requires
                inv * low <= 1 as real,
                inv > 0 as real,
                low >= (1 as real) / (0x10_0000 as real),
        ;
        lemma_quotient_error(one(), a, inv);
        lemma_positive(r);
        let (e, o, v) = (eps(), tiny(), value(r));
        assert(v * low <= 2 as real) by (nonlinear_arith)
            requires
                v <= inv + inv * e + o,
                inv * low <= 1 as real,
                inv > 0 as real,
                low > 0 as real,
                low <= 1 as real,
                e == (1 as real) / (0x100_0000 as real),
                o <= e * e,
        ;
    }
}

proof fn lemma_reciprocal_of_finite(a: Number)
    requires
        a is Finite,
        is_rounded(a),
        less(zero(), a),
    ensures
        (one() / a) is Infinite || ((one() / a) is Finite && (one() / a)->mag > 0),
        (one() / a) is Finite ==> !(one() / a)->Finite_neg,
        (one() / a) is Infinite ==> one() / a == infinity(),
{
    reveal(less);
    reveal(quotient);
    lemma2_to64();
    lemma_pow2_pos(149);
    let (u, n) = (unit(), a->mag);
    lemma_pow2_adds(149, 149);
    lemma_pow2_adds(277, 21);
    assert(u * u >= 0x20_0000 * n) by (nonlinear_arith)
        requires
            u * u == limit() * 0x20_0000,
            n < limit(),
    ;
    lemma_rounded_keeps_most(u * u, n);
    let inv = rounded(u * u, n);
    assert(u * u > 0) by (nonlinear_arith)
        requires
            u > 0,
    ;
    assert(inv > 0) by (nonlinear_arith)
        requires
            4 * (inv * n) >= 3 * (u * u),
            u * u > 0,
    ;
}

/// What two firm variances give is firm.
proof fn lemma_firm_fused(a: Number, b: Number, low: real)
    requires
        is_firm(a, low),
        is_firm(b, low),
        low >= (1 as real) / (0x10_0000 as real),
        low <= 1 as real,
    ensures
        is_firm(one() / (one() / a + one() / b), low / (5 as real)),
{
    lemma_tiny();
    lemma_one_value();
    lemma_firm_reciprocal(a, low);
    lemma_firm_reciprocal(b, low);
    let (x, y) = (one() / a, one() / b);
    let (xv, yv) = (value(x), value(y));
    let (e, o) = (eps(), tiny());
    assert(xv <= 0x20_0000 as real && yv <= 0x20_0000 as real) by (nonlinear_arith)
        requires
            xv * low <= 2 as real,
            yv * low <= 2 as real,
            low >= (1 as real) / (0x10_0000 as real),
    ;
    lemma_sum_error(x, y);
    let s = x + y;
    let sv = value(s);
    lemma_results_are_rounded(x, y);
    lemma_results_are_rounded(one(), a);
    lemma_results_are_rounded(one(), b);
    lemma_results_are_rounded(one(), s);
    assert(!s->Finite_neg && (x->mag > 0 || y->mag > 0 ==> s->mag > 0)) by {
        reveal(sum);
        lemma_pow2_pos(277);
        lemma_rounded_monotone(x->mag, x->mag + y->mag, 1);
        lemma_rounded_monotone(y->mag, x->mag + y->mag, 1);
    }
    let r = one() / s;
    if s->mag == 0 {
        assert(r == infinity()) by {
            reveal(quotient);
            lemma_pow2_pos(149);
        }
        reveal(less);
    } else {
        assert(less(zero(), s)) by {
            reveal(less);
        }
        lemma_reciprocal_of_finite(s);
        lemma_positive(s);
        assert(less(zero(), r)) by {
            reveal(less);
        }
        if r is Finite {
            let inv = (1 as real) / sv;
            assert(inv * sv == 1 as real && inv > 0 as real) by (nonlinear_arith)
                requires
                    inv == (1 as real) / sv,
                    sv > 0 as real,
            ;
            lemma_quotient_error(one(), s, inv);
            let t = xv + yv;
            assert(t * low <= 4 as real) by (nonlinear_arith)
                requires
                    t == xv + yv,
                    xv * low <= 2 as real,
                    yv * low <= 2 as real,
            ;
            assert(sv * low <= 4 as real + 4 as real * e + o) by (nonlinear_arith)
                requires
                    sv <= t + t * e + o,
                    t * low <= 4 as real,
                    low > 0 as real,
                    low <= 1 as real,
                    e > 0 as real,
                    o > 0 as real,
            ;
            assert(inv * (41 as real) >= 10 as real * low) by (nonlinear_arith)
                requires
                    inv * sv == 1 as real,
                    sv > 0 as real,
                    inv > 0 as real,
                    sv * low <= 41 as real / (10 as real),
            ;
            let v = value(r);
            assert(v >= low / (5 as real)) by (nonlinear_arith)
                requires
                    v >= inv - inv * e - o,
                    inv * (41 as real) >= 10 as real * low,
                    low >= (1 as real) / (0x10_0000 as real),
                    inv > 0 as real,
                    e == (1 as real) / (0x100_0000 as real),
                    o <= e * e,
            ;
        }
    }
}

/// What a belief is when it has grown stale for a step.
proof fn lemma_firm_stale(b: Belief, dt: Number)
    requires
        is_single(b.var),
        less(zero(), b.var),
        at_most(decode(MIN_STEP), dt),
    ensures
        is_firm(stale(b, dt).var, (1 as real) / (0x8000 as real)),
{
    lemma_tiny();
    lemma2_to64();
    lemma_pow2_adds(32, 5);
    let rate = decode(GOAL_DECAY_VAR);
    let least = decode(MIN_STEP);
    assert(pow2(24) as real == 0x100_0000 as real);
    assert(pow2(37) as real == 0x20_0000_0000 as real);
    lemma_units(rate, 0x99_999a, 125, 24);
    lemma_units(least, 0xd1_b717, 112, 37);
    let (rv, lv) = (value(rate), value(least));
    assert(rv * (0x100_0000 as real) == 0x99_999a as real);
    assert(lv * (0x20_0000_0000 as real) == 0xd1_b717 as real);
    assert(rv >= 59 as real / (100 as real) && rv <= 1 as real);
    assert(lv >= 9 as real / (100000 as real));
    let x = rate * dt;
    lemma_not_nothing(rate);
    lemma_results_are_rounded(b.var, x);
    lemma_no_value(zero());
    if dt is Infinite {
        assert(x == infinity() && b.var + x == infinity()) by {
            reveal(less);
            reveal(product);
            reveal(sum);
        }
        reveal(less);
    } else {
        lemma_less_value(dt, least);
        let dv = value(dt);
        let exact = rv * dv;
        assert(exact >= 53 as real / (1000000 as real)) by (nonlinear_arith)
            requires
                exact == rv * dv,
                rv >= 59 as real / (100 as real),
                dv >= 9 as real / (100000 as real),
        ;
        lemma_product_error(rate, dt);
        let (e, o) = (eps(), tiny());
        if x is Finite {
            assert(value(x) >= 52 as real / (1000000 as real)) by (nonlinear_arith)
                requires
                    value(x) >= exact - exact * e - o,
                    exact >= 53 as real / (1000000 as real),
                    e == (1 as real) / (0x100_0000 as real),
                    o <= e * e,
            ;
            if b.var is Finite {
                lemma_less_value(zero(), b.var);
                lemma_sum_error(b.var, x);
                let t = value(b.var) + value(x);
                if (b.var + x) is Finite {
                    let w = value(b.var + x);
                    assert(w >= 51 as real / (1000000 as real)) by (nonlinear_arith)
                        requires
                            w >= t - t * e - o,
                            t >= 52 as real / (1000000 as real),
                            e == (1 as real) / (0x100_0000 as real),
                            o <= e * e,
                    ;
                    lemma_less_value(zero(), b.var + x);
                } else {
                    lemma_not_below(b.var, x);
                }
            } else {
                assert(b.var + x == infinity()) by {
                    reveal(less);
                    reveal(sum);
                }
                reveal(less);
            }
        } else {
            assert(x == infinity() && b.var + x == infinity()) by {
                lemma_less_value(zero(), dt);
                reveal(less);
                reveal(product);
                reveal(sum);
            }
            reveal(less);
        }
    }
}

/// A sum of positive numbers that is not finite is infinite.
proof fn lemma_not_below(a: Number, b: Number)
    requires
        a is Finite,
        b is Finite,
        value(a) > 0 as real,
        value(b) > 0 as real,
        (a + b) !is Finite,
    ensures
        less(zero(), a + b),
        (a + b) is Infinite,
{
    lemma_no_value(zero());
    lemma_less_value(zero(), a);
    lemma_less_value(zero(), b);
    reveal(less);
    reveal(sum);
}

/// The variance of a direct observation is about a quarter.
proof fn lemma_observation()
    ensures
        is_firm(observation_var(), (1 as real) / (5 as real)),
        observation_var() is Finite,
        value(observation_var()) <= (3 as real) / (10 as real),
{
    lemma_tiny();
    lemma2_to64();
    lemma_pow2_adds(32, 5);
    let (std, least) = (decode(GOAL_MEAS_STD), decode(MIN_FIX_VAR));
    assert(pow2(24) as real == 0x100_0000 as real);
    assert(pow2(37) as real == 0x20_0000_0000 as real);
    lemma_units(std, 0x80_0000, 125, 24);
    lemma_units(least, 0xd1_b717, 112, 37);
    let (sv, lv) = (value(std), value(least));
    assert(sv * (0x100_0000 as real) == 0x80_0000 as real);
    assert(lv * (0x20_0000_0000 as real) == 0xd1_b717 as real);
    assert(sv == 1 as real / (2 as real));
    assert(sv * sv == 1 as real / (4 as real)) by (nonlinear_arith)
        requires
            sv == 1 as real / (2 as real),
    ;
    assert(lv <= 1 as real / (1000 as real));
    lemma_product_error(std, std);
    let x = std * std;
    let (e, o) = (eps(), tiny());
    assert(size(value(x) - 1 as real / (4 as real)) <= 1 as real / (1000 as real))
        by (nonlinear_arith)
        requires
            size(value(x) - 1 as real / (4 as real)) <= (1 as real / (4 as real)) * e + o,
            e == (1 as real) / (0x100_0000 as real),
            o <= e * e,
    ;
    lemma_results_are_rounded(std, std);
    lemma_less_value(x, least);
    lemma_less_value(least, x);
    lemma_no_value(zero());
    lemma_less_value(zero(), x);
}

/// What a neighbour said, after the hop.
proof fn lemma_firm_relay(b: Belief)
    requires
        is_single(b.var),
        less(zero(), b.var),
    ensures
        is_firm(relayed(b).var, (1 as real) / (5 as real)),
{
    lemma_tiny();
    lemma2_to64();
    let hop = decode(GOAL_RELAY_PENALTY);
    assert(pow2(25) as real == 0x200_0000 as real);
    lemma_units(hop, 0x99_999a, 124, 25);
    let hv = value(hop);
    assert(hv * (0x200_0000 as real) == 0x99_999a as real);
    assert(hv >= 29 as real / (100 as real));
    lemma_results_are_rounded(b.var, hop);
    lemma_no_value(zero());
    assert(b.var !is Nan) by {
        reveal(less);
    }
    if b.var is Finite {
        lemma_less_value(zero(), b.var);
        lemma_sum_error(b.var, hop);
        let t = value(b.var) + hv;
        let (e, o) = (eps(), tiny());
        if (b.var + hop) is Finite {
            let w = value(b.var + hop);
            assert(w >= 1 as real / (5 as real)) by (nonlinear_arith)
                requires
                    w >= t - t * e - o,
                    t >= 29 as real / (100 as real),
                    e == (1 as real) / (0x100_0000 as real),
                    o <= e * e,
            ;
            lemma_less_value(zero(), b.var + hop);
        } else {
            lemma_not_below(b.var, hop);
        }
    } else {
        assert(b.var + hop == infinity()) by {
            reveal(less);
            reveal(sum);
        }
        reveal(less);
    }
}

/// A belief refreshed by an observation is no less sure.
proof fn lemma_refreshed(aged: Number)
    requires
        is_firm(aged, (1 as real) / (0x8000 as real)),
    ensures
        ({
            let own = one() / (one() / aged + one() / observation_var());
            is_firm(own, (1 as real) / (0x4_0000 as real)) && at_most(own, aged)
        }),
{
    lemma_observation();
    let obs = observation_var();
    let own = one() / (one() / aged + one() / obs);
    lemma_firm_fused(aged, obs, (1 as real) / (0x8000 as real));
    if less(obs, aged) {
        lemma_harmonic(aged, obs);
    } else {
        assert(aged is Finite) by {
            reveal(less);
        }
        lemma_less_value(obs, aged);
        lemma_below_first(aged, obs);
        lemma_less_value(aged, own);
    }
}

/// A step leaves a drone no less sure of the goal than plain staleness would,
/// informed or not, and never sure beyond all measure: the variance stays
/// above zero.
pub proof fn law_step_keeps_belief_sure(
    snap: Seq<Seen>,
    gossip: Seq<Belief>,
    goal: V3,
    m: Mode,
    dt: Number,
    d: Drone,
    b: Belief,
    draws: GoalDraws,
)
    requires
        snap[d.id as int].alive,
        is_single(b.var),
        less(zero(), b.var),
        at_most(decode(MIN_STEP), dt),
        forall|j: int|
            0 <= j < snap.len() ==> is_single((#[trigger] gossip[j]).var) && less(
                zero(),
                gossip[j].var,
            ),
    ensures
        less(zero(), next_belief(snap, gossip, goal, m, dt, d, b, draws).var),
        at_most(next_belief(snap, gossip, goal, m, dt, d, b, draws).var, stale(b, dt).var),
{
    let r = radio(snap, d.id as int, m, draws.packets@);
    let n = snap.len() as int;
    let best = best_relay(r, gossip, n);
    let aged = stale(b, dt).var;
    lemma_firm_stale(b, dt);
    lemma_refreshed(aged);
    let own = if d.informed {
        one() / (one() / aged + one() / observation_var())
    } else {
        aged
    };
    assert(at_most(own, aged)) by {
        reveal(less);
    }
    let low = (1 as real) / (0x4_0000 as real);
    assert(is_firm(own, low));
    if let Some(cand) = best {
        let j = law_relay_was_heard(r, gossip, n);
        assert(gossip[j].var == gossip[j].var);
        lemma_firm_relay(gossip[j]);
        if less(cand.var, own) {
            lemma_harmonic(own, cand.var);
            lemma_firm_fused(own, cand.var, low);
            lemma_at_most_transitive(
                one() / (one() / own + one() / cand.var),
                own,
                aged,
            );
        }
    }
}

/// A drone that is not informed, and hears nobody who is surer after the hop,
/// only grows staler and keeps the place.
pub proof fn law_no_surer_word_changes_nothing(
    snap: Seq<Seen>,
    gossip: Seq<Belief>,
    goal: V3,
    m: Mode,
    dt: Number,
    d: Drone,
    b: Belief,
    draws: GoalDraws,
)
    requires
        snap[d.id as int].alive,
        !d.informed,
        forall|j: int|
            0 <= j < snap.len() && radio(snap, d.id as int, m, draws.packets@).hears(j) ==> !less(
                relayed(#[trigger] gossip[j]).var,
                stale(b, dt).var,
            ),
    ensures
        next_belief(snap, gossip, goal, m, dt, d, b, draws) == stale(b, dt),
{
    let r = radio(snap, d.id as int, m, draws.packets@);
    let n = snap.len() as int;
    if best_relay(r, gossip, n) is Some {
        let j = law_relay_was_heard(r, gossip, n);
        assert(!less(relayed(gossip[j]).var, stale(b, dt).var));
    }
}

} // verus!
