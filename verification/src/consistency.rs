//! Why an intersection of two estimates is not overconfident, whatever the
//! correlation of their errors: the argument in real numbers.
use crate::error::{
    eps, lemma_less_value, lemma_negated_value, lemma_no_value, lemma_product_error,
    lemma_square_sign, lemma_sum_error, lemma_tiny, size, tiny, value,
};
use crate::forms::Triple;
use crate::fusion::{information, law_weights_share_one, weight};
use crate::matrix::M3;
use crate::number::{less, one, unit, zero, Number};
use crate::vector::V3;
use vstd::arithmetic::power2::lemma_pow2_pos;
use vstd::prelude::*;

verus! {

/// The matrix times a vector of real numbers, without rounding.
pub open spec fn image(m: M3, e: Triple) -> Triple {
    Triple {
        x: value(m.r0.x) * e.x + value(m.r0.y) * e.y + value(m.r0.z) * e.z,
        y: value(m.r1.x) * e.x + value(m.r1.y) * e.y + value(m.r1.z) * e.z,
        z: value(m.r2.x) * e.x + value(m.r2.y) * e.y + value(m.r2.z) * e.z,
    }
}

/// The square of an error, counted in the deviations that the information `m`
/// stands for.
pub open spec fn surprise(m: M3, e: Triple) -> real {
    e.dot(image(m, e))
}

/// Information is symmetric, and there is no negative information about any
/// direction.
pub open spec fn is_information(m: M3) -> bool {
    &&& value(m.r0.y) == value(m.r1.x)
    &&& value(m.r0.z) == value(m.r2.x)
    &&& value(m.r1.z) == value(m.r2.y)
    &&& forall|e: Triple| #[trigger] surprise(m, e) >= 0 as real
}

/// However the errors `s` and `t` of two estimates along some direction are
/// correlated, the square of their weighted sum is at most the weighted sum of
/// their squares, but for the rounding of the weights. So an intersection needs
/// not know the correlation.
pub proof fn law_weighted_error_is_bounded(i: nat, s: real, t: real)
    requires
        i < 11,
    ensures
        ({
            let (w, v) = (value(weight(i)), value(one() - weight(i)));
            &&& w >= 0 as real
            &&& v >= 0 as real
            &&& (w * s + v * t) * (w * s + v * t) <= (1 as real + 2 as real * eps()) * (w * (s * s)
                + v * (t * t))
        }),
{
    let (w, v) = lemma_weights(i);
    lemma_convex_within(w, v, s, t, 1 as real + 2 as real * eps());
}

/// The two weights are not negative, and their sum is at most one, but for
/// rounding.
pub proof fn lemma_weights(i: nat) -> (r: (real, real))
    requires
        i < 11,
    ensures
        r.0 == value(weight(i)),
        r.1 == value(one() - weight(i)),
        r.0 >= 0 as real,
        r.1 >= 0 as real,
        r.0 + r.1 <= 1 as real + 2 as real * eps(),
        r.0 + r.1 >= 1 as real - 2 as real * eps(),
        weight(i) is Finite,
        (one() - weight(i)) is Finite,
{
    law_weights_share_one(i);
    lemma_tiny();
    let (a, b) = (weight(i), one() - weight(i));
    assert(a is Finite && b is Finite && (-a) is Finite) by {
        reveal(less);
    }
    lemma_no_value(zero());
    lemma_less_value(a, zero());
    lemma_less_value(b, zero());
    lemma_less_value(one(), a);
    lemma_negated_value(a);
    lemma_sum_error(one(), -a);
    lemma_one();
    let (w, v) = (value(a), value(b));
    let x = w + v;
    let y = size(1 as real - w);
    assert(y * eps() <= eps()) by (nonlinear_arith)
        requires
            y <= 1 as real,
            eps() > 0 as real,
    ;
    assert(x <= 1 as real + 2 as real * eps());
    (w, v)
}

proof fn lemma_convex_within(w: real, v: real, s: real, t: real, k: real)
    requires
        w >= 0 as real,
        v >= 0 as real,
        w + v <= k,
    ensures
        (w * s + v * t) * (w * s + v * t) <= k * (w * (s * s) + v * (t * t)),
{
    lemma_convex(w, v, s, t);
    lemma_square_sign(s);
    lemma_square_sign(t);
    lemma_sign(w, s * s);
    lemma_sign(v, t * t);
    let (x, z) = (w + v, w * (s * s) + v * (t * t));
    assert(x * z <= k * z) by (nonlinear_arith)
        requires
            x <= k,
            z >= 0 as real,
    ;
}

proof fn lemma_sign(a: real, b: real)
    requires
        a >= 0 as real,
        b >= 0 as real,
    ensures
        a * b >= 0 as real,
{
    assert(a * b >= 0 as real) by (nonlinear_arith)
        requires
            a >= 0 as real,
            b >= 0 as real,
    ;
}

pub proof fn lemma_one()
    ensures
        value(one()) == 1 as real,
{
    lemma_pow2_pos(149);
    let u = unit() as real;
    assert(u / u == 1 as real) by (nonlinear_arith)
        requires
            u > 0 as real,
    ;
}

proof fn lemma_dist(a: real, b: real, c: real)
    ensures
        a * (b + c) == a * b + a * c,
        (b + c) * a == b * a + c * a,
{
    assert(a * (b + c) == a * b + a * c) by (nonlinear_arith);
    assert((b + c) * a == b * a + c * a) by (nonlinear_arith);
}

proof fn lemma_mono(w: real, v: real, s: real, t: real)
    ensures
        (w * s) * (w * s) == w * (w * (s * s)),
        (w * s) * (v * t) == (w * v) * (s * t),
        w * (v * (t * t)) == (w * v) * (t * t),
        v * (w * (s * s)) == (w * v) * (s * s),
        (v * t) * (w * s) == (w * v) * (s * t),
{
    assert((w * s) * (w * s) == w * (w * (s * s))) by (nonlinear_arith);
    assert((w * s) * (v * t) == (w * v) * (s * t)) by (nonlinear_arith);
    assert(w * (v * (t * t)) == (w * v) * (t * t)) by (nonlinear_arith);
    assert(v * (w * (s * s)) == (w * v) * (s * s)) by (nonlinear_arith);
    assert((v * t) * (w * s) == (w * v) * (s * t)) by (nonlinear_arith);
}

proof fn lemma_signs(s: real, t: real, k: real)
    ensures
        (-t) * s == -(s * t),
        s * (-t) == -(s * t),
        (-t) * (-t) == t * t,
        k * (-(s * t)) == -(k * (s * t)),
{
    assert((-t) * s == -(s * t)) by (nonlinear_arith);
    assert(s * (-t) == -(s * t)) by (nonlinear_arith);
    assert((-t) * (-t) == t * t) by (nonlinear_arith);
    let st = s * t;
    assert(k * (-st) == -(k * st)) by (nonlinear_arith);
}

proof fn lemma_spread(k: real, s: real, t: real)
    requires
        k >= 0 as real,
    ensures
        k * (s * t) + k * (s * t) <= k * (s * s) + k * (t * t),
{
    let m = -t;
    let d = s + m;
    let (ss, tt, z) = (s * s, t * t, -(s * t));
    lemma_signs(s, t, k);
    lemma_dist(d, s, m);
    lemma_dist(s, s, m);
    lemma_dist(m, s, m);
    let dd = d * d;
    assert(dd == ss + z + z + tt);
    lemma_square_sign(d);
    assert(k * dd >= 0 as real) by (nonlinear_arith)
        requires
            k >= 0 as real,
            dd >= 0 as real,
    ;
    lemma_dist(k, ss, z + z + tt);
    lemma_dist(k, z, z + tt);
    lemma_dist(k, z, tt);
}

/// The square is convex.
proof fn lemma_convex(w: real, v: real, s: real, t: real)
    requires
        w >= 0 as real,
        v >= 0 as real,
    ensures
        (w * s + v * t) * (w * s + v * t) <= (w + v) * (w * (s * s) + v * (t * t)),
{
    let (a, b, p, q) = (w * s, v * t, w * (s * s), v * (t * t));
    lemma_dist(a + b, a, b);
    lemma_dist(a, a, b);
    lemma_dist(b, a, b);
    lemma_dist(p + q, w, v);
    lemma_dist(w, p, q);
    lemma_dist(v, p, q);
    lemma_mono(w, v, s, t);
    lemma_mono(v, w, t, s);
    assert(w * v >= 0 as real) by (nonlinear_arith)
        requires
            w >= 0 as real,
            v >= 0 as real,
    ;
    lemma_spread(w * v, s, t);
}

proof fn lemma_row(a: real, b: real, c: real, e: Triple, f: Triple)
    ensures
        a * (e.x - f.x) + b * (e.y - f.y) + c * (e.z - f.z) == (a * e.x + b * e.y + c * e.z) - (a
            * f.x + b * f.y + c * f.z),
{
    assert(a * (e.x - f.x) == a * e.x - a * f.x) by (nonlinear_arith);
    assert(b * (e.y - f.y) == b * e.y - b * f.y) by (nonlinear_arith);
    assert(c * (e.z - f.z) == c * e.z - c * f.z) by (nonlinear_arith);
}

proof fn lemma_dot_minus(e: Triple, f: Triple, g: Triple)
    ensures
        g.dot(e.minus(f)) == g.dot(e) - g.dot(f),
        e.minus(f).dot(g) == e.dot(g) - f.dot(g),
{
    lemma_row(g.x, g.y, g.z, e, f);
    assert((e.x - f.x) * g.x == e.x * g.x - f.x * g.x) by (nonlinear_arith);
    assert((e.y - f.y) * g.y == e.y * g.y - f.y * g.y) by (nonlinear_arith);
    assert((e.z - f.z) * g.z == e.z * g.z - f.z * g.z) by (nonlinear_arith);
}

proof fn lemma_dot_mixed(e: Triple, w: real, f: Triple, v: real, g: Triple)
    ensures
        g.dot(e.mixed(w, f, v)) == w * g.dot(e) + v * g.dot(f),
{
    lemma_mixed_term(g.x, w, e.x, v, f.x);
    lemma_mixed_term(g.y, w, e.y, v, f.y);
    lemma_mixed_term(g.z, w, e.z, v, f.z);
    lemma_three(w, g.x * e.x, g.y * e.y, g.z * e.z);
    lemma_three(v, g.x * f.x, g.y * f.y, g.z * f.z);
}

proof fn lemma_mixed_term(g: real, w: real, e: real, v: real, f: real)
    ensures
        g * (w * e + v * f) == w * (g * e) + v * (g * f),
{
    let (p, q) = (w * e, v * f);
    lemma_dist(g, p, q);
    assert(g * (w * e) == w * (g * e)) by (nonlinear_arith);
    assert(g * (v * f) == v * (g * f)) by (nonlinear_arith);
}

proof fn lemma_three(w: real, a: real, b: real, c: real)
    ensures
        w * (a + b + c) == w * a + w * b + w * c,
{
    assert(w * (a + b + c) == w * a + w * b + w * c) by (nonlinear_arith);
}

/// `e` by `m` by `f` is `f` by `m` by `e`.
proof fn lemma_symmetric(m: M3, e: Triple, f: Triple)
    requires
        is_information(m),
    ensures
        e.dot(image(m, f)) == f.dot(image(m, e)),
{
    let (a, b, c) = (value(m.r0.x), value(m.r0.y), value(m.r0.z));
    let (p, q, r) = (value(m.r1.y), value(m.r1.z), value(m.r2.z));
    lemma_entries(a, b, c, e.x, f);
    lemma_entries(b, p, q, e.y, f);
    lemma_entries(c, q, r, e.z, f);
    lemma_entries(a, b, c, f.x, e);
    lemma_entries(b, p, q, f.y, e);
    lemma_entries(c, q, r, f.z, e);
    lemma_swap(e.x, a, f.x);
    lemma_swap(e.x, b, f.y);
    lemma_swap(e.x, c, f.z);
    lemma_swap(e.y, b, f.x);
    lemma_swap(e.y, p, f.y);
    lemma_swap(e.y, q, f.z);
    lemma_swap(e.z, c, f.x);
    lemma_swap(e.z, q, f.y);
    lemma_swap(e.z, r, f.z);
}

proof fn lemma_entries(a: real, b: real, c: real, x: real, f: Triple)
    ensures
        x * (a * f.x + b * f.y + c * f.z) == x * (a * f.x) + x * (b * f.y) + x * (c * f.z),
{
    lemma_three(x, a * f.x, b * f.y, c * f.z);
}

proof fn lemma_swap(x: real, a: real, y: real)
    ensures
        x * (a * y) == y * (a * x),
{
    assert(x * (a * y) == y * (a * x)) by (nonlinear_arith);
}

/// Twice the product of two errors is at most the sum of their squares.
proof fn lemma_mean(m: M3, e: Triple, f: Triple)
    requires
        is_information(m),
    ensures
        2 as real * f.dot(image(m, e)) <= surprise(m, e) + surprise(m, f),
{
    let d = e.minus(f);
    lemma_row(value(m.r0.x), value(m.r0.y), value(m.r0.z), e, f);
    lemma_row(value(m.r1.x), value(m.r1.y), value(m.r1.z), e, f);
    lemma_row(value(m.r2.x), value(m.r2.y), value(m.r2.z), e, f);
    assert(image(m, d) == image(m, e).minus(image(m, f)));
    lemma_dot_minus(image(m, e), image(m, f), d);
    lemma_dot_minus(e, f, image(m, e));
    lemma_dot_minus(e, f, image(m, f));
    lemma_symmetric(m, e, f);
    assert(surprise(m, d) >= 0 as real);
}

/// An intersection is never overconfident. Let `a` and `b` be the information
/// in two estimates with the errors `e` and `f`, correlated in any way, and let
/// `g` be the error of the estimate that weighs them, so that the fused
/// information, times its error, is what the two contribute. Then the square of
/// that error, counted in the deviations that the fused information claims, is
/// at most the weighted sum of the squares of the two errors, each counted in
/// the deviations that its own estimate claims.
pub proof fn law_fused_error_is_bounded(a: M3, b: M3, i: nat, e: Triple, f: Triple, g: Triple)
    requires
        i < 11,
        is_information(a),
        is_information(b),
        ({
            let (w, v) = (value(weight(i)), value(one() - weight(i)));
            image(a, g).mixed(w, image(b, g), v) == image(a, e).mixed(w, image(b, f), v)
        }),
    ensures
        ({
            let (w, v) = (value(weight(i)), value(one() - weight(i)));
            &&& g.dot(image(a, g).mixed(w, image(b, g), v)) <= w * surprise(a, e) + v * surprise(b, f)
            &&& w + v <= 1 as real + 2 as real * eps()
        }),
{
    let (w, v) = lemma_weights(i);
    lemma_dot_mixed(image(a, g), w, image(b, g), v, g);
    lemma_dot_mixed(image(a, e), w, image(b, f), v, g);
    lemma_mean(a, e, g);
    lemma_mean(b, f, g);
    let (p, q) = (g.dot(image(a, e)), g.dot(image(b, f)));
    let (x, y) = (surprise(a, e) + surprise(a, g), surprise(b, f) + surprise(b, g));
    lemma_weighed(w, p, x);
    lemma_weighed(v, q, y);
    lemma_dist(w, surprise(a, e), surprise(a, g));
    lemma_dist(v, surprise(b, f), surprise(b, g));
}

proof fn lemma_weighed(w: real, p: real, x: real)
    requires
        w >= 0 as real,
        2 as real * p <= x,
    ensures
        2 as real * (w * p) <= w * x,
{
    assert(2 as real * (w * p) <= w * x) by (nonlinear_arith)
        requires
            w >= 0 as real,
            2 as real * p <= x,
    ;
}

/// An estimate that knows less about every direction adds nothing: no weight
/// on it gives more information than the better one has, but for the rounding
/// of the weights. So an intersection has no need of a gate.
pub proof fn law_worse_estimate_adds_nothing(a: M3, b: M3, i: nat, e: Triple)
    requires
        i < 11,
        is_information(a),
        surprise(b, e) <= surprise(a, e),
    ensures
        ({
            let (w, v) = (value(weight(i)), value(one() - weight(i)));
            e.dot(image(a, e).mixed(w, image(b, e), v)) <= (1 as real + 2 as real * eps())
                * surprise(a, e)
        }),
{
    let (w, v) = lemma_weights(i);
    lemma_dot_mixed(image(a, e), w, image(b, e), v, e);
    let (x, y, k) = (surprise(a, e), surprise(b, e), 1 as real + 2 as real * eps());
    assert(v * y <= v * x) by (nonlinear_arith)
        requires
            v >= 0 as real,
            y <= x,
    ;
    lemma_dist(x, w, v);
    let t = w + v;
    assert(t * x <= k * x) by (nonlinear_arith)
        requires
            t <= k,
            x >= 0 as real,
    ;
}

/// Whether two finite numbers are the same, but for a few roundings.
pub open spec fn near(a: Number, b: Number) -> bool {
    a is Finite && b is Finite && size(value(a) - value(b)) <= size(value(b)) * (6 as real * eps())
        + 4 as real * tiny()
}

pub open spec fn bounded_vector(a: V3) -> bool {
    &&& a.x is Finite && size(value(a.x)) <= 0x4000_0000_0000_0000 as real
    &&& a.y is Finite && size(value(a.y)) <= 0x4000_0000_0000_0000 as real
    &&& a.z is Finite && size(value(a.z)) <= 0x4000_0000_0000_0000 as real
}

pub open spec fn near_vectors(a: V3, b: V3) -> bool {
    near(a.x, b.x) && near(a.y, b.y) && near(a.z, b.z)
}

/// One entry of the information in an estimate that is fused with itself.
proof fn lemma_entry(x: Number, i: nat)
    requires
        i < 11,
        x is Finite,
        size(value(x)) <= 0x4000_0000_0000_0000 as real,
    ensures
        near(x * weight(i) + x * (one() - weight(i)), x),
{
    lemma_tiny();
    let (w, v) = lemma_weights(i);
    let m = value(x);
    lemma_portion(m, w);
    lemma_portion(m, v);
    lemma_product_error(x, weight(i));
    lemma_product_error(x, one() - weight(i));
    let (p, q) = (x * weight(i), x * (one() - weight(i)));
    lemma_both(m, w, v, value(p), value(q));
    lemma_sum_error(p, q);
    lemma_total(m, value(p) + value(q), value(p + q));
}

/// A portion of a bounded number.
proof fn lemma_portion(m: real, w: real)
    requires
        w >= 0 as real,
        w <= 1 as real + 2 as real * eps(),
    ensures
        size(m * w) <= 2 as real * size(m),
{
    lemma_tiny();
    lemma_scaled_size(m, w);
    let k = size(m);
    assert(k * w <= 2 as real * k) by (nonlinear_arith)
        requires
            k >= 0 as real,
            w <= 2 as real,
    ;
}

/// The two rounded portions, together.
proof fn lemma_both(m: real, w: real, v: real, p: real, q: real)
    requires
        w >= 0 as real,
        v >= 0 as real,
        size(w + v - 1 as real) <= 2 as real * eps(),
        size(p - m * w) <= size(m * w) * eps() + tiny(),
        size(q - m * v) <= size(m * v) * eps() + tiny(),
    ensures
        size(p + q - m) <= size(m) * (4 as real * eps()) + 2 as real * tiny(),
{
    lemma_tiny();
    let (e, k) = (eps(), size(m));
    lemma_scaled_size(m, w);
    lemma_scaled_size(m, v);
    let d = w + v - 1 as real;
    lemma_dist(m, w, v);
    assert(size(m * d) <= k * (2 as real * e)) by (nonlinear_arith)
        requires
            k == size(m),
            size(d) <= 2 as real * e,
    ;
    let t = w + v;
    assert(m * d == m * t - m) by (nonlinear_arith)
        requires
            d == t - 1 as real,
    ;
    let (kw, kv) = (k * w, k * v);
    lemma_dist(k, w, v);
    lemma_dist(e, kw, kv);
    let kt = k * t;
    assert(kt <= 2 as real * k) by (nonlinear_arith)
        requires
            kt == k * t,
            t <= 2 as real,
            k >= 0 as real,
    ;
    assert(kt * e <= k * (2 as real * e)) by (nonlinear_arith)
        requires
            kt <= 2 as real * k,
            e > 0 as real,
    ;
    let ke = k * e;
    assert(k * (2 as real * e) == 2 as real * ke && k * (4 as real * e) == 4 as real * ke)
        by (nonlinear_arith)
        requires
            ke == k * e,
    ;
}

/// The rounding of the sum on top.
proof fn lemma_total(m: real, s: real, r: real)
    requires
        size(s - m) <= size(m) * (4 as real * eps()) + 2 as real * tiny(),
        size(r - s) <= size(s) * eps() + tiny(),
    ensures
        size(r - m) <= size(m) * (6 as real * eps()) + 4 as real * tiny(),
{
    lemma_tiny();
    let (e, o, k) = (eps(), tiny(), size(m));
    let ke = k * e;
    assert(k * (4 as real * e) == 4 as real * ke && k * (6 as real * e) == 6 as real * ke)
        by (nonlinear_arith)
        requires
            ke == k * e,
    ;
    assert(ke >= 0 as real && ke <= k / (16 as real)) by (nonlinear_arith)
        requires
            ke == k * e,
            k >= 0 as real,
            e > 0 as real,
            e <= 1 as real / (16 as real),
    ;
    let g = size(s);
    lemma_times_eps(g, 2 as real * k + 2 as real * o);
    assert((2 as real * k + 2 as real * o) * e == 2 as real * ke + 2 as real * (o * e))
        by (nonlinear_arith)
        requires
            ke == k * e,
    ;
    assert(o * e <= o / (16 as real)) by (nonlinear_arith)
        requires
            o > 0 as real,
            e <= 1 as real / (16 as real),
    ;
}

proof fn lemma_scaled_size(m: real, w: real)
    requires
        w >= 0 as real,
    ensures
        size(m * w) == size(m) * w,
        size(m) * w >= 0 as real,
{
    assert(size(m * w) == size(m) * w && size(m) * w >= 0 as real) by (nonlinear_arith)
        requires
            w >= 0 as real,
    ;
}

proof fn lemma_times_eps(a: real, b: real)
    requires
        a <= b,
    ensures
        a * eps() <= b * eps(),
{
    lemma_tiny();
    assert(a * eps() <= b * eps()) by (nonlinear_arith)
        requires
            a <= b,
            eps() > 0 as real,
    ;
}

/// An estimate gains nothing from being fused with itself: whatever weight is
/// chosen, the information is what it was, but for rounding.
pub proof fn law_no_gain_from_itself(a: M3, i: nat)
    requires
        i < 11,
        bounded_vector(a.r0),
        bounded_vector(a.r1),
        bounded_vector(a.r2),
    ensures
        near_vectors(information(a, a, weight(i)).r0, a.r0),
        near_vectors(information(a, a, weight(i)).r1, a.r1),
        near_vectors(information(a, a, weight(i)).r2, a.r2),
{
    lemma_entry(a.r0.x, i);
    lemma_entry(a.r0.y, i);
    lemma_entry(a.r0.z, i);
    lemma_entry(a.r1.x, i);
    lemma_entry(a.r1.y, i);
    lemma_entry(a.r1.z, i);
    lemma_entry(a.r2.x, i);
    lemma_entry(a.r2.y, i);
    lemma_entry(a.r2.z, i);
}

} // verus!
