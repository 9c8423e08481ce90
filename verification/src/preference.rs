//! Which of two estimates an intersection prefers when one of them is the worse
//! in every direction: the argument in real numbers.
use crate::forms::{lemma_form_plus, lemma_form_shift, lemma_times_sum, Grid, Triple};
use vstd::prelude::*;

verus! {

pub open spec fn determinant(g: Grid) -> real {
    g.r0.x * (g.r1.y * g.r2.z - g.r1.z * g.r2.y) - g.r0.y * (g.r1.x * g.r2.z - g.r1.z * g.r2.x)
        + g.r0.z * (g.r1.x * g.r2.y - g.r1.y * g.r2.x)
}

pub open spec fn is_symmetric(g: Grid) -> bool {
    g == g.transposed()
}

pub open spec fn is_origin(e: Triple) -> bool {
    e.x == 0 as real && e.y == 0 as real && e.z == 0 as real
}

/// There is some information about every direction.
pub open spec fn is_positive(g: Grid) -> bool {
    &&& is_symmetric(g)
    &&& forall|e: Triple| !is_origin(e) ==> #[trigger] g.form(e, e) > 0 as real
}

/// `a` knows more than `b` about every direction.
pub open spec fn knows_more(a: Grid, b: Grid) -> bool {
    forall|e: Triple| !is_origin(e) ==> #[trigger] b.form(e, e) < a.form(e, e)
}

/// The share `v` of `b`, and the rest of `a`.
pub open spec fn shared(a: Grid, b: Grid, v: real) -> Grid {
    a.plus(v, b.plus(-(1 as real), a))
}

/// Where one estimate knows more about every direction than another, each share
/// that the other gets makes the determinant of the information smaller, and so
/// the determinant of the covariance larger, whichever of the two comes first.
/// Without rounding, the search for the smallest covariance then gives all the
/// weight to the estimate that knows more, and `law_all_weight_is_the_first` of
/// the intersection says what comes out.
pub proof fn law_worse_estimate_gets_no_weight(a: Grid, b: Grid, v: real)
    requires
        is_positive(a),
        is_positive(b),
        knows_more(a, b),
        v >= 0 as real,
        v <= 1 as real,
    ensures
        determinant(a) > 0 as real,
        determinant(shared(a, b, v)) > 0 as real,
        v > 0 as real ==> determinant(shared(a, b, v)) < determinant(a),
        v == 0 as real ==> shared(a, b, v) == a,
{
    lemma_signs(a);
    if v == 0 as real {
        lemma_none_shared(a.r0, b.r0);
        lemma_none_shared(a.r1, b.r1);
        lemma_none_shared(a.r2, b.r2);
        assert(shared(a, b, v) =~= a);
    } else {
        lemma_share_costs(a, b, v);
    }
}

proof fn lemma_none_shared(a: Triple, b: Triple)
    ensures
        a.plus(0 as real, b.plus(-(1 as real), a)) == a,
{
    let d = b.plus(-(1 as real), a);
    assert(0 as real * d.x == 0 as real) by (nonlinear_arith);
    assert(0 as real * d.y == 0 as real) by (nonlinear_arith);
    assert(0 as real * d.z == 0 as real) by (nonlinear_arith);
    assert(a.plus(0 as real, d) =~= a);
}

proof fn lemma_share_costs(a: Grid, b: Grid, v: real)
    requires
        is_positive(a),
        is_positive(b),
        knows_more(a, b),
        v > 0 as real,
        v <= 1 as real,
    ensures
        determinant(shared(a, b, v)) > 0 as real,
        determinant(shared(a, b, v)) < determinant(a),
{
    let m = shared(a, b, v);
    assert forall|e: Triple| !is_origin(e) implies #[trigger] m.form(e, e) > 0 as real && m.form(
        e,
        e,
    ) < a.form(e, e) by {
        let d = b.plus(-(1 as real), a);
        lemma_form_plus(b, -(1 as real), a, e, e);
        lemma_form_plus(a, v, d, e, e);
        let (p, q) = (a.form(e, e), b.form(e, e));
        assert(-(1 as real) * p == -p) by (nonlinear_arith);
        lemma_between(p, q, v);
        assert(q > 0 as real);
    }
    assert(is_symmetric(m));
    lemma_smaller_determinant(a, m);
}

proof fn lemma_between(p: real, q: real, v: real)
    requires
        q < p,
        v > 0 as real,
        v <= 1 as real,
    ensures
        p + v * (q - p) < p,
        p + v * (q - p) >= q,
{
    let d = p - q;
    assert(v * d > 0 as real) by (nonlinear_arith)
        requires
            v > 0 as real,
            d > 0 as real,
    ;
    assert(v * d <= d) by (nonlinear_arith)
        requires
            v <= 1 as real,
            d > 0 as real,
    ;
    assert(v * (q - p) == -(v * d)) by (nonlinear_arith)
        requires
            d == p - q,
    ;
}

/// The two leading rows and columns alone.
pub open spec fn minor(g: Grid) -> real {
    g.r0.x * g.r1.y - g.r0.y * g.r0.y
}

/// A vector that the matrix takes to the second axis, as far as the first two
/// coordinates go.
pub open spec fn second(g: Grid) -> Triple {
    Triple { x: -g.r0.y, y: g.r0.x, z: 0 as real }
}

/// A vector that the matrix takes to the third axis.
pub open spec fn third(g: Grid) -> Triple {
    Triple {
        x: g.r0.y * g.r1.z - g.r0.z * g.r1.y,
        y: g.r0.y * g.r0.z - g.r0.x * g.r1.z,
        z: minor(g),
    }
}

pub proof fn lemma_second(g: Grid, e: Triple)
    requires
        is_symmetric(g),
        e.z == 0 as real,
    ensures
        g.form(e, second(g)) == e.y * minor(g),
        second(g).z == 0 as real,
{
    let s = second(g);
    assert(g.r1.x == g.r0.y);
    assert(g.r0.dot(s) == 0 as real) by {
        assert(g.r0.x * (-g.r0.y) == -(g.r0.x * g.r0.y)) by (nonlinear_arith);
        assert(g.r0.y * g.r0.x == g.r0.x * g.r0.y) by (nonlinear_arith);
        assert(g.r0.z * s.z == 0 as real) by (nonlinear_arith)
            requires
                s.z == 0 as real,
        ;
    }
    assert(g.r1.dot(s) == minor(g)) by {
        assert(g.r1.x * (-g.r0.y) == -(g.r0.y * g.r0.y)) by (nonlinear_arith)
            requires
                g.r1.x == g.r0.y,
        ;
        assert(g.r1.y * g.r0.x == g.r0.x * g.r1.y) by (nonlinear_arith);
        assert(g.r1.z * s.z == 0 as real) by (nonlinear_arith)
            requires
                s.z == 0 as real,
        ;
    }
    lemma_nothing(e.x, g.r0.dot(s));
    let r = g.r2.dot(s);
    lemma_nothing(r, e.z);
    assert(e.z * r == r * e.z) by (nonlinear_arith);
}

pub proof fn lemma_nothing(k: real, x: real)
    requires
        x == 0 as real,
    ensures
        k * x == 0 as real,
{
    assert(k * x == 0 as real) by (nonlinear_arith)
        requires
            x == 0 as real,
    ;
}

pub proof fn lemma_spread(k: real, p: real, q: real, r: real, s: real)
    ensures
        k * (p * q - r * s) == k * (p * q) - k * (r * s),
        (p * q - r * s) * k == k * (p * q) - k * (r * s),
{
    let (m, n) = (p * q, r * s);
    assert(k * (m - n) == k * m - k * n) by (nonlinear_arith);
    assert((m - n) * k == k * m - k * n) by (nonlinear_arith);
}

/// The order of three factors does not matter.
pub proof fn lemma_factors(p: real, q: real, r: real)
    ensures
        p * (q * r) == q * (p * r),
        p * (q * r) == r * (p * q),
        p * (q * r) == p * (r * q),
        p * (q * r) == q * (r * p),
        p * (q * r) == r * (q * p),
{
    assert(p * (q * r) == q * (p * r)) by (nonlinear_arith);
    assert(p * (q * r) == r * (p * q)) by (nonlinear_arith);
    assert(p * (q * r) == p * (r * q)) by (nonlinear_arith);
    assert(p * (q * r) == q * (r * p)) by (nonlinear_arith);
    assert(p * (q * r) == r * (q * p)) by (nonlinear_arith);
}

pub proof fn lemma_third(g: Grid, e: Triple)
    requires
        is_symmetric(g),
    ensures
        g.form(e, third(g)) == e.z * determinant(g),
{
    let t = third(g);
    let (a, b, c) = (g.r0.x, g.r0.y, g.r0.z);
    let (d, f, h) = (g.r1.y, g.r1.z, g.r2.z);
    assert(g.r1.x == b && g.r2.x == c && g.r2.y == f);
    lemma_third_row(a, b, c, d, f, h);
    assert(g.r0.dot(t) == 0 as real);
    assert(g.r1.dot(t) == 0 as real);
    assert(g.r2.dot(t) == determinant(g));
    lemma_nothing(e.x, g.r0.dot(t));
    lemma_nothing(e.y, g.r1.dot(t));
}

pub proof fn lemma_third_row(a: real, b: real, c: real, d: real, f: real, h: real)
    ensures
        a * (b * f - c * d) + b * (b * c - a * f) + c * (a * d - b * b) == 0 as real,
        b * (b * f - c * d) + d * (b * c - a * f) + f * (a * d - b * b) == 0 as real,
        c * (b * f - c * d) + f * (b * c - a * f) + h * (a * d - b * b) == a * (d * h - f * f) - b
            * (b * h - f * c) + c * (b * f - d * c),
{
    lemma_spread(a, b, f, c, d);
    lemma_spread(b, b, c, a, f);
    lemma_spread(c, a, d, b, b);
    lemma_factors(a, b, f);
    lemma_factors(a, c, d);
    lemma_factors(b, b, c);
    lemma_spread(b, b, f, c, d);
    lemma_spread(d, b, c, a, f);
    lemma_spread(f, a, d, b, b);
    lemma_factors(b, b, f);
    lemma_factors(b, c, d);
    lemma_factors(d, a, f);
    lemma_spread(c, b, f, c, d);
    lemma_spread(f, b, c, a, f);
    lemma_spread(h, a, d, b, b);
    lemma_spread(a, d, h, f, f);
    lemma_spread(b, b, h, f, c);
    lemma_spread(c, b, f, d, c);
    lemma_factors(a, d, h);
    lemma_factors(a, f, f);
    lemma_factors(b, b, h);
    lemma_factors(b, f, c);
    lemma_factors(c, d, c);
    lemma_factors(c, c, d);
}

/// The square of a mixed form is at most the product of the two forms, and here
/// the second vector is one that the matrix takes to an axis.
proof fn lemma_cauchy(g: Grid, e: Triple, s: Triple, k: real, d: real, n: real)
    requires
        is_symmetric(g),
        g.form(e, s) == k * d,
        g.form(s, s) == n * d,
        g.form(e.plus(-(k / n), s), e.plus(-(k / n), s)) >= 0 as real,
        n > 0 as real,
        d > 0 as real,
    ensures
        (k * k) * d <= g.form(e, e) * n,
{
    let r = k / n;
    let u = e.plus(-r, s);
    lemma_swap(g, e, s);
    lemma_form_shift(g, u, e, -r, s);
    lemma_form_shift(g, e, e, -r, s);
    lemma_form_shift(g, s, e, -r, s);
    lemma_rest(g.form(e, e), k, d, n);
}

pub proof fn lemma_swap(g: Grid, e: Triple, s: Triple)
    requires
        is_symmetric(g),
    ensures
        g.form(e, s) == g.form(s, e),
{
    let (a, b, c) = (g.r0.x, g.r0.y, g.r0.z);
    let (d, f, h) = (g.r1.y, g.r1.z, g.r2.z);
    assert(g.r1.x == b && g.r2.x == c && g.r2.y == f);
    lemma_times_sum(e.x, a * s.x, b * s.y, c * s.z);
    lemma_times_sum(e.y, b * s.x, d * s.y, f * s.z);
    lemma_times_sum(e.z, c * s.x, f * s.y, h * s.z);
    lemma_times_sum(s.x, a * e.x, b * e.y, c * e.z);
    lemma_times_sum(s.y, b * e.x, d * e.y, f * e.z);
    lemma_times_sum(s.z, c * e.x, f * e.y, h * e.z);
    lemma_factors(e.x, a, s.x);
    lemma_factors(e.x, b, s.y);
    lemma_factors(e.x, c, s.z);
    lemma_factors(e.y, b, s.x);
    lemma_factors(e.y, d, s.y);
    lemma_factors(e.y, f, s.z);
    lemma_factors(e.z, c, s.x);
    lemma_factors(e.z, f, s.y);
    lemma_factors(e.z, h, s.z);
    lemma_factors(s.x, a, e.x);
    lemma_factors(s.y, b, e.x);
    lemma_factors(s.z, c, e.x);
    lemma_factors(s.x, b, e.y);
    lemma_factors(s.y, d, e.y);
    lemma_factors(s.z, f, e.y);
    lemma_factors(s.x, c, e.z);
    lemma_factors(s.y, f, e.z);
    lemma_factors(s.z, h, e.z);
}

proof fn lemma_rest(x: real, k: real, d: real, n: real)
    requires
        n > 0 as real,
        x + (-(k / n)) * (k * d) + (-(k / n)) * (k * d + (-(k / n)) * (n * d)) >= 0 as real,
    ensures
        (k * k) * d <= x * n,
{
    let r = k / n;
    assert(r * n == k) by (nonlinear_arith)
        requires
            n > 0 as real,
            r == k / n,
    ;
    let p = r * (k * d);
    assert((-r) * (n * d) == -(k * d)) by {
        assert((-r) * (n * d) == -((r * n) * d)) by (nonlinear_arith);
    }
    let z = k * d + (-r) * (n * d);
    lemma_nothing(-r, z);
    assert((-r) * (k * d) == -p) by (nonlinear_arith)
        requires
            p == r * (k * d),
    ;
    assert(x - p >= 0 as real);
    assert(p * n == (k * k) * d) by {
        assert((r * (k * d)) * n == ((r * n) * k) * d) by (nonlinear_arith);
    }
    assert(p * n <= x * n) by (nonlinear_arith)
        requires
            p <= x,
            n > 0 as real,
    ;
}

proof fn lemma_smaller_determinant(a: Grid, m: Grid)
    requires
        is_positive(a),
        is_positive(m),
        knows_more(a, m),
    ensures
        determinant(a) > 0 as real,
        determinant(m) > 0 as real,
        determinant(m) < determinant(a),
{
    lemma_signs(a);
    lemma_signs(m);
    let (sa, sm) = (second(a), second(m));
    let (ta, tm) = (third(a), third(m));
    lemma_second(a, sa);
    lemma_second(m, sm);
    lemma_second(m, sa);
    lemma_not_negative(m, sa.plus(-(sa.y / m.r0.x), sm));
    lemma_cauchy(m, sa, sm, sa.y, minor(m), m.r0.x);
    assert(m.form(sa, sa) < a.form(sa, sa));
    lemma_third(a, ta);
    lemma_third(m, tm);
    lemma_third(m, ta);
    lemma_not_negative(m, ta.plus(-(ta.z / minor(m)), tm));
    lemma_cauchy(m, ta, tm, ta.z, determinant(m), minor(m));
    assert(m.form(ta, ta) < a.form(ta, ta));
    let e = Triple { x: 1 as real, y: 0 as real, z: 0 as real };
    lemma_first(a);
    lemma_first(m);
    assert(m.form(e, e) < a.form(e, e));
    lemma_chain(a.r0.x, m.r0.x, minor(a), minor(m), m.form(sa, sa));
    lemma_chain(minor(a), minor(m), determinant(a), determinant(m), m.form(ta, ta));
}

pub proof fn lemma_not_negative(g: Grid, e: Triple)
    requires
        is_positive(g),
    ensures
        g.form(e, e) >= 0 as real,
{
    if is_origin(e) {
        assert(g.form(e, e) == 0 as real) by (nonlinear_arith)
            requires
                e.x == 0 as real,
                e.y == 0 as real,
                e.z == 0 as real,
                g.form(e, e) == e.x * g.r0.dot(e) + e.y * g.r1.dot(e) + e.z * g.r2.dot(e),
        ;
    }
}

pub proof fn lemma_first(g: Grid)
    ensures
        ({
            let e = Triple { x: 1 as real, y: 0 as real, z: 0 as real };
            g.form(e, e) == g.r0.x
        }),
{
    let e = Triple { x: 1 as real, y: 0 as real, z: 0 as real };
    lemma_nothing(g.r0.y, e.y);
    lemma_nothing(g.r0.z, e.z);
    assert(g.r0.x * e.x == g.r0.x) by (nonlinear_arith)
        requires
            e.x == 1 as real,
    ;
    let (p, q, r) = (g.r0.dot(e), g.r1.dot(e), g.r2.dot(e));
    assert(e.x * p + e.y * q + e.z * r == p) by (nonlinear_arith)
        requires
            e.x == 1 as real,
            e.y == 0 as real,
            e.z == 0 as real,
    ;
}

pub proof fn lemma_signs(g: Grid)
    requires
        is_positive(g),
    ensures
        g.r0.x > 0 as real,
        minor(g) > 0 as real,
        determinant(g) > 0 as real,
{
    let e = Triple { x: 1 as real, y: 0 as real, z: 0 as real };
    lemma_first(g);
    assert(!is_origin(e));
    assert(g.form(e, e) > 0 as real);
    let (s, t) = (second(g), third(g));
    lemma_second(g, s);
    assert(!is_origin(s));
    assert(g.form(s, s) > 0 as real);
    lemma_other_factor(g.r0.x, minor(g));
    lemma_third(g, t);
    assert(!is_origin(t));
    assert(g.form(t, t) > 0 as real);
    lemma_other_factor(minor(g), determinant(g));
}

proof fn lemma_other_factor(p: real, q: real)
    requires
        p > 0 as real,
        p * q > 0 as real,
    ensures
        q > 0 as real,
{
    assert(q > 0 as real) by (nonlinear_arith)
        requires
            p > 0 as real,
            p * q > 0 as real,
    ;
}

/// One more pivot: `p` and `q` are what came before, `x` and `y` what comes next.
proof fn lemma_chain(p: real, q: real, x: real, y: real, f: real)
    requires
        p > 0 as real,
        q > 0 as real,
        q < p,
        x > 0 as real,
        (p * p) * y <= f * q,
        f < p * x,
    ensures
        y < x,
{
    let w = p * x;
    assert(f * q < w * q) by (nonlinear_arith)
        requires
            f < w,
            q > 0 as real,
    ;
    assert(w > 0 as real) by (nonlinear_arith)
        requires
            p > 0 as real,
            x > 0 as real,
            w == p * x,
    ;
    assert(w * q < w * p) by (nonlinear_arith)
        requires
            q < p,
            w > 0 as real,
    ;
    let s = p * p;
    assert(w * p == s * x) by {
        assert((p * x) * p == (p * p) * x) by (nonlinear_arith);
    }
    assert(s > 0 as real) by (nonlinear_arith)
        requires
            p > 0 as real,
            s == p * p,
    ;
    assert(y < x) by (nonlinear_arith)
        requires
            s * y < s * x,
            s > 0 as real,
    ;
}

} // verus!
