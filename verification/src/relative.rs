//! Positive numbers that are the same but for a few roundings.
use crate::error::{
    eps, lemma_negated_value, lemma_no_value, lemma_product_error, lemma_quotient_error,
    lemma_sum_error, lemma_tiny, lemma_tiny_fourth, size, tiny, value, within,
};
use crate::number::{is_nought, product, quotient, sum, unit, Number};
use crate::order::lemma_zero_quotient;
use vstd::arithmetic::power2::lemma_pow2_pos;
use vstd::prelude::*;

verus! {

/// As much as one rounding can change, and a little more.
pub open spec fn grain() -> real {
    2 as real * eps()
}

/// Whether `x` and `v` are positive and differ by no more than `k` roundings.
pub open spec fn near(x: real, v: real, k: nat) -> bool {
    &&& x > 0 as real
    &&& v > 0 as real
    &&& x <= v * (1 as real + (k as real) * grain())
    &&& v <= x * (1 as real + (k as real) * grain())
}

/// Whether `x` is between `1 / b` and `b`.
pub open spec fn fair(x: real, b: real) -> bool {
    x <= b && x * b >= 1 as real && x > 0 as real
}

/// 2^63.
pub open spec fn widest() -> real {
    0x8000_0000_0000_0000 as real
}

proof fn lemma_growth(j: nat, k: nat)
    requires
        j <= 256,
        k <= 256,
    ensures
        ({
            let (s, t) = (1 as real + (j as real) * grain(), 1 as real + (k as real) * grain());
            s * t <= 1 as real + ((j + k + 1) as real) * grain() && s >= 1 as real && t >= 1 as real
        }),
{
    let (g, x, y) = (grain(), j as real, k as real);
    let (a, b) = (x * g, y * g);
    assert(a >= 0 as real && b >= 0 as real && a <= 256 as real * g && b <= 256 as real * g)
        by (nonlinear_arith)
        requires
            a == x * g,
            b == y * g,
            x >= 0 as real,
            y >= 0 as real,
            x <= 256 as real,
            y <= 256 as real,
            g > 0 as real,
    ;
    assert(a * b <= g) by (nonlinear_arith)
        requires
            a >= 0 as real,
            b >= 0 as real,
            a <= 256 as real * g,
            b <= 256 as real * g,
            g == (1 as real) / (0x80_0000 as real),
    ;
    assert((1 as real + a) * (1 as real + b) == 1 as real + a + b + a * b) by (nonlinear_arith);
    assert((x + y + 1 as real) * g == a + b + g) by (nonlinear_arith)
        requires
            a == x * g,
            b == y * g,
    ;
}

proof fn lemma_two_factors(x: real, y: real, z: real, s: real, t: real, u: real)
    requires
        x <= y * s,
        y <= z * t,
        s * t <= u,
        s > 0 as real,
        z > 0 as real,
    ensures
        x <= z * u,
{
    assert(y * s <= (z * t) * s) by (nonlinear_arith)
        requires
            y <= z * t,
            s > 0 as real,
    ;
    let st = s * t;
    assert((z * t) * s == z * st) by (nonlinear_arith)
        requires
            st == s * t,
    ;
    assert(z * st <= z * u) by (nonlinear_arith)
        requires
            st <= u,
            z > 0 as real,
    ;
}

pub proof fn lemma_near_chain(x: real, y: real, z: real, j: nat, k: nat)
    requires
        near(x, y, j),
        near(y, z, k),
        j <= 256,
        k <= 256,
    ensures
        near(x, z, j + k + 1),
{
    lemma_growth(j, k);
    let (s, t) = (1 as real + (j as real) * grain(), 1 as real + (k as real) * grain());
    let u = 1 as real + ((j + k + 1) as real) * grain();
    lemma_two_factors(x, y, z, s, t, u);
    assert(t * s == s * t) by (nonlinear_arith);
    lemma_two_factors(z, y, x, t, s, u);
}

pub proof fn lemma_near_scaled(x: real, v: real, c: real, k: nat)
    requires
        near(x, v, k),
        c > 0 as real,
    ensures
        near(c * x, c * v, k),
        near(x * c, v * c, k),
{
    let s = 1 as real + (k as real) * grain();
    lemma_scaled_bound(x, v, c, s);
    lemma_scaled_bound(v, x, c, s);
    assert(c * x == x * c && c * v == v * c) by (nonlinear_arith);
    assert(c * x > 0 as real && c * v > 0 as real) by (nonlinear_arith)
        requires
            c > 0 as real,
            x > 0 as real,
            v > 0 as real,
    ;
}

proof fn lemma_scaled_bound(x: real, v: real, c: real, s: real)
    requires
        x <= v * s,
        c > 0 as real,
    ensures
        c * x <= (c * v) * s,
{
    let vs = v * s;
    assert(c * x <= c * vs) by (nonlinear_arith)
        requires
            x <= vs,
            c > 0 as real,
    ;
    assert(c * (v * s) == (c * v) * s) by (nonlinear_arith);
}

pub proof fn lemma_near_product(x: real, v: real, y: real, w: real, j: nat, k: nat)
    requires
        near(x, v, j),
        near(y, w, k),
        j <= 256,
        k <= 256,
    ensures
        near(x * y, v * w, j + k + 1),
{
    lemma_near_scaled(x, v, y, j);
    lemma_near_scaled(y, w, v, k);
    lemma_near_chain(x * y, v * y, v * w, j, k);
}

pub proof fn lemma_near_swapped(x: real, v: real, k: nat)
    requires
        near(x, v, k),
    ensures
        near(v, x, k),
{
}

pub proof fn lemma_inverse_of(v: real) -> (i: real)
    requires
        v > 0 as real,
    ensures
        i * v == 1 as real,
        i > 0 as real,
{
    let i = 1 as real / v;
    assert(i * v == 1 as real && i > 0 as real) by (nonlinear_arith)
        requires
            i == 1 as real / v,
            v > 0 as real,
    ;
    i
}

/// `p` and `q` are the reciprocals of `x` and `v`.
pub proof fn lemma_near_reciprocal(x: real, v: real, p: real, q: real, k: nat)
    requires
        near(x, v, k),
        p * x == 1 as real,
        q * v == 1 as real,
    ensures
        near(p, q, k),
{
    lemma_positive_reciprocal(x, p);
    lemma_positive_reciprocal(v, q);
    let s = 1 as real + (k as real) * grain();
    lemma_reciprocal_bound(x, v, p, q, s);
    lemma_reciprocal_bound(v, x, q, p, s);
}

pub proof fn lemma_positive_reciprocal(x: real, p: real)
    requires
        x > 0 as real,
        p * x == 1 as real,
    ensures
        p > 0 as real,
{
    assert(p > 0 as real) by (nonlinear_arith)
        requires
            x > 0 as real,
            p * x == 1 as real,
    ;
}

proof fn lemma_reciprocal_bound(x: real, v: real, p: real, q: real, s: real)
    requires
        v <= x * s,
        p * x == 1 as real,
        q * v == 1 as real,
        p > 0 as real,
        q > 0 as real,
    ensures
        p <= q * s,
{
    let pq = p * q;
    assert(pq > 0 as real) by (nonlinear_arith)
        requires
            pq == p * q,
            p > 0 as real,
            q > 0 as real,
    ;
    let xs = x * s;
    assert(pq * v <= pq * xs) by (nonlinear_arith)
        requires
            v <= xs,
            pq > 0 as real,
    ;
    assert((p * q) * v == p * (q * v)) by (nonlinear_arith);
    assert((p * q) * (x * s) == ((p * x) * q) * s) by (nonlinear_arith);
    let one = 1 as real;
    assert(p * one == p && one * q == q) by (nonlinear_arith)
        requires
            one == 1 as real,
    ;
}

pub proof fn lemma_fair_product(x: real, y: real, b: real, c: real)
    requires
        fair(x, b),
        fair(y, c),
    ensures
        fair(x * y, b * c),
        x * y > 0 as real,
{
    assert(x * y <= b * c && x * y > 0 as real) by (nonlinear_arith)
        requires
            x <= b,
            y <= c,
            x > 0 as real,
            y > 0 as real,
    ;
    let (xb, yc) = (x * b, y * c);
    assert(xb * yc >= 1 as real) by (nonlinear_arith)
        requires
            xb >= 1 as real,
            yc >= 1 as real,
    ;
    assert((x * b) * (y * c) == (x * y) * (b * c)) by (nonlinear_arith);
}

pub proof fn lemma_fair_wider(x: real, b: real, c: real)
    requires
        fair(x, b),
        b <= c,
    ensures
        fair(x, c),
{
    assert(x * b <= x * c) by (nonlinear_arith)
        requires
            b <= c,
            x > 0 as real,
    ;
}

pub proof fn lemma_fair_reciprocal(x: real, p: real, b: real)
    requires
        fair(x, b),
        p * x == 1 as real,
    ensures
        fair(p, b),
{
    lemma_positive_reciprocal(x, p);
    assert(b > 0 as real) by (nonlinear_arith)
        requires
            x * b >= 1 as real,
            x > 0 as real,
    ;
    assert(p <= b) by (nonlinear_arith)
        requires
            p * x == 1 as real,
            x * b >= 1 as real,
            p > 0 as real,
    ;
    assert(p * b >= p * x) by (nonlinear_arith)
        requires
            b >= x,
            p > 0 as real,
    ;
}

pub proof fn lemma_near_fair(x: real, v: real, b: real, k: nat)
    requires
        near(x, v, k),
        fair(v, b),
        k <= 256,
    ensures
        fair(x, 2 as real * b),
{
    let (kr, g) = (k as real, grain());
    let s = 1 as real + kr * g;
    assert(s <= 2 as real && s >= 1 as real) by (nonlinear_arith)
        requires
            s == 1 as real + kr * g,
            kr >= 0 as real,
            kr <= 256 as real,
            g == (1 as real) / (0x80_0000 as real),
    ;
    assert(v * s <= 2 as real * v) by (nonlinear_arith)
        requires
            s <= 2 as real,
            v > 0 as real,
    ;
    assert(x * s <= 2 as real * x) by (nonlinear_arith)
        requires
            s <= 2 as real,
            x > 0 as real,
    ;
    assert(x * (2 as real * b) >= 1 as real) by (nonlinear_arith)
        requires
            2 as real * x >= v,
            v * b >= 1 as real,
            v > 0 as real,
    ;
}

pub proof fn lemma_rounded_near(got: real, exact: real)
    requires
        within(got, exact, size(exact) * eps() + tiny()),
        fair(exact, widest()),
    ensures
        near(got, exact, 1),
{
    lemma_tiny();
    lemma_tiny_fourth();
    let (e, o) = (eps(), tiny());
    let ve = exact * e;
    assert(o <= ve / (4 as real) && ve > 0 as real) by (nonlinear_arith)
        requires
            exact * widest() >= 1 as real,
            exact > 0 as real,
            ve == exact * e,
            widest() == 0x8000_0000_0000_0000 as real,
            o <= e * e * e * e,
            e == (1 as real) / (0x100_0000 as real),
    ;
    let one = 1 as real;
    let s = one + one * grain();
    assert(exact * s == exact + 2 as real * ve) by (nonlinear_arith)
        requires
            s == 1 as real + 2 as real * e,
            ve == exact * e,
    ;
    assert(ve <= exact / (8 as real)) by (nonlinear_arith)
        requires
            ve == exact * e,
            exact > 0 as real,
            e == (1 as real) / (0x100_0000 as real),
    ;
    assert(got * s == got + 2 as real * (got * e)) by (nonlinear_arith)
        requires
            s == 1 as real + 2 as real * e,
    ;
    assert(got * e >= (3 as real * ve) / (4 as real)) by (nonlinear_arith)
        requires
            got >= (3 as real * exact) / (4 as real),
            ve == exact * e,
            e > 0 as real,
    ;
}

pub proof fn lemma_not_nought(a: Number)
    requires
        a is Finite,
        value(a) > 0 as real,
    ensures
        a->mag > 0,
        !is_nought(a),
{
    if a->mag == 0 {
        lemma_no_value(a);
    }
}

pub proof fn lemma_times(x: Number, y: Number)
    requires
        x is Finite,
        y is Finite,
        fair(value(x) * value(y), widest()),
    ensures
        (x * y) is Finite,
        near(value(x * y), value(x) * value(y), 1),
{
    lemma_product_error(x, y);
    lemma_rounded_near(value(x * y), value(x) * value(y));
}

pub proof fn lemma_over(x: Number, y: Number, exact: real)
    requires
        x is Finite,
        y is Finite,
        value(y) > 0 as real,
        exact * value(y) == value(x),
        fair(exact, widest()),
    ensures
        (x / y) is Finite,
        near(value(x / y), exact, 1),
{
    lemma_not_nought(y);
    lemma_quotient_error(x, y, exact);
    lemma_rounded_near(value(x / y), exact);
}

/// Adding nothing, or taking nothing away, is at most a rounding.
pub proof fn lemma_and_nothing(x: Number, z: Number)
    requires
        x is Finite,
        is_nought(z),
        fair(value(x), widest()),
    ensures
        (x + z) is Finite,
        near(value(x + z), value(x), 1),
        (z + x) is Finite,
        near(value(z + x), value(x), 1),
        (x - z) is Finite,
        near(value(x - z), value(x), 1),
{
    lemma_no_value(z);
    lemma_negated_value(z);
    lemma_sum_error(x, z);
    lemma_sum_error(z, x);
    lemma_sum_error(x, -z);
    lemma_rounded_near(value(x + z), value(x));
    lemma_rounded_near(value(z + x), value(x));
    lemma_rounded_near(value(x - z), value(x));
}

/// Nothing times something is nothing.
pub proof fn lemma_nothing_times(z: Number, x: Number)
    requires
        is_nought(z),
        x is Finite,
    ensures
        is_nought(z * x),
        is_nought(x * z),
{
    reveal(product);
    lemma_pow2_pos(149);
    lemma_pow2_pos(277);
    lemma_zero_quotient(unit());
    let m = x->mag;
    assert(0 * m == 0 && m * 0 == 0);
}

pub proof fn lemma_nothing_and_nothing(z: Number, y: Number)
    requires
        is_nought(z),
        is_nought(y),
    ensures
        is_nought(z + y),
        is_nought(z - y),
        is_nought(-z),
{
    reveal(sum);
}

pub proof fn lemma_nothing_over(z: Number, x: Number)
    requires
        is_nought(z),
        x is Finite,
        x->mag > 0,
    ensures
        is_nought(z / x),
{
    reveal(quotient);
    lemma_pow2_pos(277);
    lemma_zero_quotient(x->mag);
    let u = unit();
    assert(0 * u == 0);
}

} // verus!
