//! Lengths and inner products in real numbers, and how near the rounded ones are.
use crate::error::{
    eps, lemma_product_error, lemma_square_sign, lemma_sum_error, lemma_tiny, size, tiny, value,
    within,
};
use crate::number::{limit, product, sum, unit, Number};
use crate::vector::V3;
use vstd::arithmetic::power2::lemma_pow2_pos;
use vstd::prelude::*;

verus! {

/// Whether all components are finite.
pub open spec fn finite(v: V3) -> bool {
    v.x is Finite && v.y is Finite && v.z is Finite
}

/// The inner product of two vectors, in real numbers.
pub open spec fn inner(a: V3, b: V3) -> real {
    value(a.x) * value(b.x) + value(a.y) * value(b.y) + value(a.z) * value(b.z)
}

/// What a sum or a product is where it is finite.
pub proof fn lemma_small(a: Number, b: Number)
    requires
        a is Finite,
        b is Finite,
    ensures
        (a + b) is Finite ==> (a + b)->mag < limit(),
        (a * b) is Finite ==> (a * b)->mag < limit(),
        (a + b) !is Nan,
        (a * b) !is Nan,
{
    reveal(sum);
    reveal(product);
    lemma_pow2_pos(277);
}

/// The squared length of a vector, where it is finite.
pub proof fn lemma_square_error(v: V3)
    requires
        finite(v),
        v.length_squared() is Finite,
    ensures
        within(
            value(v.length_squared()),
            inner(v, v),
            inner(v, v) * (4 as real * eps()) + 8 as real * tiny(),
        ),
        inner(v, v) >= 0 as real,
        v.length_squared()->mag < limit(),
{
    lemma_tiny();
    let (xx, yy, zz) = (v.x * v.x, v.y * v.y, v.z * v.z);
    let xy = xx + yy;
    assert(xx is Finite && yy is Finite && zz is Finite && xy is Finite) by {
        reveal(sum);
    }
    lemma_product_error(v.x, v.x);
    lemma_product_error(v.y, v.y);
    lemma_product_error(v.z, v.z);
    lemma_sum_error(xx, yy);
    lemma_sum_error(xy, zz);
    lemma_small(xy, zz);
    let (a, b, c) = (
        value(v.x) * value(v.x),
        value(v.y) * value(v.y),
        value(v.z) * value(v.z),
    );
    assert(a >= 0 as real && b >= 0 as real && c >= 0 as real) by (nonlinear_arith)
        requires
            a == value(v.x) * value(v.x),
            b == value(v.y) * value(v.y),
            c == value(v.z) * value(v.z),
    ;
    let (p, q, r, s, t) = (value(xx), value(yy), value(zz), value(xy), value(xy + zz));
    let (e, o) = (eps(), tiny());
    assert(size(t - (a + b + c)) <= (a + b + c) * (4 as real * e) + 8 as real * o)
        by (nonlinear_arith)
        requires
            a >= 0 as real,
            b >= 0 as real,
            c >= 0 as real,
            size(p - a) <= a * e + o,
            size(q - b) <= b * e + o,
            size(r - c) <= c * e + o,
            size(s - (p + q)) <= size(p + q) * e + o,
            size(t - (s + r)) <= size(s + r) * e + o,
            e == (1 as real) / (0x100_0000 as real),
            o > 0 as real,
    ;
}

pub proof fn lemma_length_is_some(u: V3)
    requires
        finite(u),
    ensures
        u.length_squared() !is Nan,
        u.length_squared() is Infinite ==> !u.length_squared()->Infinite_neg,
{
    reveal(sum);
    reveal(product);
}

/// The error of one operation whose exact result is at most `most`.
pub proof fn lemma_step(got: real, exact: real, most: real)
    requires
        size(got - exact) <= size(exact) * eps() + tiny(),
        size(exact) <= most,
        most >= 1 as real,
        most <= 1000 as real,
    ensures
        size(got - exact) <= most * (2 as real * eps()),
        size(got) <= most + 1 as real,
{
    lemma_tiny();
    let (e, o, x) = (eps(), tiny(), size(exact));
    assert(x * e + o <= most * (2 as real * e) && most * (2 as real * e) <= 1 as real)
        by (nonlinear_arith)
        requires
            x <= most,
            most >= 1 as real,
            most <= 1000 as real,
            o <= e * e,
            e == (1 as real) / (0x100_0000 as real),
    ;
}

pub proof fn lemma_product_size(a: real, b: real, p: real, q: real)
    requires
        size(a) <= p,
        size(b) <= q,
    ensures
        size(a * b) <= p * q,
{
    assert(size(a * b) <= p * q) by (nonlinear_arith)
        requires
            size(a) <= p,
            size(b) <= q,
    ;
}

pub proof fn lemma_root_size(x: real, most: real)
    requires
        x * x <= most * most,
        most > 0 as real,
    ensures
        size(x) <= most,
{
    assert(size(x) <= most) by (nonlinear_arith)
        requires
            x * x <= most * most,
            most > 0 as real,
    ;
}

/// Components are bounded by the length.
pub proof fn lemma_components(v: V3, most: real)
    requires
        inner(v, v) <= most * most,
        most > 0 as real,
    ensures
        size(value(v.x)) <= most,
        size(value(v.y)) <= most,
        size(value(v.z)) <= most,
{
    let (x, y, z) = (value(v.x), value(v.y), value(v.z));
    lemma_square_sign(x);
    lemma_square_sign(y);
    lemma_square_sign(z);
    lemma_root_size(x, most);
    lemma_root_size(y, most);
    lemma_root_size(z, most);
}

/// The inner product of two finite vectors of bounded components.
pub proof fn lemma_dot_error(a: V3, b: V3)
    requires
        finite(a),
        finite(b),
        size(value(a.x)) <= 8 as real,
        size(value(a.y)) <= 8 as real,
        size(value(a.z)) <= 8 as real,
        size(value(b.x)) <= 2 as real,
        size(value(b.y)) <= 2 as real,
        size(value(b.z)) <= 2 as real,
    ensures
        a.dot(b) is Finite,
        within(value(a.dot(b)), inner(a, b), 400 as real * eps()),
        size(inner(a, b)) <= 48 as real,
{
    let (m1, m2, m3) = (
        value(a.x) * value(b.x),
        value(a.y) * value(b.y),
        value(a.z) * value(b.z),
    );
    lemma_product_size(value(a.x), value(b.x), 8 as real, 2 as real);
    lemma_product_size(value(a.y), value(b.y), 8 as real, 2 as real);
    lemma_product_size(value(a.z), value(b.z), 8 as real, 2 as real);
    let (p, q, r) = (a.x * b.x, a.y * b.y, a.z * b.z);
    lemma_product_error(a.x, b.x);
    lemma_product_error(a.y, b.y);
    lemma_product_error(a.z, b.z);
    lemma_step(value(p), m1, 16 as real);
    lemma_step(value(q), m2, 16 as real);
    lemma_step(value(r), m3, 16 as real);
    lemma_sum_error(p, q);
    lemma_step(value(p + q), value(p) + value(q), 34 as real);
    lemma_sum_error(p + q, r);
    lemma_step(value(p + q + r), value(p + q) + value(r), 52 as real);
}

pub proof fn lemma_positive(a: Number)
    requires
        a is Finite,
        !a->Finite_neg,
        a->mag > 0,
    ensures
        value(a) > 0 as real,
{
    lemma_pow2_pos(149);
    let (m, u) = (a->mag as real, unit() as real);
    assert(m / u > 0 as real) by (nonlinear_arith)
        requires
            m > 0 as real,
            u > 0 as real,
    ;
}

/// The sizes of the terms of an inner product, added up.
pub open spec fn bulk(a: V3, b: V3) -> real {
    size(value(a.x) * value(b.x)) + size(value(a.y) * value(b.y)) + size(
        value(a.z) * value(b.z),
    )
}

/// The rounded inner product.
pub proof fn lemma_inner_error(a: V3, b: V3)
    requires
        finite(a),
        finite(b),
        bulk(a, b) <= 0x100_0000_0000_0000 as real,
    ensures
        a.dot(b) is Finite,
        size(value(a.dot(b)) - inner(a, b)) <= bulk(a, b) * (4 as real * eps()) + 8 as real
            * tiny(),
{
    lemma_tiny();
    let (p, q, r) = (a.x * b.x, a.y * b.y, a.z * b.z);
    lemma_product_error(a.x, b.x);
    lemma_product_error(a.y, b.y);
    lemma_product_error(a.z, b.z);
    let (x, y, z) = (
        value(a.x) * value(b.x),
        value(a.y) * value(b.y),
        value(a.z) * value(b.z),
    );
    lemma_term_size(value(p), x);
    lemma_term_size(value(q), y);
    lemma_term_size(value(r), z);
    lemma_sum_error(p, q);
    lemma_term_size(value(p + q), value(p) + value(q));
    lemma_sum_error(p + q, r);
    lemma_dot_value(x, y, z, value(p), value(q), value(r), value(p + q), value(p + q + r));
}

pub proof fn lemma_term_size(got: real, exact: real)
    requires
        size(got - exact) <= size(exact) * eps() + tiny(),
    ensures
        size(got) <= 2 as real * size(exact) + 1 as real,
{
    lemma_tiny();
    let x = size(exact);
    assert(x * eps() <= x) by (nonlinear_arith)
        requires
            x >= 0 as real,
            eps() == (1 as real) / (0x100_0000 as real),
    ;
}

proof fn lemma_dot_value(
    x: real,
    y: real,
    z: real,
    p: real,
    q: real,
    r: real,
    s: real,
    t: real,
)
    requires
        size(p - x) <= size(x) * eps() + tiny(),
        size(q - y) <= size(y) * eps() + tiny(),
        size(r - z) <= size(z) * eps() + tiny(),
        size(s - (p + q)) <= size(p + q) * eps() + tiny(),
        size(t - (s + r)) <= size(s + r) * eps() + tiny(),
    ensures
        size(t - (x + y + z)) <= (size(x) + size(y) + size(z)) * (4 as real * eps()) + 8 as real
            * tiny(),
{
    lemma_tiny();
    let (e, o) = (eps(), tiny());
    let (a, b, c) = (size(x), size(y), size(z));
    lemma_added(p, x, q, y, s, a, b, a * e + o, b * e + o);
    let f = (a * e + o) + (b * e + o) + (a + b + (a * e + o) + (b * e + o)) * e + o;
    lemma_added(s, x + y, r, z, t, a + b, c, f, c * e + o);
    lemma_dot_bound(a, b, c, e, o, f);
}

/// The error of a sum of two terms that have errors of their own.
proof fn lemma_added(
    p: real,
    x: real,
    q: real,
    y: real,
    s: real,
    a: real,
    b: real,
    f: real,
    g: real,
)
    requires
        size(p - x) <= f,
        size(q - y) <= g,
        size(x) <= a,
        size(y) <= b,
        size(s - (p + q)) <= size(p + q) * eps() + tiny(),
    ensures
        size(s - (x + y)) <= f + g + (a + b + f + g) * eps() + tiny(),
{
    lemma_tiny();
    let (u, m) = (size(p + q), a + b + f + g);
    assert(u * eps() <= m * eps()) by (nonlinear_arith)
        requires
            u <= m,
            eps() > 0 as real,
    ;
}

proof fn lemma_dot_bound(a: real, b: real, c: real, e: real, o: real, f: real)
    requires
        a >= 0 as real,
        b >= 0 as real,
        c >= 0 as real,
        o > 0 as real,
        e == (1 as real) / (0x100_0000 as real),
        f == (a * e + o) + (b * e + o) + (a + b + (a * e + o) + (b * e + o)) * e + o,
    ensures
        f + (c * e + o) + (a + b + c + f + (c * e + o)) * e + o <= (a + b + c) * (4 as real * e)
            + 8 as real * o,
{
    let (x, y, z) = (a * e, b * e, c * e);
    assert(x >= 0 as real && y >= 0 as real && z >= 0 as real) by (nonlinear_arith)
        requires
            x == a * e,
            y == b * e,
            z == c * e,
            a >= 0 as real,
            b >= 0 as real,
            c >= 0 as real,
            e > 0 as real,
    ;
    assert((a + b + (x + o) + (y + o)) * e == x + y + (x * e + y * e) + 2 as real * (o * e))
        by (nonlinear_arith)
        requires
            x == a * e,
            y == b * e,
    ;
    lemma_small_part(x, e);
    lemma_small_part(y, e);
    lemma_small_part(z, e);
    lemma_small_part(o, e);
    lemma_small_part(f, e);
    let k = z + o;
    assert((a + b + c + f + k) * e == x + y + z + f * e + z * e + o * e) by (nonlinear_arith)
        requires
            x == a * e,
            y == b * e,
            z == c * e,
            k == z + o,
    ;
    assert((a + b + c) * (4 as real * e) == 4 as real * x + 4 as real * y + 4 as real * z)
        by (nonlinear_arith)
        requires
            x == a * e,
            y == b * e,
            z == c * e,
    ;
}

pub proof fn lemma_small_part(x: real, e: real)
    requires
        x >= 0 as real,
        e == (1 as real) / (0x100_0000 as real),
    ensures
        x * e <= x / (1000 as real),
        x * e >= 0 as real,
{
    assert(x * e <= x / (1000 as real) && x * e >= 0 as real) by (nonlinear_arith)
        requires
            x >= 0 as real,
            e == (1 as real) / (0x100_0000 as real),
    ;
}

} // verus!
