//! The direction to a body, in real numbers.
use crate::config::MIN_SEPARATION;
use crate::error::{
    eps, lemma_less_value, lemma_no_value, lemma_quotient_error, lemma_root_error,
    lemma_square_sign, lemma_tiny, lemma_units, size, tiny, value,
};
use crate::metric::{
    finite, inner, lemma_length_is_some, lemma_positive, lemma_product_size, lemma_root_size,
    lemma_square_error, lemma_step,
};
use crate::number::{decode, less, square_root, Number};
use crate::vector::V3;
use vstd::arithmetic::power2::{lemma2_to64, lemma_pow2_unfold, pow2};
use vstd::prelude::*;

verus! {

proof fn lemma_min_separation()
    ensures
        decode(MIN_SEPARATION) is Finite,
        value(decode(MIN_SEPARATION)) >= (1 as real) / (1024 as real),
{
    lemma2_to64();
    lemma_pow2_unfold(33);
    assert(pow2(33) as real == 0x2_0000_0000 as real);
    lemma_units(decode(MIN_SEPARATION), 0x83_126f, 116, 33);
    let v = value(decode(MIN_SEPARATION));
    assert(v * (0x2_0000_0000 as real) == 0x83_126f as real);
}

/// One component of a unit vector; `q` is the exact one.
proof fn lemma_normal_part(a: Number, dist: Number, q: real)
    requires
        a is Finite,
        dist is Finite,
        dist->mag > 0,
        q * value(dist) == value(a),
        size(q) <= 2 as real,
    ensures
        (a / dist) is Finite,
        size(value(a / dist) - q) <= 4 as real * eps(),
        size(value(a / dist) * value(a / dist) - q * q) <= 24 as real * eps(),
{
    lemma_quotient_error(a, dist, q);
    let n = value(a / dist);
    lemma_step(n, q, 2 as real);
    let d = n - q;
    lemma_product_size(d, n + q, 4 as real * eps(), 5 as real);
    assert(n * n - q * q == d * (n + q)) by (nonlinear_arith)
        requires
            d == n - q,
    ;
}

/// The direction to a body is a unit vector, but for rounding: it is `q` in
/// exact arithmetic.
pub proof fn lemma_direction(rel: V3, dist: Number) -> (q: (real, real, real))
    requires
        finite(rel),
        dist == rel.length(),
        dist is Finite,
        !less(dist, decode(MIN_SEPARATION)),
    ensures
        finite(rel / dist),
        value(dist) > 0 as real,
        q.0 * value(dist) == value(rel.x),
        q.1 * value(dist) == value(rel.y),
        q.2 * value(dist) == value(rel.z),
        size(q.0) <= 2 as real,
        size(q.1) <= 2 as real,
        size(q.2) <= 2 as real,
        size(q.0 * q.0 + q.1 * q.1 + q.2 * q.2 - 1 as real) <= 10 as real * eps(),
{
    lemma_tiny();
    lemma_min_separation();
    lemma_less_value(dist, decode(MIN_SEPARATION));
    lemma_length_is_some(rel);
    let l = rel.length_squared();
    assert(l is Finite && !(l->mag > 0 && l->Finite_neg) && (l->mag == 0 ==> dist == l)) by {
        reveal(square_root);
    }
    if l->mag == 0 {
        lemma_no_value(l);
    }
    lemma_positive(l);
    lemma_square_error(rel);
    lemma_root_error(l);
    if dist->mag == 0 {
        lemma_no_value(dist);
    }
    let (e, o) = (eps(), tiny());
    let y = value(dist);
    let (yy, lv, all) = (y * y, value(l), inner(rel, rel));
    assert(yy >= (1 as real) / (1048576 as real)) by (nonlinear_arith)
        requires
            yy == y * y,
            y >= (1 as real) / (1024 as real),
    ;
    assert(size(yy - all) <= yy * (10 as real * e)) by (nonlinear_arith)
        requires
            size(yy - lv) <= lv * (4 as real * e),
            size(lv - all) <= all * (4 as real * e) + 8 as real * o,
            yy >= (1 as real) / (1048576 as real),
            e == (1 as real) / (0x100_0000 as real),
            o <= e * e,
            o > 0 as real,
            all >= 0 as real,
    ;
    assert(all <= yy + yy) by (nonlinear_arith)
        requires
            size(yy - all) <= yy * (10 as real * e),
            yy > 0 as real,
            e == (1 as real) / (0x100_0000 as real),
    ;
    let (x1, x2, x3) = (value(rel.x), value(rel.y), value(rel.z));
    let (q1, q2, q3) = (x1 / y, x2 / y, x3 / y);
    lemma_square_sign(x1);
    lemma_square_sign(x2);
    lemma_square_sign(x3);
    lemma_part(q1, y, x1, all);
    lemma_part(q2, y, x2, all);
    lemma_part(q3, y, x3, all);
    lemma_normal_part(rel.x, dist, q1);
    lemma_normal_part(rel.y, dist, q2);
    lemma_normal_part(rel.z, dist, q3);
    let (a1, a2, a3) = (q1 * q1, q2 * q2, q3 * q3);
    let d = a1 + a2 + a3 - 1 as real;
    assert(d * yy == a1 * yy + a2 * yy + a3 * yy - yy) by (nonlinear_arith)
        requires
            d == a1 + a2 + a3 - 1 as real,
    ;
    let w = 10 as real * e;
    assert(size(d) <= w) by (nonlinear_arith)
        requires
            size(d * yy) <= yy * w,
            yy > 0 as real,
    ;
    (q1, q2, q3)
}

/// The direction to a body is a unit vector, but for rounding.
pub proof fn lemma_normal(rel: V3, dist: Number)
    requires
        finite(rel),
        dist == rel.length(),
        dist is Finite,
        !less(dist, decode(MIN_SEPARATION)),
    ensures
        finite(rel / dist),
        size(inner(rel / dist, rel / dist) - 1 as real) <= 100 as real * eps(),
{
    lemma_tiny();
    let q = lemma_direction(rel, dist);
    if dist->mag == 0 {
        lemma_no_value(dist);
    }
    lemma_normal_part(rel.x, dist, q.0);
    lemma_normal_part(rel.y, dist, q.1);
    lemma_normal_part(rel.z, dist, q.2);
}

/// The direction to a body spans the distance to it, but for rounding.
pub proof fn lemma_spans(rel: V3, dist: Number)
    requires
        finite(rel),
        dist == rel.length(),
        dist is Finite,
        !less(dist, decode(MIN_SEPARATION)),
    ensures
        value(dist) > 0 as real,
        inner(rel / dist, rel) >= value(dist) - value(dist) * (40 as real * eps()),
{
    lemma_tiny();
    let (e, y) = (eps(), value(dist));
    let (q1, q2, q3) = lemma_direction(rel, dist);
    if dist->mag == 0 {
        lemma_no_value(dist);
    }
    lemma_normal_part(rel.x, dist, q1);
    lemma_normal_part(rel.y, dist, q2);
    lemma_normal_part(rel.z, dist, q3);
    let (x1, x2, x3) = (value(rel.x), value(rel.y), value(rel.z));
    let sq = q1 * q1 + q2 * q2 + q3 * q3;
    let n = rel / dist;
    lemma_span(value(n.x), q1, y, x1);
    lemma_span(value(n.y), q2, y, x2);
    lemma_span(value(n.z), q3, y, x3);
    let (a1, a2, a3) = (q1 * q1, q2 * q2, q3 * q3);
    assert(sq * y == a1 * y + a2 * y + a3 * y) by (nonlinear_arith)
        requires
            sq == a1 + a2 + a3,
    ;
    let ye = y * e;
    lemma_times(y, 8 as real, e);
    lemma_times(y, 10 as real, e);
    lemma_times(y, 40 as real, e);
    lemma_square_sign(y);
    assert(ye >= 0 as real) by (nonlinear_arith)
        requires
            ye == y * e,
            y > 0 as real,
            e > 0 as real,
    ;
    let w = 10 as real * e;
    assert(sq * y >= y - y * w) by (nonlinear_arith)
        requires
            sq >= 1 as real - w,
            y > 0 as real,
    ;
}

proof fn lemma_times(y: real, k: real, e: real)
    ensures
        y * (k * e) == k * (y * e),
{
    assert(y * (k * e) == k * (y * e)) by (nonlinear_arith);
}

/// One component's part of the distance along the direction; `q` is the exact
/// direction and `n` the rounded one.
proof fn lemma_span(n: real, q: real, y: real, x: real)
    requires
        q * y == x,
        y > 0 as real,
        size(q) <= 2 as real,
        size(n - q) <= 4 as real * eps(),
    ensures
        n * x >= q * q * y - y * (8 as real * eps()),
{
    let d = n - q;
    let dq = d * q;
    lemma_product_size(d, q, 4 as real * eps(), 2 as real);
    assert(n * x == q * x + d * x) by (nonlinear_arith)
        requires
            n == q + d,
    ;
    assert(q * (q * y) == q * q * y) by (nonlinear_arith);
    assert(d * (q * y) == d * q * y) by (nonlinear_arith);
    let most = 8 as real * eps();
    assert(dq * y >= -(y * most)) by (nonlinear_arith)
        requires
            size(dq) <= most,
            y > 0 as real,
    ;
}

/// A component's share `q` of a length.
proof fn lemma_part(q: real, y: real, x: real, all: real)
    requires
        q == x / y,
        y > 0 as real,
        x * x <= all,
        all <= y * y + y * y,
    ensures
        q * y == x,
        size(q) <= 2 as real,
        q * q * (y * y) == x * x,
{
    assert(q * y == x) by (nonlinear_arith)
        requires
            q == x / y,
            y > 0 as real,
    ;
    assert(q * q * (y * y) == x * x) by (nonlinear_arith)
        requires
            q * y == x,
    ;
    let (qq, yy) = (q * q, y * y);
    assert(yy > 0 as real) by (nonlinear_arith)
        requires
            yy == y * y,
            y > 0 as real,
    ;
    assert(qq <= 4 as real) by (nonlinear_arith)
        requires
            qq * yy <= yy + yy,
            yy > 0 as real,
    ;
    lemma_root_size(q, 2 as real);
}

} // verus!
