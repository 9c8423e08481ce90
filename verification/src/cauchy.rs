//! Inner products are bounded by lengths, in real numbers.
use crate::error::{lemma_square_sign, size, value};
use crate::metric::{bulk, inner};
use crate::vector::V3;
use vstd::prelude::*;

verus! {

proof fn lemma_two_terms(a: real, b: real, x: real, y: real)
    ensures
        2 as real * ((size(x * a)) * (size(y * b))) <= (x * x) * (b * b) + (y * y) * (a * a),
{
    let (p, q) = (x * b, y * a);
    let (s, t) = (size(p), size(q));
    lemma_square_sign(s - t);
    assert((s - t) * (s - t) == s * s - 2 as real * (s * t) + t * t) by (nonlinear_arith);
    assert(s * s == p * p && t * t == q * q) by (nonlinear_arith)
        requires
            s == size(p),
            t == size(q),
    ;
    assert((x * b) * (x * b) == (x * x) * (b * b)) by (nonlinear_arith);
    assert((y * a) * (y * a) == (y * y) * (a * a)) by (nonlinear_arith);
    let (u, v) = (size(x * a), size(y * b));
    assert(u * v == s * t) by {
        lemma_size_product(x * a, y * b);
        lemma_size_product(x * b, y * a);
        assert((x * a) * (y * b) == (x * b) * (y * a)) by (nonlinear_arith);
    }
}

proof fn lemma_size_product(x: real, y: real)
    ensures
        size(x) * size(y) == size(x * y),
{
    assert(size(x) * size(y) == size(x * y)) by (nonlinear_arith);
}

/// The bulk is bounded by the lengths.
pub proof fn lemma_bulk(r: V3, w: V3)
    ensures
        bulk(r, w) >= 0 as real,
        bulk(r, w) * bulk(r, w) <= inner(r, r) * inner(w, w),
        size(inner(r, w)) <= bulk(r, w),
{
    let (x, y, z) = (value(r.x), value(r.y), value(r.z));
    let (a, b, c) = (value(w.x), value(w.y), value(w.z));
    let (p, q, s) = (size(x * a), size(y * b), size(z * c));
    assert((p + q + s) * (p + q + s) == p * p + q * q + s * s + 2 as real * (p * q) + 2 as real * (p
        * s) + 2 as real * (q * s)) by (nonlinear_arith);
    lemma_two_terms(a, b, x, y);
    lemma_two_terms(a, c, x, z);
    lemma_two_terms(b, c, y, z);
    lemma_square_of_size(x, a);
    lemma_square_of_size(y, b);
    lemma_square_of_size(z, c);
    let (xx, yy, zz) = (x * x, y * y, z * z);
    let (aa, bb, cc) = (a * a, b * b, c * c);
    assert((xx + yy + zz) * (aa + bb + cc) == xx * aa + xx * bb + xx * cc + yy * aa + yy * bb + yy
        * cc + zz * aa + zz * bb + zz * cc) by {
        lemma_times_three(xx + yy + zz, aa, bb, cc);
        lemma_times_three(aa, xx, yy, zz);
        lemma_times_three(bb, xx, yy, zz);
        lemma_times_three(cc, xx, yy, zz);
        let m = xx + yy + zz;
        assert(m * aa == aa * m && m * bb == bb * m && m * cc == cc * m) by (nonlinear_arith);
        assert(aa * xx == xx * aa && aa * yy == yy * aa && aa * zz == zz * aa) by (nonlinear_arith);
        assert(bb * xx == xx * bb && bb * yy == yy * bb && bb * zz == zz * bb) by (nonlinear_arith);
        assert(cc * xx == xx * cc && cc * yy == yy * cc && cc * zz == zz * cc) by (nonlinear_arith);
    }
}

proof fn lemma_square_of_size(x: real, a: real)
    ensures
        size(x * a) * size(x * a) == (x * x) * (a * a),
{
    lemma_size_product(x * a, x * a);
    assert((x * a) * (x * a) == (x * x) * (a * a)) by (nonlinear_arith);
    lemma_square_sign(x * a);
}

proof fn lemma_times_three(k: real, a: real, b: real, c: real)
    ensures
        k * (a + b + c) == k * a + k * b + k * c,
{
    assert(k * (a + b + c) == k * a + k * b + k * c) by (nonlinear_arith);
}

} // verus!
