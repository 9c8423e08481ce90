//! Estimates whose covariances are diagonal: what fusing them does, roundings
//! included.
use crate::error::value;
use crate::matrix::M3;
use crate::number::{is_nought, Number};
use crate::relative::{
    fair, lemma_and_nothing, lemma_fair_product, lemma_fair_reciprocal, lemma_fair_wider,
    lemma_near_chain, lemma_near_fair, lemma_near_product, lemma_near_reciprocal,
    lemma_near_scaled, lemma_not_nought, lemma_nothing_and_nothing, lemma_nothing_over,
    lemma_nothing_times, lemma_over, lemma_times, near, widest,
};
use vstd::prelude::*;

verus! {

/// Whether nothing stands off the diagonal, and what stands on it is between
/// `1 / b` and `b`.
pub open spec fn is_diagonal(m: M3, b: real) -> bool {
    &&& is_nought(m.r0.y) && is_nought(m.r0.z)
    &&& is_nought(m.r1.x) && is_nought(m.r1.z)
    &&& is_nought(m.r2.x) && is_nought(m.r2.y)
    &&& m.r0.x is Finite && fair(value(m.r0.x), b)
    &&& m.r1.y is Finite && fair(value(m.r1.y), b)
    &&& m.r2.z is Finite && fair(value(m.r2.z), b)
}

/// Each of the diagonal entries is, but for `k` roundings, the one given.
pub open spec fn has_diagonal(m: M3, x: real, y: real, z: real, k: nat) -> bool {
    &&& near(value(m.r0.x), x, k)
    &&& near(value(m.r1.y), y, k)
    &&& near(value(m.r2.z), z, k)
}

proof fn lemma_cross(s: Number, t: Number, u: Number, v: Number)
    requires
        s is Finite && t is Finite && u is Finite && v is Finite,
        is_nought(s) || is_nought(t),
        is_nought(u) || is_nought(v),
    ensures
        is_nought(s * t - u * v),
        is_nought(-(s * t - u * v)),
{
    if is_nought(s) {
        lemma_nothing_times(s, t);
    } else {
        lemma_nothing_times(t, s);
    }
    if is_nought(u) {
        lemma_nothing_times(u, v);
    } else {
        lemma_nothing_times(v, u);
    }
    lemma_nothing_and_nothing(s * t, u * v);
    lemma_nothing_and_nothing(s * t - u * v, s * t);
}

/// A cofactor of the diagonal.
proof fn lemma_cofactor(x: Number, y: Number, s: Number, t: Number)
    requires
        x is Finite,
        y is Finite,
        is_nought(s),
        is_nought(t),
        fair(value(x), 0x10_0000 as real),
        fair(value(y), 0x10_0000 as real),
    ensures
        (x * y - s * t) is Finite,
        near(value(x * y - s * t), value(x) * value(y), 3),
        fair(value(x) * value(y), 0x100_0000_0000 as real),
{
    lemma_fair_product(value(x), value(y), 0x10_0000 as real, 0x10_0000 as real);
    lemma_fair_wider(value(x) * value(y), 0x100_0000_0000 as real, widest());
    lemma_times(x, y);
    lemma_near_fair(value(x * y), value(x) * value(y), 0x100_0000_0000 as real, 1);
    lemma_fair_wider(value(x * y), 0x200_0000_0000 as real, widest());
    lemma_nothing_times(s, t);
    lemma_and_nothing(x * y, s * t);
    lemma_near_chain(value(x * y - s * t), value(x * y), value(x) * value(y), 1, 1);
}

proof fn lemma_roomy(x: real, v: real, k: nat)
    requires
        near(x, v, k),
        fair(v, 0x1000_0000_0000_0000 as real),
        k <= 256,
    ensures
        fair(x, widest()),
{
    lemma_near_fair(x, v, 0x1000_0000_0000_0000 as real, k);
    lemma_fair_wider(x, 0x2000_0000_0000_0000 as real, widest());
}

/// The determinant of a diagonal matrix is the product of its entries.
pub proof fn lemma_determinant(m: M3)
    requires
        is_diagonal(m, 0x10_0000 as real),
    ensures
        m.determinant() is Finite,
        !m.is_singular(),
        near(
            value(m.determinant()),
            value(m.r0.x) * (value(m.r1.y) * value(m.r2.z)),
            9,
        ),
        fair(
            value(m.r0.x) * (value(m.r1.y) * value(m.r2.z)),
            0x1000_0000_0000_0000 as real,
        ),
{
    let (a, b, c) = (m.r0, m.r1, m.r2);
    let (p, q, r) = (value(a.x), value(b.y), value(c.z));
    let qr = q * r;
    lemma_cofactor(b.y, c.z, c.y, b.z);
    let d = b.y * c.z - c.y * b.z;
    lemma_fair_product(p, qr, 0x10_0000 as real, 0x100_0000_0000 as real);
    let exact = p * qr;
    lemma_fair_wider(exact, 0x1000_0000_0000_0000 as real, widest());
    let pd = p * value(d);
    lemma_near_scaled(value(d), qr, p, 3);
    lemma_roomy(pd, exact, 3);
    lemma_times(a.x, d);
    let t = a.x * d;
    lemma_near_chain(value(t), pd, exact, 1, 3);
    lemma_cross(b.x, c.z, c.x, b.z);
    lemma_cross(b.x, c.y, c.x, b.y);
    let (e, f) = (b.x * c.z - c.x * b.z, b.x * c.y - c.x * b.y);
    lemma_nothing_times(a.y, e);
    lemma_nothing_times(a.z, f);
    lemma_roomy(value(t), exact, 5);
    lemma_and_nothing(t, a.y * e);
    let u = t - a.y * e;
    lemma_near_chain(value(u), value(t), exact, 1, 5);
    lemma_roomy(value(u), exact, 7);
    lemma_and_nothing(u, a.z * f);
    lemma_near_chain(value(u + a.z * f), value(u), exact, 1, 7);
    lemma_not_nought(m.determinant());
}

/// One entry of the inverse: `n` is the cofactor, `d` the determinant.
proof fn lemma_inverse_entry(n: Number, d: Number, x: real, rest: real, inv: real)
    requires
        n is Finite,
        d is Finite,
        near(value(n), rest, 3),
        near(value(d), x * rest, 9),
        fair(x, 0x10_0000 as real),
        inv * x == 1 as real,
    ensures
        (n / d) is Finite,
        near(value(n / d), inv, 15),
{
    let (nv, dv) = (value(n), value(d));
    let whole = x * rest;
    let (i, j) = ((1 as real) / dv, (1 as real) / whole);
    assert(i * dv == 1 as real) by (nonlinear_arith)
        requires
            i == (1 as real) / dv,
            dv > 0 as real,
    ;
    assert(j * whole == 1 as real) by (nonlinear_arith)
        requires
            j == (1 as real) / whole,
            whole > 0 as real,
    ;
    lemma_near_reciprocal(dv, whole, i, j, 9);
    lemma_near_product(nv, rest, i, j, 3, 9);
    let exact = nv * i;
    assert(rest * j == inv) by {
        assert((j * (x * rest)) * inv == (inv * x) * (rest * j)) by (nonlinear_arith);
        assert(1 as real * inv == inv && 1 as real * (rest * j) == rest * j) by (nonlinear_arith);
    }
    assert(exact * dv == nv) by {
        assert((nv * i) * dv == nv * (i * dv)) by (nonlinear_arith);
        assert(nv * 1 as real == nv) by (nonlinear_arith);
    }
    lemma_fair_reciprocal(x, inv, 0x10_0000 as real);
    lemma_fair_wider(inv, 0x10_0000 as real, 0x1000_0000_0000_0000 as real);
    lemma_roomy(exact, inv, 13);
    lemma_over(n, d, exact);
    lemma_near_chain(value(n / d), exact, inv, 1, 13);
}

/// The inverse of a diagonal matrix holds the reciprocals of its entries, here
/// `x`, `y` and `z`.
pub proof fn lemma_inverse(m: M3, x: real, y: real, z: real, b: real)
    requires
        is_diagonal(m, b),
        b <= 0x10_0000 as real,
        x * value(m.r0.x) == 1 as real,
        y * value(m.r1.y) == 1 as real,
        z * value(m.r2.z) == 1 as real,
    ensures
        !m.is_singular(),
        is_diagonal(m.inverse(), 2 as real * b),
        has_diagonal(m.inverse(), x, y, z, 15),
{
    let (a, c, e) = (m.r0, m.r1, m.r2);
    let (p, q, r) = (value(a.x), value(c.y), value(e.z));
    let w = 0x10_0000 as real;
    lemma_fair_reciprocal(p, x, b);
    lemma_fair_reciprocal(q, y, b);
    lemma_fair_reciprocal(r, z, b);
    lemma_fair_wider(p, b, w);
    lemma_fair_wider(q, b, w);
    lemma_fair_wider(r, b, w);
    lemma_determinant(m);
    let d = m.determinant();
    lemma_not_nought(d);
    lemma_cofactor(c.y, e.z, e.y, c.z);
    lemma_cofactor(a.x, e.z, e.x, a.z);
    lemma_cofactor(a.x, c.y, c.x, a.y);
    assert(p * (q * r) == q * (p * r) && p * (q * r) == r * (p * q)) by {
        assert(p * (q * r) == q * (p * r)) by (nonlinear_arith);
        assert(p * (q * r) == r * (p * q)) by (nonlinear_arith);
    }
    lemma_inverse_entry(c.y * e.z - e.y * c.z, d, p, q * r, x);
    lemma_inverse_entry(a.x * e.z - e.x * a.z, d, q, p * r, y);
    lemma_inverse_entry(a.x * c.y - c.x * a.y, d, r, p * q, z);
    lemma_cross(a.z, e.y, e.z, a.y);
    lemma_cross(a.y, c.z, c.y, a.z);
    lemma_cross(c.x, e.z, e.x, c.z);
    lemma_cross(a.z, c.x, c.z, a.x);
    lemma_cross(c.x, e.y, e.x, c.y);
    lemma_cross(a.y, e.x, e.y, a.x);
    let j = m.adjugate();
    lemma_nothing_over(j.r0.y, d);
    lemma_nothing_over(j.r0.z, d);
    lemma_nothing_over(j.r1.x, d);
    lemma_nothing_over(j.r1.z, d);
    lemma_nothing_over(j.r2.x, d);
    lemma_nothing_over(j.r2.y, d);
    let i = m.inverse();
    lemma_near_fair(value(i.r0.x), x, b, 15);
    lemma_near_fair(value(i.r1.y), y, b, 15);
    lemma_near_fair(value(i.r2.z), z, b, 15);
}

} // verus!
