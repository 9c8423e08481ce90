//! Matrices that are not quite symmetric, in real numbers: what the symmetric part
//! says of the determinant and of the matrix of cofactors.
use crate::forms::{Grid, Triple};
use crate::preference::{determinant, is_symmetric, lemma_factors, lemma_spread};
use crate::spectra::{adjugate, image};
use vstd::prelude::*;

verus! {

/// The symmetric part.
pub open spec fn evened(g: Grid) -> Grid {
    let (b, c, f) = (
        (g.r0.y + g.r1.x) / (2 as real),
        (g.r0.z + g.r2.x) / (2 as real),
        (g.r1.z + g.r2.y) / (2 as real),
    );
    Grid {
        r0: Triple { x: g.r0.x, y: b, z: c },
        r1: Triple { x: b, y: g.r1.y, z: f },
        r2: Triple { x: c, y: f, z: g.r2.z },
    }
}

/// What is left of it: the three differences across the diagonal, halved.
pub open spec fn twist(g: Grid) -> Triple {
    Triple {
        x: (g.r2.y - g.r1.z) / (2 as real),
        y: (g.r0.z - g.r2.x) / (2 as real),
        z: (g.r1.x - g.r0.y) / (2 as real),
    }
}

pub proof fn lemma_evened(g: Grid, e: Triple)
    ensures
        is_symmetric(evened(g)),
        evened(g).form(e, e) == g.form(e, e),
        is_symmetric(g) ==> evened(g) == g,
{
    let s = evened(g);
    assert(s =~= s.transposed());
    if is_symmetric(g) {
        assert(g == g.transposed());
        assert(s =~= g);
    }
    lemma_row_expanded(e.x, g.r0, e);
    lemma_row_expanded(e.y, g.r1, e);
    lemma_row_expanded(e.z, g.r2, e);
    lemma_row_expanded(e.x, s.r0, e);
    lemma_row_expanded(e.y, s.r1, e);
    lemma_row_expanded(e.z, s.r2, e);
    lemma_halved(g.r0.y, g.r1.x, e.x * e.y);
    lemma_halved(g.r0.z, g.r2.x, e.x * e.z);
    lemma_halved(g.r1.z, g.r2.y, e.y * e.z);
    assert(e.y * e.x == e.x * e.y && e.z * e.x == e.x * e.z && e.z * e.y == e.y * e.z)
        by (nonlinear_arith);
}

proof fn lemma_row_expanded(k: real, r: Triple, e: Triple)
    ensures
        k * r.dot(e) == r.x * (k * e.x) + r.y * (k * e.y) + r.z * (k * e.z),
{
    let (a, b, c) = (r.x * e.x, r.y * e.y, r.z * e.z);
    assert(k * (a + b + c) == k * a + k * b + k * c) by (nonlinear_arith);
    assert(k * (r.x * e.x) == r.x * (k * e.x) && k * (r.y * e.y) == r.y * (k * e.y) && k * (r.z
        * e.z) == r.z * (k * e.z)) by (nonlinear_arith);
}

proof fn lemma_halved(p: real, q: real, x: real)
    ensures
        ((p + q) / (2 as real)) * x + ((p + q) / (2 as real)) * x == p * x + q * x,
{
    let h = (p + q) / (2 as real);
    assert(h * x + h * x == p * x + q * x) by (nonlinear_arith)
        requires
            h == (p + q) / (2 as real),
    ;
}

/// A product of two sums.
proof fn lemma_cross(a: real, b: real, c: real, d: real)
    ensures
        (a + b) * (c + d) == a * c + a * d + b * c + b * d,
        (a - b) * (c + d) == a * c + a * d - b * c - b * d,
        (a + b) * (c - d) == a * c - a * d + b * c - b * d,
        (a - b) * (c - d) == a * c - a * d - b * c + b * d,
{
    assert((a + b) * (c + d) == a * c + a * d + b * c + b * d) by (nonlinear_arith);
    assert((a - b) * (c + d) == a * c + a * d - b * c - b * d) by (nonlinear_arith);
    assert((a + b) * (c - d) == a * c - a * d + b * c - b * d) by (nonlinear_arith);
    assert((a - b) * (c - d) == a * c - a * d - b * c + b * d) by (nonlinear_arith);
}

/// The outer product of a vector with itself.
pub open spec fn squared_up(n: Triple) -> Grid {
    Grid {
        r0: Triple { x: n.x * n.x, y: n.x * n.y, z: n.x * n.z },
        r1: Triple { x: n.y * n.x, y: n.y * n.y, z: n.y * n.z },
        r2: Triple { x: n.z * n.x, y: n.z * n.y, z: n.z * n.z },
    }
}

pub proof fn lemma_squared_up(n: Triple, e: Triple)
    ensures
        squared_up(n).form(e, e) == n.dot(e) * n.dot(e),
{
    let d = n.dot(e);
    lemma_row_of_square(n.x, n, e);
    lemma_row_of_square(n.y, n, e);
    lemma_row_of_square(n.z, n, e);
    let (x, y, z) = (n.x * d, n.y * d, n.z * d);
    assert(e.x * (n.x * d) == (n.x * e.x) * d && e.y * (n.y * d) == (n.y * e.y) * d && e.z * (n.z
        * d) == (n.z * e.z) * d) by (nonlinear_arith);
    let (p, q, r) = (n.x * e.x, n.y * e.y, n.z * e.z);
    assert(p * d + q * d + r * d == (p + q + r) * d) by (nonlinear_arith);
}

proof fn lemma_row_of_square(k: real, n: Triple, e: Triple)
    ensures
        (k * n.x) * e.x + (k * n.y) * e.y + (k * n.z) * e.z == k * n.dot(e),
{
    let (a, b, c) = (n.x * e.x, n.y * e.y, n.z * e.z);
    assert(k * (a + b + c) == k * a + k * b + k * c) by (nonlinear_arith);
    assert(k * (n.x * e.x) == (k * n.x) * e.x && k * (n.y * e.y) == (k * n.y) * e.y && k * (n.z
        * e.z) == (k * n.z) * e.z) by (nonlinear_arith);
}

/// The cofactors of a matrix that is not quite symmetric: their symmetric part is
/// that of the symmetric part, and the square of the twist; their twist is that of
/// the matrix, taken by the symmetric part and turned round.
pub proof fn lemma_adjugate_parts(g: Grid)
    ensures
        evened(adjugate(g)) == adjugate(evened(g)).plus(1 as real, squared_up(twist(g))),
        ({
            let (t, w) = (twist(adjugate(g)), image(evened(g), twist(g)));
            t.x == -w.x && t.y == -w.y && t.z == -w.z
        }),
{
    let (s, n) = (evened(g), twist(g));
    let (a, b, c, d, f, h) = (s.r0.x, s.r0.y, s.r0.z, s.r1.y, s.r1.z, s.r2.z);
    let (r, q, p) = (n.x, n.y, n.z);
    assert(g.r0.y == b - p && g.r1.x == b + p && g.r0.z == c + q && g.r2.x == c - q && g.r1.z
        == f - r && g.r2.y == f + r);
    lemma_diagonal_cofactor(d, h, f, r);
    lemma_diagonal_cofactor(a, h, c, q);
    lemma_diagonal_cofactor(a, d, b, p);
    lemma_off_cofactor(c, q, f, r, h, b, p);
    lemma_off_cofactor(b, p, f, r, d, c, q);
    lemma_off_cofactor(b, p, c, q, a, f, r);
    let (x, y) = (adjugate(g), adjugate(s).plus(1 as real, squared_up(n)));
    lemma_once(squared_up(n).r0);
    lemma_once(squared_up(n).r1);
    lemma_once(squared_up(n).r2);
    assert(evened(x).r0.x == y.r0.x && evened(x).r1.y == y.r1.y && evened(x).r2.z == y.r2.z);
    assert(evened(x).r0.y == y.r0.y && evened(x).r1.x == y.r1.x);
    assert(evened(x).r0.z == y.r0.z && evened(x).r2.x == y.r2.x);
    assert(evened(x).r1.z == y.r1.z && evened(x).r2.y == y.r2.y);
    assert(evened(x) =~= y);
}

proof fn lemma_once(e: Triple)
    ensures
        1 as real * e.x == e.x,
        1 as real * e.y == e.y,
        1 as real * e.z == e.z,
{
    assert(1 as real * e.x == e.x && 1 as real * e.y == e.y && 1 as real * e.z == e.z)
        by (nonlinear_arith);
}

proof fn lemma_diagonal_cofactor(d: real, h: real, f: real, r: real)
    ensures
        d * h - (f + r) * (f - r) == d * h - f * f + r * r,
        d * h - (f - r) * (f + r) == d * h - f * f + r * r,
{
    lemma_cross(f, r, f, r);
    assert(f * r == r * f) by (nonlinear_arith);
}

/// The products that go into a cofactor off the diagonal, with all signs.
proof fn lemma_off_cofactor(c: real, q: real, f: real, r: real, h: real, b: real, p: real)
    ensures
        (c + q) * (f + r) == c * f + c * r + q * f + q * r,
        (c - q) * (f - r) == c * f - c * r - q * f + q * r,
        (c + q) * (f - r) == c * f - c * r + q * f - q * r,
        (c - q) * (f + r) == c * f + c * r - q * f - q * r,
        h * (b - p) == h * b - h * p,
        h * (b + p) == h * b + h * p,
        (b - p) * h == h * b - h * p,
        (b + p) * h == h * b + h * p,
        c * f == f * c,
        c * r == r * c,
        q * f == f * q,
        q * r == r * q,
        h * b == b * h,
        h * p == p * h,
        (f + r) * (c + q) == (c + q) * (f + r),
        (f - r) * (c - q) == (c - q) * (f - r),
        (f - r) * (c + q) == (c + q) * (f - r),
        (f + r) * (c - q) == (c - q) * (f + r),
{
    lemma_cross(c, q, f, r);
    assert(h * (b - p) == h * b - h * p && h * (b + p) == h * b + h * p) by (nonlinear_arith);
    assert((b - p) * h == h * b - h * p && (b + p) * h == h * b + h * p) by (nonlinear_arith);
    assert(c * f == f * c && c * r == r * c && q * f == f * q && q * r == r * q && h * b == b * h
        && h * p == p * h) by (nonlinear_arith);
    let (x, y, z, w) = (f + r, c + q, f - r, c - q);
    assert(x * y == y * x && z * w == w * z && z * y == y * z && x * w == w * x)
        by (nonlinear_arith);
}

proof fn lemma_three(k: real, a: real, b: real, c: real)
    ensures
        k * (a + b + c) == k * a + k * b + k * c,
        k * (a + b - c) == k * a + k * b - k * c,
{
    assert(k * (a + b + c) == k * a + k * b + k * c) by (nonlinear_arith);
    assert(k * (a + b - c) == k * a + k * b - k * c) by (nonlinear_arith);
}

/// The determinant of a matrix that is not quite symmetric.
pub proof fn lemma_determinant_parts(g: Grid)
    ensures
        determinant(g) == determinant(evened(g)) + evened(g).form(twist(g), twist(g)),
{
    let (s, n) = (evened(g), twist(g));
    let (a, b, c, d, f, h) = (s.r0.x, s.r0.y, s.r0.z, s.r1.y, s.r1.z, s.r2.z);
    let (r, q, p) = (n.x, n.y, n.z);
    assert(g.r0.y == b - p && g.r1.x == b + p && g.r0.z == c + q && g.r2.x == c - q && g.r1.z
        == f - r && g.r2.y == f + r);
    let (w1, w2, w3) = (s.r0.dot(n), s.r1.dot(n), s.r2.dot(n));
    // The three cofactors of the first row.
    lemma_diagonal_cofactor(d, h, f, r);
    lemma_off_cofactor(c, q, f, r, h, b, p);
    lemma_off_cofactor(b, p, f, r, d, c, q);
    let (x, y, z) = (d * h - f * f, c * f - b * h, b * f - c * d);
    let (u, v) = (y + r * q - w3, z + r * p + w2);
    assert(g.r1.y * g.r2.z - g.r1.z * g.r2.y == x + r * r);
    assert(-(g.r1.x * g.r2.z - g.r1.z * g.r2.x) == u);
    assert(g.r1.x * g.r2.y - g.r1.y * g.r2.x == v);
    let m = g.r1.x * g.r2.z - g.r1.z * g.r2.x;
    assert((b - p) * m == -((b - p) * u)) by (nonlinear_arith)
        requires
            m == -u,
    ;
    assert(determinant(g) == a * (x + r * r) + (b - p) * u + (c + q) * v);
    lemma_expanded(a, b, c, d, f, h, r, q, p);
    assert(g.r1.z * g.r2.y == (f - r) * (f + r));
}

/// The same in nine numbers.
proof fn lemma_expanded(
    a: real,
    b: real,
    c: real,
    d: real,
    f: real,
    h: real,
    r: real,
    q: real,
    p: real,
)
    ensures
        ({
            let (w1, w2, w3) = (
                a * r + b * q + c * p,
                b * r + d * q + f * p,
                c * r + f * q + h * p,
            );
            let (x, y, z) = (d * h - f * f, c * f - b * h, b * f - c * d);
            let (u, v) = (y + r * q - w3, z + r * p + w2);
            a * (x + r * r) + (b - p) * u + (c + q) * v == a * (d * h - f * f) - b * (b * h - f * c)
                + c * (b * f - d * c) + r * w1 + q * w2 + p * w3
        }),
{
    let (w1, w2, w3) = (a * r + b * q + c * p, b * r + d * q + f * p, c * r + f * q + h * p);
    let (x, y, z) = (d * h - f * f, c * f - b * h, b * f - c * d);
    let (u, v) = (y + r * q - w3, z + r * p + w2);
    let (rr, rq, rp) = (r * r, r * q, r * p);
    assert(a * (x + rr) == a * x + a * rr) by (nonlinear_arith);
    assert((b - p) * u == b * u - p * u) by (nonlinear_arith);
    assert((c + q) * v == c * v + q * v) by (nonlinear_arith);
    lemma_three(b, y, rq, w3);
    lemma_three(p, y, rq, w3);
    lemma_three(c, z, rp, w2);
    lemma_three(q, z, rp, w2);
    // The parts of b * w3, c * w2, r * w1.
    lemma_three(b, c * r, f * q, h * p);
    lemma_three(c, b * r, d * q, f * p);
    lemma_three(r, a * r, b * q, c * p);
    lemma_spread(p, c, f, b, h);
    lemma_spread(q, b, f, c, d);
    lemma_spread(b, c, f, b, h);
    lemma_spread(c, b, f, c, d);
    lemma_spread(b, b, h, f, c);
    lemma_spread(c, b, f, d, c);
    lemma_factors(b, c, r);
    lemma_factors(b, f, q);
    lemma_factors(b, h, p);
    lemma_factors(c, d, q);
    lemma_factors(c, f, p);
    lemma_factors(r, a, r);
    lemma_factors(r, b, q);
    lemma_factors(r, c, p);
    lemma_factors(p, r, q);
    lemma_factors(b, c, f);
    lemma_factors(b, b, h);
    lemma_factors(c, c, d);
    lemma_factors(c, d, c);
}

/// The determinant of the matrix of cofactors.
pub proof fn lemma_adjugate_determinant(g: Grid)
    requires
        is_symmetric(g),
    ensures
        determinant(adjugate(g)) == determinant(g) * determinant(g),
{
    let (a, b, c) = (g.r0.x, g.r0.y, g.r0.z);
    let (d, f, h) = (g.r1.y, g.r1.z, g.r2.z);
    assert(g.r1.x == b && g.r2.x == c && g.r2.y == f);
    let det = a * (d * h - f * f) - b * (b * h - f * c) + c * (b * f - d * c);
    lemma_second_minors(a, b, c, d, f, h, det);
    let m = adjugate(g);
    let (k, l, o) = (d * h - f * f, c * f - b * h, b * f - c * d);
    let (p, q, s) = (a * h - c * c, b * c - a * f, a * d - b * b);
    assert(c * b == b * c && f * b == b * f && f * c == c * f && h * b == b * h && h * a == a * h
        && f * a == a * f && d * c == c * d && h * d == d * h) by (nonlinear_arith);
    assert(m.r0.x == k && m.r0.y == l && m.r0.z == o);
    assert(m.r1.x == l && m.r1.y == p && m.r1.z == q);
    assert(m.r2.x == o && m.r2.y == q && m.r2.z == s);
    assert(determinant(g) == det);
    assert(determinant(m) == k * (p * s - q * q) - l * (l * s - q * o) + o * (l * q - p * o));
    let (ad, bd, cd) = (a * det, b * det, c * det);
    assert(k * ad == (a * k) * det && l * bd == (b * l) * det && o * cd == (c * o) * det)
        by (nonlinear_arith)
        requires
            ad == a * det,
            bd == b * det,
            cd == c * det,
    ;
    assert(l * (-bd) == -(l * bd)) by (nonlinear_arith);
    let (x, y, z) = (a * k, b * l, c * o);
    assert(x * det + y * det + z * det == (x + y + z) * det) by (nonlinear_arith);
    assert(a * k + b * l + c * o == det) by {
        lemma_spread(b, b, h, f, c);
        lemma_spread(b, c, f, b, h);
        lemma_spread(c, b, f, d, c);
        lemma_spread(c, b, f, c, d);
    }
}

/// A number times the determinant, term by term.
proof fn lemma_times_det(k: real, a: real, b: real, c: real, d: real, f: real, h: real, det: real)
    requires
        det == a * (d * h - f * f) - b * (b * h - f * c) + c * (b * f - d * c),
    ensures
        k * det == k * (a * (d * h)) - k * (a * (f * f)) - k * (b * (b * h)) + k * (b * (f * c)) + k
            * (c * (b * f)) - k * (c * (d * c)),
{
    lemma_spread(a, d, h, f, f);
    lemma_spread(b, b, h, f, c);
    lemma_spread(c, b, f, d, c);
    let (x, y, z) = (a * (d * h), a * (f * f), b * (b * h));
    let (u, v, w) = (b * (f * c), c * (b * f), c * (d * c));
    assert(k * (x - y - z + u + v - w) == k * x - k * y - k * z + k * u + k * v - k * w)
        by (nonlinear_arith);
}

/// The minors of the matrix of cofactors.
proof fn lemma_second_minors(a: real, b: real, c: real, d: real, f: real, h: real, det: real)
    requires
        det == a * (d * h - f * f) - b * (b * h - f * c) + c * (b * f - d * c),
    ensures
        ({
            let (l, o) = (c * f - b * h, b * f - c * d);
            let (p, q, s) = (a * h - c * c, b * c - a * f, a * d - b * b);
            &&& p * s - q * q == a * det
            &&& l * s - q * o == -(b * det)
            &&& l * q - p * o == c * det
        }),
{
    lemma_first_minor(a, b, c, d, f, h, det);
    lemma_other_minor(a, b, c, d, f, h, det);
    lemma_last_minor(a, b, c, d, f, h, det);
}

proof fn lemma_first_minor(a: real, b: real, c: real, d: real, f: real, h: real, det: real)
    requires
        det == a * (d * h - f * f) - b * (b * h - f * c) + c * (b * f - d * c),
    ensures
        (a * h - c * c) * (a * d - b * b) - (b * c - a * f) * (b * c - a * f) == a * det,
{
    lemma_times_det(a, a, b, c, d, f, h, det);
    lemma_cross(a * h, c * c, a * d, b * b);
    lemma_cross(b * c, a * f, b * c, a * f);
    assert((a * h) * (a * d) == a * (a * (d * h))) by (nonlinear_arith);
    assert((a * h) * (b * b) == a * (b * (b * h))) by (nonlinear_arith);
    assert((c * c) * (a * d) == a * (c * (d * c))) by (nonlinear_arith);
    assert((c * c) * (b * b) == (b * c) * (b * c)) by (nonlinear_arith);
    assert((b * c) * (a * f) == a * (b * (f * c))) by (nonlinear_arith);
    assert((a * f) * (b * c) == a * (c * (b * f))) by (nonlinear_arith);
    assert((a * f) * (a * f) == a * (a * (f * f))) by (nonlinear_arith);
}

proof fn lemma_other_minor(a: real, b: real, c: real, d: real, f: real, h: real, det: real)
    requires
        det == a * (d * h - f * f) - b * (b * h - f * c) + c * (b * f - d * c),
    ensures
        (c * f - b * h) * (a * d - b * b) - (b * c - a * f) * (b * f - c * d) == -(b * det),
{
    lemma_times_det(b, a, b, c, d, f, h, det);
    lemma_cross(c * f, b * h, a * d, b * b);
    lemma_cross(b * c, a * f, b * f, c * d);
    assert((c * f) * (a * d) == (a * f) * (c * d)) by (nonlinear_arith);
    assert((c * f) * (b * b) == b * (b * (f * c))) by (nonlinear_arith);
    assert((b * h) * (a * d) == b * (a * (d * h))) by (nonlinear_arith);
    assert((b * h) * (b * b) == b * (b * (b * h))) by (nonlinear_arith);
    assert((b * c) * (b * f) == b * (c * (b * f))) by (nonlinear_arith);
    assert((b * c) * (c * d) == b * (c * (d * c))) by (nonlinear_arith);
    assert((a * f) * (b * f) == b * (a * (f * f))) by (nonlinear_arith);
}

proof fn lemma_last_minor(a: real, b: real, c: real, d: real, f: real, h: real, det: real)
    requires
        det == a * (d * h - f * f) - b * (b * h - f * c) + c * (b * f - d * c),
    ensures
        (c * f - b * h) * (b * c - a * f) - (a * h - c * c) * (b * f - c * d) == c * det,
{
    lemma_times_det(c, a, b, c, d, f, h, det);
    lemma_cross(c * f, b * h, b * c, a * f);
    lemma_cross(a * h, c * c, b * f, c * d);
    assert((c * f) * (b * c) == c * (b * (f * c))) by (nonlinear_arith);
    assert((c * f) * (a * f) == c * (a * (f * f))) by (nonlinear_arith);
    assert((b * h) * (b * c) == c * (b * (b * h))) by (nonlinear_arith);
    assert((b * h) * (a * f) == (a * h) * (b * f)) by (nonlinear_arith);
    assert((a * h) * (c * d) == c * (a * (d * h))) by (nonlinear_arith);
    assert((c * c) * (b * f) == c * (c * (b * f))) by (nonlinear_arith);
    assert((c * c) * (c * d) == c * (c * (d * c))) by (nonlinear_arith);
}

} // verus!
