//! Symmetric matrices of real numbers by how much they stretch, and what that
//! says of their inverses and determinants.
use crate::error::lemma_square_sign;
use crate::forms::{lemma_form_shift, lemma_times_sum, Grid, Triple};
use crate::preference::{
    determinant, is_origin, is_positive, is_symmetric, lemma_factors, lemma_first,
    lemma_not_negative, lemma_nothing, lemma_second, lemma_signs, lemma_spread, lemma_swap,
    lemma_third, lemma_third_row, minor, second, third,
};
use vstd::prelude::*;

verus! {

/// The matrix times a vector.
pub open spec fn image(g: Grid, e: Triple) -> Triple {
    Triple { x: g.r0.dot(e), y: g.r1.dot(e), z: g.r2.dot(e) }
}

/// Stretches every vector by at least `l` and at most `u`.
pub open spec fn is_round(g: Grid, l: real, u: real) -> bool {
    &&& is_symmetric(g)
    &&& l > 0 as real
    &&& forall|e: Triple|
        l * e.dot(e) <= #[trigger] g.form(e, e) && g.form(e, e) <= u * e.dot(e)
}

/// `p` undoes `q`.
pub open spec fn undoes(p: Grid, q: Grid) -> bool {
    &&& is_positive(p)
    &&& is_positive(q)
    &&& forall|e: Triple| image(p, #[trigger] image(q, e)) == e
}

/// The square of a mixed form is at most the product of the two forms.
pub proof fn lemma_cauchy_form(g: Grid, e: Triple, s: Triple)
    requires
        is_positive(g),
    ensures
        g.form(e, s) * g.form(e, s) <= g.form(e, e) * g.form(s, s),
{
    lemma_swap(g, e, s);
    let (x, f, b) = (g.form(e, s), g.form(s, s), g.form(e, e));
    if is_origin(s) {
        lemma_form_origin(g, e, s);
        lemma_nothing(b, f);
        assert(x * x == 0 as real) by (nonlinear_arith)
            requires
                x == 0 as real,
        ;
    } else {
        assert(f > 0 as real);
        let k = -(x / f);
        let u = e.plus(k, s);
        lemma_form_shift(g, u, e, k, s);
        lemma_form_shift(g, e, e, k, s);
        lemma_form_shift(g, s, e, k, s);
        lemma_not_negative(g, u);
        lemma_least(b, x, f, k);
    }
}

proof fn lemma_least(b: real, x: real, f: real, k: real)
    requires
        f > 0 as real,
        k == -(x / f),
        b + k * x + k * (x + k * f) >= 0 as real,
    ensures
        x * x <= b * f,
{
    assert(k * f == -x) by (nonlinear_arith)
        requires
            k == -(x / f),
            f > 0 as real,
    ;
    let z = x + k * f;
    lemma_nothing(k, z);
    let m = b + k * x;
    assert(m * f >= 0 as real) by (nonlinear_arith)
        requires
            m >= 0 as real,
            f > 0 as real,
    ;
    assert((b + k * x) * f == b * f + (k * f) * x) by (nonlinear_arith);
    assert((-x) * x == -(x * x)) by (nonlinear_arith);
}

proof fn lemma_form_origin(g: Grid, e: Triple, s: Triple)
    requires
        is_origin(s),
    ensures
        g.form(e, s) == 0 as real,
        g.form(s, s) == 0 as real,
{
    lemma_dot_origin(g.r0, s);
    lemma_dot_origin(g.r1, s);
    lemma_dot_origin(g.r2, s);
    lemma_nothing(e.x, g.r0.dot(s));
    lemma_nothing(e.y, g.r1.dot(s));
    lemma_nothing(e.z, g.r2.dot(s));
    lemma_nothing(s.x, g.r0.dot(s));
    lemma_nothing(s.y, g.r1.dot(s));
    lemma_nothing(s.z, g.r2.dot(s));
}

pub proof fn lemma_dot_origin(r: Triple, s: Triple)
    requires
        is_origin(s),
    ensures
        r.dot(s) == 0 as real,
{
    lemma_nothing(r.x, s.x);
    lemma_nothing(r.y, s.y);
    lemma_nothing(r.z, s.z);
}

pub proof fn lemma_dot_swap(a: Triple, b: Triple)
    ensures
        a.dot(b) == b.dot(a),
{
    assert(a.x * b.x == b.x * a.x && a.y * b.y == b.y * a.y && a.z * b.z == b.z * a.z)
        by (nonlinear_arith);
}

/// What undoes more does less: where `k` times the form of `p` is at most that of
/// `q`, `k` times the form of what `q` undoes is at most that of what `p` undoes.
pub proof fn lemma_antitone(p: Grid, pi: Grid, q: Grid, qi: Grid, k: real, e: Triple)
    requires
        undoes(p, pi),
        undoes(q, qi),
        k > 0 as real,
        forall|e: Triple| k * #[trigger] p.form(e, e) <= q.form(e, e),
    ensures
        k * qi.form(e, e) <= pi.form(e, e),
{
    let (x, y) = (image(pi, e), image(qi, e));
    assert(image(p, x) == e && image(q, y) == e);
    // The forms of what undoes are those of the images.
    assert(pi.form(e, e) == e.dot(x) && qi.form(e, e) == e.dot(y));
    assert(p.form(x, x) == x.dot(e) && q.form(y, y) == y.dot(e) && p.form(y, x) == y.dot(e));
    lemma_dot_swap(e, x);
    lemma_dot_swap(e, y);
    lemma_cauchy_form(p, y, x);
    lemma_not_negative(pi, e);
    lemma_not_negative(qi, e);
    let (a, b, c) = (pi.form(e, e), qi.form(e, e), p.form(y, y));
    assert(k * c <= b);
    lemma_antitone_values(a, b, c, k);
}

proof fn lemma_antitone_values(a: real, b: real, c: real, k: real)
    requires
        b * b <= c * a,
        k * c <= b,
        k > 0 as real,
        a >= 0 as real,
        b >= 0 as real,
    ensures
        k * b <= a,
{
    if b > 0 as real {
        assert(k * (b * b) <= k * (c * a)) by (nonlinear_arith)
            requires
                b * b <= c * a,
                k > 0 as real,
        ;
        assert(k * (c * a) == (k * c) * a) by (nonlinear_arith);
        let kc = k * c;
        assert(kc * a <= b * a) by (nonlinear_arith)
            requires
                kc <= b,
                a >= 0 as real,
        ;
        assert(k * (b * b) == b * (k * b)) by (nonlinear_arith);
        let kb = k * b;
        assert(kb <= a) by (nonlinear_arith)
            requires
                b * kb <= b * a,
                b > 0 as real,
        ;
    } else {
        lemma_nothing(k, b);
    }
}

/// The transposed matrix of cofactors.
pub open spec fn adjugate(g: Grid) -> Grid {
    let (a, b, c) = (g.r0, g.r1, g.r2);
    Grid {
        r0: Triple {
            x: b.y * c.z - c.y * b.z,
            y: a.z * c.y - c.z * a.y,
            z: a.y * b.z - b.y * a.z,
        },
        r1: Triple {
            x: -(b.x * c.z - c.x * b.z),
            y: a.x * c.z - c.x * a.z,
            z: a.z * b.x - b.z * a.x,
        },
        r2: Triple {
            x: b.x * c.y - c.x * b.y,
            y: a.y * c.x - c.y * a.x,
            z: a.x * b.y - b.x * a.y,
        },
    }
}

/// Each entry times `k`.
pub open spec fn times(k: real, g: Grid) -> Grid {
    Grid { r0: part(k, g.r0), r1: part(k, g.r1), r2: part(k, g.r2) }
}

pub open spec fn part(k: real, e: Triple) -> Triple {
    Triple { x: k * e.x, y: k * e.y, z: k * e.z }
}

pub proof fn lemma_part_dot(k: real, r: Triple, e: Triple)
    ensures
        part(k, r).dot(e) == k * r.dot(e),
        r.dot(part(k, e)) == k * r.dot(e),
{
    lemma_times_sum(k, r.x * e.x, r.y * e.y, r.z * e.z);
    assert((k * r.x) * e.x == k * (r.x * e.x) && (k * r.y) * e.y == k * (r.y * e.y) && (k * r.z)
        * e.z == k * (r.z * e.z)) by (nonlinear_arith);
    assert(r.x * (k * e.x) == k * (r.x * e.x) && r.y * (k * e.y) == k * (r.y * e.y) && r.z * (k
        * e.z) == k * (r.z * e.z)) by (nonlinear_arith);
}

pub proof fn lemma_times_form(k: real, g: Grid, e: Triple, a: Triple)
    ensures
        times(k, g).form(e, a) == k * g.form(e, a),
        image(times(k, g), a) == part(k, image(g, a)),
{
    lemma_part_dot(k, g.r0, a);
    lemma_part_dot(k, g.r1, a);
    lemma_part_dot(k, g.r2, a);
    lemma_part_dot(k, e, image(g, a));
    assert(image(times(k, g), a) =~= part(k, image(g, a)));
}

/// The six different entries of a symmetric matrix and its determinant.
proof fn lemma_same_determinant(a: real, b: real, c: real, d: real, f: real, h: real)
    ensures
        ({
            let all = a * (d * h - f * f) - b * (b * h - f * c) + c * (b * f - d * c);
            &&& d * (h * a - c * c) - f * (f * a - c * b) + b * (f * c - h * b) == all
            &&& h * (a * d - b * b) - c * (c * d - b * f) + f * (c * b - a * f) == all
        }),
{
    lemma_spread(a, d, h, f, f);
    lemma_spread(b, b, h, f, c);
    lemma_spread(c, b, f, d, c);
    lemma_spread(d, h, a, c, c);
    lemma_spread(f, f, a, c, b);
    lemma_spread(b, f, c, h, b);
    lemma_spread(h, a, d, b, b);
    lemma_spread(c, c, d, b, f);
    lemma_spread(f, c, b, a, f);
    lemma_factors(a, d, h);
    lemma_factors(a, f, f);
    lemma_factors(b, b, h);
    lemma_factors(b, f, c);
    lemma_factors(c, d, c);
    lemma_factors(d, c, c);
    lemma_factors(f, f, a);
    lemma_factors(f, c, b);
    lemma_factors(h, b, b);
    lemma_factors(c, c, d);
}

/// The entries of a symmetric matrix by their six names.
pub proof fn lemma_adjugate_columns(a: real, b: real, c: real, d: real, f: real, h: real, det: real)
    requires
        det == a * (d * h - f * f) - b * (b * h - f * c) + c * (b * f - d * c),
    ensures
        // The first column.
        a * (d * h - f * f) + b * (f * c - b * h) + c * (f * b - d * c) == det,
        b * (d * h - f * f) + d * (f * c - b * h) + f * (f * b - d * c) == 0 as real,
        c * (d * h - f * f) + f * (f * c - b * h) + h * (f * b - d * c) == 0 as real,
        // The second.
        a * (c * f - h * b) + b * (h * a - c * c) + c * (c * b - f * a) == 0 as real,
        b * (c * f - h * b) + d * (h * a - c * c) + f * (c * b - f * a) == det,
        c * (c * f - h * b) + f * (h * a - c * c) + h * (c * b - f * a) == 0 as real,
        // The third.
        a * (b * f - c * d) + b * (b * c - a * f) + c * (a * d - b * b) == 0 as real,
        b * (b * f - c * d) + d * (b * c - a * f) + f * (a * d - b * b) == 0 as real,
        c * (b * f - c * d) + f * (b * c - a * f) + h * (a * d - b * b) == det,
{
    lemma_same_determinant(a, b, c, d, f, h);
    lemma_third_row(a, b, c, d, f, h);
    lemma_third_row(d, f, b, h, c, a);
    lemma_third_row(h, c, f, a, b, d);
    assert(c * b == b * c && f * b == b * f && f * c == c * f && h * b == b * h && h * a == a * h
        && f * a == a * f && d * c == c * d) by (nonlinear_arith);
}

/// A row times a matrix times a vector.
pub proof fn lemma_compose_row(r: Triple, m: Grid, e: Triple)
    ensures
        r.dot(image(m, e)) == (r.x * m.r0.x + r.y * m.r1.x + r.z * m.r2.x) * e.x + (r.x * m.r0.y
            + r.y * m.r1.y + r.z * m.r2.y) * e.y + (r.x * m.r0.z + r.y * m.r1.z + r.z * m.r2.z)
            * e.z,
{
    lemma_compose_term(r.x, m.r0, e);
    lemma_compose_term(r.y, m.r1, e);
    lemma_compose_term(r.z, m.r2, e);
    lemma_three_by(r.x * m.r0.x, r.y * m.r1.x, r.z * m.r2.x, e.x);
    lemma_three_by(r.x * m.r0.y, r.y * m.r1.y, r.z * m.r2.y, e.y);
    lemma_three_by(r.x * m.r0.z, r.y * m.r1.z, r.z * m.r2.z, e.z);
}

proof fn lemma_compose_term(k: real, m: Triple, e: Triple)
    ensures
        k * m.dot(e) == (k * m.x) * e.x + (k * m.y) * e.y + (k * m.z) * e.z,
{
    lemma_times_sum(k, m.x * e.x, m.y * e.y, m.z * e.z);
    assert(k * (m.x * e.x) == (k * m.x) * e.x && k * (m.y * e.y) == (k * m.y) * e.y && k * (m.z
        * e.z) == (k * m.z) * e.z) by (nonlinear_arith);
}

proof fn lemma_three_by(a: real, b: real, c: real, e: real)
    ensures
        (a + b + c) * e == a * e + b * e + c * e,
{
    assert((a + b + c) * e == a * e + b * e + c * e) by (nonlinear_arith);
}

/// The adjugate and the matrix undo each other, but for the determinant.
pub proof fn lemma_adjugate(g: Grid, e: Triple)
    requires
        is_symmetric(g),
    ensures
        image(g, image(adjugate(g), e)) == part(determinant(g), e),
        image(adjugate(g), image(g, e)) == part(determinant(g), e),
        is_symmetric(adjugate(g)),
{
    let (a, b, c) = (g.r0.x, g.r0.y, g.r0.z);
    let (d, f, h) = (g.r1.y, g.r1.z, g.r2.z);
    assert(g.r1.x == b && g.r2.x == c && g.r2.y == f);
    let det = determinant(g);
    lemma_adjugate_columns(a, b, c, d, f, h, det);
    let m = adjugate(g);
    assert(c * b == b * c && f * b == b * f && f * c == c * f && h * b == b * h && h * a == a * h
        && f * a == a * f && d * c == c * d && h * d == d * h && b * a == a * b && c * a == a * c)
        by (nonlinear_arith);
    assert(m.r0.x == d * h - f * f && m.r1.x == f * c - b * h && m.r2.x == f * b - d * c);
    assert(m.r0.y == c * f - h * b && m.r1.y == h * a - c * c && m.r2.y == c * b - f * a);
    assert(m.r0.z == b * f - c * d && m.r1.z == b * c - a * f && m.r2.z == a * d - b * b);
    assert(m =~= m.transposed());
    lemma_compose_row(g.r0, m, e);
    lemma_compose_row(g.r1, m, e);
    lemma_compose_row(g.r2, m, e);
    lemma_unit_rows(det, e);
    assert(image(g, image(m, e)) =~= part(det, e));
    lemma_compose_row(m.r0, g, e);
    lemma_compose_row(m.r1, g, e);
    lemma_compose_row(m.r2, g, e);
    lemma_swapped_row(m.r0, g);
    lemma_swapped_row(m.r1, g);
    lemma_swapped_row(m.r2, g);
    assert(image(m, image(g, e)) =~= part(det, e));
}

proof fn lemma_unit_rows(det: real, e: Triple)
    ensures
        0 as real * e.x == 0 as real,
        0 as real * e.y == 0 as real,
        0 as real * e.z == 0 as real,
{
    assert(0 as real * e.x == 0 as real) by (nonlinear_arith);
    assert(0 as real * e.y == 0 as real) by (nonlinear_arith);
    assert(0 as real * e.z == 0 as real) by (nonlinear_arith);
}

proof fn lemma_swapped_row(r: Triple, g: Grid)
    ensures
        r.x * g.r0.x == g.r0.x * r.x && r.y * g.r1.x == g.r1.x * r.y && r.z * g.r2.x == g.r2.x * r.z,
        r.x * g.r0.y == g.r0.y * r.x && r.y * g.r1.y == g.r1.y * r.y && r.z * g.r2.y == g.r2.y * r.z,
        r.x * g.r0.z == g.r0.z * r.x && r.y * g.r1.z == g.r1.z * r.y && r.z * g.r2.z == g.r2.z * r.z,
{
    lemma_swapped(r, g.r0.x, g.r1.x, g.r2.x);
    lemma_swapped(r, g.r0.y, g.r1.y, g.r2.y);
    lemma_swapped(r, g.r0.z, g.r1.z, g.r2.z);
}

proof fn lemma_swapped(r: Triple, a: real, b: real, c: real)
    ensures
        r.x * a == a * r.x && r.y * b == b * r.y && r.z * c == c * r.z,
{
    assert(r.x * a == a * r.x && r.y * b == b * r.y && r.z * c == c * r.z) by (nonlinear_arith);
}

/// The inverse.
pub open spec fn inverted(g: Grid) -> Grid {
    times(1 as real / determinant(g), adjugate(g))
}

pub proof fn lemma_inverted(g: Grid)
    requires
        is_positive(g),
    ensures
        undoes(g, inverted(g)),
        undoes(inverted(g), g),
        determinant(g) > 0 as real,
{
    lemma_signs(g);
    let (m, det, i) = (adjugate(g), determinant(g), inverted(g));
    let k = 1 as real / det;
    assert(k * det == 1 as real) by (nonlinear_arith)
        requires
            k == 1 as real / det,
            det > 0 as real,
    ;
    lemma_adjugate(g, g.r0);
    assert(is_symmetric(i)) by {
        assert(m == m.transposed());
        assert(i =~= i.transposed());
    }
    assert forall|e: Triple| image(g, #[trigger] image(i, e)) == e && image(i, image(g, e)) == e by {
        lemma_adjugate(g, e);
        lemma_times_form(k, m, e, e);
        lemma_times_form(k, m, e, image(g, e));
        let x = image(m, e);
        lemma_part_dot(k, g.r0, x);
        lemma_part_dot(k, g.r1, x);
        lemma_part_dot(k, g.r2, x);
        lemma_back(k, det, e);
        assert(image(g, image(i, e)) =~= e);
        assert(image(i, image(g, e)) =~= e);
    }
    assert forall|e: Triple| image(i, #[trigger] image(g, e)) == e by {
        assert(image(g, image(i, e)) == e);
    }
    assert forall|e: Triple| !is_origin(e) implies #[trigger] i.form(e, e) > 0 as real by {
        let x = image(i, e);
        assert(image(g, x) == e);
        if is_origin(x) {
            lemma_dot_origin(g.r0, x);
            lemma_dot_origin(g.r1, x);
            lemma_dot_origin(g.r2, x);
        }
        assert(g.form(x, x) > 0 as real);
        assert(g.form(x, x) == x.dot(e) && i.form(e, e) == e.dot(x));
        lemma_dot_swap(e, x);
    }
}

proof fn lemma_back(k: real, det: real, e: Triple)
    requires
        k * det == 1 as real,
    ensures
        part(k, part(det, e)) == e,
{
    assert(k * (det * e.x) == (k * det) * e.x && k * (det * e.y) == (k * det) * e.y && k * (det
        * e.z) == (k * det) * e.z) by (nonlinear_arith);
    assert(1 as real * e.x == e.x && 1 as real * e.y == e.y && 1 as real * e.z == e.z)
        by (nonlinear_arith);
    assert(part(k, part(det, e)) =~= e);
}

/// `k` on the diagonal and nothing else.
pub open spec fn uniform(k: real) -> Grid {
    let o = 0 as real;
    Grid {
        r0: Triple { x: k, y: o, z: o },
        r1: Triple { x: o, y: k, z: o },
        r2: Triple { x: o, y: o, z: k },
    }
}

pub proof fn lemma_uniform_form(k: real, e: Triple, a: Triple)
    ensures
        uniform(k).form(e, a) == k * e.dot(a),
{
    let g = uniform(k);
    lemma_unit_rows(k, a);
    assert(image(g, a) =~= part(k, a));
    lemma_part_dot(k, e, a);
}

pub proof fn lemma_dot_sign(e: Triple)
    ensures
        e.dot(e) >= 0 as real,
        !is_origin(e) ==> e.dot(e) > 0 as real,
{
    lemma_square_sign(e.x);
    lemma_square_sign(e.y);
    lemma_square_sign(e.z);
    lemma_square_of_some(e.x);
    lemma_square_of_some(e.y);
    lemma_square_of_some(e.z);
}

proof fn lemma_square_of_some(x: real)
    ensures
        x != 0 as real ==> x * x > 0 as real,
{
    if x != 0 as real {
        assert(x * x > 0 as real) by (nonlinear_arith)
            requires
                x != 0 as real,
        ;
    }
}

pub proof fn lemma_uniform(k: real)
    requires
        k > 0 as real,
    ensures
        is_positive(uniform(k)),
        determinant(uniform(k)) == k * (k * k),
{
    let g = uniform(k);
    assert(g =~= g.transposed());
    assert forall|e: Triple| !is_origin(e) implies #[trigger] g.form(e, e) > 0 as real by {
        lemma_uniform_form(k, e, e);
        lemma_dot_sign(e);
        let d = e.dot(e);
        assert(k * d > 0 as real) by (nonlinear_arith)
            requires
                k > 0 as real,
                d > 0 as real,
        ;
    }
    assert(0 as real * k == 0 as real && 0 as real * (0 as real) == 0 as real && k * (0 as real)
        == 0 as real) by (nonlinear_arith);
    assert(k * (k * k - 0 as real) == k * (k * k));
    assert(0 as real * (0 as real - 0 as real) == 0 as real);
}

/// The inner product of two vectors is bounded by their lengths.
proof fn lemma_cauchy_dot(e: Triple, s: Triple)
    ensures
        e.dot(s) * e.dot(s) <= e.dot(e) * s.dot(s),
{
    let one = 1 as real;
    lemma_uniform(one);
    lemma_cauchy_form(uniform(one), e, s);
    lemma_uniform_form(one, e, s);
    lemma_uniform_form(one, e, e);
    lemma_uniform_form(one, s, s);
    let (x, y, z) = (e.dot(s), e.dot(e), s.dot(s));
    assert(one * x == x && one * y == y && one * z == z) by (nonlinear_arith)
        requires
            one == 1 as real,
    ;
}

pub proof fn lemma_round_is_positive(g: Grid, l: real, u: real)
    requires
        is_round(g, l, u),
    ensures
        is_positive(g),
        l <= u,
{
    assert forall|e: Triple| !is_origin(e) implies #[trigger] g.form(e, e) > 0 as real by {
        lemma_dot_sign(e);
        let d = e.dot(e);
        assert(l * d > 0 as real) by (nonlinear_arith)
            requires
                l > 0 as real,
                d > 0 as real,
        ;
    }
    let e = Triple { x: 1 as real, y: 0 as real, z: 0 as real };
    assert(g.form(e, e) <= u * e.dot(e) && l * e.dot(e) <= g.form(e, e));
    let d = e.dot(e);
    assert(d == 1 as real);
    assert(l * d == l && u * d == u) by (nonlinear_arith)
        requires
            d == 1 as real,
    ;
}

/// What undoes a matrix that stretches between `l` and `u` stretches between the
/// reciprocals.
pub proof fn lemma_round_inverse(g: Grid, i: Grid, l: real, u: real, e: Triple)
    requires
        is_round(g, l, u),
        undoes(g, i),
    ensures
        e.dot(e) <= u * i.form(e, e),
        l * i.form(e, e) <= e.dot(e),
{
    let x = image(i, e);
    assert(image(g, x) == e);
    let (v, d, n) = (i.form(e, e), e.dot(e), x.dot(x));
    assert(v == e.dot(x) && g.form(x, x) == x.dot(e) && g.form(e, x) == e.dot(e));
    lemma_dot_swap(e, x);
    lemma_not_negative(i, e);
    lemma_dot_sign(e);
    lemma_dot_sign(x);
    lemma_cauchy_dot(e, x);
    lemma_round_is_positive(g, l, u);
    lemma_cauchy_form(g, e, x);
    let w = g.form(e, e);
    assert(l * n <= v && w <= u * d);
    // The second bound, from the lengths.
    lemma_antitone_values(d, v, n, l);
    // The first, from the forms.
    if d > 0 as real {
        assert(w * v <= (u * d) * v) by (nonlinear_arith)
            requires
                w <= u * d,
                v >= 0 as real,
        ;
        assert((u * d) * v == d * (u * v)) by (nonlinear_arith);
        let uv = u * v;
        assert(d <= uv) by (nonlinear_arith)
            requires
                d * d <= d * uv,
                d > 0 as real,
        ;
    } else {
        assert(u * v >= 0 as real) by (nonlinear_arith)
            requires
                u > 0 as real,
                v >= 0 as real,
        ;
    }
}

/// A matrix whose form is nowhere more than `k` times as large has at most `k`
/// cubed times the determinant.
pub proof fn lemma_determinant_grows(m: Grid, a: Grid, k: real)
    requires
        is_positive(a),
        is_positive(m),
        k > 0 as real,
        forall|e: Triple| #[trigger] m.form(e, e) <= k * a.form(e, e),
    ensures
        determinant(m) <= (k * (k * k)) * determinant(a),
        determinant(m) > 0 as real,
        determinant(a) > 0 as real,
{
    lemma_signs(a);
    lemma_signs(m);
    let (sa, sm) = (second(a), second(m));
    let (ta, tm) = (third(a), third(m));
    let e = Triple { x: 1 as real, y: 0 as real, z: 0 as real };
    lemma_first(a);
    lemma_first(m);
    assert(m.form(e, e) <= k * a.form(e, e));
    lemma_second(a, sa);
    lemma_second(m, sm);
    lemma_second(m, sa);
    lemma_grows_once(m, a, sa, sm, a.r0.x, m.r0.x, minor(a), minor(m), k, k);
    lemma_third(a, ta);
    lemma_third(m, tm);
    lemma_third(m, ta);
    lemma_grows_once(m, a, ta, tm, minor(a), minor(m), determinant(a), determinant(m), k, k * k);
}

proof fn lemma_grows_once(
    m: Grid,
    a: Grid,
    s: Triple,
    t: Triple,
    p: real,
    q: real,
    x: real,
    y: real,
    k: real,
    r: real,
)
    requires
        is_positive(m),
        forall|e: Triple| #[trigger] m.form(e, e) <= k * a.form(e, e),
        a.form(s, s) == p * x,
        m.form(s, t) == p * y,
        m.form(t, t) == q * y,
        p > 0 as real,
        q > 0 as real,
        q <= r * p,
        x > 0 as real,
        y > 0 as real,
        k > 0 as real,
    ensures
        y <= (k * r) * x,
{
    lemma_cauchy_form(m, s, t);
    let f = m.form(s, s);
    assert(f <= k * a.form(s, s));
    lemma_pivot(p, q, x, y, f, k, r);
}

/// One more pivot.
proof fn lemma_pivot(p: real, q: real, x: real, y: real, f: real, k: real, r: real)
    requires
        p > 0 as real,
        q > 0 as real,
        q <= r * p,
        x > 0 as real,
        y > 0 as real,
        k > 0 as real,
        (p * y) * (p * y) <= f * (q * y),
        f <= k * (p * x),
    ensures
        y <= (k * r) * x,
{
    let (w, qy, py) = (k * (p * x), q * y, p * y);
    lemma_some(q, y);
    lemma_some(p, y);
    lemma_some(p, x);
    lemma_some(k, p * x);
    lemma_no_more(f, w, qy);
    lemma_no_more(q, r * p, y);
    assert((r * p) * y == r * (p * y)) by (nonlinear_arith);
    let rpy = r * py;
    lemma_no_more(qy, rpy, w);
    assert(qy * w == w * qy && rpy * w == w * rpy) by (nonlinear_arith);
    assert(w * (r * py) == (w * r) * py) by (nonlinear_arith);
    let wr = w * r;
    assert(py <= wr) by (nonlinear_arith)
        requires
            py * py <= wr * py,
            py > 0 as real,
    ;
    let z = (k * r) * x;
    assert((k * (p * x)) * r == p * ((k * r) * x)) by (nonlinear_arith);
    assert(y <= z) by (nonlinear_arith)
        requires
            p * y <= p * z,
            p > 0 as real,
    ;
}

proof fn lemma_some(a: real, b: real)
    requires
        a > 0 as real,
        b > 0 as real,
    ensures
        a * b > 0 as real,
{
    assert(a * b > 0 as real) by (nonlinear_arith)
        requires
            a > 0 as real,
            b > 0 as real,
    ;
}

proof fn lemma_no_more(a: real, b: real, k: real)
    requires
        a <= b,
        k >= 0 as real,
    ensures
        a * k <= b * k,
{
    assert(a * k <= b * k) by (nonlinear_arith)
        requires
            a <= b,
            k >= 0 as real,
    ;
}

/// The first pivots of a matrix that stretches by at least `l`.
proof fn lemma_first_pivot(g: Grid, l: real, u: real)
    requires
        is_round(g, l, u),
    ensures
        determinant(g) >= l * (l * g.r0.x),
        g.r0.x >= l,
{
    lemma_round_is_positive(g, l, u);
    lemma_signs(g);
    let (s, t) = (second(g), third(g));
    let e = Triple { x: 1 as real, y: 0 as real, z: 0 as real };
    lemma_first(g);
    assert(l * e.dot(e) <= g.form(e, e));
    let d = e.dot(e);
    assert(d == 1 as real);
    assert(l * d == l) by (nonlinear_arith)
        requires
            d == 1 as real,
    ;
    lemma_second(g, s);
    lemma_third(g, t);
    lemma_pivot_at_least(s.y, s.dot(s), minor(g), g.form(s, s), l);
    lemma_pivot_at_least(t.z, t.dot(t), determinant(g), g.form(t, t), l);
    lemma_squares(s);
    lemma_squares(t);
    let (m, a) = (minor(g), g.r0.x);
    assert(l * m >= l * (l * a)) by (nonlinear_arith)
        requires
            m >= l * a,
            l > 0 as real,
    ;
}

proof fn lemma_squares(e: Triple)
    ensures
        e.dot(e) >= e.y * e.y,
        e.dot(e) >= e.z * e.z,
{
    lemma_square_sign(e.x);
    lemma_square_sign(e.y);
    lemma_square_sign(e.z);
}

/// A pivot `x` of which `p` times it is a form of at least `l` times `p` squared.
proof fn lemma_pivot_at_least(p: real, d: real, x: real, f: real, l: real)
    requires
        f == p * x,
        l * d <= f,
        l > 0 as real,
    ensures
        p > 0 as real && d >= p * p ==> x >= l * p,
{
    if p > 0 as real && d >= p * p {
        let pp = p * p;
        assert(l * pp <= l * d) by (nonlinear_arith)
            requires
                pp <= d,
                l > 0 as real,
        ;
        assert(l * (p * p) == p * (l * p)) by (nonlinear_arith);
        let lp = l * p;
        assert(x >= lp) by (nonlinear_arith)
            requires
                p * lp <= p * x,
                p > 0 as real,
        ;
    }
}

/// The matrix with its axes in turn.
pub open spec fn turned(g: Grid) -> Grid {
    Grid {
        r0: Triple { x: g.r1.y, y: g.r1.z, z: g.r1.x },
        r1: Triple { x: g.r2.y, y: g.r2.z, z: g.r2.x },
        r2: Triple { x: g.r0.y, y: g.r0.z, z: g.r0.x },
    }
}

proof fn lemma_turned(g: Grid, l: real, u: real)
    requires
        is_round(g, l, u),
    ensures
        is_round(turned(g), l, u),
        determinant(turned(g)) == determinant(g),
{
    let t = turned(g);
    assert(g.r1.x == g.r0.y && g.r2.x == g.r0.z && g.r2.y == g.r1.z);
    assert(t =~= t.transposed());
    lemma_same_determinant(g.r0.x, g.r0.y, g.r0.z, g.r1.y, g.r1.z, g.r2.z);
    let (a, b, c, d, f, h) = (g.r0.x, g.r0.y, g.r0.z, g.r1.y, g.r1.z, g.r2.z);
    assert(c * b == b * c && f * b == b * f && f * c == c * f && h * b == b * h && h * a == a * h
        && f * a == a * f && d * c == c * d) by (nonlinear_arith);
    assert forall|e: Triple|
        l * e.dot(e) <= #[trigger] t.form(e, e) && t.form(e, e) <= u * e.dot(e) by {
        let w = Triple { x: e.z, y: e.x, z: e.y };
        assert(t.r0.dot(e) == g.r1.dot(w) && t.r1.dot(e) == g.r2.dot(w) && t.r2.dot(e) == g.r0.dot(
            w,
        ));
        assert(t.form(e, e) == g.form(w, w));
        assert(e.dot(e) == w.dot(w));
    }
}

/// The determinant of a matrix that stretches by at least `l`, against its largest
/// entry.
pub proof fn lemma_determinant_at_least(g: Grid, l: real, u: real)
    requires
        is_round(g, l, u),
    ensures
        determinant(g) >= l * (l * g.r0.x),
        determinant(g) >= l * (l * g.r1.y),
        determinant(g) >= l * (l * g.r2.z),
        g.r0.x >= l && g.r1.y >= l && g.r2.z >= l,
{
    let t = turned(g);
    lemma_turned(g, l, u);
    lemma_turned(t, l, u);
    lemma_first_pivot(g, l, u);
    lemma_first_pivot(t, l, u);
    lemma_first_pivot(turned(t), l, u);
}

} // verus!
