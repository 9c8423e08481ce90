//! The computed inverse of a matrix that is symmetric up to rounding and not too
//! flat.
use crate::error::{eps, lemma_negated_value, lemma_square_sign, lemma_tiny, size, value};
use crate::forms::{grid, lemma_form_plus, Grid, Triple};
use crate::inversion::{
    is_alike, is_close, is_within, lemma_close_forms, lemma_det, lemma_entries, lemma_entry,
    lemma_minor, lemma_reciprocal, lemma_round_undoing,
};
use crate::matrix::M3;
use crate::metric::{finite, lemma_product_size};
use crate::number::Number;
use crate::preference::{determinant, is_positive, lemma_not_negative};
use crate::relative::lemma_not_nought;
use crate::skew::{
    evened, lemma_adjugate_parts, lemma_determinant_parts, lemma_evened, lemma_squared_up,
    squared_up, twist,
};
use crate::spectra::{
    adjugate, image, inverted, is_round, lemma_cauchy_form, lemma_determinant_at_least,
    lemma_dot_swap, lemma_inverted, lemma_round_inverse, lemma_round_is_positive, lemma_times_form,
    lemma_uniform_form, times, undoes, uniform,
};
use vstd::prelude::*;

verus! {

/// The symmetric part of what a matrix stands for.
pub open spec fn shape(m: M3) -> Grid {
    evened(grid(m))
}

/// By how much it is not symmetric.
pub open spec fn bent(m: M3) -> Triple {
    twist(grid(m))
}

/// Whether no component is more than `t`.
pub open spec fn is_small(e: Triple, t: real) -> bool {
    size(e.x) <= t && size(e.y) <= t && size(e.z) <= t
}

/// The largest entry of the diagonal.
pub open spec fn largest(g: Grid) -> real {
    if g.r0.x >= g.r1.y && g.r0.x >= g.r2.z {
        g.r0.x
    } else if g.r1.y >= g.r2.z {
        g.r1.y
    } else {
        g.r2.z
    }
}

/// A matrix that stretches between `l` and `k` times `l` and is symmetric within
/// `t`; `n` is a rounding of the square of `k`.
pub open spec fn is_sound(m: M3, l: real, k: real, n: real, t: real) -> bool {
    &&& finite(m.r0) && finite(m.r1) && finite(m.r2)
    &&& is_round(shape(m), l, k * l)
    &&& is_small(bent(m), t)
    &&& 18 as real * (t * t) <= n * (l * l)
    &&& t >= 0 as real
    &&& l >= (1 as real) / (0x4_0000 as real)
    &&& k * l <= 0x4_0000 as real
    &&& n == (k * k) * eps()
    &&& n <= (1 as real) / (8000 as real)
    &&& k >= 1 as real
}

/// The entries of a symmetric matrix against the largest of its diagonal.
pub proof fn lemma_largest(g: Grid, l: real, u: real)
    requires
        is_round(g, l, u),
    ensures
        ({
            let m = largest(g);
            &&& is_small(g.r0, m) && is_small(g.r1, m) && is_small(g.r2, m)
            &&& m >= l
            &&& m <= u
            &&& determinant(g) >= (l * l) * m
            &&& determinant(g) > 0 as real
        }),
{
    let m = largest(g);
    lemma_entries(g, l, u);
    lemma_determinant_at_least(g, l, u);
    assert(determinant(g) >= l * (l * m));
    assert(l * (l * m) == (l * l) * m) by (nonlinear_arith);
    lemma_off_diagonal(g, l, u);
    let ll = l * l;
    assert(ll * m > 0 as real) by (nonlinear_arith)
        requires
            ll == l * l,
            l > 0 as real,
            m >= l,
    ;
}

/// An entry off the diagonal is at most the mean of the two on it.
proof fn lemma_off_diagonal(g: Grid, l: real, u: real)
    requires
        is_round(g, l, u),
    ensures
        2 as real * size(g.r0.y) <= g.r0.x + g.r1.y,
        2 as real * size(g.r0.z) <= g.r0.x + g.r2.z,
        2 as real * size(g.r1.z) <= g.r1.y + g.r2.z,
        g.r1.x == g.r0.y && g.r2.x == g.r0.z && g.r2.y == g.r1.z,
{
    lemma_round_is_positive(g, l, u);
    assert(g.r1.x == g.r0.y && g.r2.x == g.r0.z && g.r2.y == g.r1.z);
    let (o, i, j) = (0 as real, 1 as real, -(1 as real));
    lemma_pair_form(g, Triple { x: i, y: i, z: o });
    lemma_pair_form(g, Triple { x: i, y: j, z: o });
    lemma_pair_form(g, Triple { x: i, y: o, z: i });
    lemma_pair_form(g, Triple { x: i, y: o, z: j });
    lemma_pair_form(g, Triple { x: o, y: i, z: i });
    lemma_pair_form(g, Triple { x: o, y: i, z: j });
}

proof fn lemma_pair_form(g: Grid, e: Triple)
    requires
        is_positive(g),
    ensures
        g.form(e, e) >= 0 as real,
{
    lemma_not_negative(g, e);
}

/// The sizes of a sound matrix.
pub proof fn lemma_sound_sizes(m: M3, l: real, k: real, n: real, t: real)
    requires
        is_sound(m, l, k, n, t),
    ensures
        ({
            let (g, big) = (shape(m), largest(shape(m)));
            let (w, det) = ((1003 as real / (1000 as real)) * big, determinant(g));
            &&& is_within(m, w)
            &&& w >= (1 as real) / (0x10_0000 as real)
            &&& w <= 0x10_0000 as real
            &&& det > 0 as real
            &&& big >= l
            &&& big <= k * l
            &&& det >= (l * l) * big
            &&& (w * (w * w)) * eps() <= (101 as real / (100 as real)) * (n * det)
            &&& ((w * w) * (k * l)) * eps() <= (101 as real / (100 as real)) * (n * det)
            &&& t <= (3 as real / (1000 as real)) * l
            &&& n > 0 as real
            &&& n >= k * eps()
            &&& is_small(g.r0, big) && is_small(g.r1, big) && is_small(g.r2, big)
        }),
{
    lemma_tiny();
    let (g, u, e) = (shape(m), k * l, eps());
    let big = largest(g);
    let det = determinant(g);
    lemma_largest(g, l, u);
    lemma_round_is_positive(g, l, u);
    assert(t <= (3 as real / (1000 as real)) * l) by {
        let ll = l * l;
        assert(n * ll <= ll / (8000 as real)) by (nonlinear_arith)
            requires
                n <= (1 as real) / (8000 as real),
                ll == l * l,
        ;
        assert(t <= (3 as real / (1000 as real)) * l) by (nonlinear_arith)
            requires
                18 as real * (t * t) <= ll / (8000 as real),
                ll == l * l,
                l > 0 as real,
                t >= 0 as real,
        ;
    }
    let w = (1003 as real / (1000 as real)) * big;
    assert(w == big + 3 as real * big / (1000 as real)) by (nonlinear_arith)
        requires
            w == (1003 as real / (1000 as real)) * big,
    ;
    let kk = k * k;
    assert(kk >= k && kk >= 1 as real) by (nonlinear_arith)
        requires
            kk == k * k,
            k >= 1 as real,
    ;
    assert(kk * e >= k * e && k * e > 0 as real) by (nonlinear_arith)
        requires
            kk >= k,
            k >= 1 as real,
            e > 0 as real,
    ;
    lemma_cubes(big, l, k, n, det, w);
}

proof fn lemma_cubes(big: real, l: real, k: real, n: real, det: real, w: real)
    requires
        big >= l,
        big <= k * l,
        l > 0 as real,
        k >= 1 as real,
        det >= (l * l) * big,
        n == (k * k) * eps(),
        w == (1003 as real / (1000 as real)) * big,
    ensures
        (w * (w * w)) * eps() <= (101 as real / (100 as real)) * (n * det),
        ((w * w) * (k * l)) * eps() <= (101 as real / (100 as real)) * (n * det),
{
    lemma_tiny();
    let (e, u, bb) = (eps(), k * l, big * big);
    let uu = u * u;
    assert(bb <= big * u && bb >= 0 as real) by (nonlinear_arith)
        requires
            bb == big * big,
            big <= u,
            big >= l,
            l > 0 as real,
    ;
    let p = big * uu;
    assert(bb * u <= p && big * bb <= bb * u) by (nonlinear_arith)
        requires
            bb <= big * u,
            bb >= 0 as real,
            big <= u,
            big >= 0 as real,
            uu == u * u,
            p == big * uu,
            u > 0 as real,
    ;
    // big * u * u is k * k times l * l * big.
    assert(p == (k * k) * ((l * l) * big)) by {
        assert((k * l) * (k * l) == (k * k) * (l * l)) by (nonlinear_arith);
        let (kk, ll) = (k * k, l * l);
        assert(big * (kk * ll) == kk * (ll * big)) by (nonlinear_arith);
    }
    let (kk, d) = (k * k, (l * l) * big);
    assert(kk >= 0 as real) by (nonlinear_arith)
        requires
            kk == k * k,
    ;
    assert(kk * d <= kk * det) by (nonlinear_arith)
        requires
            d <= det,
            kk >= 0 as real,
    ;
    let q = kk * det;
    assert(q * e == n * det) by (nonlinear_arith)
        requires
            q == kk * det,
            n == kk * e,
    ;
    let c = 1003 as real / (1000 as real);
    assert(w * w == (c * c) * bb) by (nonlinear_arith)
        requires
            w == c * big,
            bb == big * big,
    ;
    let cc = c * c;
    assert(cc <= 1007 as real / (1000 as real) && cc >= 0 as real && c * cc <= 101 as real / (
    100 as real) && c * cc >= 0 as real) by (nonlinear_arith)
        requires
            c == 1003 as real / (1000 as real),
            cc == c * c,
    ;
    let (b3, bu) = (big * bb, bb * u);
    let c3 = c * cc;
    assert(w * (w * w) == c3 * b3) by (nonlinear_arith)
        requires
            w == c * big,
            w * w == cc * bb,
            c3 == c * cc,
            b3 == big * bb,
    ;
    assert((w * w) * u == cc * bu) by (nonlinear_arith)
        requires
            w * w == cc * bb,
            bu == bb * u,
    ;
    assert(b3 >= 0 as real && bu >= 0 as real) by (nonlinear_arith)
        requires
            b3 == big * bb,
            bu == bb * u,
            big >= 0 as real,
            bb >= 0 as real,
            u > 0 as real,
    ;
    let s = 101 as real / (100 as real);
    assert((c3 * b3) * e <= s * (q * e) && (cc * bu) * e <= s * (q * e)) by (nonlinear_arith)
        requires
            c3 <= s,
            c3 >= 0 as real,
            cc <= s,
            cc >= 0 as real,
            b3 <= q,
            bu <= q,
            b3 >= 0 as real,
            bu >= 0 as real,
            e > 0 as real,
            s == 101 as real / (100 as real),
    ;
}

/// The form of a matrix with entries of at most `big`.
proof fn lemma_form_size(g: Grid, big: real, e: Triple)
    requires
        is_small(g.r0, big) && is_small(g.r1, big) && is_small(g.r2, big),
        big >= 0 as real,
    ensures
        size(g.form(e, e)) <= 3 as real * (big * e.dot(e)),
{
    let z = uniform(0 as real);
    lemma_uniform_form(0 as real, e, e);
    let d = e.dot(e);
    assert(0 as real * d == 0 as real) by (nonlinear_arith);
    lemma_close_forms(g, z, big, e);
}

/// The square of the length of a vector with components of at most `t`.
pub proof fn lemma_small_length(e: Triple, t: real)
    requires
        is_small(e, t),
    ensures
        e.dot(e) <= 3 as real * (t * t),
        e.dot(e) >= 0 as real,
        size(e.x) + size(e.y) + size(e.z) <= 3 as real * t,
{
    lemma_product_size(e.x, e.x, t, t);
    lemma_product_size(e.y, e.y, t, t);
    lemma_product_size(e.z, e.z, t, t);
    lemma_square_sign(e.x);
    lemma_square_sign(e.y);
    lemma_square_sign(e.z);
}

/// What the missing symmetry adds to the determinant is less than a rounding.
pub proof fn lemma_bent_form(m: M3, l: real, k: real, n: real, t: real)
    requires
        is_sound(m, l, k, n, t),
    ensures
        shape(m).form(bent(m), bent(m)) <= (n * determinant(shape(m))) / (2 as real),
        shape(m).form(bent(m), bent(m)) >= 0 as real,
{
    lemma_sound_sizes(m, l, k, n, t);
    let (g, b) = (shape(m), bent(m));
    let (big, det) = (largest(g), determinant(g));
    lemma_round_is_positive(g, l, k * l);
    lemma_not_negative(g, b);
    lemma_form_size(g, big, b);
    lemma_small_length(b, t);
    let (d, tt, ll) = (b.dot(b), t * t, l * l);
    assert(big * d <= 3 as real * (big * tt)) by (nonlinear_arith)
        requires
            d <= 3 as real * tt,
            big >= 0 as real,
    ;
    assert(18 as real * (big * tt) <= n * (ll * big)) by (nonlinear_arith)
        requires
            18 as real * tt <= n * ll,
            big >= 0 as real,
    ;
    let p = ll * big;
    assert(n * p <= n * det) by (nonlinear_arith)
        requires
            p <= det,
            n > 0 as real,
    ;
}

/// The computed determinant of a sound matrix.
pub proof fn lemma_sound_determinant(m: M3, l: real, k: real, n: real, t: real)
    requires
        is_sound(m, l, k, n, t),
    ensures
        m.determinant() is Finite,
        !m.is_singular(),
        value(m.determinant()) > 0 as real,
        determinant(shape(m)) > 0 as real,
        size(value(m.determinant()) - determinant(shape(m))) <= 33 as real * (n * determinant(
            shape(m),
        )),
{
    lemma_sound_sizes(m, l, k, n, t);
    lemma_bent_form(m, l, k, n, t);
    lemma_determinant_parts(grid(m));
    let (det, e) = (determinant(shape(m)), eps());
    let w = (1003 as real / (1000 as real)) * largest(shape(m));
    lemma_det(m, w);
    let f = w * (w * w);
    assert(f * (32 as real * e) == 32 as real * (f * e)) by (nonlinear_arith);
    let nd = n * det;
    assert(nd <= det / (8000 as real) && nd >= 0 as real) by (nonlinear_arith)
        requires
            nd == n * det,
            n <= (1 as real) / (8000 as real),
            n > 0 as real,
            det > 0 as real,
    ;
    lemma_not_nought(m.determinant());
}

/// The exact cofactors, entry by entry, are bounded by the determinant over the
/// least stretch: `i` is the entry of the exact inverse of the symmetric part.
proof fn lemma_cofactor_size(
    exact: real,
    i: real,
    det: real,
    l: real,
    big: real,
    more: real,
    t: real,
)
    requires
        exact == det * i + more,
        size(i) <= 1 as real / l,
        size(more) <= t * t + 3 as real * (big * t),
        t >= 0 as real,
        t <= (3 as real / (1000 as real)) * l,
        big >= l,
        l > 0 as real,
        det >= (l * l) * big,
    ensures
        size(exact) <= (102 as real / (100 as real)) * (det / l),
{
    let q = lemma_reciprocal(l);
    lemma_positive_det(l, big, det);
    lemma_product_size(det, i, det, q);
    let dq = det * q;
    assert(det / l == dq) by (nonlinear_arith)
        requires
            dq == det * q,
            q == 1 as real / l,
            l > 0 as real,
    ;
    let lb = l * big;
    assert(dq >= lb) by {
        assert(l * (l * big) == (l * l) * big) by (nonlinear_arith);
        assert(q * (l * lb) == (q * l) * lb) by (nonlinear_arith);
        assert(1 as real * lb == lb) by (nonlinear_arith);
        assert(q * det >= q * (l * lb)) by (nonlinear_arith)
            requires
                det >= l * lb,
                q > 0 as real,
        ;
        assert(q * det == dq) by (nonlinear_arith)
            requires
                dq == det * q,
        ;
    }
    assert(big * t <= 3 as real * lb / (1000 as real)) by (nonlinear_arith)
        requires
            t <= (3 as real / (1000 as real)) * l,
            lb == l * big,
            big >= 0 as real,
    ;
    assert(t * t <= big * t) by (nonlinear_arith)
        requires
            t <= big,
            t >= 0 as real,
    ;
    assert((102 as real / (100 as real)) * dq == 102 as real * dq / (100 as real))
        by (nonlinear_arith);
}

proof fn lemma_positive_det(l: real, big: real, det: real)
    requires
        l > 0 as real,
        big >= l,
        det >= (l * l) * big,
    ensures
        det > 0 as real,
{
    let ll = l * l;
    assert(ll > 0 as real) by (nonlinear_arith)
        requires
            ll == l * l,
            l > 0 as real,
    ;
    assert(ll * big > 0 as real) by (nonlinear_arith)
        requires
            ll > 0 as real,
            big > 0 as real,
    ;
}

/// The computed cofactor against the computed determinant `d`.
proof fn lemma_bounded_cofactor(
    a: real,
    exact: real,
    det: real,
    d: real,
    w: real,
    l: real,
    n: real,
)
    requires
        size(a - exact) <= (w * w) * (5 as real * eps()),
        size(exact) <= (102 as real / (100 as real)) * (det / l),
        det > 0 as real,
        (w * (w * w)) * eps() <= (101 as real / (100 as real)) * (n * det),
        n <= (1 as real) / (8000 as real),
        n > 0 as real,
        size(d - det) <= 33 as real * (n * det),
        l > 0 as real,
        w >= l,
    ensures
        size(a) <= d * (2 as real / l),
{
    let (e, ww) = (eps(), w * w);
    let f = w * ww;
    let q = lemma_reciprocal(l);
    let (fe, nd) = (f * e, n * det);
    assert(nd <= det / (8000 as real) && nd > 0 as real) by (nonlinear_arith)
        requires
            nd == n * det,
            n <= (1 as real) / (8000 as real),
            n > 0 as real,
            det > 0 as real,
    ;
    assert((101 as real / (100 as real)) * nd == 101 as real * nd / (100 as real))
        by (nonlinear_arith);
    assert(d >= det - det / (200 as real));
    let wwe = ww * e;
    let small = det / (1000 as real);
    assert(wwe <= q * small) by {
        assert(l * wwe <= fe) by (nonlinear_arith)
            requires
                l <= w,
                wwe == ww * e,
                fe == f * e,
                f == w * ww,
                ww == w * w,
                e == (1 as real) / (0x100_0000 as real),
        ;
        assert(q * (l * wwe) <= q * small) by (nonlinear_arith)
            requires
                l * wwe <= small,
                q > 0 as real,
        ;
        assert(q * (l * wwe) == (q * l) * wwe) by (nonlinear_arith);
        assert(1 as real * wwe == wwe) by (nonlinear_arith);
    }
    assert(ww * (5 as real * e) == 5 as real * wwe) by (nonlinear_arith)
        requires
            wwe == ww * e,
    ;
    let dq = det * q;
    assert(det / l == dq) by (nonlinear_arith)
        requires
            dq == det * q,
            q == 1 as real / l,
            l > 0 as real,
    ;
    assert(q * small == dq / (1000 as real)) by (nonlinear_arith)
        requires
            dq == det * q,
            small == det / (1000 as real),
    ;
    assert(2 as real / l == 2 as real * q) by (nonlinear_arith)
        requires
            q == 1 as real / l,
            l > 0 as real,
    ;
    assert(d * (2 as real * q) >= 2 as real * dq - dq / (100 as real)) by (nonlinear_arith)
        requires
            d >= det - det / (200 as real),
            dq == det * q,
            q > 0 as real,
    ;
    assert(dq > 0 as real) by (nonlinear_arith)
        requires
            dq == det * q,
            det > 0 as real,
            q > 0 as real,
    ;
    assert((102 as real / (100 as real)) * dq == 102 as real * dq / (100 as real))
        by (nonlinear_arith);
}

/// One entry of the computed inverse times the computed determinant.
proof fn lemma_one_entry(
    a: Number,
    d: Number,
    exact: real,
    det: real,
    w: real,
    l: real,
    n: real,
)
    requires
        a is Finite,
        d is Finite,
        size(value(a) - exact) <= (w * w) * (5 as real * eps()),
        size(value(a)) <= (w * w) * (201 as real / (100 as real)),
        size(exact) <= (102 as real / (100 as real)) * (det / l),
        det > 0 as real,
        (w * (w * w)) * eps() <= (101 as real / (100 as real)) * (n * det),
        n <= (1 as real) / (8000 as real),
        n > 0 as real,
        size(value(d) - det) <= 33 as real * (n * det),
        value(d) > 0 as real,
        value(d) <= 7 as real * (w * (w * w)),
        l >= (1 as real) / (0x4_0000 as real),
        w >= l,
        w >= (1 as real) / (0x10_0000 as real),
        w <= 0x10_0000 as real,
    ensures
        (a / d) is Finite,
        size(value(d) * value(a / d) - exact) <= (w * w) * (8 as real * eps()),
{
    lemma_bounded_cofactor(value(a), exact, det, value(d), w, l, n);
    let q = 2 as real / l;
    assert(q <= 0x8_0000 as real) by (nonlinear_arith)
        requires
            q == 2 as real / l,
            l >= (1 as real) / (0x4_0000 as real),
    ;
    lemma_entry(a, d, exact, q, w);
}

/// Whether no entry is more than `b`.
pub open spec fn is_bounded(g: Grid, b: real) -> bool {
    is_small(g.r0, b) && is_small(g.r1, b) && is_small(g.r2, b)
}

/// One component of what a symmetric matrix makes of a small vector.
proof fn lemma_small_image(r: Triple, e: Triple, big: real, t: real)
    requires
        is_small(r, big),
        is_small(e, t),
    ensures
        size(r.dot(e)) <= 3 as real * (big * t),
{
    lemma_product_size(r.x, e.x, big, t);
    lemma_product_size(r.y, e.y, big, t);
    lemma_product_size(r.z, e.z, big, t);
}

/// The exact cofactors are bounded by the determinant over the least stretch.
proof fn lemma_cofactors(m: M3, l: real, k: real, n: real, t: real)
    requires
        is_sound(m, l, k, n, t),
    ensures
        is_bounded(
            adjugate(grid(m)),
            (102 as real / (100 as real)) * (determinant(shape(m)) / l),
        ),
{
    lemma_sound_sizes(m, l, k, n, t);
    let (g, s, b) = (grid(m), shape(m), bent(m));
    let (big, det) = (largest(s), determinant(s));
    lemma_round_is_positive(s, l, k * l);
    lemma_inverted(s);
    let i = inverted(s);
    lemma_round_undoing(s, i, l, k * l);
    lemma_entries(i, 1 as real / (k * l), 1 as real / l);
    lemma_adjugate_parts(g);
    let (a, v, q) = (adjugate(g), evened(adjugate(g)), adjugate(s));
    let w = image(s, b);
    lemma_small_image(s.r0, b, big, t);
    lemma_small_image(s.r1, b, big, t);
    lemma_small_image(s.r2, b, big, t);
    lemma_cofactor(a.r0.x, i.r0.x, q.r0.x, b.x, b.x, 0 as real, det, l, big, t);
    lemma_cofactor(a.r1.y, i.r1.y, q.r1.y, b.y, b.y, 0 as real, det, l, big, t);
    lemma_cofactor(a.r2.z, i.r2.z, q.r2.z, b.z, b.z, 0 as real, det, l, big, t);
    lemma_cofactor(a.r0.y, i.r0.y, q.r0.y, b.x, b.y, w.z, det, l, big, t);
    lemma_cofactor(a.r1.x, i.r1.x, q.r1.x, b.y, b.x, -w.z, det, l, big, t);
    lemma_cofactor(a.r0.z, i.r0.z, q.r0.z, b.x, b.z, -w.y, det, l, big, t);
    lemma_cofactor(a.r2.x, i.r2.x, q.r2.x, b.z, b.x, w.y, det, l, big, t);
    lemma_cofactor(a.r1.z, i.r1.z, q.r1.z, b.y, b.z, w.x, det, l, big, t);
    lemma_cofactor(a.r2.y, i.r2.y, q.r2.y, b.z, b.y, -w.x, det, l, big, t);
}

/// One cofactor: that of the symmetric part, and what the missing symmetry adds.
proof fn lemma_cofactor(
    exact: real,
    i: real,
    q: real,
    x: real,
    y: real,
    w: real,
    det: real,
    l: real,
    big: real,
    t: real,
)
    requires
        exact == q + x * y + w,
        i == (1 as real / det) * q,
        size(i) <= 1 as real / l,
        size(x) <= t,
        size(y) <= t,
        size(w) <= 3 as real * (big * t),
        t >= 0 as real,
        t <= (3 as real / (1000 as real)) * l,
        big >= l,
        l > 0 as real,
        det >= (l * l) * big,
    ensures
        size(exact) <= (102 as real / (100 as real)) * (det / l),
{
    lemma_positive_det(l, big, det);
    let c = lemma_reciprocal(det);
    assert(det * (c * q) == q) by {
        assert(det * (c * q) == (c * det) * q) by (nonlinear_arith);
        assert(1 as real * q == q) by (nonlinear_arith);
    }
    lemma_product_size(x, y, t, t);
    lemma_cofactor_size(exact, i, det, l, big, x * y + w, t);
}

/// The computed entries of the inverse, times the computed determinant.
proof fn lemma_inverse_entries(m: M3, l: real, k: real, n: real, t: real)
    requires
        is_sound(m, l, k, n, t),
    ensures
        ({
            let w = (1003 as real / (1000 as real)) * largest(shape(m));
            let d = value(m.determinant());
            &&& finite(m.inverse().r0) && finite(m.inverse().r1) && finite(m.inverse().r2)
            &&& is_close(times(d, grid(m.inverse())), adjugate(grid(m)), (w * w) * (8 as real
                * eps()))
        }),
{
    lemma_sound_sizes(m, l, k, n, t);
    lemma_sound_determinant(m, l, k, n, t);
    lemma_cofactors(m, l, k, n, t);
    let (g, d) = (grid(m), m.determinant());
    let (det, big) = (determinant(shape(m)), largest(shape(m)));
    let w = (1003 as real / (1000 as real)) * big;
    lemma_det(m, w);
    let (a, b, c) = (m.r0, m.r1, m.r2);
    lemma_minor(b.y, c.z, c.y, b.z, w);
    lemma_minor(a.z, c.y, c.z, a.y, w);
    lemma_minor(a.y, b.z, b.y, a.z, w);
    lemma_minor(b.x, c.z, c.x, b.z, w);
    lemma_minor(a.x, c.z, c.x, a.z, w);
    lemma_minor(a.z, b.x, b.z, a.x, w);
    lemma_minor(b.x, c.y, c.x, b.y, w);
    lemma_minor(a.y, c.x, c.y, a.x, w);
    lemma_minor(a.x, b.y, b.x, a.y, w);
    lemma_negated_value(b.x * c.z - c.x * b.z);
    let (j, x) = (m.adjugate(), adjugate(g));
    let f = w * (w * w);
    assert(w >= l);
    assert(value(d) <= 7 as real * f) by {
        lemma_determinant_size(shape(m), big);
        assert(n * det <= det / (8000 as real)) by (nonlinear_arith)
            requires
                n <= (1 as real) / (8000 as real),
                det > 0 as real,
        ;
        let bb = big * (big * big);
        assert(bb <= f) by (nonlinear_arith)
            requires
                bb == big * (big * big),
                f == w * (w * w),
                w >= big,
                big > 0 as real,
        ;
    }
    lemma_one_entry(j.r0.x, d, x.r0.x, det, w, l, n);
    lemma_one_entry(j.r0.y, d, x.r0.y, det, w, l, n);
    lemma_one_entry(j.r0.z, d, x.r0.z, det, w, l, n);
    lemma_one_entry(j.r1.x, d, x.r1.x, det, w, l, n);
    lemma_one_entry(j.r1.y, d, x.r1.y, det, w, l, n);
    lemma_one_entry(j.r1.z, d, x.r1.z, det, w, l, n);
    lemma_one_entry(j.r2.x, d, x.r2.x, det, w, l, n);
    lemma_one_entry(j.r2.y, d, x.r2.y, det, w, l, n);
    lemma_one_entry(j.r2.z, d, x.r2.z, det, w, l, n);
    lemma_not_nought(d);
}

/// A determinant against the largest entry.
pub proof fn lemma_determinant_size(g: Grid, big: real)
    requires
        is_bounded(g, big),
    ensures
        determinant(g) <= 6 as real * (big * (big * big)),
{
    let bb = big * big;
    lemma_product_size(g.r1.y, g.r2.z, big, big);
    lemma_product_size(g.r1.z, g.r2.y, big, big);
    lemma_product_size(g.r1.x, g.r2.z, big, big);
    lemma_product_size(g.r1.z, g.r2.x, big, big);
    lemma_product_size(g.r1.x, g.r2.y, big, big);
    lemma_product_size(g.r1.y, g.r2.x, big, big);
    let (x, y, z) = (
        g.r1.y * g.r2.z - g.r1.z * g.r2.y,
        g.r1.x * g.r2.z - g.r1.z * g.r2.x,
        g.r1.x * g.r2.y - g.r1.y * g.r2.x,
    );
    lemma_product_size(g.r0.x, x, big, 2 as real * bb);
    lemma_product_size(g.r0.y, y, big, 2 as real * bb);
    lemma_product_size(g.r0.z, z, big, 2 as real * bb);
    assert(big * (2 as real * bb) == 2 as real * (big * bb)) by (nonlinear_arith);
}

/// What the missing symmetry adds to the cofactors, against the inverse `i` of the
/// symmetric part `s`.
proof fn lemma_added(s: Grid, i: Grid, b: Triple, e: Triple)
    requires
        undoes(s, i),
    ensures
        squared_up(b).form(e, e) <= s.form(b, b) * i.form(e, e),
        squared_up(b).form(e, e) >= 0 as real,
{
    let x = image(i, e);
    assert(image(s, x) == e);
    lemma_cauchy_form(s, b, x);
    assert(s.form(b, x) == b.dot(e) && s.form(x, x) == x.dot(e) && i.form(e, e) == e.dot(x));
    lemma_dot_swap(x, e);
    lemma_squared_up(b, e);
    lemma_square_sign(b.dot(e));
}

/// The form of the computed inverse, times the computed determinant.
proof fn lemma_inverse_form(m: M3, l: real, k: real, n: real, t: real, e: Triple)
    requires
        is_sound(m, l, k, n, t),
    ensures
        ({
            let (s, d) = (shape(m), value(m.determinant()));
            let (x, i) = (shape(m.inverse()).form(e, e), inverted(s).form(e, e));
            &&& size(d * x - determinant(s) * i) <= 25 as real * (n * (determinant(s) * i))
            &&& i >= 0 as real
        }),
{
    lemma_tiny();
    lemma_sound_sizes(m, l, k, n, t);
    lemma_inverse_entries(m, l, k, n, t);
    lemma_bent_form(m, l, k, n, t);
    let (g, s, b) = (grid(m), shape(m), bent(m));
    let (u, det, d) = (k * l, determinant(s), value(m.determinant()));
    let w = (1003 as real / (1000 as real)) * largest(s);
    lemma_round_is_positive(s, l, u);
    lemma_inverted(s);
    let (i, y) = (inverted(s), grid(m.inverse()));
    lemma_round_inverse(s, i, l, u, e);
    lemma_not_negative(i, e);
    lemma_evened(y, e);
    let z = (w * w) * (8 as real * eps());
    let ww = w * w;
    lemma_square_sign(w);
    assert(z >= 0 as real) by (nonlinear_arith)
        requires
            z == ww * (8 as real * eps()),
            ww >= 0 as real,
            eps() > 0 as real,
    ;
    lemma_close_forms(times(d, y), adjugate(g), z, e);
    lemma_times_form(d, y, e, e);
    lemma_evened(adjugate(g), e);
    lemma_adjugate_parts(g);
    lemma_form_plus(adjugate(s), 1 as real, squared_up(b), e, e);
    lemma_added(s, i, b, e);
    let c = lemma_reciprocal(det);
    lemma_times_form(c, adjugate(s), e, e);
    let (iv, av, pv) = (i.form(e, e), adjugate(s).form(e, e), squared_up(b).form(e, e));
    assert(det * iv == av) by {
        assert(det * (c * av) == (c * det) * av) by (nonlinear_arith);
        assert(1 as real * av == av) by (nonlinear_arith);
    }
    lemma_form_error(e.dot(e), iv, w, u, n, det, pv, s.form(b, b));
}

proof fn lemma_form_error(
    ee: real,
    iv: real,
    w: real,
    u: real,
    n: real,
    det: real,
    pv: real,
    sb: real,
)
    requires
        ee <= u * iv,
        iv >= 0 as real,
        ((w * w) * u) * eps() <= (101 as real / (100 as real)) * (n * det),
        pv <= sb * iv,
        sb <= (n * det) / (2 as real),
        n > 0 as real,
        det > 0 as real,
    ensures
        3 as real * (((w * w) * (8 as real * eps())) * ee) + pv <= 25 as real * (n * (det * iv)),
{
    lemma_tiny();
    let (ww, e, nd) = (w * w, eps(), n * det);
    lemma_square_sign(w);
    let z = ww * (8 as real * e);
    let ui = u * iv;
    assert(z * ee <= z * ui) by (nonlinear_arith)
        requires
            ee <= ui,
            z == ww * (8 as real * e),
            ww >= 0 as real,
            e > 0 as real,
    ;
    let wue = (ww * u) * e;
    assert((ww * (8 as real * e)) * (u * iv) == 8 as real * (((ww * u) * e) * iv))
        by (nonlinear_arith);
    let top = (101 as real / (100 as real)) * nd;
    assert(wue * iv <= top * iv) by (nonlinear_arith)
        requires
            wue <= top,
            iv >= 0 as real,
    ;
    let ndi = nd * iv;
    assert(top * iv == 101 as real * ndi / (100 as real)) by (nonlinear_arith)
        requires
            top == (101 as real / (100 as real)) * nd,
            ndi == nd * iv,
    ;
    assert(sb * iv <= ndi / (2 as real)) by (nonlinear_arith)
        requires
            sb <= nd / (2 as real),
            ndi == nd * iv,
            iv >= 0 as real,
    ;
    assert((n * det) * iv == n * (det * iv)) by (nonlinear_arith);
    assert(nd >= 0 as real) by (nonlinear_arith)
        requires
            nd == n * det,
            n > 0 as real,
            det > 0 as real,
    ;
    assert(ndi >= 0 as real) by (nonlinear_arith)
        requires
            ndi == nd * iv,
            nd >= 0 as real,
            iv >= 0 as real,
    ;
}

/// The symmetric part of the computed inverse is alike the exact inverse of the
/// symmetric part.
pub proof fn lemma_sound_inverse(m: M3, l: real, k: real, n: real, t: real)
    requires
        is_sound(m, l, k, n, t),
    ensures
        finite(m.inverse().r0) && finite(m.inverse().r1) && finite(m.inverse().r2),
        undoes(shape(m), inverted(shape(m))),
        undoes(inverted(shape(m)), shape(m)),
        is_alike(shape(m.inverse()), inverted(shape(m)), 60 as real * n),
{
    lemma_sound_sizes(m, l, k, n, t);
    lemma_sound_determinant(m, l, k, n, t);
    lemma_inverse_entries(m, l, k, n, t);
    let (s, d) = (shape(m), value(m.determinant()));
    lemma_round_is_positive(s, l, k * l);
    lemma_inverted(s);
    let (x, i) = (shape(m.inverse()), inverted(s));
    lemma_evened(grid(m.inverse()), s.r0);
    assert forall|e: Triple|
        #[trigger] x.form(e, e) <= (1 as real + 60 as real * n) * i.form(e, e) && i.form(e, e) <= (
        1 as real + 60 as real * n) * x.form(e, e) by {
        lemma_inverse_form(m, l, k, n, t, e);
        lemma_ratio(x.form(e, e), i.form(e, e), d, determinant(s), n);
    }
}
/// `x` times `d` is near `i` times `det`, and `d` near `det`.
proof fn lemma_ratio(x: real, i: real, d: real, det: real, n: real)
    requires
        size(d * x - det * i) <= 25 as real * (n * (det * i)),
        size(d - det) <= 33 as real * (n * det),
        det > 0 as real,
        i >= 0 as real,
        n >= 0 as real,
        n <= (1 as real) / (8000 as real),
    ensures
        x <= (1 as real + 60 as real * n) * i,
        i <= (1 as real + 60 as real * n) * x,
{
    let (r, s, b) = (det * i, n * det, d * x);
    assert(s >= 0 as real && s <= det / (8000 as real)) by (nonlinear_arith)
        requires
            s == n * det,
            n >= 0 as real,
            n <= (1 as real) / (8000 as real),
            det > 0 as real,
    ;
    assert(d > 0 as real);
    assert(r >= 0 as real) by (nonlinear_arith)
        requires
            r == det * i,
            det > 0 as real,
            i >= 0 as real,
    ;
    let nr = n * r;
    assert(nr >= 0 as real && nr <= r / (8000 as real)) by (nonlinear_arith)
        requires
            nr == n * r,
            n >= 0 as real,
            n <= (1 as real) / (8000 as real),
            r >= 0 as real,
    ;
    let m = 1 as real + 60 as real * n;
    // d * (m * i) is at least det * i * (1 + 26 n).
    let di = d * i;
    assert(di >= r - 33 as real * nr) by (nonlinear_arith)
        requires
            di == d * i,
            d >= det - 33 as real * s,
            s == n * det,
            nr == n * r,
            r == det * i,
            i >= 0 as real,
    ;
    assert(di <= r + 33 as real * nr) by (nonlinear_arith)
        requires
            di == d * i,
            d <= det + 33 as real * s,
            s == n * det,
            nr == n * r,
            r == det * i,
            i >= 0 as real,
    ;
    assert(d * (m * i) == di + 60 as real * (n * di)) by (nonlinear_arith)
        requires
            m == 1 as real + 60 as real * n,
            di == d * i,
    ;
    assert(n * di >= nr - nr / (100 as real)) by (nonlinear_arith)
        requires
            di >= r - r / (100 as real),
            nr == n * r,
            n >= 0 as real,
    ;
    let mi = m * i;
    assert(x <= mi) by (nonlinear_arith)
        requires
            d * x <= d * mi,
            d > 0 as real,
    ;
    assert(d * (m * x) == b + 60 as real * (n * b)) by (nonlinear_arith)
        requires
            m == 1 as real + 60 as real * n,
            b == d * x,
    ;
    assert(n * b >= nr - nr / (100 as real)) by (nonlinear_arith)
        requires
            b >= r - r / (100 as real),
            nr == n * r,
            n >= 0 as real,
    ;
    let mx = m * x;
    assert(i <= mx) by (nonlinear_arith)
        requires
            d * i <= d * mx,
            d > 0 as real,
    ;
}

/// What the symmetry of the computed inverse lacks, times the computed
/// determinant.
pub proof fn lemma_inverse_bent(m: M3, l: real, k: real, n: real, t: real)
    requires
        is_sound(m, l, k, n, t),
    ensures
        ({
            let (d, b, c) = (value(m.determinant()), bent(m.inverse()), image(shape(m), bent(m)));
            let w = (1003 as real / (1000 as real)) * largest(shape(m));
            let z = (w * w) * (8 as real * eps());
            &&& size(d * b.x + c.x) <= z
            &&& size(d * b.y + c.y) <= z
            &&& size(d * b.z + c.z) <= z
            &&& is_small(c, 3 as real * (largest(shape(m)) * t))
        }),
{
    lemma_sound_sizes(m, l, k, n, t);
    lemma_inverse_entries(m, l, k, n, t);
    lemma_adjugate_parts(grid(m));
    let (d, y, a) = (value(m.determinant()), grid(m.inverse()), adjugate(grid(m)));
    let w = (1003 as real / (1000 as real)) * largest(shape(m));
    let z = (w * w) * (8 as real * eps());
    lemma_bent_entry(d, y.r2.y, y.r1.z, a.r2.y, a.r1.z, z);
    lemma_bent_entry(d, y.r0.z, y.r2.x, a.r0.z, a.r2.x, z);
    lemma_bent_entry(d, y.r1.x, y.r0.y, a.r1.x, a.r0.y, z);
    let (s, b, big) = (shape(m), bent(m), largest(shape(m)));
    lemma_small_image(s.r0, b, big, t);
    lemma_small_image(s.r1, b, big, t);
    lemma_small_image(s.r2, b, big, t);
}

proof fn lemma_bent_entry(d: real, x: real, y: real, a: real, b: real, z: real)
    requires
        size(d * x - a) <= z,
        size(d * y - b) <= z,
    ensures
        size(d * ((x - y) / (2 as real)) - (a - b) / (2 as real)) <= z,
{
    assert(d * ((x - y) / (2 as real)) == (d * x - d * y) / (2 as real)) by (nonlinear_arith);
}

/// By how much the computed inverse is not symmetric.
pub proof fn lemma_inverse_is_little_bent(m: M3, l: real, k: real, n: real, t: real)
    requires
        is_sound(m, l, k, n, t),
    ensures
        ({
            let (b, ll) = (bent(m.inverse()), l * l);
            let most = (31 as real / (10 as real)) * t + (83 as real / (10 as real)) * ((k * l)
                * eps());
            &&& size(b.x) * ll <= most
            &&& size(b.y) * ll <= most
            &&& size(b.z) * ll <= most
        }),
{
    lemma_sound_sizes(m, l, k, n, t);
    lemma_sound_determinant(m, l, k, n, t);
    lemma_inverse_bent(m, l, k, n, t);
    let (d, b, c) = (value(m.determinant()), bent(m.inverse()), image(shape(m), bent(m)));
    let (big, det) = (largest(shape(m)), determinant(shape(m)));
    lemma_little_bent(d, det, b.x, c.x, l, k, n, t, big);
    lemma_little_bent(d, det, b.y, c.y, l, k, n, t, big);
    lemma_little_bent(d, det, b.z, c.z, l, k, n, t, big);
}

proof fn lemma_little_bent(
    d: real,
    det: real,
    b: real,
    c: real,
    l: real,
    k: real,
    n: real,
    t: real,
    big: real,
)
    requires
        ({
            let w = (1003 as real / (1000 as real)) * big;
            size(d * b + c) <= (w * w) * (8 as real * eps())
        }),
        size(c) <= 3 as real * (big * t),
        size(d - det) <= 33 as real * (n * det),
        n > 0 as real,
        n <= (1 as real) / (8000 as real),
        det >= (l * l) * big,
        big >= l,
        l > 0 as real,
        big <= k * l,
        t >= 0 as real,
    ensures
        size(b) * (l * l) <= (31 as real / (10 as real)) * t + (83 as real / (10 as real)) * ((k
            * l) * eps()),
{
    lemma_tiny();
    lemma_positive_det(l, big, det);
    let (w, e) = ((1003 as real / (1000 as real)) * big, eps());
    let (ll, bb) = (l * l, big * big);
    assert((w * w) * (8 as real * e) <= (805 as real / (100 as real)) * (bb * e)) by {
        assert(w * w == (1006009 as real / (1000000 as real)) * bb) by (nonlinear_arith)
            requires
                w == (1003 as real / (1000 as real)) * big,
                bb == big * big,
        ;
        let be = bb * e;
        lemma_square_sign(big);
        assert(be >= 0 as real) by (nonlinear_arith)
            requires
                be == bb * e,
                bb >= 0 as real,
                e > 0 as real,
        ;
        let q = 1006009 as real / (1000000 as real);
        assert((q * bb) * (8 as real * e) == (8 as real * q) * (bb * e)) by (nonlinear_arith);
        assert((8 as real * q) * be <= (805 as real / (100 as real)) * be) by (nonlinear_arith)
            requires
                8 as real * q <= 805 as real / (100 as real),
                be >= 0 as real,
        ;
    }
    let nd = n * det;
    assert(nd <= det / (8000 as real) && nd >= 0 as real) by (nonlinear_arith)
        requires
            nd == n * det,
            n <= (1 as real) / (8000 as real),
            n > 0 as real,
            det > 0 as real,
    ;
    let (x, f) = (size(b), d * b);
    assert(size(f) == d * x) by (nonlinear_arith)
        requires
            f == d * b,
            x == size(b),
            d > 0 as real,
    ;
    let share = 995 as real / (1000 as real);
    assert(d >= share * det);
    let lb = ll * big;
    assert(d * x >= (share * lb) * x) by (nonlinear_arith)
        requires
            d >= share * lb,
            x >= 0 as real,
    ;
    let lx = x * ll;
    assert((share * (ll * big)) * x == (share * lx) * big) by (nonlinear_arith)
        requires
            lx == x * ll,
    ;
    let (ue, v) = ((k * l) * e, 805 as real / (100 as real));
    assert(bb * e <= ue * big) by (nonlinear_arith)
        requires
            bb == big * big,
            big <= k * l,
            ue == (k * l) * e,
            e > 0 as real,
            big > 0 as real,
    ;
    let right = 3 as real * t + v * ue;
    assert(3 as real * (big * t) + v * (ue * big) == right * big) by (nonlinear_arith)
        requires
            right == 3 as real * t + v * ue,
    ;
    let left = share * lx;
    assert(left <= right) by (nonlinear_arith)
        requires
            left * big <= right * big,
            big > 0 as real,
    ;
    assert(ue >= 0 as real) by (nonlinear_arith)
        requires
            ue == (k * l) * e,
            k * l >= 0 as real,
            e > 0 as real,
    ;
}

} // verus!
