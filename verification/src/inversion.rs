//! The computed cofactors and determinant of a matrix, roundings included.
use crate::error::{
    eps, lemma_negated_value, lemma_product_error, lemma_quotient_error, lemma_square_sign,
    lemma_sum_error, lemma_tiny, lemma_tiny_fourth, size, tiny, value, within,
};
use crate::forms::{grid, lemma_form_plus, Grid, Triple};
use crate::matrix::M3;
use crate::metric::{finite, lemma_product_size};
use crate::number::Number;
use crate::preference::{determinant, is_symmetric};
use crate::relative::lemma_not_nought;
use crate::spectra::{is_round, lemma_round_inverse, lemma_round_is_positive, undoes};
use vstd::prelude::*;

verus! {

/// The entries of a matrix that stretches by at most `u`.
pub proof fn lemma_entries(g: Grid, l: real, u: real)
    requires
        is_round(g, l, u),
    ensures
        size(g.r0.x) <= u && size(g.r0.y) <= u && size(g.r0.z) <= u,
        size(g.r1.x) <= u && size(g.r1.y) <= u && size(g.r1.z) <= u,
        size(g.r2.x) <= u && size(g.r2.y) <= u && size(g.r2.z) <= u,
        g.r0.x >= l && g.r1.y >= l && g.r2.z >= l,
        u > 0 as real,
{
    lemma_round_is_positive(g, l, u);
    let (o, i, j) = (0 as real, 1 as real, -(1 as real));
    lemma_doubled(l, u);
    assert(g.r1.x == g.r0.y && g.r2.x == g.r0.z && g.r2.y == g.r1.z);
    lemma_round_probe(g, l, u, Triple { x: i, y: o, z: o });
    lemma_round_probe(g, l, u, Triple { x: o, y: i, z: o });
    lemma_round_probe(g, l, u, Triple { x: o, y: o, z: i });
    lemma_round_probe(g, l, u, Triple { x: i, y: i, z: o });
    lemma_round_probe(g, l, u, Triple { x: i, y: j, z: o });
    lemma_round_probe(g, l, u, Triple { x: i, y: o, z: i });
    lemma_round_probe(g, l, u, Triple { x: i, y: o, z: j });
    lemma_round_probe(g, l, u, Triple { x: o, y: i, z: i });
    lemma_round_probe(g, l, u, Triple { x: o, y: i, z: j });
}

/// The form at a vector of ones, of either sign, and zeros.
proof fn lemma_probe(g: Grid, e: Triple)
    requires
        is_symmetric(g),
        e.x == 0 as real || e.x == 1 as real || e.x == -(1 as real),
        e.y == 0 as real || e.y == 1 as real || e.y == -(1 as real),
        e.z == 0 as real || e.z == 1 as real || e.z == -(1 as real),
    ensures
        e.dot(e) == size(e.x) + size(e.y) + size(e.z),
        g.form(e, e) == chosen(size(e.x), g.r0.x) + chosen(size(e.y), g.r1.y) + chosen(
            size(e.z),
            g.r2.z,
        ) + 2 as real * chosen(e.x, chosen(e.y, g.r0.y)) + 2 as real * chosen(
            e.x,
            chosen(e.z, g.r0.z),
        ) + 2 as real * chosen(e.y, chosen(e.z, g.r1.z)),
{
    assert(g.r1.x == g.r0.y && g.r2.x == g.r0.z && g.r2.y == g.r1.z);
    lemma_known(e.x, e.x);
    lemma_known(e.y, e.y);
    lemma_known(e.z, e.z);
    lemma_row(g.r0, e);
    lemma_row(g.r1, e);
    lemma_row(g.r2, e);
    lemma_known(e.x, g.r0.dot(e));
    lemma_known(e.y, g.r1.dot(e));
    lemma_known(e.z, g.r2.dot(e));
}

/// The entries of a symmetric matrix whose form is at most `c` times the square of
/// the length, up or down.
pub proof fn lemma_small_entries(g: Grid, c: real)
    requires
        is_symmetric(g),
        forall|e: Triple| size(#[trigger] g.form(e, e)) <= c * e.dot(e),
    ensures
        size(g.r0.x) <= c && size(g.r0.y) <= c && size(g.r0.z) <= c,
        size(g.r1.x) <= c && size(g.r1.y) <= c && size(g.r1.z) <= c,
        size(g.r2.x) <= c && size(g.r2.y) <= c && size(g.r2.z) <= c,
{
    let (o, i, j) = (0 as real, 1 as real, -(1 as real));
    lemma_doubled(c, c);
    assert(g.r1.x == g.r0.y && g.r2.x == g.r0.z && g.r2.y == g.r1.z);
    lemma_small_probe(g, c, Triple { x: i, y: o, z: o });
    lemma_small_probe(g, c, Triple { x: o, y: i, z: o });
    lemma_small_probe(g, c, Triple { x: o, y: o, z: i });
    lemma_small_probe(g, c, Triple { x: i, y: i, z: o });
    lemma_small_probe(g, c, Triple { x: i, y: j, z: o });
    lemma_small_probe(g, c, Triple { x: i, y: o, z: i });
    lemma_small_probe(g, c, Triple { x: i, y: o, z: j });
    lemma_small_probe(g, c, Triple { x: o, y: i, z: i });
    lemma_small_probe(g, c, Triple { x: o, y: i, z: j });
}

proof fn lemma_small_probe(g: Grid, c: real, e: Triple)
    requires
        is_symmetric(g),
        forall|e: Triple| size(#[trigger] g.form(e, e)) <= c * e.dot(e),
        e.x == 0 as real || e.x == 1 as real || e.x == -(1 as real),
        e.y == 0 as real || e.y == 1 as real || e.y == -(1 as real),
        e.z == 0 as real || e.z == 1 as real || e.z == -(1 as real),
    ensures
        ({
            let f = chosen(size(e.x), g.r0.x) + chosen(size(e.y), g.r1.y) + chosen(
                size(e.z),
                g.r2.z,
            ) + 2 as real * chosen(e.x, chosen(e.y, g.r0.y)) + 2 as real * chosen(
                e.x,
                chosen(e.z, g.r0.z),
            ) + 2 as real * chosen(e.y, chosen(e.z, g.r1.z));
            size(f) <= c * (size(e.x) + size(e.y) + size(e.z))
        }),
{
    lemma_probe(g, e);
    assert(size(g.form(e, e)) <= c * e.dot(e));
}

proof fn lemma_round_probe(g: Grid, l: real, u: real, e: Triple)
    requires
        is_round(g, l, u),
        e.x == 0 as real || e.x == 1 as real || e.x == -(1 as real),
        e.y == 0 as real || e.y == 1 as real || e.y == -(1 as real),
        e.z == 0 as real || e.z == 1 as real || e.z == -(1 as real),
    ensures
        ({
            let n = size(e.x) + size(e.y) + size(e.z);
            let f = chosen(size(e.x), g.r0.x) + chosen(size(e.y), g.r1.y) + chosen(
                size(e.z),
                g.r2.z,
            ) + 2 as real * chosen(e.x, chosen(e.y, g.r0.y)) + 2 as real * chosen(
                e.x,
                chosen(e.z, g.r0.z),
            ) + 2 as real * chosen(e.y, chosen(e.z, g.r1.z));
            l * n <= f && f <= u * n
        }),
{
    lemma_probe(g, e);
    assert(l * e.dot(e) <= g.form(e, e) && g.form(e, e) <= u * e.dot(e));
}

/// What is left of `v` when it is multiplied by one, minus one or zero.
spec fn chosen(k: real, v: real) -> real {
    if k == 0 as real {
        0 as real
    } else if k == 1 as real {
        v
    } else {
        -v
    }
}

proof fn lemma_known(k: real, v: real)
    requires
        k == 0 as real || k == 1 as real || k == -(1 as real),
    ensures
        k * v == chosen(k, v),
        v * k == chosen(k, v),
{
    if k == 0 as real {
        assert(k * v == 0 as real && v * k == 0 as real) by (nonlinear_arith)
            requires
                k == 0 as real,
        ;
    } else if k == 1 as real {
        assert(k * v == v && v * k == v) by (nonlinear_arith)
            requires
                k == 1 as real,
        ;
    } else {
        assert(k * v == -v && v * k == -v) by (nonlinear_arith)
            requires
                k == -(1 as real),
        ;
    }
}

proof fn lemma_row(r: Triple, e: Triple)
    requires
        e.x == 0 as real || e.x == 1 as real || e.x == -(1 as real),
        e.y == 0 as real || e.y == 1 as real || e.y == -(1 as real),
        e.z == 0 as real || e.z == 1 as real || e.z == -(1 as real),
    ensures
        r.dot(e) == chosen(e.x, r.x) + chosen(e.y, r.y) + chosen(e.z, r.z),
{
    lemma_known(e.x, r.x);
    lemma_known(e.y, r.y);
    lemma_known(e.z, r.z);
}

proof fn lemma_doubled(l: real, u: real)
    ensures
        l * (1 as real) == l,
        u * (1 as real) == u,
        l * (2 as real) == l + l,
        u * (2 as real) == u + u,
{
    assert(l * (1 as real) == l && u * (1 as real) == u && l * (2 as real) == l + l && u * (
    2 as real) == u + u) by (nonlinear_arith);
}

/// A cofactor: the products of entries of at most `u`, subtracted.
pub proof fn lemma_minor(x: Number, y: Number, s: Number, t: Number, u: real)
    requires
        x is Finite && y is Finite && s is Finite && t is Finite,
        size(value(x)) <= u && size(value(y)) <= u && size(value(s)) <= u && size(value(t)) <= u,
        u >= (1 as real) / (0x10_0000 as real),
        u <= 0x10_0000 as real,
    ensures
        (x * y) is Finite,
        (s * t) is Finite,
        (x * y - s * t) is Finite,
        size(value(x * y - s * t) - (value(x) * value(y) - value(s) * value(t))) <= (u * u) * (
        5 as real * eps()),
        size(value(x * y - s * t)) <= (u * u) * (201 as real / (100 as real)),
{
    let uu = u * u;
    lemma_square_range(u);
    lemma_product_size(value(x), value(y), u, u);
    lemma_product_size(value(s), value(t), u, u);
    lemma_product_error(x, y);
    lemma_product_error(s, t);
    let (p, q) = (x * y, s * t);
    lemma_floor(uu);
    lemma_share(size(value(x) * value(y)), uu, 1 as real);
    lemma_share(size(value(s) * value(t)), uu, 1 as real);
    assert(1 as real * uu == uu);
    lemma_negated_value(q);
    lemma_sum_error(p, -q);
    lemma_minor_value(
        value(x) * value(y),
        value(s) * value(t),
        value(p),
        value(q),
        value(p - q),
        uu,
    );
}

pub proof fn lemma_square_range(u: real)
    requires
        u >= (1 as real) / (0x10_0000 as real),
        u <= 0x10_0000 as real,
    ensures
        u * u >= (1 as real) / (0x100_0000_0000 as real),
        u * u <= 0x100_0000_0000 as real,
        u * (u * u) >= (1 as real) / (0x1000_0000_0000_0000 as real),
        u * (u * u) <= 0x1000_0000_0000_0000 as real,
{
    let uu = u * u;
    assert(uu >= (1 as real) / (0x100_0000_0000 as real) && uu <= 0x100_0000_0000 as real)
        by (nonlinear_arith)
        requires
            uu == u * u,
            u >= (1 as real) / (0x10_0000 as real),
            u <= 0x10_0000 as real,
    ;
    assert(u * uu >= (1 as real) / (0x1000_0000_0000_0000 as real) && u * uu
        <= 0x1000_0000_0000_0000 as real) by (nonlinear_arith)
        requires
            uu >= (1 as real) / (0x100_0000_0000 as real),
            uu <= 0x100_0000_0000 as real,
            u >= (1 as real) / (0x10_0000 as real),
            u <= 0x10_0000 as real,
    ;
}

/// The smallest number is nothing against a rounding of `f`.
pub proof fn lemma_floor(f: real)
    requires
        f >= (1 as real) / (0x1000_0000_0000_0000 as real),
    ensures
        tiny() * 1000 as real <= f * eps(),
        f * eps() <= f / (1000 as real),
        f * eps() > 0 as real,
{
    lemma_tiny_fourth();
    let (e, o) = (eps(), tiny());
    assert(o * 1000 as real <= f * e && f * e <= f / (1000 as real) && f * e > 0 as real)
        by (nonlinear_arith)
        requires
            f >= (1 as real) / (0x1000_0000_0000_0000 as real),
            o <= e * e * e * e,
            e == (1 as real) / (0x100_0000 as real),
    ;
}

pub proof fn lemma_share(x: real, f: real, k: real)
    requires
        x <= k * f,
    ensures
        x * eps() <= k * (f * eps()),
{
    let e = eps();
    assert(x * e <= k * (f * e)) by (nonlinear_arith)
        requires
            x <= k * f,
            e == (1 as real) / (0x100_0000 as real),
    ;
}

proof fn lemma_minor_value(x: real, y: real, p: real, q: real, r: real, uu: real)
    requires
        size(x) <= uu,
        size(y) <= uu,
        within(p, x, size(x) * eps() + tiny()),
        within(q, y, size(y) * eps() + tiny()),
        within(r, p - q, size(p - q) * eps() + tiny()),
        uu >= (1 as real) / (0x1000_0000_0000_0000 as real),
    ensures
        size(r - (x - y)) <= uu * (5 as real * eps()),
        size(r) <= uu * (201 as real / (100 as real)),
{
    let (e, o, z) = (eps(), tiny(), uu * eps());
    lemma_floor(uu);
    lemma_share(size(x), uu, 1 as real);
    lemma_share(size(y), uu, 1 as real);
    assert(1 as real * uu == uu && 1 as real * z == z);
    lemma_share(size(p - q), uu, 21 as real / (10 as real));
    assert(uu * (5 as real * e) == 5 as real * z) by (nonlinear_arith)
        requires
            z == uu * e,
    ;
    assert(uu * (201 as real / (100 as real)) == 201 as real * uu / (100 as real))
        by (nonlinear_arith);
}

/// Whether all entries are finite and at most `u`.
pub open spec fn is_within(m: M3, u: real) -> bool {
    &&& finite(m.r0) && finite(m.r1) && finite(m.r2)
    &&& size(value(m.r0.x)) <= u && size(value(m.r0.y)) <= u && size(value(m.r0.z)) <= u
    &&& size(value(m.r1.x)) <= u && size(value(m.r1.y)) <= u && size(value(m.r1.z)) <= u
    &&& size(value(m.r2.x)) <= u && size(value(m.r2.y)) <= u && size(value(m.r2.z)) <= u
}

/// An entry times a cofactor.
proof fn lemma_det_term(a: Number, c: Number, exact: real, u: real)
    requires
        a is Finite,
        c is Finite,
        size(value(a)) <= u,
        size(value(c) - exact) <= (u * u) * (5 as real * eps()),
        size(value(c)) <= (u * u) * (201 as real / (100 as real)),
        u >= (1 as real) / (0x10_0000 as real),
        u <= 0x10_0000 as real,
    ensures
        (a * c) is Finite,
        size(value(a * c) - value(a) * exact) <= (u * (u * u)) * (71 as real / (10 as real)
            * eps()),
        size(value(a * c)) <= (u * (u * u)) * (202 as real / (100 as real)),
{
    lemma_square_range(u);
    let (av, cv, uu, f) = (value(a), value(c), u * u, u * (u * u));
    let (e, o) = (eps(), tiny());
    lemma_floor(f);
    let d = cv - exact;
    let k = uu * (5 as real * e);
    lemma_product_size(av, d, u, k);
    assert(u * k == 5 as real * (f * e)) by (nonlinear_arith)
        requires
            k == uu * (5 as real * e),
            f == u * uu,
    ;
    assert(av * d == av * cv - av * exact) by (nonlinear_arith)
        requires
            d == cv - exact,
    ;
    let w = uu * (201 as real / (100 as real));
    lemma_product_size(av, cv, u, w);
    assert(u * w == (201 as real / (100 as real)) * f) by (nonlinear_arith)
        requires
            w == uu * (201 as real / (100 as real)),
            f == u * uu,
    ;
    lemma_share(size(av * cv), f, 201 as real / (100 as real));
    lemma_product_error(a, c);
    assert(f * (71 as real / (10 as real) * e) == 71 as real * (f * e) / (10 as real))
        by (nonlinear_arith);
    assert(f * (202 as real / (100 as real)) == 202 as real * f / (100 as real))
        by (nonlinear_arith);
}

/// The rounded determinant.
pub proof fn lemma_det(m: M3, u: real)
    requires
        is_within(m, u),
        u >= (1 as real) / (0x10_0000 as real),
        u <= 0x10_0000 as real,
    ensures
        m.determinant() is Finite,
        size(value(m.determinant()) - determinant(grid(m))) <= (u * (u * u)) * (32 as real
            * eps()),
{
    let (a, b, c) = (m.r0, m.r1, m.r2);
    lemma_minor(b.y, c.z, c.y, b.z, u);
    lemma_minor(b.x, c.z, c.x, b.z, u);
    lemma_minor(b.x, c.y, c.x, b.y, u);
    let (p, q, r) = (
        b.y * c.z - c.y * b.z,
        b.x * c.z - c.x * b.z,
        b.x * c.y - c.x * b.y,
    );
    let g = grid(m);
    let (x, y, z) = (
        g.r1.y * g.r2.z - g.r2.y * g.r1.z,
        g.r1.x * g.r2.z - g.r2.x * g.r1.z,
        g.r1.x * g.r2.y - g.r2.x * g.r1.y,
    );
    lemma_det_term(a.x, p, x, u);
    lemma_det_term(a.y, q, y, u);
    lemma_det_term(a.z, r, z, u);
    let (s, t, w) = (a.x * p, a.y * q, a.z * r);
    let f = u * (u * u);
    lemma_square_range(u);
    lemma_floor(f);
    assert(f * (202 as real / (100 as real)) == 202 as real * f / (100 as real))
        by (nonlinear_arith);
    lemma_negated_value(t);
    lemma_sum_error(s, -t);
    lemma_share(size(value(s) - value(t)), f, 405 as real / (100 as real));
    lemma_sum_error(s - t, w);
    lemma_share(size(value(s - t) + value(w)), f, 608 as real / (100 as real));
    lemma_det_sum(
        value(s),
        value(t),
        value(w),
        value(s - t),
        value(s - t + w),
        value(a.x) * x,
        value(a.y) * y,
        value(a.z) * z,
        f,
    );
    lemma_same_determinant(g);
}

proof fn lemma_same_determinant(g: Grid)
    ensures
        determinant(g) == g.r0.x * (g.r1.y * g.r2.z - g.r2.y * g.r1.z) - g.r0.y * (g.r1.x * g.r2.z
            - g.r2.x * g.r1.z) + g.r0.z * (g.r1.x * g.r2.y - g.r2.x * g.r1.y),
{
    assert(g.r1.z * g.r2.y == g.r2.y * g.r1.z && g.r1.z * g.r2.x == g.r2.x * g.r1.z && g.r1.y
        * g.r2.x == g.r2.x * g.r1.y) by (nonlinear_arith);
}

proof fn lemma_det_sum(
    s: real,
    t: real,
    w: real,
    d: real,
    r: real,
    x: real,
    y: real,
    z: real,
    f: real,
)
    requires
        size(s - x) <= f * (71 as real / (10 as real) * eps()),
        size(t - y) <= f * (71 as real / (10 as real) * eps()),
        size(w - z) <= f * (71 as real / (10 as real) * eps()),
        size(d - (s - t)) <= size(s - t) * eps() + tiny(),
        size(r - (d + w)) <= size(d + w) * eps() + tiny(),
        size(s - t) * eps() <= (405 as real / (100 as real)) * (f * eps()),
        size(d + w) * eps() <= (608 as real / (100 as real)) * (f * eps()),
        tiny() * 1000 as real <= f * eps(),
    ensures
        size(r - (x - y + z)) <= f * (32 as real * eps()),
{
    let (e, fe) = (eps(), f * eps());
    assert(f * (71 as real / (10 as real) * e) == 71 as real * fe / (10 as real) && f * (32 as real
        * e) == 32 as real * fe) by (nonlinear_arith)
        requires
            fe == f * e,
    ;
}

/// One entry of the inverse times the determinant.
pub proof fn lemma_entry(a: Number, d: Number, exact: real, most: real, u: real)
    requires
        a is Finite,
        d is Finite,
        value(d) > 0 as real,
        value(d) <= 7 as real * (u * (u * u)),
        size(value(a) - exact) <= (u * u) * (5 as real * eps()),
        size(value(a)) <= (u * u) * (201 as real / (100 as real)),
        size(value(a)) <= value(d) * most,
        most <= 0x1000_0000_0000 as real,
        u >= (1 as real) / (0x10_0000 as real),
        u <= 0x10_0000 as real,
    ensures
        (a / d) is Finite,
        size(value(d) * value(a / d) - exact) <= (u * u) * (8 as real * eps()),
{
    lemma_square_range(u);
    let (av, dv, uu, f) = (value(a), value(d), u * u, u * (u * u));
    let (e, o) = (eps(), tiny());
    lemma_floor(uu);
    let t = av / dv;
    assert(t * dv == av && size(t) <= most) by (nonlinear_arith)
        requires
            t == av / dv,
            dv > 0 as real,
            size(av) <= dv * most,
    ;
    lemma_not_nought(d);
    lemma_quotient_error(a, d, t);
    let x = value(a / d);
    let h = x - t;
    let n = size(t);
    assert(dv * n == size(av)) by (nonlinear_arith)
        requires
            t * dv == av,
            n == size(t),
            dv > 0 as real,
    ;
    assert(size(dv * h) <= size(av) * e + dv * o) by (nonlinear_arith)
        requires
            size(h) <= n * e + o,
            dv * n == size(av),
            dv > 0 as real,
    ;
    assert(dv * x == av + dv * h) by (nonlinear_arith)
        requires
            h == x - t,
            t * dv == av,
    ;
    lemma_tiny();
    lemma_tiny_fourth();
    assert(dv * o <= uu * e / (10 as real)) by (nonlinear_arith)
        requires
            dv <= 7 as real * f,
            f == u * uu,
            u <= 0x10_0000 as real,
            uu > 0 as real,
            u > 0 as real,
            o > 0 as real,
            o <= e * e * e * e,
            e == (1 as real) / (0x100_0000 as real),
    ;
    assert(uu * (201 as real / (100 as real)) == (201 as real / (100 as real)) * uu)
        by (nonlinear_arith);
    lemma_share(size(av), uu, 201 as real / (100 as real));
    assert(uu * (5 as real * e) == 5 as real * (uu * e) && uu * (8 as real * e) == 8 as real * (uu
        * e)) by (nonlinear_arith);
}

/// Whether the entries of two matrices are at most `t` apart.
pub open spec fn is_close(x: Grid, y: Grid, t: real) -> bool {
    &&& row_is_close(x.r0, y.r0, t)
    &&& row_is_close(x.r1, y.r1, t)
    &&& row_is_close(x.r2, y.r2, t)
}

pub open spec fn row_is_close(x: Triple, y: Triple, t: real) -> bool {
    size(x.x - y.x) <= t && size(x.y - y.y) <= t && size(x.z - y.z) <= t
}

/// The forms of matrices whose entries are close.
pub proof fn lemma_close_forms(x: Grid, y: Grid, t: real, e: Triple)
    requires
        is_close(x, y, t),
        t >= 0 as real,
    ensures
        size(x.form(e, e) - y.form(e, e)) <= 3 as real * (t * e.dot(e)),
{
    let d = x.plus(-(1 as real), y);
    lemma_form_plus(x, -(1 as real), y, e, e);
    let f = y.form(e, e);
    assert(-(1 as real) * f == -f) by (nonlinear_arith);
    lemma_minus_one(y.r0);
    lemma_minus_one(y.r1);
    lemma_minus_one(y.r2);
    let n = size(e.x) + size(e.y) + size(e.z);
    lemma_small_row(d.r0, e, t, n);
    lemma_small_row(d.r1, e, t, n);
    lemma_small_row(d.r2, e, t, n);
    lemma_product_size(e.x, d.r0.dot(e), size(e.x), t * n);
    lemma_product_size(e.y, d.r1.dot(e), size(e.y), t * n);
    lemma_product_size(e.z, d.r2.dot(e), size(e.z), t * n);
    let (a, b, c, m) = (size(e.x), size(e.y), size(e.z), t * n);
    assert(a * m + b * m + c * m == t * (n * n)) by (nonlinear_arith)
        requires
            m == t * n,
            n == a + b + c,
    ;
    lemma_sum_squared(e);
    let (nn, q) = (n * n, e.dot(e));
    assert(t * nn <= 3 as real * (t * q)) by (nonlinear_arith)
        requires
            nn <= 3 as real * q,
            t >= 0 as real,
    ;
}

proof fn lemma_minus_one(r: Triple)
    ensures
        -(1 as real) * r.x == -r.x,
        -(1 as real) * r.y == -r.y,
        -(1 as real) * r.z == -r.z,
{
    assert(-(1 as real) * r.x == -r.x && -(1 as real) * r.y == -r.y && -(1 as real) * r.z == -r.z)
        by (nonlinear_arith);
}

proof fn lemma_small_row(d: Triple, e: Triple, t: real, n: real)
    requires
        size(d.x) <= t && size(d.y) <= t && size(d.z) <= t,
        n == size(e.x) + size(e.y) + size(e.z),
    ensures
        size(d.dot(e)) <= t * n,
{
    lemma_product_size(d.x, e.x, t, size(e.x));
    lemma_product_size(d.y, e.y, t, size(e.y));
    lemma_product_size(d.z, e.z, t, size(e.z));
    let (a, b, c) = (size(e.x), size(e.y), size(e.z));
    assert(t * n == t * a + t * b + t * c) by (nonlinear_arith)
        requires
            n == a + b + c,
    ;
}

pub proof fn lemma_sum_squared(e: Triple)
    ensures
        ({
            let n = size(e.x) + size(e.y) + size(e.z);
            n * n <= 3 as real * e.dot(e)
        }),
{
    let (a, b, c) = (size(e.x), size(e.y), size(e.z));
    lemma_square_sign(a - b);
    lemma_square_sign(a - c);
    lemma_square_sign(b - c);
    let n = a + b + c;
    assert((a - b) * (a - b) == a * a - 2 as real * (a * b) + b * b) by (nonlinear_arith);
    assert((a - c) * (a - c) == a * a - 2 as real * (a * c) + c * c) by (nonlinear_arith);
    assert((b - c) * (b - c) == b * b - 2 as real * (b * c) + c * c) by (nonlinear_arith);
    assert(n * n == a * a + b * b + c * c + 2 as real * (a * b) + 2 as real * (a * c) + 2 as real * (
    b * c)) by (nonlinear_arith)
        requires
            n == a + b + c,
    ;
    lemma_square_of_size(e.x);
    lemma_square_of_size(e.y);
    lemma_square_of_size(e.z);
}

proof fn lemma_square_of_size(x: real)
    ensures
        size(x) * size(x) == x * x,
{
    assert(size(x) * size(x) == x * x) by (nonlinear_arith);
}

/// Whether the forms of two matrices are nowhere more than a share of `t` apart.
pub open spec fn is_alike(x: Grid, y: Grid, t: real) -> bool {
    &&& is_symmetric(x)
    &&& is_symmetric(y)
    &&& forall|e: Triple|
        #[trigger] x.form(e, e) <= (1 as real + t) * y.form(e, e) && y.form(e, e) <= (1 as real + t)
            * x.form(e, e)
}

/// The reciprocal of a positive number.
pub proof fn lemma_reciprocal(x: real) -> (i: real)
    requires
        x > 0 as real,
    ensures
        i * x == 1 as real,
        i > 0 as real,
        i == 1 as real / x,
{
    let i = 1 as real / x;
    assert(i * x == 1 as real && i > 0 as real) by (nonlinear_arith)
        requires
            i == 1 as real / x,
            x > 0 as real,
    ;
    i
}

/// What undoes a matrix is bounded by the reciprocals.
pub proof fn lemma_round_undoing(g: Grid, i: Grid, l: real, u: real)
    requires
        is_round(g, l, u),
        undoes(g, i),
    ensures
        is_round(i, 1 as real / u, 1 as real / l),
{
    lemma_round_is_positive(g, l, u);
    let (p, q) = (lemma_reciprocal(u), lemma_reciprocal(l));
    assert forall|e: Triple|
        p * e.dot(e) <= #[trigger] i.form(e, e) && i.form(e, e) <= q * e.dot(e) by {
        lemma_round_inverse(g, i, l, u, e);
        let (d, v) = (e.dot(e), i.form(e, e));
        lemma_divided(p, u, d, v);
        lemma_divided(q, l, v, d);
    }
}

pub proof fn lemma_divided(p: real, u: real, d: real, v: real)
    requires
        p * u == 1 as real,
        p > 0 as real,
    ensures
        d <= u * v ==> p * d <= v,
        u * d <= v ==> d <= p * v,
{
    if d <= u * v {
        let w = u * v;
        assert(p * d <= p * w) by (nonlinear_arith)
            requires
                d <= w,
                p > 0 as real,
        ;
        assert(p * (u * v) == (p * u) * v) by (nonlinear_arith);
        assert(1 as real * v == v) by (nonlinear_arith);
    }
    if u * d <= v {
        let w = u * d;
        assert(p * w <= p * v) by (nonlinear_arith)
            requires
                w <= v,
                p > 0 as real,
        ;
        assert(p * (u * d) == (p * u) * d) by (nonlinear_arith);
        assert(1 as real * d == d) by (nonlinear_arith);
    }
}

} // verus!
