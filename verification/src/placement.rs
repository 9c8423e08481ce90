//! Where an intersection of estimates puts its position when the other estimate
//! is ignored.
use crate::consistency::lemma_one;
use crate::error::{
    eps, lemma_no_value, lemma_product_error, lemma_sum_error, lemma_tiny, lemma_tiny_fourth, size,
    tiny, value,
};
use crate::forms::{grid, lemma_form_plus, lemma_row_plus, triple, Grid, Triple};
use crate::fusion::{information, intersected, lemma_last_weight, weight, Fix};
use crate::intersection::{is_flat, lemma_first_weight, lemma_intersected, restored, weighed};
use crate::inversion::{
    is_alike, is_within, lemma_entries, lemma_round_undoing, lemma_small_entries, row_is_close,
};
use crate::matrix::M3;
use crate::merging::{
    lemma_alike_chain, lemma_alike_undone, lemma_alone, lemma_computed_not_negative,
    lemma_forms_not_negative, lemma_ith, lemma_shares_add,
};
use crate::metric::{bulk, finite, lemma_inner_error, lemma_product_size};
use crate::number::{is_nought, one, zero, Number};
use crate::preference::lemma_not_negative;
use crate::relative::lemma_nothing_times;
use crate::selection::{
    blend_least, blend_ratio, inverse_least, inverse_ratio, is_covariance, is_vaguer,
    lemma_alike_at, lemma_all_of_one, lemma_better_is_chosen, lemma_both_inverses,
    lemma_inverse_within, lemma_square_size, square,
};
use crate::soundness::{
    bent, is_sound, largest, lemma_inverse_is_little_bent, lemma_sound_inverse, lemma_sound_sizes,
    shape,
};
use crate::spectra::{
    image, inverted, is_round, lemma_inverted, lemma_round_inverse, lemma_round_is_positive,
    undoes,
};
use crate::vector::V3;
use vstd::prelude::*;

verus! {

/// The sizes of the components, added up.
pub open spec fn extent(e: Triple) -> real {
    size(e.x) + size(e.y) + size(e.z)
}

/// Whether all components are at most `t`.
spec fn is_tiny(e: Triple, t: real) -> bool {
    size(e.x) <= t && size(e.y) <= t && size(e.z) <= t
}

proof fn lemma_row_size(r: Triple, e: Triple, u: real)
    requires
        is_tiny(r, u),
    ensures
        size(r.dot(e)) <= u * extent(e),
{
    let (a, b, c, n) = (size(e.x), size(e.y), size(e.z), extent(e));
    lemma_product_size(r.x, e.x, u, a);
    lemma_product_size(r.y, e.y, u, b);
    lemma_product_size(r.z, e.z, u, c);
    assert(u * n == u * a + u * b + u * c) by (nonlinear_arith)
        requires
            n == a + b + c,
    ;
}

proof fn lemma_image_size(g: Grid, e: Triple, u: real)
    requires
        is_tiny(g.r0, u) && is_tiny(g.r1, u) && is_tiny(g.r2, u),
    ensures
        is_tiny(image(g, e), u * extent(e)),
{
    lemma_row_size(g.r0, e, u);
    lemma_row_size(g.r1, e, u);
    lemma_row_size(g.r2, e, u);
}

/// The rounded product of a row and a vector; `f` bounds the exact one.
proof fn lemma_applied_row(r: V3, t: V3, u: real, f: real)
    requires
        finite(r),
        finite(t),
        is_tiny(triple(r), u),
        u * extent(triple(t)) <= f,
        f <= 0x100_0000_0000_0000 as real,
    ensures
        r.dot(t) is Finite,
        size(value(r.dot(t)) - triple(r).dot(triple(t))) <= f * (4 as real * eps()) + 8 as real
            * tiny(),
{
    lemma_tiny();
    let (a, b, c, n) = (size(value(t.x)), size(value(t.y)), size(value(t.z)), extent(triple(t)));
    lemma_product_size(value(r.x), value(t.x), u, a);
    lemma_product_size(value(r.y), value(t.y), u, b);
    lemma_product_size(value(r.z), value(t.z), u, c);
    assert(u * n == u * a + u * b + u * c) by (nonlinear_arith)
        requires
            n == a + b + c,
    ;
    let m = bulk(r, t);
    assert(m <= f);
    lemma_inner_error(r, t);
    let e = eps();
    assert(m * (4 as real * e) <= f * (4 as real * e)) by (nonlinear_arith)
        requires
            m <= f,
            e > 0 as real,
    ;
}

/// The rounded product of a matrix and a vector.
spec fn is_applied(y: V3, z: Triple, f: real) -> bool {
    let slack = f * (4 as real * eps()) + 8 as real * tiny();
    &&& finite(y)
    &&& size(value(y.x) - z.x) <= slack
    &&& size(value(y.y) - z.y) <= slack
    &&& size(value(y.z) - z.z) <= slack
}

proof fn lemma_applied(m: M3, t: V3, u: real, f: real)
    requires
        is_within(m, u),
        finite(t),
        u * extent(triple(t)) <= f,
        f <= 0x100_0000_0000_0000 as real,
    ensures
        is_applied(m.apply(t), image(grid(m), triple(t)), f),
{
    lemma_applied_row(m.r0, t, u, f);
    lemma_applied_row(m.r1, t, u, f);
    lemma_applied_row(m.r2, t, u, f);
}

/// One coordinate with all the weight on it.
proof fn lemma_weighed_coordinate(y: Number, w: Number, z: Number, exact: real, f: real)
    requires
        y is Finite,
        w is Finite,
        value(w) == 1 as real,
        is_nought(z),
        size(value(y) - exact) <= f * (4 as real * eps()) + 8 as real * tiny(),
        size(exact) <= f,
        f >= (1 as real) / (0x10_0000 as real),
        f <= 0x1_0000_0000_0000 as real,
    ensures
        (y * w + z) is Finite,
        (z + y * w) is Finite,
        size(value(y * w + z) - exact) <= f * (7 as real * eps()),
        size(value(z + y * w) - exact) <= f * (7 as real * eps()),
{
    lemma_tiny();
    lemma_tiny_fourth();
    lemma_no_value(z);
    let (e, o, yv) = (eps(), tiny(), value(y));
    let fe = f * e;
    assert(o * 1000 as real <= fe && fe <= f / (1000 as real)) by (nonlinear_arith)
        requires
            fe == f * e,
            f >= (1 as real) / (0x10_0000 as real),
            o <= e * e * e * e,
            e == (1 as real) / (0x100_0000 as real),
    ;
    assert(f * (4 as real * e) == 4 as real * fe && f * (7 as real * e) == 7 as real * fe)
        by (nonlinear_arith)
        requires
            fe == f * e,
    ;
    assert(yv * value(w) == yv) by (nonlinear_arith)
        requires
            value(w) == 1 as real,
    ;
    lemma_product_error(y, w);
    let t = y * w;
    let b = size(yv);
    assert(b <= f + f / (100 as real));
    assert(b * e <= fe + fe / (100 as real)) by (nonlinear_arith)
        requires
            b <= f + f / (100 as real),
            fe == f * e,
            e > 0 as real,
    ;
    lemma_sum_error(t, z);
    lemma_sum_error(z, t);
    let c = size(value(t));
    assert(c <= f + f / (50 as real));
    assert(c * e <= fe + fe / (50 as real)) by (nonlinear_arith)
        requires
            c <= f + f / (50 as real),
            fe == f * e,
            e > 0 as real,
    ;
}

/// Whether `t` is `z`, but for a few roundings of `f`.
spec fn is_near(t: V3, z: Triple, f: real) -> bool {
    let slack = f * (7 as real * eps());
    &&& finite(t)
    &&& size(value(t.x) - z.x) <= slack
    &&& size(value(t.y) - z.y) <= slack
    &&& size(value(t.z) - z.z) <= slack
}

/// The weighed sum of the positions, with all the weight on one of them.
proof fn lemma_weighed(a: M3, b: M3, x: V3, y: V3, u: real, v: real, f: real)
    requires
        is_within(a, u),
        is_within(b, v),
        finite(x),
        finite(y),
        u * extent(triple(x)) <= f,
        f >= (1 as real) / (0x10_0000 as real),
        f <= 0x1_0000_0000_0000 as real,
        v * extent(triple(y)) <= 0x1_0000_0000_0000 as real,
    ensures
        is_near(weighed(a, b, weight(10), x, y), image(grid(a), triple(x)), f),
        is_near(weighed(b, a, weight(0), y, x), image(grid(a), triple(x)), f),
{
    reveal(weighed);
    lemma_first_weight();
    lemma_last_weight();
    lemma_one();
    lemma_applied(a, x, u, f);
    lemma_applied(b, y, v, 0x1_0000_0000_0000 as real);
    lemma_image_size(grid(a), triple(x), u);
    let (p, q, z) = (a.apply(x), b.apply(y), image(grid(a), triple(x)));
    let (i, o, k) = (one(), zero(), weight(0));
    lemma_nothing_times(o, q.x);
    lemma_nothing_times(o, q.y);
    lemma_nothing_times(o, q.z);
    lemma_nothing_times(k, q.x);
    lemma_nothing_times(k, q.y);
    lemma_nothing_times(k, q.z);
    lemma_weighed_coordinate(p.x, i, q.x * o, z.x, f);
    lemma_weighed_coordinate(p.y, i, q.y * o, z.y, f);
    lemma_weighed_coordinate(p.z, i, q.z * o, z.z, f);
    lemma_weighed_coordinate(p.x, i, q.x * k, z.x, f);
    lemma_weighed_coordinate(p.y, i, q.y * k, z.y, f);
    lemma_weighed_coordinate(p.z, i, q.z * k, z.z, f);
}

/// One coordinate of what comes out: `r` is the row of the computed covariance and
/// `s` that of the exact one, `t` the weighed sum and `z` the exact one.
proof fn lemma_coordinate(
    got: real,
    r: Triple,
    s: Triple,
    t: Triple,
    z: Triple,
    u: real,
    c: real,
    f: real,
)
    requires
        is_tiny(r, u),
        size(r.x - s.x) <= c && size(r.y - s.y) <= c && size(r.z - s.z) <= c,
        is_tiny(z, f),
        size(t.x - z.x) <= f * (7 as real * eps()),
        size(t.y - z.y) <= f * (7 as real * eps()),
        size(t.z - z.z) <= f * (7 as real * eps()),
        size(got - r.dot(t)) <= (u * (f * (301 as real / (100 as real)))) * (4 as real * eps())
            + 8 as real * tiny(),
        u > 0 as real,
        c >= 0 as real,
        f > 0 as real,
    ensures
        size(got - s.dot(z)) <= (u * f) * (34 as real * eps()) + 3 as real * (c * f) + 8 as real
            * tiny(),
{
    lemma_tiny();
    let (e, uf) = (eps(), u * f);
    let j = -(1 as real);
    let (d, h) = (t.plus(j, z), r.plus(j, s));
    lemma_less(z);
    lemma_less(s);
    let k = f * (7 as real * e);
    // What the rounding of the sum makes.
    lemma_row_plus(t, j, z, r);
    lemma_row_size(r, d, u);
    let n = extent(d);
    assert(n <= 3 as real * k);
    assert(u * n <= 21 as real * (uf * e)) by (nonlinear_arith)
        requires
            n <= 3 as real * k,
            k == f * (7 as real * e),
            uf == u * f,
            u > 0 as real,
    ;
    // What the rounding of the covariance makes.
    lemma_row_plus(r, j, s, z);
    lemma_row_size(h, z, c);
    let m = extent(z);
    assert(c * m <= 3 as real * (c * f)) by (nonlinear_arith)
        requires
            m <= 3 as real * f,
            c >= 0 as real,
    ;
    let (x, y) = (r.dot(z), s.dot(z));
    assert(j * x == -x && j * y == -y) by (nonlinear_arith)
        requires
            j == -(1 as real),
    ;
    lemma_same_dot(r, t, d, z);
    assert((u * (f * (301 as real / (100 as real)))) * (4 as real * e) == (1204 as real / (
    100 as real)) * (uf * e)) by (nonlinear_arith)
        requires
            uf == u * f,
    ;
    assert(uf * (34 as real * e) == 34 as real * (uf * e)) by (nonlinear_arith);
    assert(uf * e >= 0 as real) by (nonlinear_arith)
        requires
            uf == u * f,
            u > 0 as real,
            f > 0 as real,
            e > 0 as real,
    ;
}

proof fn lemma_less(z: Triple)
    ensures
        -(1 as real) * z.x == -z.x,
        -(1 as real) * z.y == -z.y,
        -(1 as real) * z.z == -z.z,
{
    assert(-(1 as real) * z.x == -z.x && -(1 as real) * z.y == -z.y && -(1 as real) * z.z == -z.z)
        by (nonlinear_arith);
}

proof fn lemma_same_dot(r: Triple, t: Triple, d: Triple, z: Triple)
    requires
        d == t.plus(-(1 as real), z),
    ensures
        r.dot(d) == r.dot(t) - r.dot(z),
{
    lemma_row_plus(t, -(1 as real), z, r);
    let x = r.dot(z);
    assert(-(1 as real) * x == -x) by (nonlinear_arith);
}

/// How near the computed covariance is to the exact one, entry by entry.
proof fn lemma_near_inverse(gx: Grid, gi: Grid, ga: Grid, l: real, u: real, n: real)
    requires
        is_alike(gx, gi, 73 as real * n),
        is_round(ga, l, u),
        undoes(ga, gi),
        n >= 0 as real,
        n <= (1 as real) / (10000 as real),
    ensures
        ({
            let c = 74 as real * (n / l);
            &&& size(gx.r0.x - gi.r0.x) <= c && size(gx.r0.y - gi.r0.y) <= c && size(
                gx.r0.z - gi.r0.z,
            ) <= c
            &&& size(gx.r1.x - gi.r1.x) <= c && size(gx.r1.y - gi.r1.y) <= c && size(
                gx.r1.z - gi.r1.z,
            ) <= c
            &&& size(gx.r2.x - gi.r2.x) <= c && size(gx.r2.y - gi.r2.y) <= c && size(
                gx.r2.z - gi.r2.z,
            ) <= c
        }),
{
    let d = gx.plus(-(1 as real), gi);
    let c = 74 as real * (n / l);
    assert(gx == gx.transposed() && gi == gi.transposed());
    assert(d =~= d.transposed());
    assert forall|e: Triple| size(#[trigger] d.form(e, e)) <= c * e.dot(e) by {
        lemma_form_plus(gx, -(1 as real), gi, e, e);
        lemma_alike_at(gx, gi, 73 as real * n, e);
        lemma_round_inverse(ga, gi, l, u, e);
        lemma_not_negative(gi, e);
        lemma_form_error(gx.form(e, e), gi.form(e, e), e.dot(e), l, n);
    }
    lemma_small_entries(d, c);
    lemma_less(gi.r0);
    lemma_less(gi.r1);
    lemma_less(gi.r2);
}

proof fn lemma_form_error(x: real, i: real, d: real, l: real, n: real)
    requires
        x <= (1 as real + 73 as real * n) * i,
        i <= (1 as real + 73 as real * n) * x,
        l * i <= d,
        i >= 0 as real,
        l > 0 as real,
        n >= 0 as real,
        n <= (1 as real) / (10000 as real),
    ensures
        size(x + (-(1 as real)) * i) <= (74 as real * (n / l)) * d,
{
    assert((-(1 as real)) * i == -i) by (nonlinear_arith);
    let ni = n * i;
    assert((1 as real + 73 as real * n) * i == i + 73 as real * ni) by (nonlinear_arith)
        requires
            ni == n * i,
    ;
    assert((1 as real + 73 as real * n) * x == x + 73 as real * (n * x)) by (nonlinear_arith);
    assert(ni >= 0 as real && ni <= i / (10000 as real)) by (nonlinear_arith)
        requires
            ni == n * i,
            n >= 0 as real,
            i >= 0 as real,
            n <= (1 as real) / (10000 as real),
    ;
    assert(n * x <= ni + 73 as real * (n * ni)) by (nonlinear_arith)
        requires
            x <= i + 73 as real * ni,
            ni == n * i,
            n >= 0 as real,
    ;
    assert(n * ni <= ni / (10000 as real)) by (nonlinear_arith)
        requires
            ni >= 0 as real,
            n <= (1 as real) / (10000 as real),
    ;
    let q = n / l;
    assert(q * l == n && q >= 0 as real) by (nonlinear_arith)
        requires
            q == n / l,
            l > 0 as real,
            n >= 0 as real,
    ;
    let li = l * i;
    assert(q * li <= q * d) by (nonlinear_arith)
        requires
            li <= d,
            q >= 0 as real,
    ;
    assert(q * (l * i) == (q * l) * i) by (nonlinear_arith);
    assert((74 as real * q) * d == 74 as real * (q * d)) by (nonlinear_arith);
}

/// Whether `y` is `x`, but for roundings of what is believed: `n` goes with the
/// square of `k`, and `s` is a little more than the extent of the position.
pub open spec fn is_kept(y: Number, x: Number, n: real, k: real, s: real) -> bool {
    y is Finite && size(value(y) - value(x)) <= 560 as real * ((n * k) * s)
}

pub open spec fn is_place_kept(y: V3, x: V3, n: real, k: real) -> bool {
    let s = extent(triple(x)) + 1 as real;
    is_kept(y.x, x.x, n, k, s) && is_kept(y.y, x.y, n, k, s) && is_kept(y.z, x.z, n, k, s)
}

/// The bounds of all the roundings together.
proof fn lemma_total(la: real, k: real, n: real, s: real, got: real)
    requires
        la > 0 as real,
        k >= 1 as real,
        n >= eps(),
        s >= 1 as real,
        ({
            let k1 = k * (203 as real / (200 as real));
            let (u, f) = (
                (102 as real / (100 as real)) * (1 as real / la),
                ((1003 as real / (1000 as real)) * (k1 * la)) * s,
            );
            got <= (u * f) * (34 as real * eps()) + 3 as real * ((151 as real * (n / la)) * f)
                + 8 as real * tiny() + (541 as real / (10 as real)) * (n * s)
        }),
    ensures
        got <= 560 as real * ((n * k) * s),
{
    lemma_tiny();
    let (e, o) = (eps(), tiny());
    let ks = k * s;
    let c = (1003 as real / (1000 as real)) * (203 as real / (200 as real));
    let i = 1 as real / la;
    let q = n / la;
    assert(i * la == 1 as real && q * la == n) by (nonlinear_arith)
        requires
            i == 1 as real / la,
            q == n / la,
            la > 0 as real,
    ;
    let k1 = k * (203 as real / (200 as real));
    let f = ((1003 as real / (1000 as real)) * (k1 * la)) * s;
    lemma_spread_out(k, la, s);
    assert(f == c * (ks * la));
    let (u, x) = ((102 as real / (100 as real)) * i, ks * la);
    assert(ks >= 1 as real && ks >= s) by (nonlinear_arith)
        requires
            ks == k * s,
            k >= 1 as real,
            s >= 1 as real,
    ;
    assert(i * x == ks && q * x == n * ks) by {
        assert(i * (ks * la) == ks * (i * la)) by (nonlinear_arith);
        assert(q * (ks * la) == ks * (q * la)) by (nonlinear_arith);
        assert(ks * 1 as real == ks) by (nonlinear_arith);
        assert(ks * n == n * ks) by (nonlinear_arith);
    }
    let uf = u * f;
    assert(uf == ((102 as real / (100 as real)) * c) * ks) by {
        let d = 102 as real / (100 as real);
        assert((d * i) * (c * x) == (d * c) * (i * x)) by (nonlinear_arith);
    }
    let nks = n * ks;
    let qf = q * f;
    assert(qf == c * nks) by {
        assert(q * (c * x) == c * (q * x)) by (nonlinear_arith);
    }
    assert((151 as real * q) * f == 151 as real * qf) by (nonlinear_arith)
        requires
            qf == q * f,
    ;
    let ke = ks * e;
    assert(uf * (34 as real * e) == (34 as real * ((102 as real / (100 as real)) * c)) * ke)
        by (nonlinear_arith)
        requires
            uf == ((102 as real / (100 as real)) * c) * ks,
            ke == ks * e,
    ;
    assert(ke <= nks && nks >= e && ke > 0 as real) by (nonlinear_arith)
        requires
            nks == n * ks,
            ke == ks * e,
            n >= e,
            ks >= 1 as real,
            e > 0 as real,
    ;
    let ns = n * s;
    assert(ns <= nks) by (nonlinear_arith)
        requires
            ns == n * s,
            nks == n * ks,
            ks >= s,
            n > 0 as real,
    ;
    assert(c == 203609 as real / (200000 as real)) by (nonlinear_arith)
        requires
            c == (1003 as real / (1000 as real)) * (203 as real / (200 as real)),
    ;
    let z = 34 as real * ((102 as real / (100 as real)) * c);
    assert(z * ke <= 36 as real * nks) by (nonlinear_arith)
        requires
            z <= 36 as real,
            z >= 0 as real,
            ke <= nks,
            ke > 0 as real,
    ;
    assert((n * k) * s == n * (k * s)) by (nonlinear_arith);
    assert(o * 100 as real <= e) by (nonlinear_arith)
        requires
            o <= e * e,
            e == (1 as real) / (0x100_0000 as real),
    ;
    let (y, w) = (203609 as real / (200000 as real), 3 as real * (151 as real * qf));
    assert(c * nks == y * nks);
    assert(w == (453 as real * y) * nks) by (nonlinear_arith)
        requires
            w == 3 as real * (151 as real * qf),
            qf == y * nks,
    ;
    assert((453 as real * y) * nks <= 462 as real * nks) by (nonlinear_arith)
        requires
            453 as real * y <= 462 as real,
            nks > 0 as real,
    ;
}

proof fn lemma_spread_out(k: real, l: real, s: real)
    ensures
        ((1003 as real / (1000 as real)) * ((k * (203 as real / (200 as real))) * l)) * s == ((
        1003 as real / (1000 as real)) * (203 as real / (200 as real))) * ((k * s) * l),
{
    let (a, b) = (1003 as real / (1000 as real), 203 as real / (200 as real));
    assert((k * b) * l == b * (k * l)) by (nonlinear_arith);
    let kl = k * l;
    assert((a * (b * kl)) * s == (a * b) * (kl * s)) by (nonlinear_arith);
    assert((k * l) * s == (k * s) * l) by (nonlinear_arith);
}

/// What the symmetry of the intersection lacks, one component.
proof fn lemma_bent_covariance(b: real, lm: real, la: real, k: real, n2: real, n: real)
    requires
        b * (lm * lm) <= (31 as real / (10 as real)) * (21 as real * (n2 * lm)) + (83 as real / (
        10 as real)) * ((k * lm) * eps()),
        k * eps() <= n2,
        n2 <= (10387 as real / (10000 as real)) * n,
        lm == (499 as real / (500 as real)) * la,
        la > 0 as real,
        n > 0 as real,
        n2 > 0 as real,
    ensures
        b <= 77 as real * (n / la),
{
    let (e, x) = (eps(), n2 * lm);
    let ke = k * e;
    assert((k * lm) * e == ke * lm && ke * lm <= x) by (nonlinear_arith)
        requires
            ke == k * e,
            ke <= n2,
            x == n2 * lm,
            lm > 0 as real,
    ;
    let (y, c) = (b * lm, (734 as real / (10 as real)) * n2);
    assert(b * (lm * lm) == y * lm) by (nonlinear_arith)
        requires
            y == b * lm,
    ;
    assert((734 as real / (10 as real)) * x == c * lm) by (nonlinear_arith)
        requires
            x == n2 * lm,
            c == (734 as real / (10 as real)) * n2,
    ;
    assert(x > 0 as real) by (nonlinear_arith)
        requires
            x == n2 * lm,
            n2 > 0 as real,
            lm > 0 as real,
    ;
    assert(y <= c) by (nonlinear_arith)
        requires
            y * lm <= c * lm,
            lm > 0 as real,
    ;
    let (z, q) = (b * la, n / la);
    assert(y == (499 as real / (500 as real)) * z) by (nonlinear_arith)
        requires
            y == b * lm,
            lm == (499 as real / (500 as real)) * la,
            z == b * la,
    ;
    assert(z <= 77 as real * n);
    assert(q * la == n) by (nonlinear_arith)
        requires
            q == n / la,
            la > 0 as real,
    ;
    let most = 77 as real * q;
    assert(most * la == 77 as real * n) by (nonlinear_arith)
        requires
            most == 77 as real * q,
            q * la == n,
    ;
    assert(b <= most) by (nonlinear_arith)
        requires
            b * la <= most * la,
            la > 0 as real,
    ;
}

/// What the missing symmetry of the information `x` makes of a position, one row:
/// `r` is the row as it is and `s` that of the symmetric part.
proof fn lemma_bent_row(r: Triple, s: Triple, pos: Triple, t: real)
    requires
        size(r.x - s.x) <= t && size(r.y - s.y) <= t && size(r.z - s.z) <= t,
    ensures
        size(r.dot(pos) - s.dot(pos)) <= t * extent(pos),
{
    let j = -(1 as real);
    let d = r.plus(j, s);
    lemma_less(s);
    lemma_row_plus(r, j, s, pos);
    lemma_row_size(d, pos, t);
    let y = s.dot(pos);
    assert(j * y == -y) by (nonlinear_arith)
        requires
            j == -(1 as real),
    ;
}

/// The exact covariance `ix` of what the information makes of a position: `gx` is
/// the symmetric part of the information and `hx` all of it.
proof fn lemma_returned(gx: Grid, hx: Grid, ix: Grid, pos: Triple, la: real, k: real, t: real)
    requires
        is_round(gx, la, k * la),
        undoes(gx, ix),
        undoes(ix, gx),
        row_is_close(hx.r0, gx.r0, t) && row_is_close(hx.r1, gx.r1, t) && row_is_close(
            hx.r2,
            gx.r2,
            t,
        ),
        t >= 0 as real,
        la > 0 as real,
    ensures
        ({
            let y = image(ix, image(hx, pos));
            let most = 3 as real * ((1 as real / la) * (t * extent(pos)));
            &&& size(y.x - pos.x) <= most
            &&& size(y.y - pos.y) <= most
            &&& size(y.z - pos.z) <= most
        }),
{
    lemma_bent_row(hx.r0, gx.r0, pos, t);
    lemma_bent_row(hx.r1, gx.r1, pos, t);
    lemma_bent_row(hx.r2, gx.r2, pos, t);
    let (z, z0) = (image(hx, pos), image(gx, pos));
    assert(image(ix, z0) == pos);
    lemma_round_undoing(gx, ix, la, k * la);
    lemma_entries(ix, 1 as real / (k * la), 1 as real / la);
    let (i, w) = (1 as real / la, t * extent(pos));
    lemma_returned_row(ix.r0, z, z0, i, w);
    lemma_returned_row(ix.r1, z, z0, i, w);
    lemma_returned_row(ix.r2, z, z0, i, w);
}

proof fn lemma_returned_row(r: Triple, z: Triple, z0: Triple, i: real, w: real)
    requires
        is_tiny(r, i),
        size(z.x - z0.x) <= w && size(z.y - z0.y) <= w && size(z.z - z0.z) <= w,
    ensures
        size(r.dot(z) - r.dot(z0)) <= 3 as real * (i * w),
{
    let d = z.plus(-(1 as real), z0);
    lemma_less(z0);
    lemma_same_dot(r, z, d, z0);
    lemma_product_size(r.x, d.x, i, w);
    lemma_product_size(r.y, d.y, i, w);
    lemma_product_size(r.z, d.z, i, w);
}

/// The same, for the bends that a sound information has.
proof fn lemma_returned_share(la: real, n1: real, n: real, s: real, x: real)
    requires
        la > 0 as real,
        n1 <= (10303 as real / (10000 as real)) * n,
        n1 > 0 as real,
        n > 0 as real,
        x >= 0 as real,
        x <= s,
    ensures
        3 as real * ((1 as real / la) * (((35 as real / (2 as real)) * (n1 * la)) * x)) <= (541 as real
            / (10 as real)) * (n * s),
{
    let i = 1 as real / la;
    let h = 35 as real / (2 as real);
    assert(i * la == 1 as real) by (nonlinear_arith)
        requires
            i == 1 as real / la,
            la > 0 as real,
    ;
    let nx = n1 * x;
    assert(i * ((h * (n1 * la)) * x) == h * ((i * la) * (n1 * x))) by {
        let y = n1 * la;
        assert((h * y) * x == h * (y * x)) by (nonlinear_arith);
        let yx = y * x;
        assert(i * (h * yx) == h * (i * yx)) by (nonlinear_arith);
        assert(i * ((n1 * la) * x) == (i * la) * (n1 * x)) by (nonlinear_arith);
    }
    assert(1 as real * nx == nx) by (nonlinear_arith);
    let ns = n * s;
    assert(nx <= (10303 as real / (10000 as real)) * ns && ns >= 0 as real) by (nonlinear_arith)
        requires
            nx == n1 * x,
            ns == n * s,
            n1 <= (10303 as real / (10000 as real)) * n,
            n1 > 0 as real,
            n > 0 as real,
            x >= 0 as real,
            x <= s,
    ;
}

/// The computed covariance `m.inverse()` against the exact inverse of the
/// information `x`, entry by entry, missing symmetry included.
proof fn lemma_near_covariance(x: M3, m: M3, la: real, lm: real, k: real)
    requires
        is_answer(x, m, la, lm, k),
    ensures
        ({
            let (h, ix, c) = (
                grid(m.inverse()),
                inverted(shape(x)),
                151 as real * (square(k) / la),
            );
            &&& row_is_close(h.r0, ix.r0, c)
            &&& row_is_close(h.r1, ix.r1, c)
            &&& row_is_close(h.r2, ix.r2, c)
            &&& undoes(shape(x), ix)
            &&& undoes(ix, shape(x))
            &&& finite(m.inverse().r0) && finite(m.inverse().r1) && finite(m.inverse().r2)
        }),
{
    let (n, k1) = (square(k), inverse_ratio(k));
    let k2 = blend_ratio(k1);
    let (gx, gm, gi) = (shape(x), shape(m), shape(m.inverse()));
    lemma_round_is_positive(gx, la, k1 * la);
    lemma_inverted(gx);
    let t = 21 as real * (square(k2) * lm);
    lemma_sound_inverse(m, lm, k2, square(k2), t);
    let (ix, im) = (inverted(gx), inverted(gm));
    lemma_alike_undone(gm, im, gx, ix, 10 as real * square(k1));
    let (v, w) = (60 as real * square(k2), 10 as real * square(k1));
    lemma_shares_add(
        v,
        w,
        73 as real,
        n,
        62322 as real / (1000 as real),
        10303 as real / (1000 as real),
    );
    lemma_forms_not_negative(gm, im);
    lemma_forms_not_negative(gx, ix);
    lemma_computed_not_negative(gi, im, v);
    lemma_alike_chain(gi, im, ix, v, w, 73 as real * n);
    lemma_near_inverse(gi, ix, gx, la, k1 * la, n);
    lemma_inverse_is_little_bent(m, lm, k2, square(k2), t);
    lemma_square_size(k2, square(k2));
    let b = bent(m.inverse());
    lemma_bent_covariance(size(b.x), lm, la, k2, square(k2), n);
    lemma_bent_covariance(size(b.y), lm, la, k2, square(k2), n);
    lemma_bent_covariance(size(b.z), lm, la, k2, square(k2), n);
}

/// What is known of the information `x` of the better estimate and of that of the
/// intersection, `m`.
spec fn is_answer(x: M3, m: M3, la: real, lm: real, k: real) -> bool {
    let k1 = inverse_ratio(k);
    let k2 = blend_ratio(k1);
    &&& k >= 1 as real
    &&& square(k) <= (1 as real) / (10000 as real)
    &&& square(k) >= eps()
    &&& square(k1) <= (10303 as real / (10000 as real)) * square(k)
    &&& square(k1) > 0 as real
    &&& square(k2) <= (10387 as real / (10000 as real)) * square(k)
    &&& square(k2) > 0 as real
    &&& is_sound(x, la, k1, square(k1), (35 as real / (2 as real)) * (square(k1) * la))
    &&& is_sound(m, lm, k2, square(k2), 21 as real * (square(k2) * lm))
    &&& is_alike(shape(m), shape(x), 10 as real * square(k1))
    &&& lm == (499 as real / (500 as real)) * la
}

/// The entries of the computed covariance.
proof fn lemma_covariance_within(x: M3, m: M3, la: real, lm: real, k: real)
    requires
        is_answer(x, m, la, lm, k),
    ensures
        is_within(m.inverse(), (102 as real / (100 as real)) * (1 as real / la)),
{
    lemma_near_covariance(x, m, la, lm, k);
    let (k1, ix, n) = (inverse_ratio(k), inverted(shape(x)), square(k));
    lemma_round_undoing(shape(x), ix, la, k1 * la);
    lemma_entries(ix, 1 as real / (k1 * la), 1 as real / la);
    let (i, q) = (1 as real / la, n / la);
    assert(i > 0 as real && q == n * i && q <= i / (10000 as real)) by (nonlinear_arith)
        requires
            i == 1 as real / la,
            q == n / la,
            la > 0 as real,
            n > 0 as real,
            n <= (1 as real) / (10000 as real),
    ;
}

/// What comes out of the weighed sum `t`: `x` is the information of the estimate,
/// `m` that of the intersection.
proof fn lemma_restored(
    x: M3,
    m: M3,
    pos: V3,
    t: V3,
    la: real,
    lm: real,
    k: real,
)
    requires
        is_answer(x, m, la, lm, k),
        finite(pos),
        is_near(
            t,
            image(grid(x), triple(pos)),
            wide(k, la) * (extent(triple(pos)) + 1 as real),
        ),
        wide(k, la) * (extent(triple(pos)) + 1 as real) <= 0x10_0000_0000 as real,
    ensures
        is_place_kept(restored(m, t), pos, square(k), k),
{
    reveal(restored);
    lemma_tiny();
    let (n, k1) = (square(k), inverse_ratio(k));
    let s = extent(triple(pos)) + 1 as real;
    let f = wide(k, la) * s;
    lemma_near_covariance(x, m, la, lm, k);
    lemma_covariance_within(x, m, la, lm, k);
    let (h, ix) = (grid(m.inverse()), inverted(shape(x)));
    let z = image(grid(x), triple(pos));
    let bend = (35 as real / (2 as real)) * (square(k1) * la);
    lemma_sound_sizes(x, la, k1, square(k1), bend);
    lemma_wide(k1, la, largest(shape(x)));
    lemma_image_size(grid(x), triple(pos), wide(k, la));
    lemma_extents(z, t, wide(k, la), s, f);
    let u = (102 as real / (100 as real)) * (1 as real / la);
    let g = u * (f * (301 as real / (100 as real)));
    lemma_narrow(la);
    lemma_product_range(u, f);
    assert(u * extent(triple(t)) <= g) by {
        let (p, q) = (extent(triple(t)), f * (301 as real / (100 as real)));
        assert(u * p <= u * q) by (nonlinear_arith)
            requires
                p <= q,
                u > 0 as real,
        ;
    }
    lemma_applied(m.inverse(), t, u, g);
    let c = 151 as real * (n / la);
    assert(c >= 0 as real) by (nonlinear_arith)
        requires
            c == 151 as real * (n / la),
            n > 0 as real,
            la > 0 as real,
    ;
    let y = m.inverse().apply(t);
    lemma_coordinate(value(y.x), h.r0, ix.r0, triple(t), z, u, c, f);
    lemma_coordinate(value(y.y), h.r1, ix.r1, triple(t), z, u, c, f);
    lemma_coordinate(value(y.z), h.r2, ix.r2, triple(t), z, u, c, f);
    lemma_returned(shape(x), grid(x), ix, triple(pos), la, k1, bend);
    lemma_returned_share(la, square(k1), n, s, extent(triple(pos)));
    lemma_total(la, k, n, s, size(value(y.x) - value(pos.x)));
    lemma_total(la, k, n, s, size(value(y.y) - value(pos.y)));
    lemma_total(la, k, n, s, size(value(y.z) - value(pos.z)));
}

/// A bound on the entries of a computed information.
spec fn wide(k: real, la: real) -> real {
    (1003 as real / (1000 as real)) * (inverse_ratio(k) * la)
}

proof fn lemma_wide(k: real, la: real, big: real)
    requires
        big <= k * la,
        big > 0 as real,
    ensures
        (1003 as real / (1000 as real)) * big <= (1003 as real / (1000 as real)) * (k * la),
        (1003 as real / (1000 as real)) * (k * la) > 0 as real,
{
}

proof fn lemma_narrow(la: real)
    requires
        la >= (1 as real) / (0x4_0000 as real),
    ensures
        (102 as real / (100 as real)) * (1 as real / la) > 0 as real,
        (102 as real / (100 as real)) * (1 as real / la) <= 0x5_0000 as real,
{
    let i = 1 as real / la;
    assert(i > 0 as real && i <= 0x4_0000 as real) by (nonlinear_arith)
        requires
            i == 1 as real / la,
            la >= (1 as real) / (0x4_0000 as real),
    ;
}

proof fn lemma_product_range(u: real, f: real)
    requires
        u > 0 as real,
        u <= 0x5_0000 as real,
        f > 0 as real,
        f <= 0x10_0000_0000 as real,
    ensures
        u * (f * (301 as real / (100 as real))) <= 0x100_0000_0000_0000 as real,
{
    let g = f * (301 as real / (100 as real));
    assert(g == 301 as real * f / (100 as real)) by (nonlinear_arith)
        requires
            g == f * (301 as real / (100 as real)),
    ;
    assert(u * g <= 0x5_0000 as real * g) by (nonlinear_arith)
        requires
            u <= 0x5_0000 as real,
            g > 0 as real,
    ;
}

/// The extent of what was weighed.
proof fn lemma_extents(z: Triple, t: V3, u: real, s: real, f: real)
    requires
        is_tiny(z, u * (s - 1 as real)),
        is_near(t, z, f),
        f == u * s,
        u > 0 as real,
        s >= 1 as real,
    ensures
        is_tiny(z, f),
        extent(triple(t)) <= f * (301 as real / (100 as real)),
        f > 0 as real,
{
    let e = eps();
    assert(f > 0 as real && u * (s - 1 as real) <= f) by (nonlinear_arith)
        requires
            f == u * s,
            u > 0 as real,
            s >= 1 as real,
    ;
    assert(f * (7 as real * e) <= f / (1000 as real)) by (nonlinear_arith)
        requires
            f > 0 as real,
            e == (1 as real) / (0x100_0000 as real),
    ;
    assert(f * (301 as real / (100 as real)) == 301 as real * f / (100 as real))
        by (nonlinear_arith);
}

/// Whether a position is finite and within 2^14 in every coordinate.
pub open spec fn is_position(x: V3) -> bool {
    &&& finite(x)
    &&& size(value(x.x)) <= 0x4000 as real
    &&& size(value(x.y)) <= 0x4000 as real
    &&& size(value(x.z)) <= 0x4000 as real
}

/// An estimate that is vaguer in every direction is ignored, from whichever side
/// it comes: fusing gives the better estimate, position and covariance, but for
/// roundings. The covariances may be any that are symmetric within roundings and
/// stretch no direction more than `k` times as much as another; the roundings go with the square of `k`,
/// and the other estimate has to be vaguer by the share `m`, of which those are a
/// small part. Of two that are nearer to each other rounding may prefer either.
pub proof fn law_vaguer_estimate_is_dismissed(
    a: Fix,
    b: Fix,
    p: real,
    q: real,
    k: real,
    m: real,
)
    requires
        is_covariance(a.cov, p, k),
        is_covariance(b.cov, q, k),
        is_vaguer(b.cov, a.cov, m),
        m > 0 as real,
        m <= 1 as real,
        square(k) <= m / (10000 as real),
        is_position(a.pos),
        is_position(b.pos),
    ensures
        is_alike(shape(intersected(a, b).cov), shape(a.cov), 134 as real * square(k)),
        is_alike(shape(intersected(b, a).cov), shape(a.cov), 134 as real * square(k)),
        is_place_kept(intersected(a, b).pos, a.pos, square(k), k),
        is_place_kept(intersected(b, a).pos, a.pos, square(k), k),
{
    reveal(is_flat);
    let (pa, pb) = (a.cov, b.cov);
    lemma_better_is_chosen(pa, pb, p, q, k, m);
    lemma_both_inverses(pa, pb, p, q, k);
    lemma_square_size(k, square(k));
    lemma_ith(pa, pb, 10, p, q, k);
    lemma_ith(pb, pa, 0, q, p, k);
    lemma_alone(pa, pb, p, q, k);
    lemma_first_weight();
    lemma_last_weight();
    lemma_one();
    lemma_no_value(zero());
    lemma_no_value(weight(0));
    let (x, y) = (pa.inverse(), pb.inverse());
    lemma_intersected(a, b, weight(10));
    lemma_intersected(b, a, weight(0));
    let (la, lb, k1) = (inverse_least(p, k), inverse_least(q, k), inverse_ratio(k));
    lemma_square_size(k1, square(k1));
    lemma_square_size(blend_ratio(k1), square(blend_ratio(k1)));
    lemma_inverse_within(x, la, k1, square(k1));
    lemma_inverse_within(y, lb, k1, square(k1));
    let s = extent(triple(a.pos)) + 1 as real;
    let (u, v) = (wide(k, la), wide(k, lb));
    let f = u * s;
    lemma_wide_range(k1, la);
    lemma_wide_range(k1, lb);
    lemma_weighed_range(u, s);
    lemma_weighed_range(v, extent(triple(b.pos)) + 1 as real);
    lemma_weighed(x, y, a.pos, b.pos, u, v, f);
    lemma_all_of_one(la, lb);
    let lm = (499 as real / (500 as real)) * la;
    lemma_alone_least(la, lb);
    lemma_restored(
        x,
        information(x, y, weight(10)),
        a.pos,
        weighed(x, y, weight(10), a.pos, b.pos),
        la,
        lm,
        k,
    );
    lemma_restored(
        x,
        information(y, x, weight(0)),
        a.pos,
        weighed(y, x, weight(0), b.pos, a.pos),
        la,
        lm,
        k,
    );
}

proof fn lemma_alone_least(p: real, q: real)
    ensures
        blend_least(p, q, 1 as real, 0 as real) == (499 as real / (500 as real)) * p,
        blend_least(q, p, 0 as real, 1 as real) == (499 as real / (500 as real)) * p,
{
    assert(p * (1 as real) == p && q * (0 as real) == 0 as real) by (nonlinear_arith);
}

proof fn lemma_wide_range(k: real, la: real)
    requires
        la >= (1 as real) / (0x1_2000 as real),
        k * la <= 0x1_2000 as real,
        k >= 1 as real,
    ensures
        (1003 as real / (1000 as real)) * (k * la) >= (1 as real) / (0x10_0000 as real),
        (1003 as real / (1000 as real)) * (k * la) <= 0x1_3000 as real,
{
    let u = k * la;
    assert(u >= la) by (nonlinear_arith)
        requires
            u == k * la,
            k >= 1 as real,
            la > 0 as real,
    ;
}

proof fn lemma_weighed_range(u: real, s: real)
    requires
        u >= (1 as real) / (0x10_0000 as real),
        u <= 0x1_3000 as real,
        s >= 1 as real,
        s <= 0xc001 as real,
    ensures
        u * s >= (1 as real) / (0x10_0000 as real),
        u * s <= 0x10_0000_0000 as real,
        u * (s - 1 as real) <= u * s,
{
    assert(u * s >= u) by (nonlinear_arith)
        requires
            s >= 1 as real,
            u > 0 as real,
    ;
    assert(u * s <= 0x1_3000 as real * s) by (nonlinear_arith)
        requires
            u <= 0x1_3000 as real,
            s >= 1 as real,
    ;
    assert(u * (s - 1 as real) == u * s - u) by (nonlinear_arith);
}

} // verus!
