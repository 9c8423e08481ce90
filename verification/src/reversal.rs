//! The determinant of a computed inverse, of a matrix that is symmetric up to
//! rounding.
use crate::error::{eps, lemma_square_sign, lemma_tiny, size, value};
use crate::forms::{grid, lemma_form_shift, Grid, Triple};
use crate::inversion::{is_within, lemma_det, lemma_reciprocal};
use crate::matrix::M3;
use crate::preference::{determinant, is_origin, is_positive, lemma_not_negative};
use crate::skew::{lemma_adjugate_determinant, lemma_determinant_parts};
use crate::soundness::{
    bent, is_small, is_sound, largest, lemma_bent_form, lemma_determinant_size, lemma_inverse_bent,
    lemma_largest, lemma_small_length, lemma_sound_determinant, lemma_sound_inverse,
    lemma_sound_sizes, shape,
};
use crate::spectra::{
    adjugate, image, inverted, is_round, lemma_determinant_grows, lemma_dot_swap, lemma_inverted,
    lemma_part_dot, lemma_round_inverse, lemma_round_is_positive, part, times,
};
use vstd::prelude::*;

verus! {

/// The determinant of the exact inverse.
pub proof fn lemma_inverted_determinant(g: Grid)
    requires
        is_positive(g),
    ensures
        determinant(inverted(g)) * determinant(g) == 1 as real,
        determinant(g) > 0 as real,
{
    lemma_inverted(g);
    lemma_adjugate_determinant(g);
    let (a, det) = (adjugate(g), determinant(g));
    let c = lemma_reciprocal(det);
    lemma_scaled_determinant(a, c);
    assert((c * (c * c)) * (det * det) == (c * det) * ((c * det) * c)) by (nonlinear_arith);
    assert(1 as real * (1 as real * c) == c) by (nonlinear_arith);
}

proof fn lemma_scaled_determinant(a: Grid, c: real)
    ensures
        determinant(times(c, a)) == (c * (c * c)) * determinant(a),
{
    lemma_scaled_minor(c, a.r1.y, a.r2.z, a.r1.z, a.r2.y);
    lemma_scaled_minor(c, a.r1.x, a.r2.z, a.r1.z, a.r2.x);
    lemma_scaled_minor(c, a.r1.x, a.r2.y, a.r1.y, a.r2.x);
    let (x, y, z) = (
        a.r1.y * a.r2.z - a.r1.z * a.r2.y,
        a.r1.x * a.r2.z - a.r1.z * a.r2.x,
        a.r1.x * a.r2.y - a.r1.y * a.r2.x,
    );
    let (cc, ccc) = (c * c, c * (c * c));
    assert((c * a.r0.x) * (cc * x) == ccc * (a.r0.x * x)) by (nonlinear_arith)
        requires
            ccc == c * cc,
    ;
    assert((c * a.r0.y) * (cc * y) == ccc * (a.r0.y * y)) by (nonlinear_arith)
        requires
            ccc == c * cc,
    ;
    assert((c * a.r0.z) * (cc * z) == ccc * (a.r0.z * z)) by (nonlinear_arith)
        requires
            ccc == c * cc,
    ;
    let (p, q, r) = (a.r0.x * x, a.r0.y * y, a.r0.z * z);
    assert(ccc * (p - q + r) == ccc * p - ccc * q + ccc * r) by (nonlinear_arith);
}

proof fn lemma_scaled_minor(c: real, p: real, q: real, r: real, s: real)
    ensures
        (c * p) * (c * q) - (c * r) * (c * s) == (c * c) * (p * q - r * s),
{
    let cc = c * c;
    assert((c * p) * (c * q) == cc * (p * q)) by (nonlinear_arith)
        requires
            cc == c * c,
    ;
    assert((c * r) * (c * s) == cc * (r * s)) by (nonlinear_arith)
        requires
            cc == c * c,
    ;
    let (x, y) = (p * q, r * s);
    assert(cc * (x - y) == cc * x - cc * y) by (nonlinear_arith);
}

/// The form of a sum is at most twice the forms of its terms.
proof fn lemma_twice(g: Grid, a: Triple, b: Triple, c: Triple)
    requires
        is_positive(g),
        c == a.plus(1 as real, b),
    ensures
        g.form(c, c) <= 2 as real * g.form(a, a) + 2 as real * g.form(b, b),
{
    let d = a.plus(-(1 as real), b);
    lemma_not_negative(g, d);
    let (i, j) = (1 as real, -(1 as real));
    lemma_form_shift(g, c, a, i, b);
    lemma_form_shift(g, a, a, i, b);
    lemma_form_shift(g, b, a, i, b);
    lemma_form_shift(g, d, a, j, b);
    lemma_form_shift(g, a, a, j, b);
    lemma_form_shift(g, b, a, j, b);
}

/// The form of a multiple.
proof fn lemma_part_form(g: Grid, c: real, e: Triple)
    ensures
        g.form(part(c, e), part(c, e)) == (c * c) * g.form(e, e),
{
    lemma_part_dot(c, g.r0, e);
    lemma_part_dot(c, g.r1, e);
    lemma_part_dot(c, g.r2, e);
    let y = image(g, e);
    assert(image(g, part(c, e)) =~= part(c, y));
    lemma_part_dot(c, e, part(c, y));
    lemma_part_dot(c, e, y);
    let v = e.dot(y);
    assert(c * (c * v) == (c * c) * v) by (nonlinear_arith);
}

/// What the symmetry of the computed inverse lacks, against the exact inverse `i`
/// of the symmetric part.
proof fn lemma_bent_against(m: M3, l: real, k: real, n: real, t: real)
    requires
        is_sound(m, l, k, n, t),
    ensures
        inverted(shape(m)).form(bent(m.inverse()), bent(m.inverse())) * determinant(shape(m)) <= (
        106 as real / (100 as real)) * n,
        inverted(shape(m)).form(bent(m.inverse()), bent(m.inverse())) >= 0 as real,
{
    lemma_sound_sizes(m, l, k, n, t);
    lemma_sound_determinant(m, l, k, n, t);
    lemma_inverse_bent(m, l, k, n, t);
    lemma_bent_form(m, l, k, n, t);
    let (s, v) = (shape(m), bent(m));
    let (d, b, c) = (value(m.determinant()), bent(m.inverse()), image(s, v));
    lemma_round_is_positive(s, l, k * l);
    lemma_inverted(s);
    let i = inverted(s);
    lemma_not_negative(i, b);
    let w = (1003 as real / (1000 as real)) * largest(s);
    let z = (w * w) * (8 as real * eps());
    let (x, a) = (part(d, b), part(-(1 as real), c));
    let r = Triple { x: d * b.x + c.x, y: d * b.y + c.y, z: d * b.z + c.z };
    assert(x =~= a.plus(1 as real, r));
    lemma_twice(i, a, r, x);
    lemma_part_form(i, d, b);
    lemma_part_form(i, -(1 as real), c);
    assert(image(i, c) == v);
    lemma_dot_swap(c, v);
    let cv = i.form(c, c);
    assert(-(1 as real) * (-(1 as real)) == 1 as real) by (nonlinear_arith);
    assert(1 as real * cv == cv) by (nonlinear_arith);
    lemma_small_length(r, z);
    lemma_round_inverse(s, i, l, k * l, r);
    lemma_bent_ratio(
        d,
        determinant(s),
        i.form(b, b),
        s.form(v, v),
        i.form(r, r),
        l,
        k,
        n,
        w,
    );
}

proof fn lemma_bent_ratio(
    d: real,
    det: real,
    ib: real,
    sb: real,
    ir: real,
    l: real,
    k: real,
    n: real,
    w: real,
)
    requires
        (d * d) * ib <= 2 as real * sb + 2 as real * ir,
        sb <= (n * det) / (2 as real),
        ({
            let z = (w * w) * (8 as real * eps());
            l * ir <= 3 as real * (z * z)
        }),
        (w * (w * w)) * eps() <= (101 as real / (100 as real)) * (n * det),
        w <= (1003 as real / (1000 as real)) * (k * l),
        w > 0 as real,
        k * eps() <= n,
        n > 0 as real,
        n <= (1 as real) / (8000 as real),
        size(d - det) <= 33 as real * (n * det),
        det > 0 as real,
        ib >= 0 as real,
        l > 0 as real,
    ensures
        ib * det <= (106 as real / (100 as real)) * n,
{
    lemma_tiny();
    let (e, nd, ww) = (eps(), n * det, w * w);
    let cube = (w * ww) * e;
    assert(nd <= det / (8000 as real) && nd > 0 as real) by (nonlinear_arith)
        requires
            nd == n * det,
            n <= (1 as real) / (8000 as real),
            n > 0 as real,
            det > 0 as real,
    ;
    // The roundings.
    let z = ww * (8 as real * e);
    let we = w * e;
    assert(z * z == 64 as real * (cube * we)) by {
        assert(z == 8 as real * (ww * e)) by (nonlinear_arith)
            requires
                z == ww * (8 as real * e),
        ;
        let y = ww * e;
        assert(z * z == 64 as real * (y * y)) by (nonlinear_arith)
            requires
                z == 8 as real * y,
        ;
        assert((ww * e) * (ww * e) == ((w * ww) * e) * (w * e)) by (nonlinear_arith)
            requires
                ww == w * w,
        ;
    }
    let nl = n * l;
    assert(we <= (1003 as real / (1000 as real)) * nl) by {
        let ke = k * e;
        assert(we <= (1003 as real / (1000 as real)) * ((k * l) * e)) by (nonlinear_arith)
            requires
                we == w * e,
                w <= (1003 as real / (1000 as real)) * (k * l),
                e > 0 as real,
        ;
        assert((k * l) * e == ke * l) by (nonlinear_arith)
            requires
                ke == k * e,
        ;
        assert(ke * l <= n * l) by (nonlinear_arith)
            requires
                ke <= n,
                l > 0 as real,
        ;
    }
    assert(we > 0 as real && nl > 0 as real) by (nonlinear_arith)
        requires
            we == w * e,
            nl == n * l,
            w > 0 as real,
            e > 0 as real,
            n > 0 as real,
            l > 0 as real,
    ;
    let top = (101 as real / (100 as real)) * nd;
    let side = (1003 as real / (1000 as real)) * nl;
    assert(cube * we <= top * side) by (nonlinear_arith)
        requires
            cube <= top,
            we <= side,
            we > 0 as real,
            top > 0 as real,
    ;
    assert(192 as real * (top * side) <= l * (nd / (40 as real))) by {
        assert(top * side == (101303 as real / (100000 as real)) * (nd * nl)) by (nonlinear_arith)
            requires
                top == (101 as real / (100 as real)) * nd,
                side == (1003 as real / (1000 as real)) * nl,
        ;
        let ln = l * nd;
        assert(nd * nl == n * ln) by (nonlinear_arith)
            requires
                nl == n * l,
                ln == l * nd,
        ;
        assert(ln > 0 as real) by (nonlinear_arith)
            requires
                ln == l * nd,
                l > 0 as real,
                nd > 0 as real,
        ;
        assert(n * ln <= ln / (8000 as real)) by (nonlinear_arith)
            requires
                n <= (1 as real) / (8000 as real),
                ln > 0 as real,
        ;
        assert(l * (nd / (40 as real)) == ln / (40 as real)) by (nonlinear_arith)
            requires
                ln == l * nd,
        ;
    }
    let fortieth = nd / (40 as real);
    assert(ir <= fortieth) by (nonlinear_arith)
        requires
            l * ir <= l * fortieth,
            l > 0 as real,
    ;
    // The determinants.
    let dd = det * det;
    let share = 991 as real / (1000 as real);
    assert(d * d >= share * dd) by (nonlinear_arith)
        requires
            d >= (9958 as real / (10000 as real)) * det,
            det > 0 as real,
            dd == det * det,
            share == 991 as real / (1000 as real),
    ;
    let y = d * d;
    assert(y * ib >= (share * dd) * ib) by (nonlinear_arith)
        requires
            y >= share * dd,
            ib >= 0 as real,
    ;
    let x = ib * det;
    assert((share * (det * det)) * ib == (share * x) * det) by (nonlinear_arith)
        requires
            x == ib * det,
    ;
    let (left, right) = (share * x, (105 as real / (100 as real)) * n);
    assert(right * det == (105 as real / (100 as real)) * nd) by (nonlinear_arith)
        requires
            right == (105 as real / (100 as real)) * n,
            nd == n * det,
    ;
    assert(left <= right) by (nonlinear_arith)
        requires
            left * det <= right * det,
            det > 0 as real,
    ;
}

/// What the missing symmetry of the computed inverse adds to its determinant.
proof fn lemma_bent_inverse(m: M3, l: real, k: real, n: real, t: real)
    requires
        is_sound(m, l, k, n, t),
        n <= (1 as real) / (8400 as real),
    ensures
        ({
            let (x, b) = (shape(m.inverse()), bent(m.inverse()));
            &&& x.form(b, b) <= (11 as real / (10 as real)) * (n * determinant(x))
            &&& x.form(b, b) >= 0 as real
            &&& is_positive(x)
            &&& determinant(x) > 0 as real
        }),
{
    lemma_sound_sizes(m, l, k, n, t);
    lemma_sound_inverse(m, l, k, n, t);
    lemma_bent_against(m, l, k, n, t);
    let (s, x, b) = (shape(m), shape(m.inverse()), bent(m.inverse()));
    lemma_round_is_positive(s, l, k * l);
    lemma_inverted_determinant(s);
    let i = inverted(s);
    let f = 1 as real + 60 as real * n;
    assert(is_positive(x)) by {
        assert forall|e: Triple| !is_origin(e) implies #[trigger] x.form(e, e) > 0 as real by {
            assert(i.form(e, e) > 0 as real);
            let (p, q) = (x.form(e, e), i.form(e, e));
            assert(p > 0 as real) by (nonlinear_arith)
                requires
                    q <= f * p,
                    q > 0 as real,
                    f >= 1 as real,
            ;
        }
    }
    lemma_not_negative(x, b);
    assert forall|e: Triple| #[trigger] i.form(e, e) <= f * x.form(e, e) by {
        assert(x.form(e, e) <= f * i.form(e, e) && i.form(e, e) <= f * x.form(e, e));
    }
    lemma_determinant_grows(i, x, f);
    lemma_bent_values(
        x.form(b, b),
        i.form(b, b),
        determinant(s),
        determinant(i),
        determinant(x),
        n,
        f,
    );
}

proof fn lemma_bent_values(xb: real, ib: real, det: real, di: real, dx: real, n: real, f: real)
    requires
        xb <= f * ib,
        xb >= 0 as real,
        ib >= 0 as real,
        ib * det <= (106 as real / (100 as real)) * n,
        di * det == 1 as real,
        di <= (f * (f * f)) * dx,
        dx > 0 as real,
        det > 0 as real,
        f == 1 as real + 60 as real * n,
        n > 0 as real,
        n <= (1 as real) / (8400 as real),
    ensures
        xb <= (11 as real / (10 as real)) * (n * dx),
{
    let g = 1007143 as real / (1000000 as real);
    assert(f <= g);
    assert(f * (f * f) <= 10216 as real / (10000 as real)) by {
        let ff = f * f;
        assert(ff <= 101434 as real / (100000 as real) && ff >= 0 as real) by (nonlinear_arith)
            requires
                ff == f * f,
                f <= 1007143 as real / (1000000 as real),
                f >= 1 as real,
        ;
        assert(f * ff <= 10216 as real / (10000 as real)) by (nonlinear_arith)
            requires
                ff <= 101434 as real / (100000 as real),
                ff >= 0 as real,
                f <= 1007143 as real / (1000000 as real),
                f >= 1 as real,
        ;
    }
    let h = 10216 as real / (10000 as real);
    let (w, y) = (f * (f * f), xb * det);
    assert(w * dx <= h * dx) by (nonlinear_arith)
        requires
            w <= h,
            dx > 0 as real,
    ;
    assert(y <= (1068 as real / (1000 as real)) * n) by {
        let fi = f * ib;
        assert(xb * det <= fi * det) by (nonlinear_arith)
            requires
                xb <= fi,
                det > 0 as real,
        ;
        let id = ib * det;
        assert((f * ib) * det == f * id) by (nonlinear_arith)
            requires
                id == ib * det,
        ;
        let most = (106 as real / (100 as real)) * n;
        assert(f * id <= f * most) by (nonlinear_arith)
            requires
                id <= most,
                f >= 1 as real,
        ;
        assert(f * most <= g * most) by (nonlinear_arith)
            requires
                f <= g,
                most >= 0 as real,
        ;
        assert(g * most <= (1068 as real / (1000 as real)) * n) by (nonlinear_arith)
            requires
                g == 1007143 as real / (1000000 as real),
                most == (106 as real / (100 as real)) * n,
                n > 0 as real,
        ;
    }
    assert(y >= 0 as real) by (nonlinear_arith)
        requires
            y == xb * det,
            xb >= 0 as real,
            det > 0 as real,
    ;
    // The determinant of the exact inverse stands between.
    assert(xb == y * di) by {
        assert((xb * det) * di == xb * (di * det)) by (nonlinear_arith);
        assert(xb * 1 as real == xb) by (nonlinear_arith);
    }
    let (hd, top) = (h * dx, (1068 as real / (1000 as real)) * n);
    assert(y * di <= y * hd) by (nonlinear_arith)
        requires
            di <= hd,
            y >= 0 as real,
    ;
    assert(y * hd <= top * hd) by (nonlinear_arith)
        requires
            y <= top,
            hd == h * dx,
            h > 0 as real,
            dx > 0 as real,
    ;
    let nx = n * dx;
    assert(top * hd == ((1068 as real / (1000 as real)) * h) * nx) by (nonlinear_arith)
        requires
            top == (1068 as real / (1000 as real)) * n,
            hd == h * dx,
            nx == n * dx,
    ;
    assert(nx > 0 as real) by (nonlinear_arith)
        requires
            nx == n * dx,
            n > 0 as real,
            dx > 0 as real,
    ;
    let both = (1068 as real / (1000 as real)) * h;
    assert(both * nx <= (11 as real / (10 as real)) * nx) by (nonlinear_arith)
        requires
            both <= 11 as real / (10 as real),
            nx > 0 as real,
    ;
}

/// One component of what the symmetry lacks, against the largest entry.
proof fn lemma_bent_component(b: Triple, xb: real, dx: real, p: real, q: real, n: real, big: real)
    requires
        p * b.dot(b) <= xb,
        xb <= (11 as real / (10 as real)) * (n * dx),
        dx <= 6 as real * (big * (big * big)),
        big <= q * p,
        big >= p,
        p > 0 as real,
        n > 0 as real,
        n <= (1 as real) / (8400 as real),
        q <= 46 as real,
    ensures
        is_small(b, big / (5 as real)),
{
    let (bb, d) = (big * big, b.dot(b));
    let c = big * bb;
    lemma_square_sign(b.x);
    lemma_square_sign(b.y);
    lemma_square_sign(b.z);
    assert(bb > 0 as real) by (nonlinear_arith)
        requires
            bb == big * big,
            big > 0 as real,
    ;
    assert(n * dx <= 6 as real * (n * c)) by (nonlinear_arith)
        requires
            dx <= 6 as real * c,
            n > 0 as real,
    ;
    let nq = n * q;
    assert(nq <= 46 as real / (8400 as real)) by (nonlinear_arith)
        requires
            nq == n * q,
            n <= (1 as real) / (8400 as real),
            n > 0 as real,
            q <= 46 as real,
    ;
    assert(n * c <= (nq * bb) * p) by {
        let qp = q * p;
        assert(c <= qp * bb) by (nonlinear_arith)
            requires
                c == big * bb,
                big <= qp,
                bb > 0 as real,
        ;
        let y = qp * bb;
        assert(n * c <= n * y) by (nonlinear_arith)
            requires
                c <= y,
                n > 0 as real,
        ;
        assert(n * ((q * p) * bb) == ((n * q) * bb) * p) by (nonlinear_arith);
    }
    let most = (46 as real / (8400 as real)) * bb;
    assert((nq * bb) * p <= most * p) by (nonlinear_arith)
        requires
            nq <= 46 as real / (8400 as real),
            most == (46 as real / (8400 as real)) * bb,
            bb > 0 as real,
            p > 0 as real,
    ;
    let top = bb / (25 as real);
    assert((66 as real / (10 as real)) * (most * p) <= top * p) by (nonlinear_arith)
        requires
            most == (46 as real / (8400 as real)) * bb,
            top == bb / (25 as real),
            bb > 0 as real,
            p > 0 as real,
    ;
    assert(d <= top) by (nonlinear_arith)
        requires
            p * d <= top * p,
            p > 0 as real,
    ;
    let f = big / (5 as real);
    assert(f * f == top) by (nonlinear_arith)
        requires
            f == big / (5 as real),
            top == bb / (25 as real),
            bb == big * big,
    ;
    lemma_root_bound(b.x, f);
    lemma_root_bound(b.y, f);
    lemma_root_bound(b.z, f);
}

proof fn lemma_root_bound(x: real, f: real)
    requires
        x * x <= f * f,
        f >= 0 as real,
    ensures
        size(x) <= f,
{
    assert(size(x) <= f) by (nonlinear_arith)
        requires
            x * x <= f * f,
            f >= 0 as real,
    ;
}

/// The computed determinant of the computed inverse, whose stretches are between
/// `p` and `q` times `p`.
pub proof fn lemma_inverse_determinant(
    m: M3,
    l: real,
    k: real,
    n: real,
    t: real,
    p: real,
    q: real,
    o: real,
)
    requires
        is_sound(m, l, k, n, t),
        n <= (1 as real) / (8400 as real),
        is_round(shape(m.inverse()), p, q * p),
        p >= (1 as real) / (0x4_0000 as real),
        q * p <= 0x4_0000 as real,
        q >= 1 as real,
        o == (q * q) * eps(),
        o <= (1 as real) / (8000 as real),
        n <= o,
    ensures
        ({
            let (d, x) = (m.inverse().determinant(), shape(m.inverse()));
            &&& d is Finite
            &&& value(d) > 0 as real
            &&& determinant(x) > 0 as real
            &&& size(value(d) - determinant(x)) <= 57 as real * (o * determinant(x))
        }),
{
    lemma_tiny();
    lemma_sound_sizes(m, l, k, n, t);
    lemma_sound_inverse(m, l, k, n, t);
    lemma_bent_inverse(m, l, k, n, t);
    let (y, x, b) = (m.inverse(), shape(m.inverse()), bent(m.inverse()));
    let (big, dx, e) = (largest(x), determinant(x), eps());
    lemma_largest(x, p, q * p);
    lemma_determinant_size(x, big);
    assert(q <= 46 as real) by (nonlinear_arith)
        requires
            o == (q * q) * e,
            o <= (1 as real) / (8000 as real),
            e == (1 as real) / (0x100_0000 as real),
            q >= 1 as real,
    ;
    lemma_bent_component(b, x.form(b, b), dx, p, q, n, big);
    let w = (6 as real / (5 as real)) * big;
    assert(is_within(y, w));
    lemma_det(y, w);
    lemma_determinant_parts(grid(y));
    let c = big * (big * big);
    assert(w * (w * w) == (216 as real / (125 as real)) * c) by {
        let (s, bb) = (6 as real / (5 as real), big * big);
        assert(w * w == (36 as real / (25 as real)) * bb) by (nonlinear_arith)
            requires
                w == (6 as real / (5 as real)) * big,
                bb == big * big,
        ;
        assert(((6 as real / (5 as real)) * big) * ((36 as real / (25 as real)) * bb) == (
        216 as real / (125 as real)) * (big * bb)) by (nonlinear_arith);
    }
    let ce = c * e;
    assert(((216 as real / (125 as real)) * c) * (32 as real * e) == (6912 as real / (125 as real))
        * ce) by (nonlinear_arith)
        requires
            ce == c * e,
    ;
    lemma_cube_share(big, p, q, dx, o);
    let od = o * dx;
    assert(n * dx <= od && od > 0 as real && od <= dx / (8000 as real)) by (nonlinear_arith)
        requires
            od == o * dx,
            n <= o,
            n > 0 as real,
            dx > 0 as real,
            o <= (1 as real) / (8000 as real),
    ;
}

/// The rounding of the cube of the largest entry.
proof fn lemma_cube_share(big: real, p: real, q: real, dx: real, o: real)
    requires
        big <= q * p,
        big >= p,
        p > 0 as real,
        dx >= (p * p) * big,
        o == (q * q) * eps(),
    ensures
        (big * (big * big)) * eps() <= o * dx,
{
    lemma_tiny();
    let (e, bb, qp) = (eps(), big * big, q * p);
    let qq = qp * qp;
    assert(bb <= qq) by (nonlinear_arith)
        requires
            bb == big * big,
            qq == qp * qp,
            big <= qp,
            big > 0 as real,
    ;
    assert(big * bb <= big * qq) by (nonlinear_arith)
        requires
            bb <= qq,
            big > 0 as real,
    ;
    let (x, y) = (big * bb, big * qq);
    assert(x * e <= y * e) by (nonlinear_arith)
        requires
            x <= y,
            e > 0 as real,
    ;
    assert(y * e == o * ((p * p) * big)) by {
        assert((q * p) * (q * p) == (q * q) * (p * p)) by (nonlinear_arith);
        let (s, r) = (q * q, p * p);
        assert((big * (s * r)) * e == (s * e) * (r * big)) by (nonlinear_arith);
    }
    let z = (p * p) * big;
    lemma_square_sign(q);
    let s = q * q;
    assert(o >= 0 as real) by (nonlinear_arith)
        requires
            o == s * e,
            s >= 0 as real,
            e > 0 as real,
    ;
    assert(o * z <= o * dx) by (nonlinear_arith)
        requires
            z <= dx,
            o >= 0 as real,
    ;
}

} // verus!
