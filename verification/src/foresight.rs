//! What prediction does to a track, in real numbers.
use crate::config::{FOUR, KF_ACCEL_VAR, TWO};
use crate::error::{
    eps, lemma_no_value, lemma_product_error, lemma_quotient_error, lemma_square_sign,
    lemma_sum_error, lemma_tiny, lemma_units, size, tiny, value, within,
};
use crate::forms::{
    grid, lemma_form_lifted, lemma_form_plus, lemma_form_shift, lemma_times_sum, triple, Grid,
    Triple,
};
use crate::matrix::{M3, M6, dot_onto};
use crate::metric::{finite, inner, lemma_product_size};
use crate::number::{decode, one, unit, zero, Number};
use crate::track::{carried, diagonal3, process_noise, squared, transition, Estimate};
use crate::vector::V3;
use vstd::arithmetic::power2::{lemma2_to64, lemma_pow2_pos, pow2};
use vstd::prelude::*;

verus! {

/// The error of one operation whose exact result is at most `most`.
pub proof fn lemma_op(got: real, exact: real, most: real)
    requires
        within(got, exact, size(exact) * eps() + tiny()),
        size(exact) <= most,
        most >= 1 as real,
    ensures
        size(got - exact) <= most * (2 as real * eps()),
        size(got) <= most + most / (100 as real),
{
    lemma_tiny();
    let (e, o, x) = (eps(), tiny(), size(exact));
    assert(x * e + o <= most * (2 as real * e) && most * (2 as real * e) <= most / (100 as real))
        by (nonlinear_arith)
        requires
            x <= most,
            most >= 1 as real,
            o <= e * e,
            e == (1 as real) / (0x100_0000 as real),
    ;
}

/// Whether all products of components are at most `b`.
spec fn products_within(a: V3, v: V3, b: real) -> bool {
    &&& finite(a)
    &&& finite(v)
    &&& size(value(a.x) * value(v.x)) <= b
    &&& size(value(a.y) * value(v.y)) <= b
    &&& size(value(a.z) * value(v.z)) <= b
}

/// A dot product added onto `acc`.
proof fn lemma_onto(acc: Number, a: V3, v: V3, b: real)
    requires
        products_within(a, v, b),
        acc is Finite,
        size(value(acc)) <= 4 as real * b,
        b >= 1 as real,
        b <= 0x400_0000_0000_0000 as real,
    ensures
        dot_onto(acc, a, v) is Finite,
        size(value(dot_onto(acc, a, v)) - (value(acc) + inner(a, v))) <= b * (64 as real * eps()),
{
    lemma_tiny();
    let e = eps();
    let (p, q, r) = (a.x * v.x, a.y * v.y, a.z * v.z);
    let (m1, m2, m3) = (
        value(a.x) * value(v.x),
        value(a.y) * value(v.y),
        value(a.z) * value(v.z),
    );
    lemma_product_error(a.x, v.x);
    lemma_product_error(a.y, v.y);
    lemma_product_error(a.z, v.z);
    lemma_op(value(p), m1, b);
    lemma_op(value(q), m2, b);
    lemma_op(value(r), m3, b);
    let (av, pv, qv, rv) = (value(acc), value(p), value(q), value(r));
    lemma_sum_error(acc, p);
    let s1 = acc + p;
    lemma_op(value(s1), av + pv, 6 as real * b);
    lemma_sum_error(s1, q);
    let s2 = s1 + q;
    lemma_op(value(s2), value(s1) + qv, 8 as real * b);
    lemma_sum_error(s2, r);
    let s3 = s2 + r;
    lemma_op(value(s3), value(s2) + rv, 10 as real * b);
    lemma_scale(b, e);
    let f = b * e;
    lemma_adds_up(av, m1, m2, m3, pv, qv, rv, value(s1), value(s2), value(s3), f);
}

/// The errors of three products and three sums.
proof fn lemma_adds_up(
    acc: real,
    m1: real,
    m2: real,
    m3: real,
    p: real,
    q: real,
    r: real,
    s1: real,
    s2: real,
    s3: real,
    f: real,
)
    requires
        size(p - m1) <= 2 as real * f,
        size(q - m2) <= 2 as real * f,
        size(r - m3) <= 2 as real * f,
        size(s1 - (acc + p)) <= 12 as real * f,
        size(s2 - (s1 + q)) <= 16 as real * f,
        size(s3 - (s2 + r)) <= 20 as real * f,
    ensures
        size(s3 - (acc + (m1 + m2 + m3))) <= 64 as real * f,
{
}

proof fn lemma_scale(b: real, e: real)
    ensures
        b * (2 as real * e) == 2 as real * (b * e),
        6 as real * b * (2 as real * e) == 12 as real * (b * e),
        8 as real * b * (2 as real * e) == 16 as real * (b * e),
        10 as real * b * (2 as real * e) == 20 as real * (b * e),
        b * (64 as real * e) == 64 as real * (b * e),
        5 as real * b * (2 as real * e) == 10 as real * (b * e),
        3 as real * b * (2 as real * e) == 6 as real * (b * e),
        b * (32 as real * e) == 32 as real * (b * e),
{
    let be = b * e;
    assert(b * (2 as real * e) == 2 as real * be) by (nonlinear_arith)
        requires
            be == b * e,
    ;
    assert(6 as real * b * (2 as real * e) == 12 as real * be) by (nonlinear_arith)
        requires
            be == b * e,
    ;
    assert(8 as real * b * (2 as real * e) == 16 as real * be) by (nonlinear_arith)
        requires
            be == b * e,
    ;
    assert(10 as real * b * (2 as real * e) == 20 as real * be) by (nonlinear_arith)
        requires
            be == b * e,
    ;
    assert(b * (64 as real * e) == 64 as real * be) by (nonlinear_arith)
        requires
            be == b * e,
    ;
    assert(5 as real * b * (2 as real * e) == 10 as real * be) by (nonlinear_arith)
        requires
            be == b * e,
    ;
    assert(3 as real * b * (2 as real * e) == 6 as real * be) by (nonlinear_arith)
        requires
            be == b * e,
    ;
    assert(b * (32 as real * e) == 32 as real * be) by (nonlinear_arith)
        requires
            be == b * e,
    ;
}

/// A dot product.
proof fn lemma_dot(a: V3, v: V3, b: real)
    requires
        products_within(a, v, b),
        b >= 1 as real,
        b <= 0x400_0000_0000_0000 as real,
    ensures
        a.dot(v) is Finite,
        size(value(a.dot(v)) - inner(a, v)) <= b * (32 as real * eps()),
        size(value(a.dot(v))) <= 4 as real * b,
{
    lemma_tiny();
    let e = eps();
    let (p, q, r) = (a.x * v.x, a.y * v.y, a.z * v.z);
    let (m1, m2, m3) = (
        value(a.x) * value(v.x),
        value(a.y) * value(v.y),
        value(a.z) * value(v.z),
    );
    lemma_product_error(a.x, v.x);
    lemma_product_error(a.y, v.y);
    lemma_product_error(a.z, v.z);
    lemma_op(value(p), m1, b);
    lemma_op(value(q), m2, b);
    lemma_op(value(r), m3, b);
    let (pv, qv, rv) = (value(p), value(q), value(r));
    lemma_sum_error(p, q);
    let s1 = p + q;
    lemma_op(value(s1), pv + qv, 3 as real * b);
    lemma_sum_error(s1, r);
    let s2 = s1 + r;
    lemma_op(value(s2), value(s1) + rv, 5 as real * b);
    lemma_scale(b, e);
    let f = b * e;
    assert(f <= b / (1000 as real)) by (nonlinear_arith)
        requires
            f == b * e,
            b >= 1 as real,
            e <= 1 as real / (1000 as real),
    ;
    lemma_adds_up_two(m1, m2, m3, pv, qv, rv, value(s1), value(s2), f, b);
}

/// The errors of three products and two sums.
proof fn lemma_adds_up_two(
    m1: real,
    m2: real,
    m3: real,
    p: real,
    q: real,
    r: real,
    s1: real,
    s2: real,
    f: real,
    b: real,
)
    requires
        size(m1) <= b,
        size(m2) <= b,
        size(m3) <= b,
        f <= b / (1000 as real),
        size(p - m1) <= 2 as real * f,
        size(q - m2) <= 2 as real * f,
        size(r - m3) <= 2 as real * f,
        size(s1 - (p + q)) <= 6 as real * f,
        size(s2 - (s1 + r)) <= 10 as real * f,
    ensures
        size(s2 - (m1 + m2 + m3)) <= 32 as real * f,
        size(s2) <= 4 as real * b,
{
}

/// Two dot products, one added onto the other.
proof fn lemma_two_dots(a: V3, v: V3, c: V3, w: V3, b: real)
    requires
        products_within(a, v, b),
        products_within(c, w, b),
        b >= 1 as real,
        b <= 0x400_0000_0000_0000 as real,
    ensures
        dot_onto(a.dot(v), c, w) is Finite,
        size(value(dot_onto(a.dot(v), c, w)) - (inner(a, v) + inner(c, w))) <= b * (96 as real
            * eps()),
{
    lemma_dot(a, v, b);
    lemma_onto(a.dot(v), c, w, b);
    let e = eps();
    assert(b * (32 as real * e) + b * (64 as real * e) == b * (96 as real * e)) by (nonlinear_arith);
}

/// Whether all entries of a row are finite and at most `b`.
pub open spec fn row_within(a: V3, b: real) -> bool {
    &&& finite(a)
    &&& size(value(a.x)) <= b
    &&& size(value(a.y)) <= b
    &&& size(value(a.z)) <= b
}

pub open spec fn block_within(m: M3, b: real) -> bool {
    row_within(m.r0, b) && row_within(m.r1, b) && row_within(m.r2, b)
}

/// The row `r` is `k` times `a` and `c` times `d`, within `tol`.
pub open spec fn row_near(r: V3, k: real, a: V3, c: real, d: V3, tol: real) -> bool {
    &&& finite(r)
    &&& size(value(r.x) - (k * value(a.x) + c * value(d.x))) <= tol
    &&& size(value(r.y) - (k * value(a.y) + c * value(d.y))) <= tol
    &&& size(value(r.z) - (k * value(a.z) + c * value(d.z))) <= tol
}

/// The matrix `r` is `k` times `a` and `c` times `d`, within `tol`.
pub open spec fn block_near(r: M3, k: real, a: M3, c: real, d: M3, tol: real) -> bool {
    &&& row_near(r.r0, k, a.r0, c, d.r0, tol)
    &&& row_near(r.r1, k, a.r1, c, d.r1, tol)
    &&& row_near(r.r2, k, a.r2, c, d.r2, tol)
}

/// A factor between zero and `s`.
pub open spec fn is_share(k: Number, s: real) -> bool {
    k is Finite && value(k) >= 0 as real && value(k) <= s
}

/// `k` on the axis of `i`, and nothing on the others.
spec fn on_axis(k: Number, i: int) -> V3 {
    V3 {
        x: if i == 0 {
            k
        } else {
            zero()
        },
        y: if i == 1 {
            k
        } else {
            zero()
        },
        z: if i == 2 {
            k
        } else {
            zero()
        },
    }
}

spec fn part(v: V3, i: int) -> Number {
    if i == 0 {
        v.x
    } else if i == 1 {
        v.y
    } else {
        v.z
    }
}

/// A vector that lies on an axis picks one component.
proof fn lemma_picks(k: Number, i: int, v: V3, b: real, s: real)
    requires
        is_share(k, s),
        0 <= i < 3,
        row_within(v, b),
        b >= 0 as real,
    ensures
        products_within(on_axis(k, i), v, s * b),
        products_within(v, on_axis(k, i), s * b),
        inner(on_axis(k, i), v) == value(k) * value(part(v, i)),
        inner(v, on_axis(k, i)) == value(k) * value(part(v, i)),
{
    lemma_no_value(zero());
    lemma_share_size(value(k), value(v.x), b, s);
    lemma_share_size(value(k), value(v.y), b, s);
    lemma_share_size(value(k), value(v.z), b, s);
}

proof fn lemma_share_size(k: real, x: real, b: real, s: real)
    requires
        k >= 0 as real,
        k <= s,
        size(x) <= b,
    ensures
        size(k * x) <= s * b,
        s * b >= 0 as real,
        x * k == k * x,
        0 as real * x == 0 as real,
        x * (0 as real) == 0 as real,
{
    lemma_product_size(k, x, s, b);
    lemma_product_size(k, 0 as real, s, b);
    assert(x * k == k * x) by (nonlinear_arith);
    assert(0 as real * x == 0 as real) by (nonlinear_arith);
    assert(x * (0 as real) == 0 as real) by (nonlinear_arith);
}

/// One entry of a product from the left.
proof fn lemma_left_entry(k: Number, c: Number, i: int, v: V3, w: V3, b: real, s: real)
    requires
        is_share(k, s),
        is_share(c, s),
        0 <= i < 3,
        row_within(v, b),
        row_within(w, b),
        b >= 0 as real,
        s * b >= 1 as real,
        s * b <= 0x400_0000_0000_0000 as real,
    ensures
        ({
            let r = dot_onto(on_axis(k, i).dot(v), on_axis(c, i), w);
            &&& r is Finite
            &&& size(value(r) - (value(k) * value(part(v, i)) + value(c) * value(part(w, i)))) <= (s * b) * (
            96 as real * eps())
        }),
{
    lemma_picks(k, i, v, b, s);
    lemma_picks(c, i, w, b, s);
    lemma_two_dots(on_axis(k, i), v, on_axis(c, i), w, s * b);
}

/// One entry of a product from the right.
proof fn lemma_right_entry(k: Number, c: Number, i: int, v: V3, w: V3, b: real, s: real)
    requires
        is_share(k, s),
        is_share(c, s),
        0 <= i < 3,
        row_within(v, b),
        row_within(w, b),
        b >= 0 as real,
        s * b >= 1 as real,
        s * b <= 0x400_0000_0000_0000 as real,
    ensures
        ({
            let r = dot_onto(v.dot(on_axis(k, i)), w, on_axis(c, i));
            &&& r is Finite
            &&& size(value(r) - (value(k) * value(part(v, i)) + value(c) * value(part(w, i)))) <= (s * b) * (
            96 as real * eps())
        }),
{
    lemma_picks(k, i, v, b, s);
    lemma_picks(c, i, w, b, s);
    lemma_two_dots(v, on_axis(k, i), w, on_axis(c, i), s * b);
}

/// One row of a product from the left with multiples of the identity.
proof fn lemma_left_row(k: Number, c: Number, i: int, a: M3, d: M3, b: real, s: real)
    requires
        is_share(k, s),
        is_share(c, s),
        0 <= i < 3,
        block_within(a, b),
        block_within(d, b),
        b >= 0 as real,
        s * b >= 1 as real,
        s * b <= 0x400_0000_0000_0000 as real,
    ensures
        ({
            let (x, y) = (a.transposed(), d.transposed());
            let r = y.rows_on_onto(x.rows_on(on_axis(k, i)), on_axis(c, i));
            &&& finite(r)
            &&& size(
                value(r.x) - (value(k) * value(part(x.r0, i)) + value(c) * value(part(y.r0, i))),
            ) <= (s * b) * (96 as real * eps())
            &&& size(
                value(r.y) - (value(k) * value(part(x.r1, i)) + value(c) * value(part(y.r1, i))),
            ) <= (s * b) * (96 as real * eps())
            &&& size(
                value(r.z) - (value(k) * value(part(x.r2, i)) + value(c) * value(part(y.r2, i))),
            ) <= (s * b) * (96 as real * eps())
        }),
{
    let (x, y) = (a.transposed(), d.transposed());
    lemma_left_entry(k, c, i, x.r0, y.r0, b, s);
    lemma_left_entry(k, c, i, x.r1, y.r1, b, s);
    lemma_left_entry(k, c, i, x.r2, y.r2, b, s);
}

/// A product from the left with multiples of the identity.
proof fn lemma_left(k: Number, c: Number, a: M3, d: M3, b: real, s: real)
    requires
        is_share(k, s),
        is_share(c, s),
        block_within(a, b),
        block_within(d, b),
        b >= 0 as real,
        s * b >= 1 as real,
        s * b <= 0x400_0000_0000_0000 as real,
    ensures
        block_near(
            diagonal3(c).product_onto(diagonal3(k) * a, d),
            value(k),
            a,
            value(c),
            d,
            (s * b) * (96 as real * eps()),
        ),
{
    lemma_left_row(k, c, 0, a, d, b, s);
    lemma_left_row(k, c, 1, a, d, b, s);
    lemma_left_row(k, c, 2, a, d, b, s);
    assert(diagonal3(c).r0 == on_axis(c, 0) && diagonal3(k).r0 == on_axis(k, 0));
    assert(diagonal3(c).r1 == on_axis(c, 1) && diagonal3(k).r1 == on_axis(k, 1));
    assert(diagonal3(c).r2 == on_axis(c, 2) && diagonal3(k).r2 == on_axis(k, 2));
}

/// One row of a product from the right with multiples of the identity.
proof fn lemma_right_row(k: Number, c: Number, v: V3, w: V3, b: real, s: real)
    requires
        is_share(k, s),
        is_share(c, s),
        row_within(v, b),
        row_within(w, b),
        b >= 0 as real,
        s * b >= 1 as real,
        s * b <= 0x400_0000_0000_0000 as real,
    ensures
        row_near(
            diagonal3(c).transposed().rows_on_onto(diagonal3(k).transposed().rows_on(v), w),
            value(k),
            v,
            value(c),
            w,
            (s * b) * (96 as real * eps()),
        ),
{
    lemma_right_entry(k, c, 0, v, w, b, s);
    lemma_right_entry(k, c, 1, v, w, b, s);
    lemma_right_entry(k, c, 2, v, w, b, s);
    let (x, y) = (diagonal3(k).transposed(), diagonal3(c).transposed());
    assert(x.r0 == on_axis(k, 0) && y.r0 == on_axis(c, 0));
    assert(x.r1 == on_axis(k, 1) && y.r1 == on_axis(c, 1));
    assert(x.r2 == on_axis(k, 2) && y.r2 == on_axis(c, 2));
}

/// A product from the right with multiples of the identity.
proof fn lemma_right(k: Number, c: Number, a: M3, d: M3, b: real, s: real)
    requires
        is_share(k, s),
        is_share(c, s),
        block_within(a, b),
        block_within(d, b),
        b >= 0 as real,
        s * b >= 1 as real,
        s * b <= 0x400_0000_0000_0000 as real,
    ensures
        block_near(
            d.product_onto(a * diagonal3(k), diagonal3(c)),
            value(k),
            a,
            value(c),
            d,
            (s * b) * (96 as real * eps()),
        ),
{
    lemma_right_row(k, c, a.r0, d.r0, b, s);
    lemma_right_row(k, c, a.r1, d.r1, b, s);
    lemma_right_row(k, c, a.r2, d.r2, b, s);
}

/// A covariance of position and velocity in real numbers, in blocks.
#[verifier::ext_equal]
pub struct Outlook {
    pub pp: Grid,
    pub pv: Grid,
    pub vp: Grid,
    pub vv: Grid,
}

impl Outlook {
    /// The variance of `a` along the position and `b` along the velocity.
    pub open spec fn spread(self, a: Triple, b: Triple) -> real {
        self.pp.form(a, a) + self.pv.form(a, b) + self.vp.form(b, a) + self.vv.form(b, b)
    }

    pub open spec fn is_symmetric(self) -> bool {
        &&& self.pp.transposed() == self.pp
        &&& self.vv.transposed() == self.vv
        &&& self.pv.transposed() == self.vp
    }
}

/// The covariance as it is.
pub open spec fn outlook(p: M6) -> Outlook {
    Outlook { pp: grid(p.pp), pv: grid(p.pv), vp: grid(p.vp), vv: grid(p.vv) }
}

/// The covariance carried forward by the time `t`, without rounding: the
/// constant-velocity model, and the noise of an acceleration of variance 9.
pub open spec fn foreseen(o: Outlook, t: real) -> Outlook {
    let tt = t * t;
    Outlook {
        pp: o.pp.plus(t, o.vp).plus(t, o.pv.plus(t, o.vv)).lifted(9 as real * (tt * tt) / (4 as real)),
        pv: o.pv.plus(t, o.vv).lifted(9 as real * (t * tt) / (2 as real)),
        vp: o.vp.plus(t, o.vv).lifted(9 as real * (t * tt) / (2 as real)),
        vv: o.vv.lifted(9 as real * tt),
    }
}

/// The spread of a prediction, without rounding, is that of the belief before,
/// along the velocity that the position drags in, and the noise of an unknown
/// acceleration on top, which is never negative.
pub proof fn law_prediction_carries_the_spread(o: Outlook, t: real, a: Triple, b: Triple)
    ensures
        ({
            let pull = Triple { x: 0 as real, y: 0 as real, z: 0 as real }.plus(
                t * t / (2 as real),
                a,
            ).plus(t, b);
            &&& foreseen(o, t).spread(a, b) == o.spread(a, b.plus(t, a)) + 9 as real * pull.dot(pull)
            &&& pull.dot(pull) >= 0 as real
        }),
{
    let tt = t * t;
    let f = foreseen(o, t);
    let (q1, q2, q3) = (
        9 as real * (tt * tt) / (4 as real),
        9 as real * (t * tt) / (2 as real),
        9 as real * tt,
    );
    let first = o.pp.plus(t, o.vp);
    let second = o.pv.plus(t, o.vv);
    lemma_form_lifted(first.plus(t, second), q1, a, a);
    lemma_form_plus(first, t, second, a, a);
    lemma_form_plus(o.pp, t, o.vp, a, a);
    lemma_form_plus(o.pv, t, o.vv, a, a);
    lemma_form_lifted(second, q2, a, b);
    lemma_form_plus(o.pv, t, o.vv, a, b);
    lemma_form_lifted(o.vp.plus(t, o.vv), q2, b, a);
    lemma_form_plus(o.vp, t, o.vv, b, a);
    lemma_form_lifted(o.vv, q3, b, b);
    let u = b.plus(t, a);
    lemma_form_shift(o.pv, a, b, t, a);
    lemma_form_shift(o.vp, a, b, t, a);
    lemma_form_shift(o.vv, u, b, t, a);
    lemma_form_shift(o.vv, b, b, t, a);
    lemma_form_shift(o.vv, a, b, t, a);
    let (x, y, z, w) = (o.pv.form(a, a), o.vp.form(a, a), o.vv.form(a, a), o.vv.form(a, b));
    lemma_times_two(t, x, z);
    lemma_times_two(t, o.vv.form(b, a), z);
    lemma_times_two(t, w, z);
    lemma_noise(t, a, b);
    lemma_dot_swap(a, b);
}

proof fn lemma_times_two(t: real, x: real, z: real)
    ensures
        t * (x + t * z) == t * x + t * (t * z),
{
    let m = t * z;
    assert(t * (x + m) == t * x + t * m) by (nonlinear_arith);
}

proof fn lemma_dot_swap(a: Triple, b: Triple)
    ensures
        a.dot(b) == b.dot(a),
{
    assert(a.x * b.x == b.x * a.x) by (nonlinear_arith);
    assert(a.y * b.y == b.y * a.y) by (nonlinear_arith);
    assert(a.z * b.z == b.z * a.z) by (nonlinear_arith);
}

/// The noise of an unknown acceleration is a square.
proof fn lemma_noise(t: real, a: Triple, b: Triple)
    ensures
        ({
            let tt = t * t;
            let pull = Triple { x: 0 as real, y: 0 as real, z: 0 as real }.plus(
                tt / (2 as real),
                a,
            ).plus(t, b);
            &&& 9 as real * pull.dot(pull) == 9 as real * (tt * tt) / (4 as real) * a.dot(a)
                + 9 as real * (t * tt) / (2 as real) * a.dot(b) + 9 as real * (t * tt) / (2 as real)
                * a.dot(b) + 9 as real * tt * b.dot(b)
            &&& pull.dot(pull) >= 0 as real
        }),
{
    let tt = t * t;
    let h = tt / (2 as real);
    lemma_pull(t, h, a.x, b.x);
    lemma_pull(t, h, a.y, b.y);
    lemma_pull(t, h, a.z, b.z);
    let (hh, ht) = (h * h, h * t);
    assert(4 as real * hh == tt * tt) by (nonlinear_arith)
        requires
            hh == h * h,
            h == tt / (2 as real),
    ;
    assert(2 as real * ht == t * tt) by (nonlinear_arith)
        requires
            ht == h * t,
            h == tt / (2 as real),
    ;
    lemma_times_sum(hh, a.x * a.x, a.y * a.y, a.z * a.z);
    lemma_times_sum(ht, a.x * b.x, a.y * b.y, a.z * b.z);
    lemma_times_sum(tt, b.x * b.x, b.y * b.y, b.z * b.z);
    let (aa, ab, bb) = (a.dot(a), a.dot(b), b.dot(b));
    assert(9 as real * (tt * tt) / (4 as real) * aa == 9 as real * (hh * aa)) by (nonlinear_arith)
        requires
            4 as real * hh == tt * tt,
    ;
    assert(9 as real * (t * tt) / (2 as real) * ab == 9 as real * (ht * ab)) by (nonlinear_arith)
        requires
            2 as real * ht == t * tt,
    ;
    assert(9 as real * tt * bb == 9 as real * (tt * bb)) by (nonlinear_arith);
}

proof fn lemma_pull(t: real, h: real, a: real, b: real)
    ensures
        ({
            let p = 0 as real + h * a + t * b;
            &&& p * p == h * h * (a * a) + 2 as real * (h * t * (a * b)) + t * t * (b * b)
            &&& p * p >= 0 as real
        }),
{
    let (m, n) = (h * a, t * b);
    let p = 0 as real + h * a + t * b;
    lemma_square_sign(p);
    assert(p * p == m * m + 2 as real * (m * n) + n * n) by (nonlinear_arith)
        requires
            p == m + n,
    ;
    assert((h * a) * (h * a) == h * h * (a * a)) by (nonlinear_arith);
    assert((h * a) * (t * b) == h * t * (a * b)) by (nonlinear_arith);
    assert((t * b) * (t * b) == t * t * (b * b)) by (nonlinear_arith);
}

/// A belief that has no negative variance has none when it is carried forward,
/// nor less than the model alone gives.
pub proof fn law_prediction_stays_positive(o: Outlook, t: real, a: Triple, b: Triple)
    requires
        forall|x: Triple, y: Triple| #[trigger] o.spread(x, y) >= 0 as real,
    ensures
        foreseen(o, t).spread(a, b) >= 0 as real,
        foreseen(o, t).spread(a, b) >= o.spread(a, b.plus(t, a)),
{
    law_prediction_carries_the_spread(o, t, a, b);
    assert(o.spread(a, b.plus(t, a)) >= 0 as real);
}

/// Prediction keeps a covariance symmetric; each variance of the velocity grows
/// by nine times the square of the time; and no time changes nothing.
pub proof fn law_prediction_in_blocks(o: Outlook, t: real)
    ensures
        o.is_symmetric() ==> foreseen(o, t).is_symmetric(),
        foreseen(o, t).vv == o.vv.lifted(9 as real * (t * t)),
        t == 0 as real ==> foreseen(o, t) == o,
{
    let f = foreseen(o, t);
    if o.is_symmetric() {
        let (p, q) = (o.pv, o.vp);
        assert(p.r0.y == q.r1.x && p.r1.x == q.r0.y);
        assert(p.r0.z == q.r2.x && p.r2.x == q.r0.z);
        assert(p.r1.z == q.r2.y && p.r2.y == q.r1.z);
        let v = o.vv;
        assert(v.r0.y == v.r1.x && v.r0.z == v.r2.x && v.r1.z == v.r2.y);
        lemma_mirror(t, o.pp.r0.y, q.r0.y, p.r0.y, v.r0.y);
        lemma_mirror(t, o.pp.r0.z, q.r0.z, p.r0.z, v.r0.z);
        lemma_mirror(t, o.pp.r1.z, q.r1.z, p.r1.z, v.r1.z);
        assert(f.pp.transposed() =~= f.pp);
        assert(f.vv.transposed() =~= f.vv);
        assert(f.pv.transposed() =~= f.vp);
    }
    if t == 0 as real {
        assert(t * t == 0 as real && t * (t * t) == 0 as real && (t * t) * (t * t) == 0 as real)
            by (nonlinear_arith)
            requires
                t == 0 as real,
        ;
        lemma_none_added(o.pp, t, o.vp);
        lemma_none_added(o.pv, t, o.vv);
        lemma_none_added(o.vp, t, o.vv);
        lemma_none_added(o.pp, t, o.pv);
        assert(f.pp =~= o.pp);
        assert(f.pv =~= o.pv);
        assert(f.vp =~= o.vp);
        assert(f.vv =~= o.vv);
    }
}

proof fn lemma_none_added(g: Grid, t: real, h: Grid)
    requires
        t == 0 as real,
    ensures
        g.plus(t, h) == g,
{
    lemma_no_row_added(g.r0, t, h.r0);
    lemma_no_row_added(g.r1, t, h.r1);
    lemma_no_row_added(g.r2, t, h.r2);
}

proof fn lemma_no_row_added(a: Triple, t: real, b: Triple)
    requires
        t == 0 as real,
    ensures
        a.plus(t, b) == a,
{
    let (x, y, z) = (b.x, b.y, b.z);
    assert(t * x == 0 as real && t * y == 0 as real && t * z == 0 as real) by (nonlinear_arith)
        requires
            t == 0 as real,
    ;
}

proof fn lemma_mirror(t: real, pp: real, vp: real, pv: real, vv: real)
    ensures
        pp + t * vp + t * (pv + t * vv) == pp + t * pv + t * (vp + t * vv),
{
    lemma_times_two(t, pv, vv);
    lemma_times_two(t, vp, vv);
}

/// Whether the entries of a row are those of `g`, within `tol`.
pub open spec fn row_close(r: V3, g: Triple, tol: real) -> bool {
    &&& finite(r)
    &&& size(value(r.x) - g.x) <= tol
    &&& size(value(r.y) - g.y) <= tol
    &&& size(value(r.z) - g.z) <= tol
}

/// Whether the entries of a matrix are those of `g`, within `tol`.
pub open spec fn close(m: M3, g: Grid, tol: real) -> bool {
    row_close(m.r0, g.r0, tol) && row_close(m.r1, g.r1, tol) && row_close(m.r2, g.r2, tol)
}

spec fn mix_row(k: real, a: Triple, c: real, d: Triple) -> Triple {
    Triple { x: k * a.x + c * d.x, y: k * a.y + c * d.y, z: k * a.z + c * d.z }
}

spec fn mix(k: real, a: Grid, c: real, d: Grid) -> Grid {
    Grid {
        r0: mix_row(k, a.r0, c, d.r0),
        r1: mix_row(k, a.r1, c, d.r1),
        r2: mix_row(k, a.r2, c, d.r2),
    }
}

spec fn is_part(k: real, s: real) -> bool {
    k >= 0 as real && k <= s
}

/// Two stages of rounding, one entry.
proof fn lemma_stage_entry(
    y: real,
    a: real,
    d: real,
    p: real,
    q: real,
    k: real,
    c: real,
    f: real,
    s: real,
)
    requires
        size(y - (k * a + c * d)) <= 288 as real * (s * f),
        size(a - p) <= 96 as real * f,
        size(d - q) <= 96 as real * f,
        is_part(k, s),
        is_part(c, s),
    ensures
        size(y - (k * p + c * q)) <= 480 as real * (s * f),
{
    let (u, v) = (a - p, d - q);
    lemma_product_size(k, u, s, 96 as real * f);
    lemma_product_size(c, v, s, 96 as real * f);
    assert(s * (96 as real * f) == 96 as real * (s * f)) by (nonlinear_arith);
    assert(k * a == k * p + k * u) by (nonlinear_arith)
        requires
            u == a - p,
    ;
    assert(c * d == c * q + c * v) by (nonlinear_arith)
        requires
            v == d - q,
    ;
}

proof fn lemma_stage_row(
    y: V3,
    a: V3,
    d: V3,
    p: Triple,
    q: Triple,
    k: real,
    c: real,
    f: real,
    s: real,
)
    requires
        row_near(y, k, a, c, d, 288 as real * (s * f)),
        row_close(a, p, 96 as real * f),
        row_close(d, q, 96 as real * f),
        is_part(k, s),
        is_part(c, s),
    ensures
        row_close(y, mix_row(k, p, c, q), 480 as real * (s * f)),
{
    lemma_stage_entry(value(y.x), value(a.x), value(d.x), p.x, q.x, k, c, f, s);
    lemma_stage_entry(value(y.y), value(a.y), value(d.y), p.y, q.y, k, c, f, s);
    lemma_stage_entry(value(y.z), value(a.z), value(d.z), p.z, q.z, k, c, f, s);
}

/// Two stages of rounding.
proof fn lemma_stage(y: M3, a: M3, d: M3, p: Grid, q: Grid, k: real, c: real, f: real, s: real)
    requires
        block_near(y, k, a, c, d, 288 as real * (s * f)),
        close(a, p, 96 as real * f),
        close(d, q, 96 as real * f),
        is_part(k, s),
        is_part(c, s),
    ensures
        close(y, mix(k, p, c, q), 480 as real * (s * f)),
{
    lemma_stage_row(y.r0, a.r0, d.r0, p.r0, q.r0, k, c, f, s);
    lemma_stage_row(y.r1, a.r1, d.r1, p.r1, q.r1, k, c, f, s);
    lemma_stage_row(y.r2, a.r2, d.r2, p.r2, q.r2, k, c, f, s);
}

/// What a first stage yields is bounded.
proof fn lemma_first_stage(r: M3, k: real, a: M3, c: real, d: M3, b: real, s: real)
    requires
        block_near(r, k, a, c, d, (s * b) * (96 as real * eps())),
        block_within(a, b),
        block_within(d, b),
        is_part(k, s),
        is_part(c, s),
        s * b >= 1 as real,
    ensures
        block_within(r, 3 as real * (s * b)),
        close(r, mix(k, grid(a), c, grid(d)), 96 as real * ((s * b) * eps())),
{
    lemma_tiny();
    let (e, t) = (eps(), s * b);
    let f = t * e;
    assert(t * (96 as real * e) == 96 as real * f && 96 as real * f <= t) by (nonlinear_arith)
        requires
            f == t * e,
            t >= 1 as real,
            e == (1 as real) / (0x100_0000 as real),
    ;
    lemma_first_row(r.r0, k, a.r0, c, d.r0, b, f, s);
    lemma_first_row(r.r1, k, a.r1, c, d.r1, b, f, s);
    lemma_first_row(r.r2, k, a.r2, c, d.r2, b, f, s);
}

proof fn lemma_first_row(r: V3, k: real, a: V3, c: real, d: V3, b: real, f: real, s: real)
    requires
        row_near(r, k, a, c, d, 96 as real * f),
        row_within(a, b),
        row_within(d, b),
        is_part(k, s),
        is_part(c, s),
        96 as real * f <= s * b,
    ensures
        row_within(r, 3 as real * (s * b)),
        row_close(r, mix_row(k, triple(a), c, triple(d)), 96 as real * f),
{
    lemma_product_size(k, value(a.x), s, b);
    lemma_product_size(k, value(a.y), s, b);
    lemma_product_size(k, value(a.z), s, b);
    lemma_product_size(c, value(d.x), s, b);
    lemma_product_size(c, value(d.y), s, b);
    lemma_product_size(c, value(d.z), s, b);
}

/// The powers of a time of at most `s`; `m` is the fourth power of `s`.
proof fn lemma_powers(t: real, s: real, m: real)
    requires
        t >= 0 as real,
        t <= s,
        s >= 1 as real,
        m == (s * s) * (s * s),
    ensures
        size(t * t) <= s * s,
        size(t * (t * t)) <= m,
        size((t * t) * (t * t)) <= m,
        s * s <= m,
        s * (s * s) <= m,
        s * s >= 1 as real,
        m >= 1 as real,
{
    let (ss, tt) = (s * s, t * t);
    lemma_product_size(t, t, s, s);
    lemma_product_size(t, tt, s, ss);
    lemma_product_size(tt, tt, ss, ss);
    assert(ss >= s && ss >= 1 as real) by (nonlinear_arith)
        requires
            ss == s * s,
            s >= 1 as real,
    ;
    assert(s * ss <= ss * ss && ss <= ss * ss) by (nonlinear_arith)
        requires
            ss >= s,
            ss >= 1 as real,
    ;
}

/// The process noise, in real numbers; `m` is the fourth power of `s`.
proof fn lemma_noise_values(dt: Number, s: real, m: real)
    requires
        is_share(dt, s),
        s >= 1 as real,
        m == (s * s) * (s * s),
        m <= 0x40_0000_0000_0000 as real,
    ensures
        ({
            let t = value(dt);
            let (a, b, c) = (
                process_noise(dt).pp.r0.x,
                process_noise(dt).pv.r0.x,
                process_noise(dt).vv.r0.x,
            );
            &&& a is Finite && b is Finite && c is Finite
            &&& size(value(a) - 9 as real * ((t * t) * (t * t)) / (4 as real)) <= 64 as real * (m
                * eps())
            &&& size(value(b) - 9 as real * (t * (t * t)) / (2 as real)) <= 64 as real * (m
                * eps())
            &&& size(value(c) - 9 as real * (t * t)) <= 64 as real * (m * eps())
            &&& size(value(a)) <= 10 as real * m && size(value(b)) <= 10 as real * m && size(
                value(c),
            ) <= 10 as real * m
        }),
{
    lemma_tiny();
    lemma2_to64();
    let e = eps();
    assert(e <= 1 as real / (1000 as real));
    let (q, two, four) = (decode(KF_ACCEL_VAR), decode(TWO), decode(FOUR));
    assert(pow2(20) as real == 0x10_0000 as real);
    assert(pow2(22) as real == 0x40_0000 as real);
    assert(pow2(21) as real == 0x20_0000 as real);
    lemma_units(q, 0x90_0000, 129, 20);
    lemma_units(two, 0x80_0000, 127, 22);
    lemma_units(four, 0x80_0000, 128, 21);
    let (qv, wv, fv) = (value(q), value(two), value(four));
    assert(qv * (0x10_0000 as real) == 0x90_0000 as real);
    assert(wv * (0x40_0000 as real) == 0x80_0000 as real);
    assert(fv * (0x20_0000 as real) == 0x80_0000 as real);
    assert(qv == 9 as real && wv == 2 as real && fv == 4 as real);
    if two->mag == 0 {
        lemma_no_value(two);
    }
    if four->mag == 0 {
        lemma_no_value(four);
    }
    let t = value(dt);
    let (tt, ss) = (t * t, s * s);
    let (t3, t4) = (t * tt, tt * tt);
    lemma_powers(t, s, m);
    lemma_tenfold(m, e);
    let me = m * e;
    let sq = squared(dt);
    lemma_product_error(dt, dt);
    let x = value(sq);
    lemma_op(x, tt, ss);
    let d = x - tt;
    // The square, times nine.
    lemma_product_error(q, sq);
    lemma_op(value(q * sq), 9 as real * x, 10 as real * m);
    // The cube.
    let se = ss * (2 as real * e);
    assert(se <= 2 as real * me && se >= 0 as real) by (nonlinear_arith)
        requires
            se == ss * (2 as real * e),
            me == m * e,
            ss <= m,
            ss >= 0 as real,
            e > 0 as real,
    ;
    lemma_product_size(t, d, s, se);
    assert(s * se <= 2 as real * me) by (nonlinear_arith)
        requires
            se == ss * (2 as real * e),
            me == m * e,
            s * ss <= m,
            e > 0 as real,
    ;
    assert(t * x == t3 + t * d) by (nonlinear_arith)
        requires
            x == tt + d,
            t3 == t * tt,
    ;
    let cube = dt * sq;
    lemma_product_error(dt, sq);
    lemma_op(value(cube), t * x, 2 as real * m);
    lemma_product_error(q, cube);
    lemma_op(value(q * cube), 9 as real * value(cube), 10 as real * m);
    lemma_quotient_error(q * cube, two, value(q * cube) / (2 as real));
    lemma_op(value(q * cube / two), value(q * cube) / (2 as real), 6 as real * m);
    // The fourth power.
    lemma_product_size(d, x + tt, se, 3 as real * ss);
    assert(se * (3 as real * ss) == 6 as real * me) by (nonlinear_arith)
        requires
            se == ss * (2 as real * e),
            me == m * e,
            m == ss * ss,
    ;
    assert(x * x == t4 + d * (x + tt)) by (nonlinear_arith)
        requires
            x == tt + d,
            t4 == tt * tt,
    ;
    let fourth = squared(sq);
    lemma_product_error(sq, sq);
    lemma_op(value(fourth), x * x, 2 as real * m);
    lemma_product_error(q, fourth);
    lemma_op(value(q * fourth), 9 as real * value(fourth), 10 as real * m);
    lemma_quotient_error(q * fourth, four, value(q * fourth) / (4 as real));
    lemma_op(value(q * fourth / four), value(q * fourth) / (4 as real), 3 as real * m);
}

/// Multiples of a rounding of `m`.
proof fn lemma_tenfold(m: real, e: real)
    requires
        m >= 1 as real,
        e == (1 as real) / (0x100_0000 as real),
    ensures
        (10 as real * m) * (2 as real * e) == 20 as real * (m * e),
        (6 as real * m) * (2 as real * e) == 12 as real * (m * e),
        (3 as real * m) * (2 as real * e) == 6 as real * (m * e),
        (2 as real * m) * (2 as real * e) == 4 as real * (m * e),
        m * e <= m / (1000000 as real),
        m * e > 0 as real,
{
    let f = m * e;
    assert((10 as real * m) * (2 as real * e) == 20 as real * f && (6 as real * m) * (2 as real * e)
        == 12 as real * f) by (nonlinear_arith)
        requires
            f == m * e,
    ;
    assert((3 as real * m) * (2 as real * e) == 6 as real * f && (2 as real * m) * (2 as real * e)
        == 4 as real * f) by (nonlinear_arith)
        requires
            f == m * e,
    ;
    assert(f <= m / (1000000 as real) && f > 0 as real) by (nonlinear_arith)
        requires
            f == m * e,
            m >= 1 as real,
            e == (1 as real) / (0x100_0000 as real),
    ;
}

/// Noise added to a block.
proof fn lemma_noise_added(y: M3, g: Grid, q: Number, exact: real, b: real)
    requires
        close(y, g, 480 as real * (b * eps())),
        q is Finite,
        size(value(q) - exact) <= 64 as real * (b * eps()),
        size(value(q)) <= 10 as real * b,
        block_bounded(g, 4 as real * b),
        b >= 1 as real,
        b <= 0x400_0000_0000_0000 as real,
    ensures
        close(y + diagonal3(q), g.lifted(exact), 640 as real * (b * eps())),
{
    lemma_no_value(zero());
    lemma_tiny();
    let e = eps();
    let f = b * e;
    assert(f >= e && 480 as real * f <= b && 40 as real * b * (2 as real * e) == 80 as real * f)
        by (nonlinear_arith)
        requires
            f == b * e,
            b >= 1 as real,
            e == (1 as real) / (0x100_0000 as real),
    ;
    lemma_added(y.r0.x, q, g.r0.x, exact, b, f);
    lemma_added(y.r0.y, zero(), g.r0.y, 0 as real, b, f);
    lemma_added(y.r0.z, zero(), g.r0.z, 0 as real, b, f);
    lemma_added(y.r1.x, zero(), g.r1.x, 0 as real, b, f);
    lemma_added(y.r1.y, q, g.r1.y, exact, b, f);
    lemma_added(y.r1.z, zero(), g.r1.z, 0 as real, b, f);
    lemma_added(y.r2.x, zero(), g.r2.x, 0 as real, b, f);
    lemma_added(y.r2.y, zero(), g.r2.y, 0 as real, b, f);
    lemma_added(y.r2.z, q, g.r2.z, exact, b, f);
}

spec fn row_bounded(g: Triple, b: real) -> bool {
    size(g.x) <= b && size(g.y) <= b && size(g.z) <= b
}

spec fn block_bounded(g: Grid, b: real) -> bool {
    row_bounded(g.r0, b) && row_bounded(g.r1, b) && row_bounded(g.r2, b)
}

proof fn lemma_added(y: Number, q: Number, g: real, exact: real, b: real, f: real)
    requires
        y is Finite,
        q is Finite,
        size(value(y) - g) <= 480 as real * f,
        size(value(q) - exact) <= 64 as real * f,
        size(value(q)) <= 10 as real * b,
        size(g) <= 4 as real * b,
        480 as real * f <= b,
        40 as real * b * (2 as real * eps()) == 80 as real * f,
        b >= 1 as real,
        b <= 0x400_0000_0000_0000 as real,
    ensures
        (y + q) is Finite,
        size(value(y + q) - (g + exact)) <= 640 as real * f,
{
    lemma_sum_error(y, q);
    lemma_op(value(y + q), value(y) + value(q), 40 as real * b);
}

/// What two stages come to where the factors are zero, one or `t`.
proof fn lemma_mixed(o: Outlook, t: real)
    ensures
        mix(1 as real, mix(1 as real, o.pp, t, o.vp), t, mix(1 as real, o.pv, t, o.vv))
            == o.pp.plus(t, o.vp).plus(t, o.pv.plus(t, o.vv)),
        mix(
            0 as real,
            mix(1 as real, o.pp, t, o.vp),
            1 as real,
            mix(1 as real, o.pv, t, o.vv),
        ) == o.pv.plus(t, o.vv),
        mix(1 as real, mix(0 as real, o.pp, 1 as real, o.vp), t, mix(0 as real, o.pv, 1 as real, o.vv))
            == o.vp.plus(t, o.vv),
        mix(
            0 as real,
            mix(0 as real, o.pp, 1 as real, o.vp),
            1 as real,
            mix(0 as real, o.pv, 1 as real, o.vv),
        ) == o.vv,
{
}

/// What two stages come to is bounded.
proof fn lemma_mix_bounded(k: real, p: Grid, c: real, q: Grid, b: real, s: real)
    requires
        block_bounded(p, b),
        block_bounded(q, b),
        is_part(k, s),
        is_part(c, s),
    ensures
        block_bounded(mix(k, p, c, q), 2 as real * (s * b)),
{
    lemma_mix_row_bounded(k, p.r0, c, q.r0, b, s);
    lemma_mix_row_bounded(k, p.r1, c, q.r1, b, s);
    lemma_mix_row_bounded(k, p.r2, c, q.r2, b, s);
}

proof fn lemma_mix_row_bounded(k: real, p: Triple, c: real, q: Triple, b: real, s: real)
    requires
        row_bounded(p, b),
        row_bounded(q, b),
        is_part(k, s),
        is_part(c, s),
    ensures
        row_bounded(mix_row(k, p, c, q), 2 as real * (s * b)),
{
    lemma_product_size(k, p.x, s, b);
    lemma_product_size(k, p.y, s, b);
    lemma_product_size(k, p.z, s, b);
    lemma_product_size(c, q.x, s, b);
    lemma_product_size(c, q.y, s, b);
    lemma_product_size(c, q.z, s, b);
}

/// One block of the prediction: `k` and `c` weigh the two blocks that the first
/// stage gave, and that stage weighed by `u` and `v`.
proof fn lemma_block(
    pa: M3,
    pb: M3,
    qa: M3,
    qb: M3,
    u: Number,
    v: Number,
    k: Number,
    c: Number,
    b: real,
    s: real,
)
    requires
        block_within(pa, b) && block_within(pb, b),
        block_within(qa, b) && block_within(qb, b),
        is_share(u, s) && is_share(v, s) && is_share(k, s) && is_share(c, s),
        b >= 1 as real,
        s >= 1 as real,
        s * (s * b) <= 0x40_0000_0000_0000 as real,
    ensures
        ({
            let a = diagonal3(v).product_onto(diagonal3(u) * pa, pb);
            let d = diagonal3(v).product_onto(diagonal3(u) * qa, qb);
            let y = d.product_onto(a * diagonal3(k), diagonal3(c));
            let g = mix(
                value(k),
                mix(value(u), grid(pa), value(v), grid(pb)),
                value(c),
                mix(value(u), grid(qa), value(v), grid(qb)),
            );
            &&& close(y, g, 480 as real * ((s * (s * b)) * eps()))
            &&& block_bounded(g, 4 as real * (s * (s * b)))
        }),
{
    let a = diagonal3(v).product_onto(diagonal3(u) * pa, pb);
    let d = diagonal3(v).product_onto(diagonal3(u) * qa, qb);
    let t = s * b;
    assert(t >= b && s * t >= t) by (nonlinear_arith)
        requires
            t == s * b,
            s >= 1 as real,
            b >= 1 as real,
    ;
    lemma_left(u, v, pa, pb, b, s);
    lemma_left(u, v, qa, qb, b, s);
    lemma_first_stage(a, value(u), pa, value(v), pb, b, s);
    lemma_first_stage(d, value(u), qa, value(v), qb, b, s);
    let (e, f) = (eps(), t * eps());
    let w = 3 as real * t;
    assert(s * w == 3 as real * (s * t)) by (nonlinear_arith)
        requires
            w == 3 as real * t,
    ;
    lemma_right(k, c, a, d, w, s);
    assert((s * w) * (96 as real * e) == 288 as real * (s * f)) by (nonlinear_arith)
        requires
            w == 3 as real * t,
            f == t * e,
    ;
    let (p, q) = (
        mix(value(u), grid(pa), value(v), grid(pb)),
        mix(value(u), grid(qa), value(v), grid(qb)),
    );
    let y = d.product_onto(a * diagonal3(k), diagonal3(c));
    lemma_stage(y, a, d, p, q, value(k), value(c), f, s);
    assert(s * f == (s * t) * e) by (nonlinear_arith)
        requires
            f == t * e,
    ;
    lemma_mix_bounded(value(u), grid(pa), value(v), grid(pb), b, s);
    lemma_mix_bounded(value(u), grid(qa), value(v), grid(qb), b, s);
    lemma_mix_bounded(value(k), p, value(c), q, 2 as real * t, s);
    assert(s * (2 as real * t) == 2 as real * (s * t)) by (nonlinear_arith);
}

/// The covariance that prediction yields is the exact one, but for rounding.
/// `b` bounds its entries before and `s` the time.
pub proof fn law_prediction_is_nearly_exact(e: Estimate, dt: Number, b: real, s: real)
    requires
        is_share(dt, s),
        block_within(e.cov.pp, b) && block_within(e.cov.pv, b),
        block_within(e.cov.vp, b) && block_within(e.cov.vv, b),
        s >= 1 as real,
        b >= s * s,
        s * (s * b) <= 0x40_0000_0000_0000 as real,
    ensures
        ({
            let (p, f) = (carried(e, dt).cov, foreseen(outlook(e.cov), value(dt)));
            let tol = 640 as real * ((s * (s * b)) * eps());
            close(p.pp, f.pp, tol) && close(p.pv, f.pv, tol) && close(p.vp, f.vp, tol) && close(
                p.vv,
                f.vv,
                tol,
            )
        }),
{
    reveal(carried);
    lemma_shares(s);
    let m = e.cov;
    let (most, fourth) = (s * (s * b), (s * s) * (s * s));
    lemma_spans(s, b);
    let (i, o) = (one(), zero());
    let t = value(dt);
    lemma_block(m.pp, m.vp, m.pv, m.vv, i, dt, i, dt, b, s);
    lemma_block(m.pp, m.vp, m.pv, m.vv, i, dt, o, i, b, s);
    lemma_block(m.pp, m.vp, m.pv, m.vv, o, i, i, dt, b, s);
    lemma_block(m.pp, m.vp, m.pv, m.vv, o, i, o, i, b, s);
    lemma_mixed(outlook(m), t);
    lemma_noise_values(dt, s, fourth);
    assert(fourth * eps() <= most * eps()) by (nonlinear_arith)
        requires
            fourth <= most,
            eps() > 0 as real,
    ;
    let f = transition(dt);
    let x = f * m;
    let y = x * f.transposed();
    assert(f.transposed() == (M6 {
        pp: diagonal3(i),
        pv: diagonal3(o),
        vp: diagonal3(dt),
        vv: diagonal3(i),
    }));
    let n = process_noise(dt);
    let tt = t * t;
    lemma_noise_added(
        y.pp,
        mix(1 as real, mix(1 as real, grid(m.pp), t, grid(m.vp)), t, mix(1 as real, grid(m.pv), t, grid(m.vv))),
        n.pp.r0.x,
        9 as real * (tt * tt) / (4 as real),
        most,
    );
    lemma_noise_added(
        y.pv,
        mix(
            0 as real,
            mix(1 as real, grid(m.pp), t, grid(m.vp)),
            1 as real,
            mix(1 as real, grid(m.pv), t, grid(m.vv)),
        ),
        n.pv.r0.x,
        9 as real * (t * tt) / (2 as real),
        most,
    );
    lemma_noise_added(
        y.vp,
        mix(
            1 as real,
            mix(0 as real, grid(m.pp), 1 as real, grid(m.vp)),
            t,
            mix(0 as real, grid(m.pv), 1 as real, grid(m.vv)),
        ),
        n.vp.r0.x,
        9 as real * (t * tt) / (2 as real),
        most,
    );
    lemma_noise_added(
        y.vv,
        mix(
            0 as real,
            mix(0 as real, grid(m.pp), 1 as real, grid(m.vp)),
            1 as real,
            mix(0 as real, grid(m.pv), 1 as real, grid(m.vv)),
        ),
        n.vv.r0.x,
        9 as real * tt,
        most,
    );
}

/// How the bounds of entries and times go together.
proof fn lemma_spans(s: real, b: real)
    requires
        s >= 1 as real,
        b >= s * s,
    ensures
        b >= 1 as real,
        (s * s) * (s * s) <= s * (s * b),
        s * (s * b) >= 1 as real,
        eps() > 0 as real,
{
    lemma_tiny();
    let ss = s * s;
    assert(ss >= 1 as real) by (nonlinear_arith)
        requires
            ss == s * s,
            s >= 1 as real,
    ;
    assert(s * (s * b) == ss * b) by (nonlinear_arith)
        requires
            ss == s * s,
    ;
    assert(ss * ss <= ss * b && ss * b >= 1 as real) by (nonlinear_arith)
        requires
            ss <= b,
            ss >= 1 as real,
    ;
}

proof fn lemma_shares(s: real)
    requires
        s >= 1 as real,
    ensures
        is_share(one(), s),
        is_share(zero(), s),
        value(one()) == 1 as real,
        value(zero()) == 0 as real,
{
    lemma_no_value(zero());
    lemma_pow2_pos(149);
    let u = unit() as real;
    assert(u / u == 1 as real) by (nonlinear_arith)
        requires
            u > 0 as real,
    ;
}

/// A prediction moves the position by the velocity times the time and keeps the
/// velocity, but for rounding, and does not touch when the neighbour was seen.
/// `b` bounds the coordinates before and `s` the time. The covariance does not
/// depend on them.
pub proof fn law_prediction_moves_the_position(e: Estimate, dt: Number, b: real, s: real)
    requires
        is_share(dt, s),
        row_within(e.pos, b),
        row_within(e.vel, b),
        b >= 1 as real,
        s >= 1 as real,
        s * b <= 0x40_0000_0000_0000 as real,
    ensures
        row_near(
            carried(e, dt).pos,
            1 as real,
            e.pos,
            value(dt),
            e.vel,
            (s * b) * (96 as real * eps()),
        ),
        row_near(
            carried(e, dt).vel,
            0 as real,
            e.pos,
            1 as real,
            e.vel,
            (s * b) * (96 as real * eps()),
        ),
        carried(e, dt).last_seen == e.last_seen,
        forall|d: Estimate|
            d.cov == e.cov ==> (#[trigger] carried(d, dt)).cov == carried(e, dt).cov,
{
    reveal(carried);
    lemma_shares(s);
    assert(s * b >= 1 as real) by (nonlinear_arith)
        requires
            s >= 1 as real,
            b >= 1 as real,
    ;
    let (i, o) = (one(), zero());
    lemma_moved_row(i, dt, e.pos, e.vel, b, s);
    lemma_moved_row(o, i, e.pos, e.vel, b, s);
}

proof fn lemma_moved_row(k: Number, c: Number, v: V3, w: V3, b: real, s: real)
    requires
        is_share(k, s),
        is_share(c, s),
        row_within(v, b),
        row_within(w, b),
        b >= 0 as real,
        s * b >= 1 as real,
        s * b <= 0x40_0000_0000_0000 as real,
    ensures
        row_near(
            diagonal3(c).apply_onto(diagonal3(k).apply(v), w),
            value(k),
            v,
            value(c),
            w,
            (s * b) * (96 as real * eps()),
        ),
{
    lemma_left_entry(k, c, 0, v, w, b, s);
    lemma_left_entry(k, c, 1, v, w, b, s);
    lemma_left_entry(k, c, 2, v, w, b, s);
    assert(diagonal3(c).r0 == on_axis(c, 0) && diagonal3(k).r0 == on_axis(k, 0));
    assert(diagonal3(c).r1 == on_axis(c, 1) && diagonal3(k).r1 == on_axis(k, 1));
    assert(diagonal3(c).r2 == on_axis(c, 2) && diagonal3(k).r2 == on_axis(k, 2));
}

} // verus!
