//! What the limits on speed and thrust guarantee, in real numbers.
use crate::avoid::push_from_walls;
use crate::config::{
    BATTERY_CHARGE_SHARE, BATTERY_FLAT_SHARE, GOAL_NEAR, THRUST_MAX, TILT_ACCEL_RATE, W_BOUNDARY,
};
use crate::error::{
    eps, lemma_less_value, lemma_negated_value, lemma_no_value, lemma_product_error,
    lemma_quotient_error, lemma_root_error, lemma_square_sign, lemma_sum_error, lemma_tiny,
    lemma_tiny_cubed, lemma_units, size, tiny, value,
};
use crate::goal::is_known;
use crate::metric::{
    finite, inner, lemma_components, lemma_length_is_some, lemma_positive, lemma_product_size,
    lemma_root_size, lemma_small, lemma_square_error, lemma_step,
};
use crate::number::{
    decode, is_nought, larger, less, one, product, quotient, smaller, square_root, sum, unit, zero,
    Number,
};
use crate::order::lemma_zero_quotient;
use crate::quad::{
    budget, flock, flocking, lemma_clamp_nought, limited, planned, preferred, surroundings,
    thrusting, towards, wanted, Craft, Obstacles, Situation,
};
use crate::sim::Mode;
use crate::speed::{law_flown_velocity_keeps_speed_limit, law_speed_limit_holds};
use crate::vector::V3;
use vstd::arithmetic::power2::{lemma2_to64, lemma_pow2_pos, pow2};
use vstd::prelude::*;

verus! {

/// What a bound `m` on a length allows its square to be: its own square, and a
/// few roundings.
pub open spec fn slack(m: real) -> real {
    m * m + (m + 1 as real) * (m + 1 as real) * (256 as real * eps())
}

/// One component of a vector that is scaled to the length `max`; `q` is its
/// share of the length.
proof fn lemma_scaled_to(a: Number, len: Number, max: Number, q: real)
    requires
        a is Finite,
        len is Finite,
        len->mag > 0,
        max is Finite,
        value(max) >= 0 as real,
        value(max) <= 0x2000_0000_0000_0000 as real,
        q * value(len) == value(a),
        size(q) <= 3 as real,
    ensures
        ((a / len) * max) is Finite,
        size(value((a / len) * max) - value(max) * q) <= (value(max) + 1 as real) * (8 as real
            * eps()),
{
    lemma_tiny();
    let (e, o, m) = (eps(), tiny(), value(max));
    lemma_quotient_error(a, len, q);
    let d = value(a / len);
    let off = d - q;
    assert(size(off) <= 4 as real * e) by (nonlinear_arith)
        requires
            size(off) <= size(q) * e + o,
            size(q) <= 3 as real,
            o <= e * e,
            e == (1 as real) / (0x100_0000 as real),
    ;
    assert(e <= (1 as real) / (64 as real));
    assert(size(d) <= 4 as real);
    let x = d * m;
    assert(size(x) <= 4 as real * m) by (nonlinear_arith)
        requires
            x == d * m,
            size(d) <= 4 as real,
            m >= 0 as real,
    ;
    lemma_product_error(a / len, max);
    let w = value((a / len) * max);
    let y = off * m;
    assert(size(y) <= m * (4 as real * e)) by (nonlinear_arith)
        requires
            y == off * m,
            size(off) <= 4 as real * e,
            m >= 0 as real,
    ;
    assert(x == m * q + y) by (nonlinear_arith)
        requires
            x == d * m,
            y == off * m,
            off == d - q,
    ;
    assert(size(x) * e <= m * (4 as real * e)) by (nonlinear_arith)
        requires
            size(x) <= 4 as real * m,
            e > 0 as real,
    ;
    assert((m + 1 as real) * (8 as real * e) == m * (4 as real * e) + m * (4 as real * e) + 8 as real
        * e) by (nonlinear_arith);
}

/// The smallest positive number.
proof fn lemma_least(a: Number)
    requires
        a is Finite,
        !a->Finite_neg,
        a->mag > 0,
    ensures
        value(a) >= 2 as real * tiny(),
{
    lemma_pow2_pos(149);
    let (m, u, o) = (a->mag as real, unit() as real, tiny());
    assert(m / u >= 2 as real * o) by (nonlinear_arith)
        requires
            m >= 1 as real,
            u > 0 as real,
            o == (1 as real) / (2 as real * u),
    ;
}

/// The square of one component, where it is near `m * q`.
proof fn lemma_square_near(w: real, m: real, q: real)
    requires
        size(w - m * q) <= (m + 1 as real) * (8 as real * eps()),
        size(q) <= 3 as real,
        m >= 0 as real,
    ensures
        w * w <= m * m * (q * q) + (m + 1 as real) * (m + 1 as real) * (64 as real * eps()),
{
    lemma_tiny();
    let (e, k) = (eps(), m + 1 as real);
    let (a, d) = (m * q, w - m * q);
    let r = k * (8 as real * e);
    assert(size(a) <= 3 as real * k) by (nonlinear_arith)
        requires
            a == m * q,
            size(q) <= 3 as real,
            m >= 0 as real,
            k == m + 1 as real,
    ;
    let (ad, dd, kk) = (a * d, d * d, k * k);
    lemma_product_size(a, d, 3 as real * k, r);
    lemma_product_size(d, d, r, r);
    let ke = kk * e;
    assert(3 as real * k * r == 24 as real * ke) by (nonlinear_arith)
        requires
            r == k * (8 as real * e),
            kk == k * k,
            ke == kk * e,
    ;
    assert(r * r == 64 as real * (ke * e)) by (nonlinear_arith)
        requires
            r == k * (8 as real * e),
            kk == k * k,
            ke == kk * e,
    ;
    assert(kk >= 1 as real) by (nonlinear_arith)
        requires
            kk == k * k,
            k >= 1 as real,
    ;
    assert(ke >= 0 as real && ke * e <= ke / (64 as real)) by (nonlinear_arith)
        requires
            ke == kk * e,
            kk >= 1 as real,
            e > 0 as real,
            e <= 1 as real / (64 as real),
    ;
    assert(kk * (64 as real * e) == 64 as real * ke) by (nonlinear_arith)
        requires
            ke == kk * e,
    ;
    assert(w * w == a * a + ad + ad + dd) by {
        lemma_square_of_sum(a, d);
        assert(w == a + d);
    }
    assert(a * a == m * m * (q * q)) by (nonlinear_arith)
        requires
            a == m * q,
    ;
}

proof fn lemma_square_of_sum(a: real, b: real)
    ensures
        (a + b) * (a + b) == a * a + a * b + a * b + b * b,
{
    let c = a + b;
    assert(c * c == c * a + c * b) by (nonlinear_arith)
        requires
            c == a + b,
    ;
    assert(c * a == a * a + a * b) by (nonlinear_arith)
        requires
            c == a + b,
    ;
    assert(c * b == a * b + b * b) by (nonlinear_arith)
        requires
            c == a + b,
    ;
}

/// How far a length can be off, in the square of the bound `m` on it.
proof fn lemma_bound_share(m: real, mv: real, lv: real, yy: real, all: real, sq: real)
    requires
        m >= 0 as real,
        size(mv - m * m) <= m * m * eps() + tiny(),
        mv < lv,
        lv >= 2 as real * tiny(),
        size(yy - lv) <= lv * (4 as real * eps()),
        size(lv - all) <= all * (4 as real * eps()) + 8 as real * tiny(),
        all >= 0 as real,
        sq * yy == all,
    ensures
        yy > 0 as real,
        all <= 9 as real * yy,
        sq >= 0 as real,
        m * m * sq <= m * m + (m + 1 as real) * (m + 1 as real) * (16 as real * eps()),
{
    lemma_tiny();
    lemma_tiny_cubed();
    let (e, o, mm) = (eps(), tiny(), m * m);
    assert(yy > 0 as real && all <= 9 as real * yy) by (nonlinear_arith)
        requires
            lv >= 2 as real * o,
            o > 0 as real,
            size(yy - lv) <= lv * (4 as real * e),
            size(lv - all) <= all * (4 as real * e) + 8 as real * o,
            all >= 0 as real,
            e == (1 as real) / (0x100_0000 as real),
    ;
    assert(sq >= 0 as real && sq <= 9 as real) by (nonlinear_arith)
        requires
            sq * yy == all,
            yy > 0 as real,
            all >= 0 as real,
            all <= 9 as real * yy,
    ;
    let kk = (m + 1 as real) * (m + 1 as real);
    assert(kk >= 1 as real && mm <= kk && mm >= 0 as real) by (nonlinear_arith)
        requires
            kk == (m + 1 as real) * (m + 1 as real),
            mm == m * m,
            m >= 0 as real,
    ;
    let f = 16 as real * e;
    assert(kk * f >= f && kk * f >= mm * f) by (nonlinear_arith)
        requires
            kk >= 1 as real,
            kk >= mm,
            f > 0 as real,
    ;
    if mm <= e {
        assert(mm * sq <= 9 as real * e) by (nonlinear_arith)
            requires
                mm <= e,
                mm >= 0 as real,
                sq >= 0 as real,
                sq <= 9 as real,
        ;
    } else {
        assert(all <= yy * (1 as real + f)) by (nonlinear_arith)
            requires
                size(mv - mm) <= mm * e + o,
                mv < lv,
                mm > e,
                size(yy - lv) <= lv * (4 as real * e),
                size(lv - all) <= all * (4 as real * e) + 8 as real * o,
                all >= 0 as real,
                o <= e * e * e,
                o > 0 as real,
                f == 16 as real * e,
                e == (1 as real) / (0x100_0000 as real),
        ;
        assert(sq <= 1 as real + f) by (nonlinear_arith)
            requires
                sq * yy == all,
                all <= yy * (1 as real + f),
                yy > 0 as real,
        ;
        assert(mm * sq <= mm + mm * f) by (nonlinear_arith)
            requires
                sq <= 1 as real + f,
                mm >= 0 as real,
        ;
    }
}

/// A component's share `q` of a length.
proof fn lemma_share_of(q: real, y: real, x: real, all: real)
    requires
        q == x / y,
        y > 0 as real,
        x * x <= all,
        all <= 9 as real * (y * y),
    ensures
        q * y == x,
        size(q) <= 3 as real,
        q * q * (y * y) == x * x,
{
    assert(q * y == x) by (nonlinear_arith)
        requires
            q == x / y,
            y > 0 as real,
    ;
    assert(q * q * (y * y) == x * x) by (nonlinear_arith)
        requires
            q * y == x,
    ;
    let (qq, yy) = (q * q, y * y);
    assert(yy > 0 as real) by (nonlinear_arith)
        requires
            yy == y * y,
            y > 0 as real,
    ;
    assert(qq <= 9 as real) by (nonlinear_arith)
        requires
            qq * yy <= 9 as real * yy,
            yy > 0 as real,
    ;
    assert(3 as real * (3 as real) == 9 as real);
    lemma_root_size(q, 3 as real);
}

/// A vector whose length is infinite is scaled to nothing.
proof fn lemma_vanishes(a: Number, max: Number)
    requires
        a is Finite,
        max is Finite,
    ensures
        ((a / Number::Infinite { neg: false }) * max) is Finite,
        value((a / Number::Infinite { neg: false }) * max) == 0 as real,
{
    let inf = Number::Infinite { neg: false };
    lemma_pow2_pos(149);
    lemma_pow2_pos(277);
    lemma_zero_quotient(unit());
    assert(0 * max->mag == 0);
    assert(is_nought((a / inf) * max)) by {
        reveal(quotient);
        reveal(product);
    }
    lemma_no_value((a / inf) * max);
}

/// Whether `w` is `u`, `k` times, but for roundings of `m`.
pub open spec fn is_scaled(w: V3, u: V3, k: real, m: real) -> bool {
    let tol = (m + 1 as real) * (8 as real * eps());
    &&& size(value(w.x) - k * value(u.x)) <= tol
    &&& size(value(w.y) - k * value(u.y)) <= tol
    &&& size(value(w.z) - k * value(u.z)) <= tol
}

/// A vector clamped to the length `max` is no longer than that, but for
/// rounding, and points where it pointed: it is `k` times what it was.
pub proof fn lemma_capped_to(u: V3, max: Number) -> (k: real)
    requires
        finite(u),
        max is Finite,
        value(max) >= 0 as real,
        value(max) <= 0x2000_0000_0000_0000 as real,
        (max * max) is Finite,
    ensures
        finite(u.clamp_length_max(max)),
        inner(u.clamp_length_max(max), u.clamp_length_max(max)) <= slack(value(max)),
        k >= 0 as real,
        k <= 2 as real,
        is_scaled(u.clamp_length_max(max), u, k, value(max)),
        !less(max * max, u.length_squared()) ==> k == 1 as real && u.clamp_length_max(max) == u,
        less(max * max, u.length_squared()) && u.length_squared() is Finite ==> u.length() is Finite
            && value(u.length()) > 0 as real && k * value(u.length()) == value(max),
{
    lemma_tiny();
    let m = value(max);
    let mx = max * max;
    let (e, o) = (eps(), tiny());
    lemma_product_error(max, max);
    lemma_square_sign(m);
    lemma_length_is_some(u);
    let l = u.length_squared();
    let w = u.clamp_length_max(max);
    let kk = (m + 1 as real) * (m + 1 as real);
    assert(kk >= 1 as real) by (nonlinear_arith)
        requires
            kk == (m + 1 as real) * (m + 1 as real),
            m >= 0 as real,
    ;
    let ke = kk * e;
    assert(kk * (256 as real * e) == 256 as real * ke && kk * (64 as real * e) == 64 as real * ke && kk
        * (16 as real * e) == 16 as real * ke && ke >= 0 as real) by (nonlinear_arith)
        requires
            ke == kk * e,
            kk >= 1 as real,
            e > 0 as real,
    ;
    if l is Infinite {
        assert(less(mx, l)) by {
            reveal(less);
        }
        assert(square_root(l) == l) by {
            reveal(square_root);
        }
        lemma_vanishes(u.x, max);
        lemma_vanishes(u.y, max);
        lemma_vanishes(u.z, max);
        assert(0 as real * (0 as real) == 0 as real);
        assert(inner(w, w) == 0 as real);
        lemma_none_of(value(u.x), m);
        lemma_none_of(value(u.y), m);
        lemma_none_of(value(u.z), m);
        0 as real
    } else {
        lemma_square_error(u);
        lemma_less_value(mx, l);
        let (lv, mv, all) = (value(l), value(mx), inner(u, u));
        if !less(mx, l) {
            lemma_uncapped(m, mv, lv, all);
            assert(w == u);
            lemma_all_of(value(u.x), m);
            lemma_all_of(value(u.y), m);
            lemma_all_of(value(u.z), m);
            1 as real
        } else {
            assert(!l->Finite_neg && l->mag > 0) by {
                reveal(less);
                reveal(sum);
                reveal(product);
            }
            lemma_positive(l);
            lemma_least(l);
            lemma_root_error(l);
            let len = square_root(l);
            let y = value(len);
            if len->mag == 0 {
                lemma_no_value(len);
            }
            let yy = y * y;
            let (x1, x2, x3) = (value(u.x), value(u.y), value(u.z));
            let (q1, q2, q3) = (x1 / y, x2 / y, x3 / y);
            let sq = all / yy;
            lemma_square_sign(x1);
            lemma_square_sign(x2);
            lemma_square_sign(x3);
            assert(yy > 0 as real) by (nonlinear_arith)
                requires
                    yy == y * y,
                    y > 0 as real,
            ;
            assert(sq * yy == all) by (nonlinear_arith)
                requires
                    sq == all / yy,
                    yy > 0 as real,
            ;
            lemma_bound_share(m, mv, lv, yy, all, sq);
            lemma_share_of(q1, y, x1, all);
            lemma_share_of(q2, y, x2, all);
            lemma_share_of(q3, y, x3, all);
            lemma_scaled_to(u.x, len, max, q1);
            lemma_scaled_to(u.y, len, max, q2);
            lemma_scaled_to(u.z, len, max, q3);
            lemma_square_near(value(w.x), m, q1);
            lemma_square_near(value(w.y), m, q2);
            lemma_square_near(value(w.z), m, q3);
            let (a1, a2, a3) = (q1 * q1, q2 * q2, q3 * q3);
            lemma_sum_of_squares(a1, a2, a3, yy, x1 * x1, x2 * x2, x3 * x3, sq);
            let mm = m * m;
            assert(mm * sq == mm * a1 + mm * a2 + mm * a3) by (nonlinear_arith)
                requires
                    sq == a1 + a2 + a3,
            ;
            let k = m / y;
            assert((k * k) * yy == mm) by {
                lemma_same_share(k, m, q1, x1, y);
                assert((k * k) * (y * y) == (k * y) * (k * y)) by (nonlinear_arith);
            }
            lemma_same_share(k, m, q1, x1, y);
            lemma_same_share(k, m, q2, x2, y);
            lemma_same_share(k, m, q3, x3, y);
            assert(k >= 0 as real) by (nonlinear_arith)
                requires
                    k == m / y,
                    m >= 0 as real,
                    y > 0 as real,
            ;
            lemma_not_stretched(k, m, mv, lv, yy);
            k
        }
    }
}

/// What is clamped is not made longer.
proof fn lemma_not_stretched(k: real, m: real, mv: real, lv: real, yy: real)
    requires
        (k * k) * yy == m * m,
        k >= 0 as real,
        size(mv - m * m) <= m * m * eps() + tiny(),
        mv < lv,
        lv >= 2 as real * tiny(),
        size(yy - lv) <= lv * (4 as real * eps()),
    ensures
        k <= 2 as real,
{
    lemma_tiny();
    let (mm, e, o, kk) = (m * m, eps(), tiny(), k * k);
    lemma_square_sign(m);
    assert(mm * e <= mm / (1000 as real) && lv * (4 as real * e) <= lv / (1000 as real))
        by (nonlinear_arith)
        requires
            mm >= 0 as real,
            lv >= 0 as real,
            e == (1 as real) / (0x100_0000 as real),
            mm == m * m,
    ;
    assert(4 as real * yy > mm);
    assert(kk < 4 as real) by (nonlinear_arith)
        requires
            kk * yy == mm,
            4 as real * yy > mm,
            yy > 0 as real,
    ;
    assert(k <= 2 as real) by (nonlinear_arith)
        requires
            kk == k * k,
            kk < 4 as real,
            k >= 0 as real,
    ;
}

proof fn lemma_same_share(k: real, m: real, q: real, x: real, y: real)
    requires
        k == m / y,
        q == x / y,
        y > 0 as real,
    ensures
        k * x == m * q,
        k * y == m,
{
    assert(k * y == m && q * y == x) by (nonlinear_arith)
        requires
            k == m / y,
            q == x / y,
            y > 0 as real,
    ;
    assert(k * (q * y) == (k * y) * q) by (nonlinear_arith);
}

proof fn lemma_none_of(x: real, m: real)
    requires
        m >= 0 as real,
    ensures
        0 as real * x == 0 as real,
        (m + 1 as real) * (8 as real * eps()) >= 0 as real,
{
    lemma_tiny();
    assert(0 as real * x == 0 as real) by (nonlinear_arith);
    assert((m + 1 as real) * (8 as real * eps()) >= 0 as real) by (nonlinear_arith)
        requires
            m >= 0 as real,
            eps() > 0 as real,
    ;
}

proof fn lemma_all_of(x: real, m: real)
    requires
        m >= 0 as real,
    ensures
        1 as real * x == x,
        (m + 1 as real) * (8 as real * eps()) >= 0 as real,
{
    lemma_none_of(x, m);
    assert(1 as real * x == x) by (nonlinear_arith);
}

proof fn lemma_sum_of_squares(
    a: real,
    b: real,
    c: real,
    y: real,
    p: real,
    q: real,
    r: real,
    sq: real,
)
    requires
        a * y == p,
        b * y == q,
        c * y == r,
        y > 0 as real,
        sq * y == p + q + r,
    ensures
        sq == a + b + c,
{
    let d = sq - (a + b + c);
    assert(d * y == 0 as real) by (nonlinear_arith)
        requires
            a * y == p,
            b * y == q,
            c * y == r,
            sq * y == p + q + r,
            d == sq - (a + b + c),
    ;
    assert(d == 0 as real) by (nonlinear_arith)
        requires
            d * y == 0 as real,
            y > 0 as real,
    ;
}

/// A length that is not above its bound.
proof fn lemma_uncapped(m: real, mv: real, lv: real, all: real)
    requires
        m >= 0 as real,
        size(mv - m * m) <= m * m * eps() + tiny(),
        lv <= mv,
        size(lv - all) <= all * (4 as real * eps()) + 8 as real * tiny(),
        all >= 0 as real,
    ensures
        all <= slack(m),
{
    lemma_tiny();
    let (e, o, mm) = (eps(), tiny(), m * m);
    let kk = (m + 1 as real) * (m + 1 as real);
    assert(kk >= 1 as real && mm <= kk && mm >= 0 as real) by (nonlinear_arith)
        requires
            kk == (m + 1 as real) * (m + 1 as real),
            mm == m * m,
            m >= 0 as real,
    ;
    assert(all <= mm + kk * (256 as real * e)) by (nonlinear_arith)
        requires
            size(mv - mm) <= mm * e + o,
            lv <= mv,
            size(lv - all) <= all * (4 as real * e) + 8 as real * o,
            all >= 0 as real,
            mm >= 0 as real,
            mm <= kk,
            kk >= 1 as real,
            o <= e * e,
            o > 0 as real,
            e == (1 as real) / (0x100_0000 as real),
    ;
}

/// The squared distance of two vectors, in real numbers.
pub open spec fn gap(a: V3, b: V3) -> real {
    let (x, y, z) = (value(a.x) - value(b.x), value(a.y) - value(b.y), value(a.z) - value(b.z));
    x * x + y * y + z * z
}

/// A sum's change: `b` bounds the first term, and `m` the second one.
proof fn lemma_change(h: Number, d: Number, b: real, m: real)
    requires
        h is Finite,
        d is Finite,
        size(value(h)) <= b,
        size(value(d)) <= 2 as real * (m + 1 as real),
        b <= 0x4000_0000_0000_0000 as real,
        m >= 0 as real,
        m <= 0x2000_0000_0000_0000 as real,
    ensures
        (h + d) is Finite,
        ({
            let (c, j) = (value(h + d) - value(h), (m + b + 1 as real) * eps());
            c * c <= value(d) * value(d) + 12 as real * ((m + 1 as real) * j) + 9 as real * (j * j)
        }),
{
    lemma_tiny();
    let (e, o) = (eps(), tiny());
    lemma_sum_error(h, d);
    let x = value(d);
    let f = value(h + d) - value(h) - x;
    let (n, k) = (m + 1 as real, m + b + 1 as real);
    let g = size(value(h) + x);
    let j = k * e;
    assert(g * e <= 2 as real * j && j >= e) by (nonlinear_arith)
        requires
            g <= 2 as real * k,
            j == k * e,
            k >= 1 as real,
            e == (1 as real) / (0x100_0000 as real),
    ;
    let w = 3 as real * j;
    lemma_square_of_sum(x, f);
    lemma_product_size(x, f, 2 as real * n, w);
    lemma_product_size(f, f, w, w);
    assert(2 as real * n * w == 6 as real * (n * j)) by (nonlinear_arith)
        requires
            w == 3 as real * j,
    ;
    assert(w * w == 9 as real * (j * j)) by (nonlinear_arith)
        requires
            w == 3 as real * j,
    ;
}

/// The horizontal thrust changes no faster than the airframe tilts: within
/// one step by at most the rate times the time, but for rounding, whatever is
/// demanded. `b` bounds the components of the thrust before. Far beyond, where
/// the square of the rate times the time is no finite number, nothing is limited.
pub proof fn law_tilt_is_rate_limited(q: Craft, accel: V3, dt: Number, b: real)
    requires
        finite(q.horiz),
        finite(accel.level() - q.horiz),
        size(value(q.horiz.x)) <= b,
        size(value(q.horiz.y)) <= b,
        size(value(q.horiz.z)) <= b,
        b <= 0x4000_0000_0000_0000 as real,
        (decode(TILT_ACCEL_RATE) * dt) is Finite,
        ((decode(TILT_ACCEL_RATE) * dt) * (decode(TILT_ACCEL_RATE) * dt)) is Finite,
        value(decode(TILT_ACCEL_RATE) * dt) >= 0 as real,
        value(decode(TILT_ACCEL_RATE) * dt) <= 0x2000_0000_0000_0000 as real,
    ensures
        ({
            let m = value(decode(TILT_ACCEL_RATE) * dt);
            let j = (m + b + 1 as real) * eps();
            let after = thrusting(q, accel, dt).horiz;
            &&& finite(after)
            &&& gap(after, q.horiz) <= slack(m) + 36 as real * ((m + 1 as real) * j) + 27 as real * (
            j * j)
        }),
{
    let most = decode(TILT_ACCEL_RATE) * dt;
    let horiz = q.horiz;
    let u = accel.level() - horiz;
    let d = u.clamp_length_max(most);
    let m = value(most);
    let k = lemma_capped_to(u, most);
    lemma_slack(m);
    lemma_components(d, 2 as real * (m + 1 as real));
    lemma_change(horiz.x, d.x, b, m);
    lemma_change(horiz.y, d.y, b, m);
    lemma_change(horiz.z, d.z, b, m);
}

proof fn lemma_slack(m: real)
    requires
        m >= 0 as real,
    ensures
        slack(m) <= (2 as real * (m + 1 as real)) * (2 as real * (m + 1 as real)),
{
    let kk = (m + 1 as real) * (m + 1 as real);
    let (e, mm) = (eps(), m * m);
    assert(mm <= kk && kk * (256 as real * e) <= kk) by (nonlinear_arith)
        requires
            mm == m * m,
            kk == (m + 1 as real) * (m + 1 as real),
            m >= 0 as real,
            256 as real * e <= 1 as real,
            e > 0 as real,
    ;
    assert((2 as real * (m + 1 as real)) * (2 as real * (m + 1 as real)) == 4 as real * kk)
        by (nonlinear_arith)
        requires
            kk == (m + 1 as real) * (m + 1 as real),
    ;
}

/// A small change of a component of at most 30.
proof fn lemma_small_change(x: real, d: real)
    requires
        size(x) <= 30 as real,
        size(d) <= 130 as real * eps(),
    ensures
        (x + d) * (x + d) <= x * x + (1 as real) / (2000 as real),
{
    lemma_square_of_sum(x, d);
    lemma_tiny();
    let e = eps();
    lemma_product_size(x, d, 30 as real, 130 as real * e);
    lemma_product_size(d, d, 130 as real * e, 130 as real * e);
    assert(30 as real * (130 as real * e) <= (1 as real) / (4200 as real) && (130 as real * e) * (
    130 as real * e) <= (1 as real) / (100000 as real)) by (nonlinear_arith)
        requires
            e == (1 as real) / (0x100_0000 as real),
    ;
}

/// A vector whose rounded length is at most `most` is no longer, but for
/// rounding.
proof fn lemma_short(t: V3, most: Number)
    requires
        finite(t),
        most is Finite,
        value(most) >= 0 as real,
        value(most) <= 60 as real,
        !less(most, t.length()),
    ensures
        inner(t, t) <= slack(value(most)),
{
    lemma_tiny();
    let (e, o, m) = (eps(), tiny(), value(most));
    lemma_length_is_some(t);
    let l = t.length_squared();
    let len = square_root(l);
    assert(l is Finite) by {
        if l is Infinite {
            assert(len == l) by {
                reveal(square_root);
            }
            assert(less(most, len)) by {
                reveal(less);
            }
        }
    }
    lemma_square_error(t);
    let (lv, all) = (value(l), inner(t, t));
    let kk = (m + 1 as real) * (m + 1 as real);
    let mm = m * m;
    assert(kk >= 1 as real && mm >= 0 as real && mm <= kk) by (nonlinear_arith)
        requires
            kk == (m + 1 as real) * (m + 1 as real),
            mm == m * m,
            m >= 0 as real,
    ;
    assert(l->mag > 0 ==> !l->Finite_neg) by {
        reveal(sum);
        reveal(product);
    }
    assert(kk * (256 as real * e) >= 256 as real * e) by (nonlinear_arith)
        requires
            kk >= 1 as real,
            e > 0 as real,
    ;
    if l->mag == 0 {
        lemma_no_value(l);
        assert(all <= 256 as real * e) by (nonlinear_arith)
            requires
                size(lv - all) <= all * (4 as real * e) + 8 as real * o,
                lv == 0 as real,
                all >= 0 as real,
                o <= e * e,
                e == (1 as real) / (0x100_0000 as real),
        ;
    } else {
        lemma_positive(l);
        lemma_root_error(l);
        lemma_less_value(most, len);
        let y = value(len);
        let yy = y * y;
        assert(yy <= mm) by (nonlinear_arith)
            requires
                yy == y * y,
                mm == m * m,
                y > 0 as real,
                y <= m,
        ;
        assert(all <= mm + kk * (256 as real * e)) by (nonlinear_arith)
            requires
                yy <= mm,
                size(yy - lv) <= lv * (4 as real * e),
                size(lv - all) <= all * (4 as real * e) + 8 as real * o,
                all >= 0 as real,
                mm <= kk,
                kk >= 1 as real,
                o <= e * e,
                o > 0 as real,
                e == (1 as real) / (0x100_0000 as real),
        ;
    }
}

/// What is left of the budget `most` beside the vertical thrust `v`.
proof fn lemma_left_over(most: Number, v: Number)
    requires
        most is Finite,
        v is Finite,
        value(most) >= 0 as real,
        value(most) <= 28 as real,
        size(value(v)) <= value(most),
    ensures
        ({
            let h = square_root(larger(most * most - v * v, zero()));
            &&& h is Finite
            &&& value(h) >= 0 as real
            &&& value(h) <= 29 as real
            &&& value(h) * value(h) <= value(most) * value(most) - value(v) * value(v) + (1 as real)
                / (2000 as real)
        }),
{
    lemma_tiny();
    let e = eps();
    let (m, x) = (value(most), value(v));
    let (mm, xx) = (m * m, x * x);
    lemma_product_size(m, m, 28 as real, 28 as real);
    lemma_product_size(x, x, m, m);
    lemma_square_sign(x);
    lemma_square_sign(m);
    let (a, b) = (most * most, v * v);
    lemma_product_error(most, most);
    lemma_product_error(v, v);
    lemma_step_large(value(a), mm);
    lemma_step_large(value(b), xx);
    lemma_negated_value(b);
    lemma_sum_error(a, -b);
    let c = a - b;
    lemma_step_large(value(c), value(a) - value(b));
    lemma_no_value(zero());
    lemma_less_value(c, zero());
    let g = larger(c, zero());
    assert(g is Finite && value(g) <= mm - xx + (1 as real) / (4000 as real) && value(g) >= 0
        as real);
    let h = square_root(g);
    let y = value(h);
    if g->mag == 0 {
        assert(h == g) by {
            reveal(square_root);
        }
        lemma_no_value(h);
        assert(0 as real * (0 as real) == 0 as real);
    } else {
        assert(!g->Finite_neg) by {
            lemma_less_value(g, zero());
            reveal(less);
        }
        lemma_positive(g);
        lemma_small(a, -b);
        lemma_pow2_pos(277);
        lemma_root_error(g);
        let gv = value(g);
        let yy = y * y;
        assert(yy <= gv + (1 as real) / (4000 as real)) by (nonlinear_arith)
            requires
                size(yy - gv) <= gv * (4 as real * e),
                gv <= 800 as real,
                gv >= 0 as real,
                e == (1 as real) / (0x100_0000 as real),
        ;
        assert(yy <= 29 as real * (29 as real));
        lemma_root_size(y, 29 as real);
    }
}

/// The error of one operation whose exact result is at most 800.
proof fn lemma_step_large(got: real, exact: real)
    requires
        size(got - exact) <= size(exact) * eps() + tiny(),
        size(exact) <= 800 as real,
    ensures
        size(got - exact) <= (1 as real) / (15000 as real),
{
    lemma_tiny();
    let (e, o, x) = (eps(), tiny(), size(exact));
    assert(x * e + o <= (1 as real) / (15000 as real)) by (nonlinear_arith)
        requires
            x <= 800 as real,
            x >= 0 as real,
            o <= e * e,
            e == (1 as real) / (0x100_0000 as real),
    ;
}

/// What thrust the battery gives: between 15 and 27 m/s^2.
proof fn lemma_budget(battery: Number)
    requires
        battery is Finite,
        value(battery) >= 0 as real,
        value(battery) <= 1 as real,
    ensures
        budget(battery) is Finite,
        value(budget(battery)) >= 15 as real,
        value(budget(battery)) <= 27 as real,
{
    lemma_tiny();
    lemma2_to64();
    assert(pow2(19) as real == 0x8_0000 as real);
    assert(pow2(24) as real == 0x100_0000 as real);
    assert(pow2(25) as real == 0x200_0000 as real);
    let (t, f, c) = (decode(THRUST_MAX), decode(BATTERY_FLAT_SHARE), decode(BATTERY_CHARGE_SHARE));
    lemma_units(t, 0xd0_0000, 130, 19);
    lemma_units(f, 0x99_999a, 125, 24);
    lemma_units(c, 0xcc_cccd, 124, 25);
    let b = value(battery);
    let (tv, fv, cv) = (value(t), value(f), value(c));
    assert(tv * (0x8_0000 as real) == 0xd0_0000 as real);
    assert(fv * (0x100_0000 as real) == 0x99_999a as real);
    assert(cv * (0x200_0000 as real) == 0xcc_cccd as real);
    assert(tv == 26 as real);
    assert(fv >= 59 as real / (100 as real) && fv <= 61 as real / (100 as real));
    assert(cv >= 39 as real / (100 as real) && cv <= 41 as real / (100 as real));
    lemma_product_error(c, battery);
    lemma_product_size(cv, b, 41 as real / (100 as real), 1 as real);
    assert(cv * b >= 0 as real) by (nonlinear_arith)
        requires
            cv >= 0 as real,
            b >= 0 as real,
    ;
    let x = c * battery;
    lemma_step(value(x), cv * b, 1 as real);
    lemma_sum_error(f, x);
    let y = f + x;
    lemma_step(value(y), fv + value(x), 2 as real);
    lemma_product_error(t, y);
    lemma_step(value(t * y), 26 as real * value(y), 60 as real);
}

/// One component of a thrust put together of a horizontal and a vertical part.
proof fn lemma_joined(k: Number, v: Number)
    requires
        k is Finite,
        v is Finite,
        size(value(k)) <= 30 as real,
        size(value(v)) <= 28 as real,
    ensures
        (k + zero() * v) is Finite,
        ({
            let c = value(k + zero() * v);
            c * c <= value(k) * value(k) + (1 as real) / (2000 as real)
        }),
{
    let z = zero() * v;
    assert(z is Finite && z->mag == 0) by {
        reveal(product);
        lemma_pow2_pos(149);
        lemma_pow2_pos(277);
        lemma_zero_quotient(unit());
        assert(0 * v->mag == 0) by (nonlinear_arith);
    }
    lemma_no_value(z);
    lemma_sum_error(k, z);
    lemma_step(value(k + z), value(k), 30 as real);
    lemma_small_change(value(k), value(k + z) - value(k));
}

/// The vertical component, where the horizontal part is level.
proof fn lemma_raised(k: Number, v: Number)
    requires
        is_nought(k),
        v is Finite,
        size(value(v)) <= 28 as real,
    ensures
        (k + one() * v) is Finite,
        ({
            let c = value(k + one() * v);
            c * c <= value(v) * value(v) + (1 as real) / (2000 as real)
        }),
{
    lemma_no_value(k);
    lemma_pow2_pos(149);
    let u = unit() as real;
    assert(u / u == 1 as real) by (nonlinear_arith)
        requires
            u > 0 as real,
    ;
    assert(value(one()) == 1 as real);
    lemma_product_error(one(), v);
    let x = one() * v;
    let exact = value(v);
    assert(1 as real * exact == exact);
    lemma_step(value(x), exact, 28 as real);
    lemma_sum_error(k, x);
    lemma_step(value(k + x), value(x), 29 as real);
    lemma_small_change(exact, value(k + x) - exact);
}

/// The thrust is within what the battery can give, but for half a mm/s^2,
/// unless more than that is wanted downwards.
pub proof fn law_thrust_is_within_budget(horiz: V3, accel: V3, battery: Number)
    requires
        finite(horiz),
        is_nought(horiz.y),
        finite(wanted(horiz, accel)),
        battery is Finite,
        value(battery) >= 0 as real,
        value(battery) <= 1 as real,
        value(wanted(horiz, accel).y) >= -value(budget(battery)),
    ensures
        ({
            let r = limited(wanted(horiz, accel), horiz, budget(battery));
            let m = value(budget(battery)) + 1 as real / (2000 as real);
            &&& finite(r)
            &&& inner(r, r) <= m * m
        }),
{
    let t = wanted(horiz, accel);
    let most = budget(battery);
    lemma_budget(battery);
    let m = value(most);
    let r = limited(t, horiz, most);
    if !less(most, t.length()) {
        lemma_short(t, most);
        assert(0 as real * (0 as real) == 0 as real);
        lemma_rest(m, m, 0 as real, inner(r, r));
    } else {
        let v = smaller(t.y, most);
        lemma_less_value(t.y, most);
        lemma_less_value(most, t.y);
        let h = square_root(larger(most * most - v * v, zero()));
        lemma_left_over(most, v);
        lemma_product_size(value(h), value(h), 30 as real, 30 as real);
        lemma_product_error(h, h);
        let c = lemma_capped_to(horiz, h);
        lemma_slack_at(value(h));
        let k = horiz.clamp_length_max(h);
        lemma_components(k, 30 as real);
        lemma_clamp_nought(horiz, h);
        lemma_joined(k.x, v);
        lemma_raised(k.y, v);
        lemma_joined(k.z, v);
        lemma_no_value(k.y);
        assert(0 as real * (0 as real) == 0 as real);
        lemma_rest(m, value(h), value(v), inner(r, r));
    }
}

/// What rounding adds to a bound of at most 29.
proof fn lemma_slack_at(h: real)
    requires
        h >= 0 as real,
        h <= 29 as real,
    ensures
        slack(h) <= 30 as real * (30 as real),
{
    let (e, kk) = (eps(), (h + 1 as real) * (h + 1 as real));
    lemma_product_size(h, h, 29 as real, 29 as real);
    lemma_product_size(h + 1 as real, h + 1 as real, 30 as real, 30 as real);
    assert(kk * (256 as real * e) <= 138 as real / (10000 as real)) by (nonlinear_arith)
        requires
            kk <= 900 as real,
            e == (1 as real) / (0x100_0000 as real),
    ;
}

/// The slack of the two parts together is within that of the bound.
proof fn lemma_rest(m: real, h: real, v: real, all: real)
    requires
        m >= 15 as real,
        m <= 27 as real,
        h >= 0 as real,
        h <= 29 as real,
        h * h <= m * m - v * v + 1 as real / (2000 as real),
        all <= slack(h) + v * v + 3 as real / (2000 as real),
    ensures
        all <= (m + 1 as real / (2000 as real)) * (m + 1 as real / (2000 as real)),
{
    lemma_square_sign(v);
    lemma_product_size(m, m, 27 as real, 27 as real);
    let (most, e, kk) = (271 as real / (10 as real), eps(), (h + 1 as real) * (h + 1 as real));
    assert(h * h <= most * most);
    lemma_root_size(h, most);
    lemma_product_size(h + 1 as real, h + 1 as real, most + 1 as real, most + 1 as real);
    assert(kk * (256 as real * e) <= 125 as real / (10000 as real)) by (nonlinear_arith)
        requires
            kk <= 790 as real,
            e == (1 as real) / (0x100_0000 as real),
    ;
    lemma_square_of_sum(m, 1 as real / (2000 as real));
}

/// Whether or not a drone avoids collisions, the velocity it sets out to fly
/// keeps to the speed limit, wherever it is finite at all.
pub proof fn law_planned_velocity_keeps_speed_limit(s: Situation, o: Obstacles, m: Mode)
    requires
        finite(planned(s, o, m)),
    ensures
        inner(planned(s, o, m), planned(s, o, m)) <= 49 as real + (1 as real) / (1000 as real),
{
    let f = flock(s.tracks, s.p, m.perception, s.tracks.len() as int);
    let v_pref = preferred(f, m.goal_seek, s.goal, s.p);
    if m.avoidance {
        law_flown_velocity_keeps_speed_limit(
            v_pref,
            s.v_cur,
            surroundings(s.tracks, s.worst, o, s.p, m.perception),
        );
    } else {
        let base = flocking(f, s.p);
        let led = if m.goal_seek && is_known(s.goal.var) && less(
            decode(GOAL_NEAR),
            (s.goal.pos - s.p).length(),
        ) {
            base + towards(s.goal.pos, s.p)
        } else {
            base
        };
        law_speed_limit_holds(led + push_from_walls(s.p) * decode(W_BOUNDARY));
    }
}

} // verus!
