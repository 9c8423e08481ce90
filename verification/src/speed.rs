//! What the speed limit guarantees, in real numbers.
use crate::avoid::{limits_on_closing, projected, safe_velocity, settled, Body};
use crate::config::MAX_SPEED;
use crate::error::{
    eps, lemma_less_value, lemma_no_value, lemma_product_error, lemma_quotient_error,
    lemma_root_error, lemma_tiny, lemma_units, size, tiny, value, within,
};
use crate::metric::{finite, inner, lemma_length_is_some, lemma_small, lemma_square_error};
use crate::number::{decode, is_nought, less, product, quotient, square_root, sum, unit, Number};
use crate::order::lemma_zero_quotient;
use crate::vector::V3;
use vstd::arithmetic::power2::{lemma2_to64, lemma_pow2_pos, pow2};
use vstd::prelude::*;

verus! {

proof fn lemma_max_speed()
    ensures
        decode(MAX_SPEED) is Finite,
        decode(MAX_SPEED)->mag > 0,
        value(decode(MAX_SPEED)) == 7 as real,
{
    lemma2_to64();
    lemma_pow2_pos(128);
    assert(pow2(21) as real == 0x20_0000 as real);
    lemma_units(decode(MAX_SPEED), 0xe0_0000, 128, 21);
    let v = value(decode(MAX_SPEED));
    assert(v * (0x20_0000 as real) == 0xe0_0000 as real);
    let p = pow2(128);
    assert(0xe0_0000 * p > 0) by (nonlinear_arith)
        requires
            p > 0,
    ;
}

/// One component of a vector that is scaled to the speed limit; `q` is its
/// share of the length.
proof fn lemma_scaled(a: Number, len: Number, q: real)
    requires
        a is Finite,
        len is Finite,
        len->mag > 0,
        q * value(len) == value(a),
        size(q) <= 2 as real,
    ensures
        ((a / len) * decode(MAX_SPEED)) is Finite,
        within(value((a / len) * decode(MAX_SPEED)), 7 as real * q, 32 as real * eps()),
{
    lemma_tiny();
    lemma_max_speed();
    let max = decode(MAX_SPEED);
    let (e, o) = (eps(), tiny());
    lemma_quotient_error(a, len, q);
    let d = value(a / len);
    assert(size(d) <= 3 as real) by (nonlinear_arith)
        requires
            size(d - q) <= size(q) * e + o,
            size(q) <= 2 as real,
            e == (1 as real) / (0x100_0000 as real),
            o <= e * e,
            o > 0 as real,
    ;
    assert(size(d * (7 as real)) <= 21 as real) by (nonlinear_arith)
        requires
            size(d) <= 3 as real,
    ;
    lemma_product_error(a / len, max);
    let w = value((a / len) * max);
    assert(size(w - 7 as real * q) <= 32 as real * e) by (nonlinear_arith)
        requires
            size(w - d * (7 as real)) <= size(d * (7 as real)) * e + o,
            size(d * (7 as real)) <= 21 as real,
            size(d - q) <= size(q) * e + o,
            size(q) <= 2 as real,
            e == (1 as real) / (0x100_0000 as real),
            o <= e * e,
            o > 0 as real,
    {
        assert(size(d - q) <= 2 as real * e + o);
        assert(size(d * (7 as real) - 7 as real * q) <= 14 as real * e + 7 as real * o);
    }
}

/// A share of a length is at most the whole.
proof fn lemma_share(q: real, y: real, x: real, all: real)
    requires
        q * y == x,
        x * x <= all,
        y * y >= 48 as real,
        all <= y * y + y * y,
    ensures
        size(q) <= 2 as real,
        q * q * (y * y) == x * x,
{
    assert(q * q * (y * y) == x * x) by (nonlinear_arith)
        requires
            q * y == x,
    ;
    assert(size(q) <= 2 as real) by (nonlinear_arith)
        requires
            q * q * (y * y) == x * x,
            x * x <= y * y + y * y,
            y * y >= 48 as real,
    ;
}

/// The real numbers behind the speed limit: `w` is near seven times the shares
/// `q`, whose squares sum to about one.
proof fn lemma_capped(w: real, q: real)
    requires
        size(w - 7 as real * q) <= 32 as real * eps(),
        size(q) <= 2 as real,
    ensures
        w * w <= 49 as real * (q * q) + 1000 as real * eps(),
{
    let e = eps();
    let d = w - 7 as real * q;
    assert(w * w <= 49 as real * (q * q) + 1000 as real * e) by (nonlinear_arith)
        requires
            w == 7 as real * q + d,
            size(d) <= 32 as real * e,
            size(q) <= 2 as real,
            e == (1 as real) / (0x100_0000 as real),
    {
        assert(w * w == 49 as real * (q * q) + 14 as real * (q * d) + d * d);
        assert(q * d <= 64 as real * e);
        assert(d * d <= e);
    }
}

/// What `clamp_length_max` does at the speed limit: the result is the vector
/// times some factor of at most one, but for rounding. It is one where the vector
/// keeps to the limit, and else what brings the vector to the limit, unless the
/// vector is too long for its length to be a number.
pub proof fn lemma_clamp(u: V3) -> (s: real)
    requires
        finite(u),
    ensures
        ({
            let w = u.clamp_length_max(decode(MAX_SPEED));
            &&& finite(w)
            &&& inner(w, w) <= 49 as real + (1 as real) / (1000 as real)
            &&& s >= 0 as real
            &&& s <= 1 as real + (1 as real) / (100000 as real)
            &&& within(value(w.x), s * value(u.x), 32 as real * eps())
            &&& within(value(w.y), s * value(u.y), 32 as real * eps())
            &&& within(value(w.z), s * value(u.z), 32 as real * eps())
        }),
        ({
            ||| s == 1 as real && inner(u, u) <= 49 as real + (1 as real) / (1000 as real)
            ||| s == 0 as real && u.length_squared() is Infinite
            ||| size((s * s) * inner(u, u) - 49 as real) <= (1 as real) / (1000 as real)
        }),
{
    lemma_tiny();
    lemma_max_speed();
    let max = decode(MAX_SPEED);
    let m = max * max;
    let (e, o) = (eps(), tiny());
    assert(7 as real * (7 as real) == 49 as real) by (nonlinear_arith);
    lemma_product_error(max, max);
    lemma_length_is_some(u);
    let l = u.length_squared();
    let w = u.clamp_length_max(max);
    if l is Infinite {
        lemma_zero_vector(u);
        assert(less(m, l)) by {
            reveal(less);
        }
        assert(square_root(l) == l) by {
            reveal(square_root);
        }
        assert(0 as real * value(u.x) == 0 as real && 0 as real * value(u.y) == 0 as real && 0 as real
            * value(u.z) == 0 as real);
        0 as real
    } else {
        lemma_square_error(u);
        lemma_less_value(m, l);
        let all = inner(u, u);
        let (lv, mv) = (value(l), value(m));
        if !less(m, l) {
            assert(all <= 49 as real + (1 as real) / (1000 as real)) by (nonlinear_arith)
                requires
                    lv <= mv,
                    size(mv - 49 as real) <= 49 as real * e + o,
                    size(lv - all) <= all * (4 as real * e) + 8 as real * o,
                    e == (1 as real) / (0x100_0000 as real),
                    o <= e * e,
                    o > 0 as real,
                    all >= 0 as real,
            ;
            assert(1 as real * value(u.x) == value(u.x) && 1 as real * value(u.y) == value(u.y)
                && 1 as real * value(u.z) == value(u.z));
            1 as real
        } else {
            assert(lv > 48 as real + (9 as real) / (10 as real)) by (nonlinear_arith)
                requires
                    mv < lv,
                    size(mv - 49 as real) <= 49 as real * e + o,
                    e == (1 as real) / (0x100_0000 as real),
                    o <= e * e,
                    o > 0 as real,
            ;
            lemma_root_error(l);
            let len = square_root(l);
            let y = value(len);
            let yy = y * y;
            assert(len->mag > 0) by {
                if len->mag == 0 {
                    lemma_no_value(len);
                }
            }
            assert(yy >= 49 as real * (1 as real - 16 as real * e) && size(yy - all) <= all * (10
                as real * e) + 10 as real * o && all <= yy + yy) by (nonlinear_arith)
                requires
                    mv < lv,
                    size(mv - 49 as real) <= 49 as real * e + o,
                    size(yy - lv) <= lv * (4 as real * e),
                    size(lv - all) <= all * (4 as real * e) + 8 as real * o,
                    e == (1 as real) / (0x100_0000 as real),
                    o <= e * e,
                    o > 0 as real,
                    all >= 0 as real,
            ;
            let (x1, x2, x3) = (value(u.x), value(u.y), value(u.z));
            let (q1, q2, q3) = (x1 / y, x2 / y, x3 / y);
            let s = 7 as real / y;
            assert(q1 * y == x1 && q2 * y == x2 && q3 * y == x3 && s * y == 7 as real)
                by (nonlinear_arith)
                requires
                    q1 == x1 / y,
                    q2 == x2 / y,
                    q3 == x3 / y,
                    s == 7 as real / y,
                    y > 0 as real,
            ;
            assert(x1 * x1 <= all && x2 * x2 <= all && x3 * x3 <= all) by (nonlinear_arith)
                requires
                    all == x1 * x1 + x2 * x2 + x3 * x3,
            ;
            assert(yy >= 48 as real) by (nonlinear_arith)
                requires
                    yy >= 49 as real * (1 as real - 16 as real * e),
                    e == (1 as real) / (0x100_0000 as real),
            ;
            lemma_share(q1, y, x1, all);
            lemma_share(q2, y, x2, all);
            lemma_share(q3, y, x3, all);
            lemma_scaled(u.x, len, q1);
            lemma_scaled(u.y, len, q2);
            lemma_scaled(u.z, len, q3);
            lemma_capped(value(w.x), q1);
            lemma_capped(value(w.y), q2);
            lemma_capped(value(w.z), q3);
            let sq = q1 * q1 + q2 * q2 + q3 * q3;
            assert(sq * yy == all) by (nonlinear_arith)
                requires
                    q1 * q1 * yy == x1 * x1,
                    q2 * q2 * yy == x2 * x2,
                    q3 * q3 * yy == x3 * x3,
                    sq == q1 * q1 + q2 * q2 + q3 * q3,
                    all == x1 * x1 + x2 * x2 + x3 * x3,
            ;
            assert(sq <= 1 as real + 16 as real * e) by (nonlinear_arith)
                requires
                    sq * yy == all,
                    size(yy - all) <= all * (10 as real * e) + 10 as real * o,
                    yy >= 48 as real,
                    e == (1 as real) / (0x100_0000 as real),
                    o <= e * e,
                    o > 0 as real,
                    all >= 0 as real,
            ;
            assert(sq >= 1 as real - 16 as real * e) by (nonlinear_arith)
                requires
                    sq * yy == all,
                    size(yy - all) <= all * (10 as real * e) + 10 as real * o,
                    yy >= 48 as real,
                    e == (1 as real) / (0x100_0000 as real),
                    o <= e * e,
                    o > 0 as real,
                    all >= 0 as real,
            ;
            assert((s * s) * all == 49 as real * sq) by {
                lemma_at_limit(s, y, sq, all);
            }
            assert(inner(w, w) <= 49 as real + (1 as real) / (1000 as real)) by (nonlinear_arith)
                requires
                    inner(w, w) <= 49 as real * sq + 3000 as real * e,
                    sq <= 1 as real + 16 as real * e,
                    e == (1 as real) / (0x100_0000 as real),
            ;
            assert(s >= 0 as real && s <= 1 as real + (1 as real) / (100000 as real))
                by (nonlinear_arith)
                requires
                    s * y == 7 as real,
                    y > 0 as real,
                    yy == y * y,
                    yy >= 49 as real * (1 as real - 16 as real * e),
                    e == (1 as real) / (0x100_0000 as real),
            {
                assert(y >= 7 as real * (1 as real - 16 as real * e));
            }
            assert(s * x1 == 7 as real * q1 && s * x2 == 7 as real * q2 && s * x3 == 7 as real * q3)
                by (nonlinear_arith)
                requires
                    q1 * y == x1,
                    q2 * y == x2,
                    q3 * y == x3,
                    s * y == 7 as real,
            ;
            s
        }
    }
}

proof fn lemma_at_limit(s: real, y: real, sq: real, all: real)
    requires
        s * y == 7 as real,
        sq * (y * y) == all,
    ensures
        (s * s) * all == 49 as real * sq,
{
    let sy = s * y;
    assert((s * s) * (sq * (y * y)) == sq * (sy * sy)) by (nonlinear_arith)
        requires
            sy == s * y,
    ;
    assert(sy * sy == 49 as real) by (nonlinear_arith)
        requires
            sy == 7 as real,
    ;
    assert(sq * (49 as real) == 49 as real * sq) by (nonlinear_arith);
}

/// A vector too long for its length to be a number is scaled to nothing.
proof fn lemma_zero_vector(u: V3)
    requires
        finite(u),
    ensures
        ({
            let w = (u / Number::Infinite { neg: false }) * decode(MAX_SPEED);
            finite(w) && value(w.x) == 0 as real && value(w.y) == 0 as real && value(w.z)
                == 0 as real
        }),
{
    lemma_max_speed();
    let max = decode(MAX_SPEED);
    let inf = Number::Infinite { neg: false };
    lemma_pow2_pos(149);
    lemma_pow2_pos(277);
    lemma_zero_quotient(unit());
    assert(0 * max->mag == 0);
    assert(is_nought((u.x / inf) * max) && is_nought((u.y / inf) * max) && is_nought(
        (u.z / inf) * max,
    )) by {
        reveal(quotient);
        reveal(product);
    }
    lemma_no_value((u.x / inf) * max);
    lemma_no_value((u.y / inf) * max);
    lemma_no_value((u.z / inf) * max);
}

/// Whether some component is not a number.
pub open spec fn has_nan(v: V3) -> bool {
    v.x is Nan || v.y is Nan || v.z is Nan
}

pub proof fn lemma_clamp_not_finite(u: V3)
    requires
        !finite(u),
    ensures
        has_nan(u.clamp_length_max(decode(MAX_SPEED))),
{
    lemma_max_speed();
    let max = decode(MAX_SPEED);
    let l = u.length_squared();
    if has_nan(u) {
        assert(l is Nan) by {
            reveal(sum);
            reveal(product);
        }
        assert(!less(max * max, l)) by {
            reveal(less);
        }
    } else {
        assert(l == (Number::Infinite { neg: false })) by {
            reveal(sum);
            reveal(product);
        }
        lemma_small(max, max);
        assert(7 as real * (7 as real) == 49 as real) by (nonlinear_arith);
        lemma_product_error(max, max);
        assert(less(max * max, l)) by {
            reveal(less);
        }
        assert(square_root(l) == l) by {
            reveal(square_root);
        }
        assert(has_nan((u / l) * max)) by {
            reveal(quotient);
            reveal(product);
        }
    }
}

/// A velocity brought under the speed limit keeps to it, within a thousandth
/// of its square, wherever it is finite at all.
pub proof fn law_speed_limit_holds(v: V3)
    requires
        finite(v.clamp_length_max(decode(MAX_SPEED))),
    ensures
        ({
            let w = v.clamp_length_max(decode(MAX_SPEED));
            inner(w, w) <= 49 as real + (1 as real) / (1000 as real)
        }),
{
    if finite(v) {
        let s = lemma_clamp(v);
    } else {
        lemma_clamp_not_finite(v);
    }
}

/// Whatever has to be avoided, the velocity flown keeps to the speed limit.
pub proof fn law_flown_velocity_keeps_speed_limit(v_pref: V3, v_cur: V3, cs: Seq<Body>)
    requires
        finite(safe_velocity(v_pref, v_cur, cs)),
    ensures
        ({
            let w = safe_velocity(v_pref, v_cur, cs);
            inner(w, w) <= 49 as real + (1 as real) / (1000 as real)
        }),
{
    let hs = limits_on_closing(cs, v_cur);
    if hs.len() == 0 {
        law_speed_limit_holds(v_pref);
    } else {
        law_speed_limit_holds(projected(settled(v_pref, hs, 15), hs));
    }
}

} // verus!
