//! What an intersection of estimates comes to, roundings included, where their
//! covariances are diagonal.
use crate::config::TEN;
use crate::consistency::{lemma_one, lemma_weights};
use crate::diagonal::{has_diagonal, is_diagonal, lemma_determinant, lemma_inverse};
use crate::error::{
    eps, lemma_less_value, lemma_no_value, lemma_product_error, lemma_quotient_error,
    lemma_sum_error, lemma_tiny, lemma_tiny_cubed, size, tiny, value, within,
};
use crate::fusion::{
    best_weight, information, intersected, law_no_larger_than_alone, law_weight_is_tried,
    lemma_last_weight, weight, Fix,
};
use crate::matrix::M3;
use crate::metric::{finite, lemma_product_size};
use crate::number::{decode, infinity, is_nought, less, one, sum, unit, whole, zero, Number};
use crate::relative::{
    fair, grain, lemma_fair_product, lemma_fair_wider, lemma_inverse_of, lemma_near_chain,
    lemma_near_fair, lemma_near_product, lemma_near_reciprocal, lemma_near_scaled,
    lemma_near_swapped, lemma_nothing_and_nothing, lemma_nothing_over, lemma_nothing_times, near,
};
use crate::rounding::{lemma_pow2_le, lemma_rounded_exact};
use crate::scalar::lemma_whole_exact;
use crate::vector::V3;
use vstd::arithmetic::power2::{
    lemma2_to64, lemma_pow2_adds, lemma_pow2_pos, lemma_pow2_unfold, pow2,
};
use vstd::prelude::*;

verus! {

/// The first of the weights tried is nothing.
pub proof fn lemma_first_weight()
    ensures
        is_nought(weight(0)),
        one() - weight(0) == one(),
{
    lemma2_to64();
    lemma_pow2_pos(149);
    lemma_pow2_pos(129);
    lemma_whole_exact(0);
    let u = unit();
    assert(0 * u == 0);
    assert(decode(TEN) == (Number::Finite { neg: false, mag: 0xa0_0000 * pow2(129) }));
    assert(0xa0_0000 * pow2(129) > 0) by (nonlinear_arith)
        requires
            pow2(129) > 0,
    ;
    lemma_nothing_over(whole(0), decode(TEN));
    reveal(sum);
    lemma_rounded_exact(1, 149);
    lemma_pow2_le(149, 276);
    lemma_pow2_unfold(277);
    assert(1 * u == u);
}

/// Every weight but the first leaves some for the first estimate, and every
/// weight but the last leaves some for the second.
pub proof fn lemma_weight_range(i: nat)
    requires
        i < 11,
    ensures
        i < 10 ==> value(one() - weight(i)) >= (1 as real) / (16 as real),
        i > 0 ==> value(weight(i)) >= (1 as real) / (16 as real),
{
    lemma_tiny();
    let (w, v) = lemma_weights(i);
    lemma2_to64();
    lemma_pow2_pos(149);
    lemma_whole_exact(i);
    lemma_pow2_adds(129, 20);
    let u = unit();
    let ten = 10 * u;
    assert(decode(TEN) == (Number::Finite { neg: false, mag: ten })) by {
        assert(0xa0_0000 * pow2(129) == 10 * (pow2(129) * 0x10_0000)) by (nonlinear_arith);
    }
    let ur = u as real;
    assert(value(decode(TEN)) == 10 as real) by {
        assert((ten as real) / ur == 10 as real) by (nonlinear_arith)
            requires
                ten as real == 10 as real * ur,
                ur > 0 as real,
        ;
    }
    let ir = i as real;
    assert(value(whole(i)) == ir) by {
        let m = i * u;
        assert(m as real == ir * ur) by (nonlinear_arith)
            requires
                m == i * u,
                ir == i as real,
                ur == u as real,
        ;
        assert((m as real) / ur == ir) by (nonlinear_arith)
            requires
                m as real == ir * ur,
                ur > 0 as real,
        ;
    }
    let exact = ir / (10 as real);
    lemma_quotient_error(whole(i), decode(TEN), exact);
    let e = eps();
    assert(exact * e <= e && exact >= 0 as real) by (nonlinear_arith)
        requires
            exact == ir / (10 as real),
            ir <= 10 as real,
            ir >= 0 as real,
            e > 0 as real,
    ;
}

/// One entry of the information: `w` of `x` and `v` of `y`.
proof fn lemma_mixed(x: Number, y: Number, w: Number, v: Number, b: real)
    requires
        x is Finite && y is Finite && w is Finite && v is Finite,
        fair(value(x), b),
        fair(value(y), b),
        b <= 0x4_0000 as real,
        value(w) >= 0 as real,
        value(v) >= 0 as real,
        value(w) + value(v) >= (1 as real) / (2 as real),
        value(w) + value(v) <= 2 as real,
    ensures
        (x * w + y * v) is Finite,
        near(value(x * w + y * v), value(x) * value(w) + value(y) * value(v), 2),
        fair(value(x) * value(w) + value(y) * value(v), 2 as real * b),
{
    lemma_tiny();
    lemma_tiny_cubed();
    let (e, o) = (eps(), tiny());
    let (p, q) = (value(x) * value(w), value(y) * value(v));
    let exact = p + q;
    lemma_mixed_range(value(x), value(y), value(w), value(v), b);
    lemma_product_error(x, w);
    lemma_product_error(y, v);
    let (s, t) = (x * w, y * v);
    lemma_sum_error(s, t);
    let m = value(s + t);
    let z = exact * e;
    assert(p * e + q * e == z) by (nonlinear_arith)
        requires
            exact == p + q,
            z == exact * e,
    ;
    assert(exact >= (1 as real) / (0x8_0000 as real)) by (nonlinear_arith)
        requires
            exact * (2 as real * b) >= 1 as real,
            exact > 0 as real,
            b <= 0x4_0000 as real,
    ;
    assert(o * 100 as real <= z && z <= exact / (1000 as real)) by (nonlinear_arith)
        requires
            z == exact * e,
            exact >= (1 as real) / (0x8_0000 as real),
            o <= e * e * e,
            e == (1 as real) / (0x100_0000 as real),
    ;
    let g = size(value(s) + value(t));
    assert(g <= exact + z + 2 as real * o);
    assert(g <= exact + exact / (100 as real));
    assert(g * e <= z + z / (100 as real)) by (nonlinear_arith)
        requires
            g <= exact + exact / (100 as real),
            z == exact * e,
            e > 0 as real,
    ;
    assert(size(m - exact) <= (5 as real * z) / (2 as real));
    let k = 1 as real + 2 as real * grain();
    assert(exact * k == exact + 4 as real * z) by (nonlinear_arith)
        requires
            k == 1 as real + 4 as real * e,
            z == exact * e,
    ;
    let me = m * e;
    assert(m * k == m + 4 as real * me) by (nonlinear_arith)
        requires
            k == 1 as real + 4 as real * e,
            me == m * e,
    ;
    assert(me >= (3 as real * z) / (4 as real)) by (nonlinear_arith)
        requires
            me == m * e,
            m >= (3 as real * exact) / (4 as real),
            z == exact * e,
            e > 0 as real,
    ;
}

proof fn lemma_mixed_range(x: real, y: real, w: real, v: real, b: real)
    requires
        fair(x, b),
        fair(y, b),
        b <= 0x4_0000 as real,
        w >= 0 as real,
        v >= 0 as real,
        w + v >= (1 as real) / (2 as real),
        w + v <= 2 as real,
    ensures
        x * w >= 0 as real,
        y * v >= 0 as real,
        x * w <= 0x8_0000 as real,
        y * v <= 0x8_0000 as real,
        fair(x * w + y * v, 2 as real * b),
{
    lemma_share(x, w, b);
    lemma_share(y, v, b);
    assert(b * w + b * v == b * (w + v)) by (nonlinear_arith);
    let s = w + v;
    assert(b * s <= 2 as real * b) by (nonlinear_arith)
        requires
            s <= 2 as real,
            b > 0 as real,
    ;
    let (p, q) = (x * w, y * v);
    assert((p + q) * (2 as real * b) == 2 as real * (p * b) + 2 as real * (q * b))
        by (nonlinear_arith);
    assert(p + q > 0 as real) by (nonlinear_arith)
        requires
            (p + q) * (2 as real * b) >= 1 as real,
            b > 0 as real,
    ;
    assert(b * w <= 2 as real * b && b * v <= 2 as real * b) by (nonlinear_arith)
        requires
            w <= 2 as real,
            v <= 2 as real,
            b > 0 as real,
    ;
}

proof fn lemma_share(x: real, w: real, b: real)
    requires
        fair(x, b),
        w >= 0 as real,
    ensures
        x * w >= 0 as real,
        x * w <= b * w,
        (x * w) * b >= w,
        b > 0 as real,
{
    assert(x * w >= 0 as real && x * w <= b * w) by (nonlinear_arith)
        requires
            x > 0 as real,
            x <= b,
            w >= 0 as real,
    ;
    let xb = x * b;
    assert((x * w) * b == xb * w) by (nonlinear_arith)
        requires
            xb == x * b,
    ;
    assert(xb * w >= w) by (nonlinear_arith)
        requires
            xb >= 1 as real,
            w >= 0 as real,
    ;
}

/// What an information of diagonal matrices holds, with `w` of `a` and `v` of `b`.
proof fn lemma_information(a: M3, b: M3, i: nat, c: real)
    requires
        i < 11,
        is_diagonal(a, c),
        is_diagonal(b, c),
        c <= 0x4_0000 as real,
    ensures
        ({
            let (w, v) = (value(weight(i)), value(one() - weight(i)));
            let m = information(a, b, weight(i));
            &&& is_diagonal(m, 4 as real * c)
            &&& has_diagonal(
                m,
                value(a.r0.x) * w + value(b.r0.x) * v,
                value(a.r1.y) * w + value(b.r1.y) * v,
                value(a.r2.z) * w + value(b.r2.z) * v,
                2,
            )
        }),
{
    let (wr, vr) = lemma_weights(i);
    let (w, v) = (weight(i), one() - weight(i));
    lemma_mixed(a.r0.x, b.r0.x, w, v, c);
    lemma_mixed(a.r1.y, b.r1.y, w, v, c);
    lemma_mixed(a.r2.z, b.r2.z, w, v, c);
    let m = information(a, b, w);
    lemma_near_fair(value(m.r0.x), value(a.r0.x) * wr + value(b.r0.x) * vr, 2 as real * c, 2);
    lemma_near_fair(value(m.r1.y), value(a.r1.y) * wr + value(b.r1.y) * vr, 2 as real * c, 2);
    lemma_near_fair(value(m.r2.z), value(a.r2.z) * wr + value(b.r2.z) * vr, 2 as real * c, 2);
    lemma_nothing_mixed(a.r0.y, b.r0.y, w, v);
    lemma_nothing_mixed(a.r0.z, b.r0.z, w, v);
    lemma_nothing_mixed(a.r1.x, b.r1.x, w, v);
    lemma_nothing_mixed(a.r1.z, b.r1.z, w, v);
    lemma_nothing_mixed(a.r2.x, b.r2.x, w, v);
    lemma_nothing_mixed(a.r2.y, b.r2.y, w, v);
}

proof fn lemma_nothing_mixed(x: Number, y: Number, w: Number, v: Number)
    requires
        is_nought(x),
        is_nought(y),
        w is Finite,
        v is Finite,
    ensures
        is_nought(x * w + y * v),
{
    lemma_nothing_times(x, w);
    lemma_nothing_times(y, v);
    lemma_nothing_and_nothing(x * w, y * v);
}

/// The determinant of the covariance that an information stands for.
#[verifier::opaque]
pub open spec fn uncertainty(m: M3) -> Number {
    m.inverse().determinant()
}

/// The three entries of a diagonal, multiplied.
#[verifier::opaque]
spec fn volume(m: M3) -> real {
    value(m.r0.x) * (value(m.r1.y) * value(m.r2.z))
}

/// The determinant of the inverse is the reciprocal of the product of the
/// entries.
proof fn lemma_inverse_volume(m: M3, b: real) -> (r: real)
    requires
        is_diagonal(m, b),
        b <= 0x8_0000 as real,
    ensures
        !m.is_singular(),
        uncertainty(m) is Finite,
        r * volume(m) == 1 as real,
        near(value(uncertainty(m)), r, 57),
        volume(m) > 0 as real,
{
    reveal(uncertainty);
    reveal(volume);
    let (p, q, s) = (value(m.r0.x), value(m.r1.y), value(m.r2.z));
    let (x, y, z) = (lemma_inverse_of(p), lemma_inverse_of(q), lemma_inverse_of(s));
    lemma_inverse(m, x, y, z, b);
    let i = m.inverse();
    let (u, v, w) = (value(i.r0.x), value(i.r1.y), value(i.r2.z));
    lemma_wider_diagonal(i, 2 as real * b, 0x10_0000 as real);
    lemma_determinant(i);
    lemma_near_product(v, y, w, z, 15, 15);
    lemma_near_product(u, x, v * w, y * z, 15, 31);
    let r = x * (y * z);
    lemma_near_chain(value(i.determinant()), u * (v * w), r, 9, 47);
    lemma_fair_product(q, s, b, b);
    lemma_fair_product(p, q * s, b, b * b);
    assert(r * volume(m) == 1 as real) by {
        lemma_regrouped(x, y * z, p, q * s);
        lemma_regrouped(y, z, q, s);
        assert(1 as real * 1 as real == 1 as real) by (nonlinear_arith);
    }
    r
}

proof fn lemma_regrouped(x: real, y: real, p: real, q: real)
    ensures
        (x * y) * (p * q) == (x * p) * (y * q),
{
    assert((x * y) * (p * q) == (x * p) * (y * q)) by (nonlinear_arith);
}

proof fn lemma_wider_diagonal(m: M3, b: real, c: real)
    requires
        is_diagonal(m, b),
        b <= c,
    ensures
        is_diagonal(m, c),
{
    lemma_fair_wider(value(m.r0.x), b, c);
    lemma_fair_wider(value(m.r1.y), b, c);
    lemma_fair_wider(value(m.r2.z), b, c);
}

/// Of two diagonal informations, the one that is clearly larger in every entry
/// gives the smaller determinant.
proof fn lemma_smaller_determinant(m: M3, n: M3, b: real)
    requires
        is_diagonal(m, b),
        is_diagonal(n, b),
        b <= 0x8_0000 as real,
        clearly_less(value(n.r0.x), value(m.r0.x)),
        clearly_less(value(n.r1.y), value(m.r1.y)),
        clearly_less(value(n.r2.z), value(m.r2.z)),
    ensures
        less(uncertainty(m), uncertainty(n)),
{
    let r = lemma_inverse_volume(m, b);
    let s = lemma_inverse_volume(n, b);
    let (d, f) = (uncertainty(m), uncertainty(n));
    let (p, q) = (volume(m), volume(n));
    lemma_less_volume(m, n);
    lemma_clear_order(value(d), value(f), r, s, p, q);
    lemma_less_value(d, f);
}

spec fn clearly_less(x: real, y: real) -> bool {
    x > 0 as real && x * (1 as real + 200 as real * grain()) <= y
}

proof fn lemma_less_volume(m: M3, n: M3)
    requires
        clearly_less(value(n.r0.x), value(m.r0.x)),
        clearly_less(value(n.r1.y), value(m.r1.y)),
        clearly_less(value(n.r2.z), value(m.r2.z)),
    ensures
        clearly_less(volume(n), volume(m)),
{
    reveal(volume);
    let k = 1 as real + 200 as real * grain();
    lemma_smaller_product(
        value(n.r0.x),
        value(n.r1.y),
        value(n.r2.z),
        value(m.r0.x),
        value(m.r1.y),
        value(m.r2.z),
        k,
    );
}

proof fn lemma_smaller_product(x: real, y: real, z: real, p: real, q: real, r: real, k: real)
    requires
        x > 0 as real,
        y > 0 as real,
        z > 0 as real,
        x * k <= p,
        y * k <= q,
        z * k <= r,
        k >= 1 as real,
    ensures
        x * (y * z) > 0 as real,
        (x * (y * z)) * k <= p * (q * r),
{
    assert(y <= y * k && z <= z * k && x <= x * k) by (nonlinear_arith)
        requires
            k >= 1 as real,
            x > 0 as real,
            y > 0 as real,
            z > 0 as real,
    ;
    let (yz, qr) = (y * z, q * r);
    assert(yz <= y * r) by (nonlinear_arith)
        requires
            yz == y * z,
            z <= r,
            y > 0 as real,
    ;
    assert(y * r <= qr && yz > 0 as real) by (nonlinear_arith)
        requires
            yz == y * z,
            qr == q * r,
            y <= q,
            r > 0 as real,
            y > 0 as real,
            z > 0 as real,
    ;
    let xk = x * k;
    assert(xk * yz <= p * yz && x * yz > 0 as real) by (nonlinear_arith)
        requires
            xk <= p,
            yz > 0 as real,
            x > 0 as real,
    ;
    assert(p * yz <= p * qr) by (nonlinear_arith)
        requires
            yz <= qr,
            p > 0 as real,
    ;
    assert((x * k) * yz == (x * yz) * k) by (nonlinear_arith);
}

proof fn lemma_clear_order(d: real, f: real, r: real, s: real, p: real, q: real)
    requires
        near(d, r, 57),
        near(f, s, 57),
        r * p == 1 as real,
        s * q == 1 as real,
        clearly_less(q, p),
    ensures
        d < f,
{
    let (g, k) = (1 as real + 57 as real * grain(), 1 as real + 200 as real * grain());
    lemma_reciprocals_clear(r, s, p, q, k);
    let y = 57 as real * grain();
    lemma_square_of_more(y);
    lemma_order_through(d, f, r, s, g, k);
}

proof fn lemma_square_of_more(y: real)
    requires
        y >= 0 as real,
        y <= 1 as real,
    ensures
        (1 as real + y) * (1 as real + y) <= 1 as real + 3 as real * y,
{
    assert((1 as real + y) * (1 as real + y) == 1 as real + 2 as real * y + y * y)
        by (nonlinear_arith);
    assert(y * y <= y) by (nonlinear_arith)
        requires
            y >= 0 as real,
            y <= 1 as real,
    ;
}

proof fn lemma_reciprocals_clear(r: real, s: real, p: real, q: real, k: real)
    requires
        r > 0 as real,
        s > 0 as real,
        r * p == 1 as real,
        s * q == 1 as real,
        q * k <= p,
    ensures
        k * r <= s,
{
    let rs = r * s;
    assert(rs > 0 as real) by (nonlinear_arith)
        requires
            rs == r * s,
            r > 0 as real,
            s > 0 as real,
    ;
    let qk = q * k;
    assert(rs * qk <= rs * p) by (nonlinear_arith)
        requires
            qk <= p,
            rs > 0 as real,
    ;
    assert((r * s) * (q * k) == (s * q) * (k * r)) by (nonlinear_arith);
    assert((r * s) * p == (r * p) * s) by (nonlinear_arith);
    let kr = k * r;
    assert(1 as real * kr == kr && 1 as real * s == s) by (nonlinear_arith);
}

proof fn lemma_order_through(d: real, f: real, r: real, s: real, g: real, k: real)
    requires
        d <= r * g,
        s <= f * g,
        k * r <= s,
        g * g < k,
        g > 0 as real,
        r > 0 as real,
    ensures
        d < f,
{
    let gg = g * g;
    assert(gg * r < k * r) by (nonlinear_arith)
        requires
            gg < k,
            r > 0 as real,
    ;
    let rg = r * g;
    assert(d * g <= rg * g) by (nonlinear_arith)
        requires
            d <= rg,
            g > 0 as real,
    ;
    assert((r * g) * g == (g * g) * r) by (nonlinear_arith);
    assert(d * g < f * g);
    assert(d < f) by (nonlinear_arith)
        requires
            d * g < f * g,
            g > 0 as real,
    ;
}

/// Whether the information `y` is less than `x` by more than a few roundings.
spec fn is_beaten(y: real, x: real) -> bool {
    y > 0 as real && y <= x * (1 as real - (1 as real) / (2000 as real))
}

spec fn beats(a: M3, b: M3) -> bool {
    &&& is_beaten(value(b.r0.x), value(a.r0.x))
    &&& is_beaten(value(b.r1.y), value(a.r1.y))
    &&& is_beaten(value(b.r2.z), value(a.r2.z))
}

/// A variance that is larger by a thousandth gives clearly less information.
proof fn lemma_larger_variance(p: real, q: real, i: real, j: real, x: real, y: real)
    requires
        p > 0 as real,
        q * (1000 as real) >= p * (1001 as real),
        i * p == 1 as real,
        j * q == 1 as real,
        near(x, i, 15),
        near(y, j, 15),
    ensures
        is_beaten(y, x),
{
    let (k, c) = ((1001 as real) / (1000 as real), 1 as real - (1 as real) / (2000 as real));
    let g = 1 as real + 15 as real * grain();
    assert(p * k <= q) by (nonlinear_arith)
        requires
            q * (1000 as real) >= p * (1001 as real),
            k == (1001 as real) / (1000 as real),
    ;
    lemma_reciprocals_clear(j, i, q, p, k);
    lemma_square_of_more(15 as real * grain());
    lemma_thousandth(k, c);
    lemma_beaten_through(i, j, x, y, g, k, c);
}

proof fn lemma_thousandth(k: real, c: real)
    requires
        k == (1001 as real) / (1000 as real),
        c == 1 as real - (1 as real) / (2000 as real),
    ensures
        k * c >= (10004 as real) / (10000 as real),
{
    assert(k * c >= (10004 as real) / (10000 as real)) by (nonlinear_arith)
        requires
            k == (1001 as real) / (1000 as real),
            c == 1 as real - (1 as real) / (2000 as real),
    ;
}

proof fn lemma_beaten_through(i: real, j: real, x: real, y: real, g: real, k: real, c: real)
    requires
        k * j <= i,
        y <= j * g,
        i <= x * g,
        g * g <= k * c,
        g > 0 as real,
        k > 0 as real,
        x > 0 as real,
    ensures
        y <= x * c,
{
    let (kj, jg, xg, gg, kc) = (k * j, j * g, x * g, g * g, k * c);
    assert(k * y <= k * jg) by (nonlinear_arith)
        requires
            y <= jg,
            k > 0 as real,
    ;
    assert(k * (j * g) == (k * j) * g) by (nonlinear_arith);
    assert(kj * g <= xg * g) by (nonlinear_arith)
        requires
            kj <= xg,
            g > 0 as real,
    ;
    assert((x * g) * g == x * (g * g)) by (nonlinear_arith);
    assert(x * gg <= x * kc) by (nonlinear_arith)
        requires
            gg <= kc,
            x > 0 as real,
    ;
    assert(x * (k * c) == k * (x * c)) by (nonlinear_arith);
    let xc = x * c;
    assert(y <= xc) by (nonlinear_arith)
        requires
            k * y <= k * xc,
            k > 0 as real,
    ;
}

/// An entry of the information is clearly less where the worse estimate has a
/// share of it.
proof fn lemma_entry_gap(x: real, y: real, w: real, v: real, m: real, n: real)
    requires
        is_beaten(y, x),
        w >= 0 as real,
        v >= (1 as real) / (16 as real),
        w + v <= 1 as real + grain(),
        near(m, x * w + y * v, 2),
        near(n, x, 2),
    ensures
        clearly_less(m, n),
{
    let h = grain();
    let z = 1 as real - 261 as real * h;
    let (g, k) = (1 as real + 2 as real * h, 1 as real + 200 as real * h);
    lemma_less_share(x, y, w, v, h);
    lemma_room(h, z, g, k);
    lemma_gap_through(x, x * w + y * v, m, n, z, g, k);
}

proof fn lemma_less_share(x: real, y: real, w: real, v: real, h: real)
    requires
        x > 0 as real,
        y <= x * (1 as real - (1 as real) / (2000 as real)),
        v >= (1 as real) / (16 as real),
        w + v <= 1 as real + h,
        h == (1 as real) / (0x80_0000 as real),
    ensures
        x * w + y * v <= x * (1 as real - 261 as real * h),
{
    let c = 1 as real - (1 as real) / (2000 as real);
    let xc = x * c;
    assert(y * v <= xc * v) by (nonlinear_arith)
        requires
            y <= xc,
            v > 0 as real,
    ;
    let s = w + c * v;
    assert(x * w + xc * v == x * s) by (nonlinear_arith)
        requires
            xc == x * c,
            s == w + c * v,
    ;
    let z = 1 as real - 261 as real * h;
    assert(s <= z) by (nonlinear_arith)
        requires
            s == w + c * v,
            c == 1 as real - (1 as real) / (2000 as real),
            v >= (1 as real) / (16 as real),
            w + v <= 1 as real + h,
            h == (1 as real) / (0x80_0000 as real),
            z == 1 as real - 261 as real * h,
    ;
    assert(x * s <= x * z) by (nonlinear_arith)
        requires
            s <= z,
            x > 0 as real,
    ;
}

proof fn lemma_room(h: real, z: real, g: real, k: real)
    requires
        h == (1 as real) / (0x80_0000 as real),
        z == 1 as real - 261 as real * h,
        g == 1 as real + 2 as real * h,
        k == 1 as real + 200 as real * h,
    ensures
        z * ((g * g) * k) <= 1 as real,
{
    let gg = g * g;
    let q = 1 as real + 6 as real * h;
    assert(gg <= q) by {
        lemma_square_of_more(2 as real * h);
    }
    assert(gg * k <= q * k) by (nonlinear_arith)
        requires
            gg <= q,
            k > 0 as real,
    ;
    assert(q * k <= 1 as real + 207 as real * h) by (nonlinear_arith)
        requires
            q == 1 as real + 6 as real * h,
            k == 1 as real + 200 as real * h,
            h == (1 as real) / (0x80_0000 as real),
    ;
    let (t, u) = (gg * k, 1 as real + 207 as real * h);
    assert(z * t <= z * u) by (nonlinear_arith)
        requires
            t <= u,
            z > 0 as real,
    ;
    assert(z * u <= 1 as real) by (nonlinear_arith)
        requires
            z == 1 as real - 261 as real * h,
            u == 1 as real + 207 as real * h,
            h == (1 as real) / (0x80_0000 as real),
    ;
}

proof fn lemma_gap_through(x: real, t: real, m: real, n: real, z: real, g: real, k: real)
    requires
        t <= x * z,
        m <= t * g,
        x <= n * g,
        z * ((g * g) * k) <= 1 as real,
        g > 0 as real,
        k > 0 as real,
        z > 0 as real,
        n > 0 as real,
    ensures
        m * k <= n,
{
    let (tg, xz, ng) = (t * g, x * z, n * g);
    assert(m * k <= tg * k) by (nonlinear_arith)
        requires
            m <= tg,
            k > 0 as real,
    ;
    assert(xz <= ng * z) by (nonlinear_arith)
        requires
            xz == x * z,
            x <= ng,
            z > 0 as real,
    ;
    let gk = g * k;
    assert(gk > 0 as real) by (nonlinear_arith)
        requires
            gk == g * k,
            g > 0 as real,
            k > 0 as real,
    ;
    let ngz = ng * z;
    assert(t * gk <= ngz * gk) by (nonlinear_arith)
        requires
            t <= ngz,
            gk > 0 as real,
    ;
    assert((t * g) * k == t * (g * k)) by (nonlinear_arith);
    let q = z * ((g * g) * k);
    assert(((n * g) * z) * (g * k) == n * (z * ((g * g) * k))) by (nonlinear_arith);
    assert(n * q <= n) by (nonlinear_arith)
        requires
            q <= 1 as real,
            n > 0 as real,
    ;
}

/// What the `i`-th weight comes to.
#[verifier::opaque]
pub open spec fn outcome(a: M3, b: M3, i: nat) -> Number {
    uncertainty(information(a, b, weight(i)))
}

/// Whether the `i`-th weight comes to nothing that can be inverted.
#[verifier::opaque]
pub open spec fn is_flat(a: M3, b: M3, i: nat) -> bool {
    information(a, b, weight(i)).is_singular()
}

/// The search for the best weight, over what the weights come to.
pub open spec fn search(a: M3, b: M3, n: nat) -> (Number, Number)
    decreases n,
{
    if n == 0 {
        (one(), infinity())
    } else {
        let k = (n - 1) as nat;
        let (w, det) = search(a, b, k);
        if !is_flat(a, b, k) && less(outcome(a, b, k), det) {
            (weight(k), outcome(a, b, k))
        } else {
            (w, det)
        }
    }
}

pub proof fn lemma_search(a: M3, b: M3, n: nat)
    ensures
        best_weight(a, b, n) == search(a, b, n),
    decreases n,
{
    reveal(outcome);
    reveal(is_flat);
    reveal(uncertainty);
    if n > 0 {
        lemma_search(a, b, (n - 1) as nat);
    }
}

proof fn lemma_found_earlier(a: M3, b: M3, n: nat)
    ensures
        search(a, b, n).1 == infinity() || exists|i: nat|
            i < n && search(a, b, n).1 == #[trigger] outcome(a, b, i),
    decreases n,
{
    if n > 0 {
        let k = (n - 1) as nat;
        lemma_found_earlier(a, b, k);
        if search(a, b, n).1 != search(a, b, k).1 {
            assert(search(a, b, n).1 == outcome(a, b, k));
        }
    }
}

/// The search ends with the weight that comes to less than every other.
pub proof fn lemma_picked(a: M3, b: M3, k: nat, n: nat)
    requires
        k < n,
        n <= 11,
        !is_flat(a, b, k),
        forall|i: nat| i < 11 ==> (#[trigger] outcome(a, b, i)) is Finite,
        forall|i: nat| i < 11 && i != k ==> less(outcome(a, b, k), #[trigger] outcome(a, b, i)),
    ensures
        search(a, b, n) == (weight(k), outcome(a, b, k)),
    decreases n,
{
    let j = (n - 1) as nat;
    let d = outcome(a, b, k);
    if j == k {
        lemma_found_earlier(a, b, j);
        if search(a, b, j).1 == infinity() {
            assert(less(d, infinity())) by {
                reveal(less);
            }
        }
    } else {
        lemma_picked(a, b, k, j);
        lemma_less_value(d, outcome(a, b, j));
        lemma_less_value(outcome(a, b, j), d);
    }
}

/// With everything on the better estimate, the information of the first side.
proof fn lemma_beaten_second(a: M3, b: M3, i: nat)
    requires
        is_diagonal(a, 0x2_0000 as real),
        is_diagonal(b, 0x2_0000 as real),
        beats(a, b),
        i < 11,
    ensures
        is_diagonal(information(a, b, weight(10)), 0x8_0000 as real),
        has_diagonal(
            information(a, b, weight(10)),
            value(a.r0.x),
            value(a.r1.y),
            value(a.r2.z),
            2,
        ),
        !is_flat(a, b, 10),
        !information(a, b, weight(10)).is_singular(),
        outcome(a, b, i) is Finite,
        i < 10 ==> less(outcome(a, b, 10), outcome(a, b, i)),
{
    reveal(outcome);
    reveal(is_flat);
    let (m, n) = (information(a, b, weight(10)), information(a, b, weight(i)));
    lemma_information(a, b, 10, 0x2_0000 as real);
    lemma_information(a, b, i, 0x2_0000 as real);
    lemma_last_weight();
    lemma_all_or_nothing(value(a.r0.x), value(b.r0.x));
    lemma_all_or_nothing(value(a.r1.y), value(b.r1.y));
    lemma_all_or_nothing(value(a.r2.z), value(b.r2.z));
    let r = lemma_inverse_volume(m, 0x8_0000 as real);
    let s = lemma_inverse_volume(n, 0x8_0000 as real);
    if i < 10 {
        let (w, v) = lemma_weights(i);
        lemma_weight_range(i);
        lemma_entry_gap(value(a.r0.x), value(b.r0.x), w, v, value(n.r0.x), value(m.r0.x));
        lemma_entry_gap(value(a.r1.y), value(b.r1.y), w, v, value(n.r1.y), value(m.r1.y));
        lemma_entry_gap(value(a.r2.z), value(b.r2.z), w, v, value(n.r2.z), value(m.r2.z));
        lemma_smaller_determinant(m, n, 0x8_0000 as real);
    }
}

pub proof fn lemma_all_or_nothing(x: real, y: real)
    ensures
        x * value(one()) + y * value(zero()) == x,
{
    lemma_no_value(zero());
    lemma_one();
    let (w, v) = (value(one()), value(zero()));
    assert(x * w + y * v == x) by (nonlinear_arith)
        requires
            w == 1 as real,
            v == 0 as real,
    ;
}

pub proof fn lemma_nothing_or_all(x: real, y: real, z: Number)
    requires
        is_nought(z),
    ensures
        x * value(z) + y * value(one()) == y,
{
    lemma_no_value(z);
    lemma_one();
    let (w, v) = (value(z), value(one()));
    assert(x * w + y * v == y) by (nonlinear_arith)
        requires
            w == 0 as real,
            v == 1 as real,
    ;
}

/// The same from the other side.
proof fn lemma_beaten_first(a: M3, b: M3, i: nat)
    requires
        is_diagonal(a, 0x2_0000 as real),
        is_diagonal(b, 0x2_0000 as real),
        beats(a, b),
        i < 11,
    ensures
        is_diagonal(information(b, a, weight(0)), 0x8_0000 as real),
        has_diagonal(information(b, a, weight(0)), value(a.r0.x), value(a.r1.y), value(a.r2.z), 2),
        !is_flat(b, a, 0),
        !information(b, a, weight(0)).is_singular(),
        outcome(b, a, i) is Finite,
        i > 0 ==> less(outcome(b, a, 0), outcome(b, a, i)),
{
    reveal(outcome);
    reveal(is_flat);
    let (m, n) = (information(b, a, weight(0)), information(b, a, weight(i)));
    lemma_information(b, a, 0, 0x2_0000 as real);
    lemma_information(b, a, i, 0x2_0000 as real);
    lemma_first_weight();
    lemma_nothing_or_all(value(b.r0.x), value(a.r0.x), weight(0));
    lemma_nothing_or_all(value(b.r1.y), value(a.r1.y), weight(0));
    lemma_nothing_or_all(value(b.r2.z), value(a.r2.z), weight(0));
    let r = lemma_inverse_volume(m, 0x8_0000 as real);
    let s = lemma_inverse_volume(n, 0x8_0000 as real);
    if i > 0 {
        let (w, v) = lemma_weights(i);
        lemma_weight_range(i);
        lemma_entry_gap(value(a.r0.x), value(b.r0.x), v, w, value(n.r0.x), value(m.r0.x));
        lemma_entry_gap(value(a.r1.y), value(b.r1.y), v, w, value(n.r1.y), value(m.r1.y));
        lemma_entry_gap(value(a.r2.z), value(b.r2.z), v, w, value(n.r2.z), value(m.r2.z));
        lemma_smaller_determinant(m, n, 0x8_0000 as real);
    }
}

/// Whether each variance of `b` is larger than that of `a` by at least a
/// thousandth.
pub open spec fn is_worse(b: M3, a: M3) -> bool {
    &&& value(b.r0.x) * (1000 as real) >= value(a.r0.x) * (1001 as real)
    &&& value(b.r1.y) * (1000 as real) >= value(a.r1.y) * (1001 as real)
    &&& value(b.r2.z) * (1000 as real) >= value(a.r2.z) * (1001 as real)
}

/// From either side, all the weight goes to the better estimate.
proof fn lemma_all_on_better(a: M3, b: M3)
    requires
        is_diagonal(a, 0x1_0000 as real),
        is_diagonal(b, 0x1_0000 as real),
        is_worse(b, a),
    ensures
        !a.is_singular(),
        !b.is_singular(),
        is_diagonal(a.inverse(), 0x2_0000 as real),
        is_diagonal(b.inverse(), 0x2_0000 as real),
        beats(a.inverse(), b.inverse()),
        best_weight(a.inverse(), b.inverse(), 11).0 == weight(10),
        best_weight(b.inverse(), a.inverse(), 11).0 == weight(0),
{
    let (p, q, r) = (value(a.r0.x), value(a.r1.y), value(a.r2.z));
    let (s, t, u) = (value(b.r0.x), value(b.r1.y), value(b.r2.z));
    let (ip, iq, ir) = (lemma_inverse_of(p), lemma_inverse_of(q), lemma_inverse_of(r));
    let (is, it, iu) = (lemma_inverse_of(s), lemma_inverse_of(t), lemma_inverse_of(u));
    lemma_inverse(a, ip, iq, ir, 0x1_0000 as real);
    lemma_inverse(b, is, it, iu, 0x1_0000 as real);
    let (x, y) = (a.inverse(), b.inverse());
    lemma_larger_variance(p, s, ip, is, value(x.r0.x), value(y.r0.x));
    lemma_larger_variance(q, t, iq, it, value(x.r1.y), value(y.r1.y));
    lemma_larger_variance(r, u, ir, iu, value(x.r2.z), value(y.r2.z));
    assert forall|i: nat| i < 11 implies (#[trigger] outcome(x, y, i)) is Finite && (i != 10
        ==> less(outcome(x, y, 10), outcome(x, y, i))) by {
        lemma_beaten_second(x, y, i);
    }
    assert forall|i: nat| i < 11 implies (#[trigger] outcome(y, x, i)) is Finite && (i != 0
        ==> less(outcome(y, x, 0), outcome(y, x, i))) by {
        lemma_beaten_first(x, y, i);
    }
    lemma_beaten_second(x, y, 10);
    lemma_beaten_first(x, y, 0);
    lemma_picked(x, y, 10, 11);
    lemma_picked(y, x, 0, 11);
    lemma_search(x, y, 11);
    lemma_search(y, x, 11);
}

/// Whether `y` is `c` times `x`, but for a few roundings.
spec fn is_applied(y: Number, c: real, x: real) -> bool {
    &&& y is Finite
    &&& size(value(y) - c * x) <= size(c * x) * (4 as real * eps()) + 5 as real * tiny()
}

proof fn lemma_rounded_twice(v: real, p: real, s: real, t: real)
    requires
        within(p, v, size(v) * eps() + tiny()),
        within(s, p, size(p) * eps() + tiny()),
        within(t, s, size(s) * eps() + tiny()),
    ensures
        size(t - v) <= size(v) * (4 as real * eps()) + 5 as real * tiny(),
{
    lemma_tiny();
    let (e, o, n) = (eps(), tiny(), size(v));
    let z = n * e;
    assert(n * (4 as real * e) == 4 as real * z) by (nonlinear_arith)
        requires
            z == n * e,
    ;
    let ze = z * e;
    assert(ze <= z / (100 as real) && ze >= 0 as real) by (nonlinear_arith)
        requires
            ze == z * e,
            z == n * e,
            n >= 0 as real,
            e == (1 as real) / (0x100_0000 as real),
    ;
    let oe = o * e;
    assert(oe <= o / (100 as real)) by (nonlinear_arith)
        requires
            oe == o * e,
            o > 0 as real,
            e == (1 as real) / (0x100_0000 as real),
    ;
    let (b, c) = (size(p), size(s));
    assert(b * e <= z + ze + oe) by (nonlinear_arith)
        requires
            b <= n + z + o,
            e > 0 as real,
            z == n * e,
            ze == z * e,
            oe == o * e,
    ;
    assert(c <= n + (3 as real) * z + (3 as real) * o);
    assert(c * e <= z + 3 as real * ze + 3 as real * oe) by (nonlinear_arith)
        requires
            c <= n + (3 as real) * z + (3 as real) * o,
            e > 0 as real,
            z == n * e,
            ze == z * e,
            oe == o * e,
    ;
}

/// Three terms of which at most `p` is something.
proof fn lemma_one_of_three(p: Number, y: Number, z: Number, v: real)
    requires
        p is Finite,
        within(value(p), v, size(v) * eps() + tiny()),
        size(v) <= 0x1000_0000_0000_0000 as real,
        is_nought(y),
        is_nought(z),
    ensures
        (p + y + z) is Finite,
        (y + p + z) is Finite,
        (y + z + p) is Finite,
        size(value(p + y + z) - v) <= size(v) * (4 as real * eps()) + 5 as real * tiny(),
        size(value(y + p + z) - v) <= size(v) * (4 as real * eps()) + 5 as real * tiny(),
        size(value(y + z + p) - v) <= size(v) * (4 as real * eps()) + 5 as real * tiny(),
{
    lemma_tiny();
    lemma_no_value(y);
    lemma_no_value(z);
    let e = eps();
    let n = size(v);
    assert(n * e <= n) by (nonlinear_arith)
        requires
            n >= 0 as real,
            e == (1 as real) / (0x100_0000 as real),
    ;
    let b = size(value(p));
    assert(b <= 2 as real * n + 1 as real);
    assert(b * e <= b) by (nonlinear_arith)
        requires
            b >= 0 as real,
            e == (1 as real) / (0x100_0000 as real),
    ;
    lemma_sum_error(p, y);
    lemma_sum_error(y, p);
    lemma_sum_error(p + y, z);
    lemma_sum_error(y + p, z);
    lemma_nothing_and_nothing(y, z);
    lemma_no_value(y + z);
    lemma_sum_error(y + z, p);
    lemma_rounded_twice(v, value(p), value(p + y), value(p + y + z));
    lemma_rounded_twice(v, value(p), value(y + p), value(y + p + z));
    assert(within(value(p), value(p), b * e + tiny())) by {
        assert(b * e >= 0 as real) by (nonlinear_arith)
            requires
                b >= 0 as real,
                e > 0 as real,
        ;
    }
    lemma_rounded_twice(v, value(p), value(p), value(y + z + p));
}

/// A diagonal matrix times a vector.
proof fn lemma_applied(m: M3, t: V3)
    requires
        is_diagonal(m, 0x10_0000 as real),
        finite(t),
        size(value(t.x)) <= 0x100_0000_0000 as real,
        size(value(t.y)) <= 0x100_0000_0000 as real,
        size(value(t.z)) <= 0x100_0000_0000 as real,
    ensures
        is_applied(m.apply(t).x, value(m.r0.x), value(t.x)),
        is_applied(m.apply(t).y, value(m.r1.y), value(t.y)),
        is_applied(m.apply(t).z, value(m.r2.z), value(t.z)),
{
    lemma_term(m.r0.x, t.x);
    lemma_term(m.r1.y, t.y);
    lemma_term(m.r2.z, t.z);
    lemma_nothing_times(m.r0.y, t.y);
    lemma_nothing_times(m.r0.z, t.z);
    lemma_nothing_times(m.r1.x, t.x);
    lemma_nothing_times(m.r1.z, t.z);
    lemma_nothing_times(m.r2.x, t.x);
    lemma_nothing_times(m.r2.y, t.y);
    lemma_one_of_three(m.r0.x * t.x, m.r0.y * t.y, m.r0.z * t.z, value(m.r0.x) * value(t.x));
    lemma_one_of_three(m.r1.y * t.y, m.r1.x * t.x, m.r1.z * t.z, value(m.r1.y) * value(t.y));
    lemma_one_of_three(m.r2.z * t.z, m.r2.x * t.x, m.r2.y * t.y, value(m.r2.z) * value(t.z));
}

proof fn lemma_term(c: Number, x: Number)
    requires
        c is Finite,
        x is Finite,
        fair(value(c), 0x10_0000 as real),
        size(value(x)) <= 0x100_0000_0000 as real,
    ensures
        (c * x) is Finite,
        size(value(c) * value(x)) <= 0x1000_0000_0000_0000 as real,
        within(
            value(c * x),
            value(c) * value(x),
            size(value(c) * value(x)) * eps() + tiny(),
        ),
{
    lemma_product_size(
        value(c),
        value(x),
        0x10_0000 as real,
        0x100_0000_0000 as real,
    );
    lemma_product_error(c, x);
}

/// The weighed sum, with all the weight on what is `a` times `x`.
proof fn lemma_weighed(y: Number, w: Number, z: Number, a: real, x: real)
    requires
        is_applied(y, a, x),
        w is Finite,
        value(w) == 1 as real,
        is_nought(z),
        fair(a, 0x4_0000 as real),
        size(x) <= 0x10_0000 as real,
    ensures
        is_weighed(y * w + z, a, x),
        is_weighed(z + y * w, a, x),
{
    lemma_tiny();
    lemma_no_value(z);
    let f = lemma_applied_size(value(y), a, x);
    let yv = value(y);
    assert(yv * value(w) == yv) by (nonlinear_arith)
        requires
            value(w) == 1 as real,
    ;
    lemma_product_error(y, w);
    let t = y * w;
    let e = eps();
    let b = size(yv);
    assert(b * e <= b) by (nonlinear_arith)
        requires
            b >= 0 as real,
            e == (1 as real) / (0x100_0000 as real),
    ;
    assert(t is Finite);
    lemma_sum_error(t, z);
    lemma_sum_error(z, t);
    lemma_two_more(value(y), value(t), value(t + z), a, x, f);
    lemma_two_more(value(y), value(t), value(z + t), a, x, f);
}

/// Whether `y` is `a` times `x`, but for roundings of `a` times a little more.
spec fn is_weighed(y: Number, a: real, x: real) -> bool {
    &&& y is Finite
    &&& size(value(y) - a * x) <= (a * (size(x) + 1 as real)) * (7 as real * eps())
    &&& size(value(y)) <= 0x100_0000_0000 as real
}

proof fn lemma_applied_size(y: real, a: real, x: real) -> (f: real)
    requires
        size(y - a * x) <= size(a * x) * (4 as real * eps()) + 5 as real * tiny(),
        fair(a, 0x4_0000 as real),
        size(x) <= 0x10_0000 as real,
    ensures
        f == a * (size(x) + 1 as real),
        f <= 0x80_0000_0000 as real,
        tiny() * 100 as real <= f * eps(),
        f * eps() <= f / (1000 as real),
        size(a * x) <= f,
        f > 0 as real,
        size(y - a * x) <= (f * eps()) * (4 as real + (1 as real) / (10 as real)),
        size(y) <= 2 as real * f,
{
    lemma_tiny_cubed();
    let (e, o) = (eps(), tiny());
    let n = size(x) + 1 as real;
    let f = a * n;
    assert(f <= 0x80_0000_0000 as real && f >= a) by (nonlinear_arith)
        requires
            f == a * n,
            a > 0 as real,
            a <= 0x4_0000 as real,
            n >= 1 as real,
            n <= 0x10_0001 as real,
    ;
    assert(a >= (1 as real) / (0x4_0000 as real)) by (nonlinear_arith)
        requires
            a * (0x4_0000 as real) >= 1 as real,
    ;
    let z = f * e;
    assert(o * 100 as real <= z && z <= f / (1000 as real)) by (nonlinear_arith)
        requires
            z == f * e,
            f >= (1 as real) / (0x4_0000 as real),
            o <= e * e * e,
            e == (1 as real) / (0x100_0000 as real),
    ;
    let p = size(a * x);
    assert(p <= f) by (nonlinear_arith)
        requires
            p == size(a * x),
            f == a * n,
            n == size(x) + 1 as real,
            a > 0 as real,
    ;
    assert(p * (4 as real * e) <= 4 as real * z) by (nonlinear_arith)
        requires
            p <= f,
            z == f * e,
            e > 0 as real,
    ;
    assert(z * (4 as real + (1 as real) / (10 as real)) == 4 as real * z + z / (10 as real))
        by (nonlinear_arith);
    f
}

proof fn lemma_two_more(y: real, t: real, s: real, a: real, x: real, f: real)
    requires
        size(y - a * x) <= (f * eps()) * (4 as real + (1 as real) / (10 as real)),
        size(y) <= 2 as real * f,
        size(a * x) <= f,
        within(t, y, size(y) * eps() + tiny()),
        within(s, t, size(t) * eps() + tiny()),
        tiny() * 100 as real <= f * eps(),
        f * eps() <= f / (1000 as real),
        f <= 0x80_0000_0000 as real,
        f == a * (size(x) + 1 as real),
    ensures
        size(s - a * x) <= (a * (size(x) + 1 as real)) * (7 as real * eps()),
        size(s) <= 0x100_0000_0000 as real,
{
    lemma_tiny();
    let (e, o, z, p) = (eps(), tiny(), f * eps(), a * x);
    assert(z * (4 as real + (1 as real) / (10 as real)) == 4 as real * z + z / (10 as real))
        by (nonlinear_arith);
    assert(f * (7 as real * e) == 7 as real * z) by (nonlinear_arith)
        requires
            z == f * e,
    ;
    let (b, c) = (size(y), size(t));
    assert(b <= f + f / (100 as real));
    assert(b * e <= z + z / (100 as real)) by (nonlinear_arith)
        requires
            b <= f + f / (100 as real),
            z == f * e,
            e > 0 as real,
    ;
    assert(c <= f + f / (50 as real));
    assert(c * e <= z + z / (50 as real)) by (nonlinear_arith)
        requires
            c <= f + f / (50 as real),
            z == f * e,
            e > 0 as real,
    ;
}

/// Whether `y` is `x`, but for a few roundings.
pub open spec fn is_kept(y: Number, x: Number) -> bool {
    &&& y is Finite
    &&& size(value(y) - value(x)) <= (size(value(x)) + 1 as real) * (64 as real * eps())
}

/// The covariance undoes the information, here `c` and `a`.
proof fn lemma_undone(r: Number, y: Number, c: real, a: real, x: Number)
    requires
        is_weighed(y, a, value(x)),
        is_applied(r, c, value(y)),
        near(c * a, 1 as real, 18),
        fair(a, 0x4_0000 as real),
        c > 0 as real,
        size(value(x)) <= 0x10_0000 as real,
    ensures
        is_kept(r, x),
{
    lemma_undone_value(value(r), value(y), c, a, value(x), c * a);
}

proof fn lemma_undone_value(r: real, y: real, c: real, a: real, x: real, ca: real)
    requires
        size(y - a * x) <= (a * (size(x) + 1 as real)) * (7 as real * eps()),
        size(r - c * y) <= size(c * y) * (4 as real * eps()) + 5 as real * tiny(),
        ca == c * a,
        near(ca, 1 as real, 18),
        c > 0 as real,
        a > 0 as real,
    ensures
        size(r - x) <= (size(x) + 1 as real) * (64 as real * eps()),
{
    lemma_tiny();
    lemma_tiny_cubed();
    let (e, o, n) = (eps(), tiny(), size(x) + 1 as real);
    let ne = n * e;
    lemma_share_of_one(ca, e);
    // What is left of the first roundings.
    let (d, g) = (y - a * x, a * n);
    let k = 7 as real * e;
    let cd = c * d;
    assert(size(cd) <= c * (g * k)) by (nonlinear_arith)
        requires
            cd == c * d,
            size(d) <= g * k,
            c > 0 as real,
    ;
    assert(c * ((a * n) * k) == ca * (n * k)) by {
        assert(c * ((a * n) * k) == (c * a) * (n * k)) by (nonlinear_arith);
    }
    let nk = n * k;
    assert(nk == 7 as real * ne) by (nonlinear_arith)
        requires
            nk == n * k,
            k == 7 as real * e,
            ne == n * e,
    ;
    assert(ne >= 0 as real && o <= ne / (1000 as real)) by (nonlinear_arith)
        requires
            ne == n * e,
            n >= 1 as real,
            o <= e * e * e,
            e == (1 as real) / (0x100_0000 as real),
    ;
    assert(ca * nk <= 8 as real * ne) by (nonlinear_arith)
        requires
            nk == 7 as real * ne,
            ca <= 1 as real + (1 as real) / (1000 as real),
            ca > 0 as real,
            ne >= 0 as real,
    ;
    // The product itself.
    let cy = c * y;
    let m = ca * x;
    assert(cy == cd + m) by {
        let ax = a * x;
        assert(c * y == c * d + c * ax) by (nonlinear_arith)
            requires
                d == y - ax,
        ;
        assert(c * (a * x) == (c * a) * x) by (nonlinear_arith);
    }
    let u = ca - 1 as real;
    let ux = u * x;
    assert(m == x + ux) by (nonlinear_arith)
        requires
            m == ca * x,
            u == ca - 1 as real,
            ux == u * x,
    ;
    assert(size(ux) <= 37 as real * ne) by (nonlinear_arith)
        requires
            ux == u * x,
            size(u) <= 37 as real * e,
            n == size(x) + 1 as real,
            ne == n * e,
            e > 0 as real,
    ;
    let b = size(cy);
    assert(ne <= n / (1000 as real)) by (nonlinear_arith)
        requires
            ne == n * e,
            n >= 1 as real,
            e == (1 as real) / (0x100_0000 as real),
    ;
    assert(b <= n + 45 as real * ne);
    let q = 4 as real * e;
    assert(b * q <= 5 as real * ne) by (nonlinear_arith)
        requires
            b <= n + n / (20 as real),
            q == 4 as real * e,
            ne == n * e,
            n >= 1 as real,
            e > 0 as real,
    ;
    assert(n * (64 as real * e) == 64 as real * ne) by (nonlinear_arith)
        requires
            ne == n * e,
    ;
}

proof fn lemma_share_of_one(ca: real, e: real)
    requires
        near(ca, 1 as real, 18),
        e == eps(),
    ensures
        size(ca - 1 as real) <= 37 as real * e,
        ca <= 1 as real + (1 as real) / (1000 as real),
        ca > 0 as real,
{
    let k = 36 as real * e;
    assert(1 as real * (1 as real + k) == 1 as real + k) by (nonlinear_arith);
    let g = 1 as real + k;
    assert(ca >= 1 as real - k) by (nonlinear_arith)
        requires
            ca * g >= 1 as real,
            g == 1 as real + k,
            k >= 0 as real,
            k <= 1 as real,
            ca > 0 as real,
    ;
}

/// The sum of the two positions, each weighed by its information.
#[verifier::opaque]
pub open spec fn weighed(a: M3, b: M3, w: Number, x: V3, y: V3) -> V3 {
    a.apply(x) * w + b.apply(y) * (one() - w)
}

#[verifier::opaque]
pub open spec fn restored(m: M3, t: V3) -> V3 {
    m.inverse().apply(t)
}

pub proof fn lemma_intersected(a: Fix, b: Fix, w: Number)
    requires
        !a.cov.is_singular(),
        !b.cov.is_singular(),
        best_weight(a.cov.inverse(), b.cov.inverse(), 11).0 == w,
        !information(a.cov.inverse(), b.cov.inverse(), w).is_singular(),
    ensures
        ({
            let (ia, ib) = (a.cov.inverse(), b.cov.inverse());
            let m = information(ia, ib, w);
            &&& intersected(a, b).cov == m.inverse()
            &&& intersected(a, b).pos == restored(m, weighed(ia, ib, w, a.pos, b.pos))
        }),
{
    reveal(intersected);
    reveal(restored);
    reveal(weighed);
}

spec fn is_weighed_by(t: V3, a: M3, x: V3) -> bool {
    &&& is_weighed(t.x, value(a.r0.x), value(x.x))
    &&& is_weighed(t.y, value(a.r1.y), value(x.y))
    &&& is_weighed(t.z, value(a.r2.z), value(x.z))
}

/// Whether a position is finite and within 2^20 in every coordinate.
pub open spec fn is_place(x: V3) -> bool {
    &&& finite(x)
    &&& size(value(x.x)) <= 0x10_0000 as real
    &&& size(value(x.y)) <= 0x10_0000 as real
    &&& size(value(x.z)) <= 0x10_0000 as real
}

proof fn lemma_weighed_place(a: M3, b: M3, x: V3, y: V3)
    requires
        is_diagonal(a, 0x2_0000 as real),
        is_diagonal(b, 0x2_0000 as real),
        is_place(x),
        is_place(y),
    ensures
        is_weighed_by(weighed(a, b, weight(10), x, y), a, x),
        is_weighed_by(weighed(b, a, weight(0), y, x), a, x),
{
    reveal(weighed);
    lemma_first_weight();
    lemma_last_weight();
    lemma_one();
    lemma_wider_diagonal(a, 0x2_0000 as real, 0x10_0000 as real);
    lemma_wider_diagonal(b, 0x2_0000 as real, 0x10_0000 as real);
    lemma_wider_diagonal(a, 0x2_0000 as real, 0x4_0000 as real);
    lemma_applied(a, x);
    lemma_applied(b, y);
    let (p, q) = (a.apply(x), b.apply(y));
    let (w, o, z) = (one(), zero(), weight(0));
    lemma_nothing_times(o, q.x);
    lemma_nothing_times(o, q.y);
    lemma_nothing_times(o, q.z);
    lemma_nothing_times(z, q.x);
    lemma_nothing_times(z, q.y);
    lemma_nothing_times(z, q.z);
    lemma_weighed(p.x, w, q.x * o, value(a.r0.x), value(x.x));
    lemma_weighed(p.y, w, q.y * o, value(a.r1.y), value(x.y));
    lemma_weighed(p.z, w, q.z * o, value(a.r2.z), value(x.z));
    lemma_weighed(p.x, w, q.x * z, value(a.r0.x), value(x.x));
    lemma_weighed(p.y, w, q.y * z, value(a.r1.y), value(x.y));
    lemma_weighed(p.z, w, q.z * z, value(a.r2.z), value(x.z));
}

/// The information `m` is that of `a` alone, and `p` is the variance that `a`
/// came from: `c` is the variance that comes out.
proof fn lemma_round_trip(p: real, i: real, a: real, m: real, j: real, c: real)
    requires
        i * p == 1 as real,
        near(a, i, 15),
        near(m, a, 2),
        j * m == 1 as real,
        near(c, j, 15),
    ensures
        near(c, p, 34),
        near(c * a, 1 as real, 18),
{
    let k = lemma_inverse_of(a);
    lemma_near_reciprocal(m, a, j, k, 2);
    lemma_near_chain(c, j, k, 15, 2);
    assert(p * i == 1 as real) by {
        assert(p * i == i * p) by (nonlinear_arith);
    }
    lemma_near_reciprocal(a, i, k, p, 15);
    lemma_near_chain(c, k, p, 18, 15);
    lemma_near_scaled(c, k, a, 18);
}

/// Whether the estimate `r` is `a`, but for a few roundings.
pub open spec fn gives_back(r: Fix, a: Fix) -> bool {
    &&& is_kept(r.pos.x, a.pos.x)
    &&& is_kept(r.pos.y, a.pos.y)
    &&& is_kept(r.pos.z, a.pos.z)
    &&& is_diagonal(r.cov, 0x10_0000 as real)
    &&& has_diagonal(r.cov, value(a.cov.r0.x), value(a.cov.r1.y), value(a.cov.r2.z), 34)
}

proof fn lemma_given_back(a: Fix, m: M3, t: V3)
    requires
        is_diagonal(a.cov, 0x1_0000 as real),
        is_place(a.pos),
        is_diagonal(m, 0x8_0000 as real),
        has_diagonal(
            m,
            value(a.cov.inverse().r0.x),
            value(a.cov.inverse().r1.y),
            value(a.cov.inverse().r2.z),
            2,
        ),
        is_weighed_by(t, a.cov.inverse(), a.pos),
    ensures
        gives_back(Fix { pos: restored(m, t), cov: m.inverse() }, a),
{
    reveal(restored);
    let (p, q, r) = (value(a.cov.r0.x), value(a.cov.r1.y), value(a.cov.r2.z));
    let (ip, iq, ir) = (lemma_inverse_of(p), lemma_inverse_of(q), lemma_inverse_of(r));
    lemma_inverse(a.cov, ip, iq, ir, 0x1_0000 as real);
    let i = a.cov.inverse();
    lemma_wider_diagonal(i, 0x2_0000 as real, 0x4_0000 as real);
    let (x, y, z) = (value(m.r0.x), value(m.r1.y), value(m.r2.z));
    let (ix, iy, iz) = (lemma_inverse_of(x), lemma_inverse_of(y), lemma_inverse_of(z));
    lemma_inverse(m, ix, iy, iz, 0x8_0000 as real);
    let c = m.inverse();
    lemma_round_trip(p, ip, value(i.r0.x), x, ix, value(c.r0.x));
    lemma_round_trip(q, iq, value(i.r1.y), y, iy, value(c.r1.y));
    lemma_round_trip(r, ir, value(i.r2.z), z, iz, value(c.r2.z));
    lemma_applied(c, t);
    let s = c.apply(t);
    lemma_undone(s.x, t.x, value(c.r0.x), value(i.r0.x), a.pos.x);
    lemma_undone(s.y, t.y, value(c.r1.y), value(i.r1.y), a.pos.y);
    lemma_undone(s.z, t.z, value(c.r2.z), value(i.r2.z), a.pos.z);
}

/// An estimate that is worse in every direction is ignored, from whichever side
/// it comes: fusing gives the better estimate, position and covariance, but for
/// a few roundings. This holds of diagonal covariances, with variances between
/// 2^-16 and 2^16, where those of the worse one are larger by at least a
/// thousandth; of two that are nearer to each other, rounding may prefer either.
pub proof fn law_worse_estimate_is_dismissed(a: Fix, b: Fix)
    requires
        is_diagonal(a.cov, 0x1_0000 as real),
        is_diagonal(b.cov, 0x1_0000 as real),
        is_worse(b.cov, a.cov),
        is_place(a.pos),
        is_place(b.pos),
    ensures
        gives_back(intersected(a, b), a),
        gives_back(intersected(b, a), a),
{
    lemma_all_on_better(a.cov, b.cov);
    let (x, y) = (a.cov.inverse(), b.cov.inverse());
    lemma_beaten_second(x, y, 10);
    lemma_beaten_first(x, y, 0);
    lemma_weighed_place(x, y, a.pos, b.pos);
    lemma_intersected(a, b, weight(10));
    lemma_intersected(b, a, weight(0));
    let (m, n) = (information(x, y, weight(10)), information(y, x, weight(0)));
    lemma_given_back(a, m, weighed(x, y, weight(10), a.pos, b.pos));
    lemma_given_back(a, n, weighed(y, x, weight(0), b.pos, a.pos));
}

/// The three entries of `m` are near the reciprocals `x`, `y` and `z` of `p`, `q`
/// and `r`; then the reciprocal `j` of their product is near that of those.
proof fn lemma_near_volume(
    m: M3,
    p: real,
    q: real,
    r: real,
    x: real,
    y: real,
    z: real,
    j: real,
)
    requires
        j * volume(m) == 1 as real,
        p * x == 1 as real,
        q * y == 1 as real,
        r * z == 1 as real,
        has_diagonal(m, x, y, z, 18),
    ensures
        near(j, p * (q * r), 56),
{
    reveal(volume);
    let (u, v, w) = (value(m.r0.x), value(m.r1.y), value(m.r2.z));
    lemma_near_product(v, y, w, z, 18, 18);
    lemma_near_product(u, x, v * w, y * z, 18, 37);
    let pqr = p * (q * r);
    assert(pqr * (x * (y * z)) == 1 as real) by {
        lemma_regrouped(p, q * r, x, y * z);
        lemma_regrouped(q, r, y, z);
        assert(1 as real * 1 as real == 1 as real) by (nonlinear_arith);
    }
    lemma_near_reciprocal(u * (v * w), x * (y * z), j, pqr, 56);
}

/// What all the weight on the first estimate comes to is the determinant of its
/// covariance, but for some roundings.
proof fn lemma_alone(a: M3, b: M3)
    requires
        is_diagonal(a, 0x1_0000 as real),
        is_diagonal(b, 0x1_0000 as real),
    ensures
        !a.is_singular(),
        !b.is_singular(),
        a.determinant() is Finite,
        is_diagonal(a.inverse(), 0x2_0000 as real),
        is_diagonal(b.inverse(), 0x2_0000 as real),
        !information(a.inverse(), b.inverse(), one()).is_singular(),
        uncertainty(information(a.inverse(), b.inverse(), one())) is Finite,
        near(
            value(uncertainty(information(a.inverse(), b.inverse(), one()))),
            value(a.determinant()),
            124,
        ),
{
    let (p, q, r) = (value(a.r0.x), value(a.r1.y), value(a.r2.z));
    let (s, t, u) = (value(b.r0.x), value(b.r1.y), value(b.r2.z));
    let (ip, iq, ir) = (lemma_inverse_of(p), lemma_inverse_of(q), lemma_inverse_of(r));
    let (is, it, iu) = (lemma_inverse_of(s), lemma_inverse_of(t), lemma_inverse_of(u));
    lemma_inverse(a, ip, iq, ir, 0x1_0000 as real);
    lemma_inverse(b, is, it, iu, 0x1_0000 as real);
    lemma_wider_diagonal(a, 0x1_0000 as real, 0x10_0000 as real);
    lemma_determinant(a);
    let (x, y) = (a.inverse(), b.inverse());
    lemma_last_weight();
    lemma_information(x, y, 10, 0x2_0000 as real);
    lemma_all_or_nothing(value(x.r0.x), value(y.r0.x));
    lemma_all_or_nothing(value(x.r1.y), value(y.r1.y));
    lemma_all_or_nothing(value(x.r2.z), value(y.r2.z));
    let m = information(x, y, one());
    let j = lemma_inverse_volume(m, 0x8_0000 as real);
    lemma_near_chain(value(m.r0.x), value(x.r0.x), ip, 2, 15);
    lemma_near_chain(value(m.r1.y), value(x.r1.y), iq, 2, 15);
    lemma_near_chain(value(m.r2.z), value(x.r2.z), ir, 2, 15);
    assert(p * ip == ip * p && q * iq == iq * q && r * ir == ir * r) by (nonlinear_arith);
    lemma_near_volume(m, p, q, r, ip, iq, ir, j);
    let (d, f, v) = (value(uncertainty(m)), value(a.determinant()), p * (q * r));
    lemma_near_chain(d, j, v, 57, 56);
    lemma_near_swapped(f, v, 9);
    lemma_near_chain(d, v, f, 114, 9);
}

/// Whatever weight is chosen, what it comes to is finite.
proof fn lemma_choice_is_finite(a: M3, b: M3)
    requires
        is_diagonal(a, 0x2_0000 as real),
        is_diagonal(b, 0x2_0000 as real),
    ensures
        !information(a, b, best_weight(a, b, 11).0).is_singular(),
        uncertainty(information(a, b, best_weight(a, b, 11).0)) is Finite,
{
    let w = best_weight(a, b, 11).0;
    let i = lemma_choice(a, b);
    lemma_information(a, b, i, 0x2_0000 as real);
    let r = lemma_inverse_volume(information(a, b, w), 0x8_0000 as real);
}

/// Fusing does not make an estimate vaguer: the determinant of the covariance is
/// at most that of the first one, but for roundings. This holds of diagonal
/// covariances with variances between 2^-16 and 2^16.
pub proof fn law_fusing_does_not_grow(a: Fix, b: Fix)
    requires
        is_diagonal(a.cov, 0x1_0000 as real),
        is_diagonal(b.cov, 0x1_0000 as real),
    ensures
        a.cov.determinant() is Finite,
        value(a.cov.determinant()) > 0 as real,
        intersected(a, b).cov.determinant() is Finite,
        value(intersected(a, b).cov.determinant()) <= value(a.cov.determinant()) * (1 as real
            + 124 as real * grain()),
{
    lemma_alone(a.cov, b.cov);
    let (x, y) = (a.cov.inverse(), b.cov.inverse());
    let w = best_weight(x, y, 11).0;
    lemma_choice_is_finite(x, y);
    lemma_intersected(a, b, w);
    law_no_larger_than_alone(a, b);
    lemma_determinants(a, b, x, y, w);
    lemma_less_value(uncertainty(information(x, y, one())), uncertainty(information(x, y, w)));
}

pub proof fn lemma_determinants(a: Fix, b: Fix, x: M3, y: M3, w: Number)
    requires
        x == a.cov.inverse(),
        y == b.cov.inverse(),
        intersected(a, b).cov == information(x, y, w).inverse(),
        !less(
            information(x, y, one()).inverse().determinant(),
            intersected(a, b).cov.determinant(),
        ),
    ensures
        intersected(a, b).cov.determinant() == uncertainty(information(x, y, w)),
        !less(uncertainty(information(x, y, one())), uncertainty(information(x, y, w))),
{
    reveal(uncertainty);
}

proof fn lemma_near_mixed(x: real, u: real, y: real, t: real, w: real, v: real, k: nat)
    requires
        near(x, u, k),
        near(y, t, k),
        w >= 0 as real,
        v >= 0 as real,
        w + v > 0 as real,
    ensures
        near(x * w + y * v, u * w + t * v, k),
{
    let s = 1 as real + (k as real) * grain();
    lemma_mixed_bound(x, u, y, t, w, v, s);
    lemma_mixed_bound(u, x, t, y, w, v, s);
}

proof fn lemma_mixed_bound(x: real, u: real, y: real, t: real, w: real, v: real, s: real)
    requires
        x <= u * s,
        y <= t * s,
        x > 0 as real,
        y > 0 as real,
        w >= 0 as real,
        v >= 0 as real,
        w + v > 0 as real,
    ensures
        x * w + y * v <= (u * w + t * v) * s,
        x * w + y * v > 0 as real,
{
    let (us, ts) = (u * s, t * s);
    assert(x * w <= us * w && x * w >= 0 as real) by (nonlinear_arith)
        requires
            x <= us,
            x > 0 as real,
            w >= 0 as real,
    ;
    assert(y * v <= ts * v && y * v >= 0 as real) by (nonlinear_arith)
        requires
            y <= ts,
            y > 0 as real,
            v >= 0 as real,
    ;
    assert((u * s) * w == (u * w) * s) by (nonlinear_arith);
    assert((t * s) * v == (t * v) * s) by (nonlinear_arith);
    let (uw, tv) = (u * w, t * v);
    assert((uw + tv) * s == uw * s + tv * s) by (nonlinear_arith);
    if w > 0 as real {
        assert(x * w > 0 as real) by (nonlinear_arith)
            requires
                x > 0 as real,
                w > 0 as real,
        ;
    } else {
        assert(y * v > 0 as real) by (nonlinear_arith)
            requires
                y > 0 as real,
                v > 0 as real,
        ;
    }
}

/// Whether the variance `c` is that of an intersection of the variances `p` and
/// `q` with the `i`-th weight, but for a few roundings: its reciprocal is theirs,
/// weighted.
pub open spec fn is_intersected(c: Number, p: Number, q: Number, i: nat) -> bool {
    near(
        value(c) * (value(weight(i)) / value(p) + value(one() - weight(i)) / value(q)),
        1 as real,
        34,
    )
}

proof fn lemma_variance(
    c: Number,
    m: Number,
    a: Number,
    b: Number,
    p: Number,
    q: Number,
    i: nat,
    x: real,
    y: real,
    j: real,
)
    requires
        i < 11,
        x * value(p) == 1 as real,
        y * value(q) == 1 as real,
        value(p) > 0 as real,
        value(q) > 0 as real,
        near(value(a), x, 15),
        near(value(b), y, 15),
        near(
            value(m),
            value(a) * value(weight(i)) + value(b) * value(one() - weight(i)),
            2,
        ),
        j * value(m) == 1 as real,
        near(value(c), j, 15),
    ensures
        is_intersected(c, p, q, i),
{
    let (w, v) = lemma_weights(i);
    lemma_near_mixed(value(a), x, value(b), y, w, v, 15);
    let e = x * w + y * v;
    lemma_near_chain(value(m), value(a) * w + value(b) * v, e, 2, 15);
    let k = lemma_inverse_of(e);
    lemma_near_reciprocal(value(m), e, j, k, 18);
    lemma_near_chain(value(c), j, k, 15, 18);
    lemma_near_scaled(value(c), k, e, 34);
    lemma_ratio(w, value(p), x);
    lemma_ratio(v, value(q), y);
}

proof fn lemma_ratio(w: real, p: real, x: real)
    requires
        x * p == 1 as real,
        p > 0 as real,
    ensures
        w / p == x * w,
{
    assert(w / p == x * w) by (nonlinear_arith)
        requires
            x * p == 1 as real,
            p > 0 as real,
    ;
}

/// An intersection is what the formula says, roundings included: for one of the
/// weights tried, each variance has as its reciprocal the weighted reciprocals of
/// the two, but for a few roundings, and there is nothing off the diagonal. So
/// what is said of exact covariances holds of those computed. The variances lie
/// between 2^-16 and 2^16.
pub proof fn law_intersection_follows_its_formula(a: Fix, b: Fix)
    requires
        is_diagonal(a.cov, 0x1_0000 as real),
        is_diagonal(b.cov, 0x1_0000 as real),
    ensures
        is_diagonal(intersected(a, b).cov, 0x10_0000 as real),
        exists|i: nat|
            i < 11 && #[trigger] weight(i) == best_weight(a.cov.inverse(), b.cov.inverse(), 11).0
                && is_intersected(intersected(a, b).cov.r0.x, a.cov.r0.x, b.cov.r0.x, i)
                && is_intersected(intersected(a, b).cov.r1.y, a.cov.r1.y, b.cov.r1.y, i)
                && is_intersected(intersected(a, b).cov.r2.z, a.cov.r2.z, b.cov.r2.z, i),
{
    let (ca, cb) = (a.cov, b.cov);
    let (p, q, r) = (value(ca.r0.x), value(ca.r1.y), value(ca.r2.z));
    let (s, t, u) = (value(cb.r0.x), value(cb.r1.y), value(cb.r2.z));
    let (ip, iq, ir) = (lemma_inverse_of(p), lemma_inverse_of(q), lemma_inverse_of(r));
    let (is, it, iu) = (lemma_inverse_of(s), lemma_inverse_of(t), lemma_inverse_of(u));
    lemma_inverse(ca, ip, iq, ir, 0x1_0000 as real);
    lemma_inverse(cb, is, it, iu, 0x1_0000 as real);
    let (x, y) = (ca.inverse(), cb.inverse());
    let w = best_weight(x, y, 11).0;
    let i = lemma_choice(x, y);
    lemma_choice_is_finite(x, y);
    lemma_intersected(a, b, w);
    lemma_information(x, y, i, 0x2_0000 as real);
    let m = information(x, y, w);
    let (e, f, g) = (value(m.r0.x), value(m.r1.y), value(m.r2.z));
    let (ie, jf, ig) = (lemma_inverse_of(e), lemma_inverse_of(f), lemma_inverse_of(g));
    lemma_inverse(m, ie, jf, ig, 0x8_0000 as real);
    let c = m.inverse();
    lemma_variance(c.r0.x, m.r0.x, x.r0.x, y.r0.x, ca.r0.x, cb.r0.x, i, ip, is, ie);
    lemma_variance(c.r1.y, m.r1.y, x.r1.y, y.r1.y, ca.r1.y, cb.r1.y, i, iq, it, jf);
    lemma_variance(c.r2.z, m.r2.z, x.r2.z, y.r2.z, ca.r2.z, cb.r2.z, i, ir, iu, ig);
}

/// The weight chosen is one of those tried.
pub proof fn lemma_choice(a: M3, b: M3) -> (i: nat)
    ensures
        i < 11,
        weight(i) == best_weight(a, b, 11).0,
{
    law_weight_is_tried(a, b, 11);
    lemma_last_weight();
    let w = best_weight(a, b, 11).0;
    if w == one() {
        10
    } else {
        choose|i: nat| i < 11 && w == #[trigger] weight(i)
    }
}

/// An intersection is not overconfident, roundings of the covariance included:
/// where the errors `s` and `t` of the two estimates along an axis are within what
/// their variances claim, however they are correlated, the error of the weighted
/// mean is within what the variance `c` of the intersection claims, but for a few
/// roundings. `law_intersection_follows_its_formula` says that every variance of
/// an intersection is such a `c`.
pub proof fn law_fused_error_is_within_its_claim(
    c: Number,
    p: Number,
    q: Number,
    i: nat,
    s: real,
    t: real,
)
    requires
        i < 11,
        value(p) > 0 as real,
        value(q) > 0 as real,
        value(c) > 0 as real,
        is_intersected(c, p, q, i),
        s * s <= value(p),
        t * t <= value(q),
    ensures
        ({
            let (w, v) = (value(weight(i)), value(one() - weight(i)));
            let error = value(c) * ((w / value(p)) * s + (v / value(q)) * t);
            error * error <= value(c) * (1 as real + 36 as real * grain())
        }),
{
    let (w, v) = lemma_weights(i);
    let (x, y) = (lemma_inverse_of(value(p)), lemma_inverse_of(value(q)));
    lemma_ratio(w, value(p), x);
    lemma_ratio(v, value(q), y);
    lemma_claim(x, value(p), w, s);
    lemma_claim(y, value(q), v, t);
    let (a, b) = (x * w, y * v);
    lemma_cauchy(a, b, s, t, w + v);
    lemma_within_claim(value(c), a + b, a * s + b * t, w + v);
}

proof fn lemma_claim(x: real, p: real, w: real, s: real)
    requires
        x * p == 1 as real,
        p > 0 as real,
        w >= 0 as real,
        s * s <= p,
    ensures
        x * w >= 0 as real,
        (x * w) * (s * s) <= w,
{
    let (a, ss) = (x * w, s * s);
    assert(x > 0 as real) by (nonlinear_arith)
        requires
            x * p == 1 as real,
            p > 0 as real,
    ;
    assert(a >= 0 as real) by (nonlinear_arith)
        requires
            a == x * w,
            x > 0 as real,
            w >= 0 as real,
    ;
    assert(a * ss <= a * p) by (nonlinear_arith)
        requires
            ss <= p,
            a >= 0 as real,
    ;
    assert((x * w) * p == (x * p) * w) by (nonlinear_arith);
    assert(1 as real * w == w) by (nonlinear_arith);
}

proof fn lemma_cauchy(a: real, b: real, s: real, t: real, most: real)
    requires
        a >= 0 as real,
        b >= 0 as real,
        a * (s * s) + b * (t * t) <= most,
    ensures
        (a * s + b * t) * (a * s + b * t) <= (a + b) * most,
{
    let (ss, tt, st) = (s * s, t * t, s * t);
    let ab = a * b;
    assert(ss + tt - 2 as real * st >= 0 as real) by {
        let d = s - t;
        assert(d * d == ss + tt - 2 as real * st) by (nonlinear_arith)
            requires
                d == s - t,
                ss == s * s,
                tt == t * t,
                st == s * t,
        ;
        assert(d * d >= 0 as real) by (nonlinear_arith);
    }
    assert(ab >= 0 as real) by (nonlinear_arith)
        requires
            ab == a * b,
            a >= 0 as real,
            b >= 0 as real,
    ;
    let gap = ss + tt - 2 as real * st;
    assert(ab * gap >= 0 as real) by (nonlinear_arith)
        requires
            ab >= 0 as real,
            gap >= 0 as real,
    ;
    assert(ab * gap == ab * ss + ab * tt - 2 as real * (ab * st)) by (nonlinear_arith)
        requires
            gap == ss + tt - 2 as real * st,
    ;
    let (u, v) = (a * s, b * t);
    assert((u + v) * (u + v) == u * u + 2 as real * (u * v) + v * v) by (nonlinear_arith);
    assert((a * s) * (a * s) == (a * a) * ss && (b * t) * (b * t) == (b * b) * tt && (a * s) * (b
        * t) == ab * st) by {
        lemma_regrouped(a, s, a, s);
        lemma_regrouped(b, t, b, t);
        lemma_regrouped(a, s, b, t);
    }
    let n = a * ss + b * tt;
    assert((a + b) * n == (a * a) * ss + ab * tt + ab * ss + (b * b) * tt) by {
        let (f, g) = (a * ss, b * tt);
        assert((a + b) * (f + g) == a * f + a * g + b * f + b * g) by (nonlinear_arith);
        assert(a * (a * ss) == (a * a) * ss && b * (b * tt) == (b * b) * tt) by (nonlinear_arith);
        assert(a * (b * tt) == (a * b) * tt && b * (a * ss) == (a * b) * ss) by (nonlinear_arith);
    }
    assert((a + b) * n <= (a + b) * most) by (nonlinear_arith)
        requires
            n <= most,
            a >= 0 as real,
            b >= 0 as real,
    ;
}

proof fn lemma_within_claim(c: real, e: real, n: real, share: real)
    requires
        c > 0 as real,
        near(c * e, 1 as real, 34),
        n * n <= e * share,
        share <= 1 as real + grain(),
        share >= 0 as real,
    ensures
        (c * n) * (c * n) <= c * (1 as real + 36 as real * grain()),
{
    let (ce, nn) = (c * e, n * n);
    let (g, k) = (1 as real + 34 as real * grain(), 1 as real + 36 as real * grain());
    assert(1 as real * g == g) by (nonlinear_arith);
    lemma_regrouped(c, n, c, n);
    let cc = c * c;
    assert(cc > 0 as real) by (nonlinear_arith)
        requires
            cc == c * c,
            c > 0 as real,
    ;
    let es = e * share;
    assert(cc * nn <= cc * es) by (nonlinear_arith)
        requires
            nn <= es,
            cc > 0 as real,
    ;
    assert((c * c) * (e * share) == c * ((c * e) * share)) by (nonlinear_arith);
    let u = ce * share;
    assert(u <= k) by {
        let h = grain();
        let m = 1 as real + h;
        assert(ce * share <= ce * m) by (nonlinear_arith)
            requires
                share <= m,
                ce > 0 as real,
        ;
        assert(ce * m <= g * m) by (nonlinear_arith)
            requires
                ce <= g,
                m > 0 as real,
        ;
        assert(g * m <= k) by (nonlinear_arith)
            requires
                g == 1 as real + 34 as real * h,
                m == 1 as real + h,
                k == 1 as real + 36 as real * h,
                h == (1 as real) / (0x80_0000 as real),
        ;
    }
    assert(c * u <= c * k) by (nonlinear_arith)
        requires
            u <= k,
            c > 0 as real,
    ;
}

} // verus!
