//! What the time to a collision means, in real numbers.
use crate::avoid::{collision_time, discriminant, entry_time, overlaps};
use crate::cauchy::lemma_bulk;
use crate::config::{FOUR, MINUS_TWO, MIN_CLOSING, TWO};
use crate::error::{
    eps, lemma_less_value, lemma_negated_value, lemma_no_value, lemma_product_error,
    lemma_quotient_error, lemma_root_error, lemma_square_sign, lemma_sum_error, lemma_tiny,
    lemma_tiny_cubed, lemma_tiny_fourth, lemma_units, size, tiny, value,
};
use crate::metric::{
    bulk, finite, inner, lemma_inner_error, lemma_product_size, lemma_small, lemma_small_part,
    lemma_square_error, lemma_term_size,
};
use crate::number::{
    decode, infinity, is_nought, less, limit, quotient, square_root, sum, unit, zero, Number,
};
use crate::vector::V3;
use vstd::arithmetic::power2::{lemma2_to64, lemma_pow2_adds, lemma_pow2_pos, pow2};
use vstd::prelude::*;

verus! {

/// The square of the distance to a body at `rel` after the time `t`, when it is
/// approached with the velocity `w`.
pub open spec fn gap(rel: V3, w: V3, t: real) -> real {
    let x = value(rel.x) - value(w.x) * t;
    let y = value(rel.y) - value(w.y) * t;
    let z = value(rel.z) - value(w.z) * t;
    x * x + y * y + z * z
}

proof fn lemma_gap_part(r: real, w: real, t: real)
    ensures
        (r - w * t) * (r - w * t) == r * r - 2 as real * (t * (r * w)) + (t * t) * (w * w),
{
    let m = w * t;
    assert((r - m) * (r - m) == r * r - 2 as real * (r * m) + m * m) by (nonlinear_arith);
    assert(r * (w * t) == t * (r * w)) by (nonlinear_arith);
    assert((w * t) * (w * t) == (t * t) * (w * w)) by (nonlinear_arith);
}

proof fn lemma_three(k: real, a: real, b: real, c: real)
    ensures
        k * (a + b + c) == k * a + k * b + k * c,
{
    assert(k * (a + b + c) == k * a + k * b + k * c) by (nonlinear_arith);
}

/// The distance as a polynomial in the time.
proof fn lemma_gap(rel: V3, w: V3, t: real)
    ensures
        gap(rel, w, t) == inner(rel, rel) - 2 as real * (t * inner(rel, w)) + (t * t) * inner(w, w),
{
    let (x, y, z) = (value(rel.x), value(rel.y), value(rel.z));
    let (a, b, c) = (value(w.x), value(w.y), value(w.z));
    lemma_gap_part(x, a, t);
    lemma_gap_part(y, b, t);
    lemma_gap_part(z, c, t);
    lemma_three(t, x * a, y * b, z * c);
    lemma_three(t * t, a * a, b * b, c * c);
}

/// The polynomial with its square completed.
proof fn lemma_completed(g: real, d: real, a: real, t: real, c: real, rr: real)
    requires
        c == g - rr,
    ensures
        ({
            let y = 2 as real * (a * t) - 2 as real * d;
            4 as real * (a * (g - 2 as real * (t * d) + (t * t) * a - rr)) == y * y - (4 as real * (
            d * d) - 4 as real * (a * c))
        }),
{
    let (at, td) = (a * t, t * d);
    let y = 2 as real * at - 2 as real * d;
    assert(y * y == 4 as real * (at * at) - 8 as real * (at * d) + 4 as real * (d * d))
        by (nonlinear_arith)
        requires
            y == 2 as real * at - 2 as real * d,
    ;
    assert((a * t) * (a * t) == a * ((t * t) * a)) by (nonlinear_arith);
    assert((a * t) * d == a * (t * d)) by (nonlinear_arith);
    let (u, v) = ((t * t) * a, t * d);
    assert(a * (g - 2 as real * v + u - rr) == a * c - 2 as real * (a * v) + a * u)
        by (nonlinear_arith)
        requires
            c == g - rr,
    ;
}

/// What bounds the inner product of `rel` and `w`, and is not quite nothing.
spec fn reach(rel: V3, w: V3) -> real {
    bulk(rel, w) + eps()
}

/// The linear coefficient: minus two times the inner product.
proof fn lemma_linear(d: real, p: real, u: real, t: real, b: real)
    requires
        size(t - d) <= p * (4 as real * eps()) + 8 as real * tiny(),
        size(b - (-(2 as real)) * t) <= size((-(2 as real)) * t) * eps() + tiny(),
        size(d) <= p,
        u == p + eps(),
    ensures
        size(b + 2 as real * d) <= u * (11 as real * eps()),
        size(b) <= u * (21 as real / (10 as real)),
        u >= eps(),
{
    lemma_tiny();
    lemma_tiny_cubed();
    let (e, o) = (eps(), tiny());
    let ue = u * e;
    assert(p * (4 as real * e) == 4 as real * (p * e) && u * (11 as real * e) == 11 as real * ue
        && ue == p * e + e * e) by (nonlinear_arith)
        requires
            ue == u * e,
            u == p + e,
    ;
    assert(o * 1000 as real <= e * e) by (nonlinear_arith)
        requires
            o <= e * e * e,
            e == (1 as real) / (0x100_0000 as real),
    ;
    assert(p * e >= 0 as real) by (nonlinear_arith)
        requires
            p >= 0 as real,
            e > 0 as real,
    ;
    lemma_small_part(u, e);
    let m = size((-(2 as real)) * t);
    assert((-(2 as real)) * t == -(2 as real * t)) by (nonlinear_arith);
    assert(m == 2 as real * size(t));
    assert(size(t) <= u + 5 as real * ue);
    assert(m * e <= 2 as real * ue + ue / (10 as real)) by (nonlinear_arith)
        requires
            m <= 2 as real * u + u / (100 as real),
            ue == u * e,
            e > 0 as real,
            u > 0 as real,
    ;
    assert(u * (21 as real / (10 as real)) == 2 as real * u + u / (10 as real))
        by (nonlinear_arith);
}

/// Its square.
proof fn lemma_linear_square(d: real, u: real, b: real, bb: real)
    requires
        size(b + 2 as real * d) <= u * (11 as real * eps()),
        size(b) <= u * (21 as real / (10 as real)),
        size(d) <= u,
        size(bb - b * b) <= size(b * b) * eps() + tiny(),
        u >= eps(),
    ensures
        size(b * b - 4 as real * (d * d)) <= (u * u) * (46 as real * eps()),
        size(bb - 4 as real * (d * d)) <= (u * u) * (52 as real * eps()),
        b * b <= (u * u) * (9 as real / (2 as real)),
        bb <= (u * u) * (46 as real / (10 as real)),
        b * b >= 0 as real,
        d * d <= u * u,
{
    lemma_tiny();
    lemma_tiny_cubed();
    let (e, o, uu) = (eps(), tiny(), u * u);
    let h = b + 2 as real * d;
    let k = b - 2 as real * d;
    assert(h * k == b * b - 4 as real * (d * d)) by (nonlinear_arith)
        requires
            h == b + 2 as real * d,
            k == b - 2 as real * d,
    ;
    let (x, y) = (u * (11 as real * e), u * (41 as real / (10 as real)));
    assert(u * (21 as real / (10 as real)) == 21 as real * u / (10 as real)) by (nonlinear_arith);
    assert(y == 41 as real * u / (10 as real)) by (nonlinear_arith)
        requires
            y == u * (41 as real / (10 as real)),
    ;
    lemma_product_size(h, k, x, y);
    assert(x * y == (451 as real / (10 as real)) * (uu * e)) by (nonlinear_arith)
        requires
            x == u * (11 as real * e),
            y == u * (41 as real / (10 as real)),
            uu == u * u,
    ;
    let w = u * (21 as real / (10 as real));
    lemma_product_size(b, b, w, w);
    assert(w * w == (441 as real / (100 as real)) * uu) by (nonlinear_arith)
        requires
            w == u * (21 as real / (10 as real)),
            uu == u * u,
    ;
    lemma_product_size(d, d, u, u);
    lemma_square_sign(b);
    lemma_square_sign(u);
    lemma_square_sign(d);
    let bq = b * b;
    assert(bq * e <= (441 as real / (100 as real)) * (uu * e)) by (nonlinear_arith)
        requires
            bq <= (441 as real / (100 as real)) * uu,
            e > 0 as real,
    ;
    assert(uu >= e * e) by (nonlinear_arith)
        requires
            uu == u * u,
            u >= e,
            e > 0 as real,
    ;
    assert(o <= uu * e) by (nonlinear_arith)
        requires
            uu >= e * e,
            o <= e * e * e,
            e > 0 as real,
    ;
    lemma_small_part(uu, e);
    assert(uu * (46 as real * e) == 46 as real * (uu * e) && uu * (52 as real * e) == 52 as real * (
    uu * e)) by (nonlinear_arith);
    assert(uu * (9 as real / (2 as real)) == 9 as real * uu / (2 as real) && uu * (46 as real / (
    10 as real)) == 46 as real * uu / (10 as real)) by (nonlinear_arith);
}

/// The constant coefficient: how far outside the radius the body is.
proof fn lemma_constant(g: real, q: real, pp: real, rr: real, c: real)
    requires
        g >= q,
        q >= 0 as real,
        size(pp - g) <= g * (4 as real * eps()) + 8 as real * tiny(),
        size(rr - q) <= size(q) * eps() + tiny(),
        size(c - (pp - rr)) <= size(pp - rr) * eps() + tiny(),
    ensures
        size(c - (g - q)) <= (g + 1 as real) * (7 as real * eps()),
{
    lemma_tiny();
    lemma_tiny_cubed();
    let (e, o, s) = (eps(), tiny(), g + 1 as real);
    assert(g * (4 as real * e) == 4 as real * (g * e) && s * (7 as real * e) == 7 as real * (g * e)
        + 7 as real * e) by (nonlinear_arith)
        requires
            s == g + 1 as real,
    ;
    assert(q * e <= g * e && q * e >= 0 as real) by (nonlinear_arith)
        requires
            q <= g,
            q >= 0 as real,
            e > 0 as real,
    ;
    assert(o * 1000 as real <= e) by (nonlinear_arith)
        requires
            o <= e * e * e,
            e == (1 as real) / (0x100_0000 as real),
    ;
    lemma_small_part(g, e);
    let m = size(pp - rr);
    assert(m <= g + 5 as real * (g * e) + 10 as real * o);
    let most = g + g / (100 as real) + 1 as real / (100 as real);
    assert(m * e <= most * e) by (nonlinear_arith)
        requires
            m <= most,
            e > 0 as real,
    ;
    assert(most * e == g * e + (g * e) / (100 as real) + e / (100 as real)) by (nonlinear_arith)
        requires
            most == g + g / (100 as real) + 1 as real / (100 as real),
    ;
}

/// Four times the leading coefficient, and that times the constant one; `s`
/// bounds the constant.
proof fn lemma_leading(a: real, c: real, s: real, av: real, qv: real, cv: real, q2: real)
    requires
        a >= eps(),
        size(av - a) <= a * (4 as real * eps()) + 8 as real * tiny(),
        size(qv - 4 as real * av) <= size(4 as real * av) * eps() + tiny(),
        size(cv - c) <= s * (7 as real * eps()),
        size(q2 - qv * cv) <= size(qv * cv) * eps() + tiny(),
        c >= 0 as real,
        c <= s,
        s >= 1 as real,
    ensures
        size(av - a) <= a * (5 as real * eps()),
        size(qv - 4 as real * a) <= a * (25 as real * eps()),
        size(q2 - 4 as real * (a * c)) <= (a * s) * (62 as real * eps()),
{
    lemma_tiny();
    lemma_tiny_cubed();
    let (e, o) = (eps(), tiny());
    let ae = a * e;
    assert(a * (4 as real * e) == 4 as real * ae && a * (5 as real * e) == 5 as real * ae && a * (
    25 as real * e) == 25 as real * ae) by (nonlinear_arith)
        requires
            ae == a * e,
    ;
    assert(o * 1000 as real <= ae) by (nonlinear_arith)
        requires
            o <= e * e * e,
            e == (1 as real) / (0x100_0000 as real),
            a >= e,
            ae == a * e,
    ;
    lemma_small_part(a, e);
    let m = size(4 as real * av);
    assert(m * e <= 4 as real * ae + ae / (10 as real)) by (nonlinear_arith)
        requires
            m <= 4 as real * a + a / (25 as real),
            ae == a * e,
            e > 0 as real,
            a > 0 as real,
    ;
    lemma_leading_product(a, c, s, qv, cv, q2);
}

proof fn lemma_leading_product(a: real, c: real, s: real, qv: real, cv: real, q2: real)
    requires
        a >= eps(),
        size(qv - 4 as real * a) <= a * (25 as real * eps()),
        size(cv - c) <= s * (7 as real * eps()),
        size(q2 - qv * cv) <= size(qv * cv) * eps() + tiny(),
        c >= 0 as real,
        c <= s,
        s >= 1 as real,
    ensures
        size(q2 - 4 as real * (a * c)) <= (a * s) * (62 as real * eps()),
{
    lemma_tiny();
    lemma_tiny_cubed();
    let (e, o) = (eps(), tiny());
    let (f, dq, dc) = (a * s, qv - 4 as real * a, cv - c);
    let fe = f * e;
    assert(qv * cv == 4 as real * (a * c) + 4 as real * (a * dc) + dq * cv) by (nonlinear_arith)
        requires
            dq == qv - 4 as real * a,
            dc == cv - c,
    ;
    lemma_product_size(a, dc, a, s * (7 as real * e));
    assert(a * (s * (7 as real * e)) == 7 as real * fe) by (nonlinear_arith)
        requires
            fe == f * e,
            f == a * s,
    ;
    lemma_small_part(s, e);
    assert(s * (7 as real * e) == 7 as real * (s * e)) by (nonlinear_arith);
    let m = s + s / (100 as real);
    lemma_product_size(dq, cv, a * (25 as real * e), m);
    assert((a * (25 as real * e)) * m == 25 as real * fe + fe / (4 as real)) by (nonlinear_arith)
        requires
            fe == f * e,
            f == a * s,
            m == s + s / (100 as real),
    ;
    lemma_product_size(a, c, a, s);
    let k = size(qv * cv);
    assert(f >= a) by (nonlinear_arith)
        requires
            f == a * s,
            s >= 1 as real,
            a > 0 as real,
    ;
    lemma_small_part(f, e);
    assert(k <= 4 as real * f + f / (10 as real));
    assert(k * e <= 4 as real * fe + fe / (10 as real)) by (nonlinear_arith)
        requires
            k <= 4 as real * f + f / (10 as real),
            fe == f * e,
            e > 0 as real,
    ;
    assert(o * 1000 as real <= fe) by (nonlinear_arith)
        requires
            o <= e * e * e,
            e == (1 as real) / (0x100_0000 as real),
            f >= e,
            fe == f * e,
    ;
    assert(f * (62 as real * e) == 62 as real * fe) by (nonlinear_arith)
        requires
            fe == f * e,
    ;
}

/// The discriminant; `f` is the leading coefficient times `s`.
proof fn lemma_disc(dd: real, ac: real, uu: real, f: real, bb: real, q2: real, disc: real)
    requires
        size(bb - 4 as real * dd) <= uu * (52 as real * eps()),
        size(q2 - 4 as real * ac) <= f * (62 as real * eps()),
        size(disc - (bb - q2)) <= size(bb - q2) * eps() + tiny(),
        uu <= 2 as real * f,
        uu >= 0 as real,
        dd >= 0 as real,
        dd <= uu,
        ac >= 0 as real,
        ac <= f,
        f >= eps(),
    ensures
        size(disc - (4 as real * dd - 4 as real * ac)) <= f * (200 as real * eps()),
{
    lemma_tiny();
    lemma_tiny_cubed();
    let (e, o) = (eps(), tiny());
    let fe = f * e;
    assert(uu * (52 as real * e) <= 104 as real * fe) by (nonlinear_arith)
        requires
            uu <= 2 as real * f,
            fe == f * e,
            e > 0 as real,
    ;
    assert(f * (62 as real * e) == 62 as real * fe && f * (200 as real * e) == 200 as real * fe)
        by (nonlinear_arith)
        requires
            fe == f * e,
    ;
    lemma_small_part(f, e);
    let m = size(bb - q2);
    assert(m <= 13 as real * f);
    assert(m * e <= 13 as real * fe) by (nonlinear_arith)
        requires
            m <= 13 as real * f,
            fe == f * e,
            e > 0 as real,
    ;
    assert(o <= fe) by (nonlinear_arith)
        requires
            o <= e * e * e,
            e == (1 as real) / (0x100_0000 as real),
            f >= e,
            fe == f * e,
    ;
}

/// The square of the rounded root; `delta` is the exact discriminant.
proof fn lemma_root_square(s: real, disc: real, delta: real, f: real)
    requires
        size(s * s - disc) <= disc * (4 as real * eps()),
        disc >= 0 as real,
        size(disc - delta) <= f * (200 as real * eps()),
        delta <= 8 as real * f,
        f > 0 as real,
    ensures
        size(s * s - delta) <= f * (240 as real * eps()),
{
    lemma_tiny();
    let (e, fe) = (eps(), f * eps());
    lemma_small_part(f, e);
    assert(f * (200 as real * e) == 200 as real * fe && f * (240 as real * e) == 240 as real * fe)
        by (nonlinear_arith)
        requires
            fe == f * e,
    ;
    assert(disc <= 9 as real * f);
    assert(disc * (4 as real * e) <= 36 as real * fe) by (nonlinear_arith)
        requires
            disc <= 9 as real * f,
            fe == f * e,
            e > 0 as real,
    ;
}

/// A body that is clearly outside: the root is less than the linear coefficient.
proof fn lemma_clear_root(s: real, b: real, dd: real, ac: real, uu: real, f: real)
    requires
        size(s * s - (4 as real * dd - 4 as real * ac)) <= f * (240 as real * eps()),
        size(b * b - 4 as real * dd) <= uu * (46 as real * eps()),
        ac >= f * (1024 as real * eps()),
        uu <= 2 as real * f,
        f > 0 as real,
    ensures
        s * s + f * (3700 as real * eps()) <= b * b,
{
    lemma_tiny();
    let (e, fe) = (eps(), f * eps());
    assert(f * (240 as real * e) == 240 as real * fe && f * (1024 as real * e) == 1024 as real * fe
        && f * (3700 as real * e) == 3700 as real * fe) by (nonlinear_arith)
        requires
            fe == f * e,
    ;
    assert(uu * (46 as real * e) <= 92 as real * fe) by (nonlinear_arith)
        requires
            uu <= 2 as real * f,
            fe == f * e,
            e > 0 as real,
    ;
    lemma_small_part(f, e);
}

/// What is left of the linear coefficient `b` when the root `s` is taken away.
proof fn lemma_left(b: real, s: real, u: real, f: real)
    requires
        b > 0 as real,
        s >= 0 as real,
        s * s + f * (3700 as real * eps()) <= b * b,
        b <= u * (21 as real / (10 as real)),
        u * u <= 2 as real * f,
        u >= eps(),
    ensures
        b - s >= u * (400 as real * eps()),
        b - s > 0 as real,
        b + s <= u * (42 as real / (10 as real)),
        s <= u * (21 as real / (10 as real)),
{
    lemma_tiny();
    let (e, fe, uu) = (eps(), f * eps(), u * u);
    assert(f * (3700 as real * e) == 3700 as real * fe) by (nonlinear_arith)
        requires
            fe == f * e,
    ;
    let ue = u * e;
    assert(fe >= (u * ue) / (2 as real)) by (nonlinear_arith)
        requires
            u * u <= 2 as real * f,
            fe == f * e,
            ue == u * e,
            e > 0 as real,
    ;
    assert(ue > 0 as real && u * ue > 0 as real) by (nonlinear_arith)
        requires
            ue == u * e,
            u >= e,
            e > 0 as real,
    ;
    assert(s < b) by (nonlinear_arith)
        requires
            s * s < b * b,
            b > 0 as real,
            s >= 0 as real,
    ;
    let (x, y) = (b - s, b + s);
    assert(x * y == b * b - s * s) by (nonlinear_arith)
        requires
            x == b - s,
            y == b + s,
    ;
    let w = u * (42 as real / (10 as real));
    assert(u * (21 as real / (10 as real)) == 21 as real * u / (10 as real) && w == 42 as real * u
        / (10 as real)) by (nonlinear_arith)
        requires
            w == u * (42 as real / (10 as real)),
    ;
    assert(x * y <= x * w) by (nonlinear_arith)
        requires
            y <= w,
            x > 0 as real,
    ;
    let z = 400 as real * ue;
    assert(u * (400 as real * e) == z) by (nonlinear_arith)
        requires
            z == 400 as real * ue,
            ue == u * e,
    ;
    assert(x >= z) by (nonlinear_arith)
        requires
            x * w >= 1850 as real * (u * ue),
            w == 42 as real * u / (10 as real),
            z == 400 as real * ue,
            u > 0 as real,
            ue > 0 as real,
    ;
}

/// The time of entry times twice the leading coefficient is what is left, `x`.
proof fn lemma_time(a: real, x: real, u: real, av: real, m: real, n: real, t0: real, t: real)
    requires
        a >= eps(),
        a <= 0x100_0000 as real,
        u >= eps(),
        x >= u * (400 as real * eps()),
        size(av - a) <= a * (5 as real * eps()),
        size(m - 2 as real * av) <= size(2 as real * av) * eps() + tiny(),
        size(n - x) <= size(x) * eps() + tiny(),
        t0 * m == n,
        size(t - t0) <= size(t0) * eps() + tiny(),
    ensures
        m > 0 as real,
        n > 0 as real,
        t0 > 0 as real,
        t > 0 as real,
        size(2 as real * (a * t) - x) <= x * (9 as real * eps()),
{
    lemma_tiny();
    lemma_tiny_fourth();
    lemma_tiny_cubed();
    let (e, o) = (eps(), tiny());
    let (ae, xe) = (a * e, x * e);
    assert(x >= 400 as real * (e * e)) by (nonlinear_arith)
        requires
            x >= u * (400 as real * e),
            u >= e,
            e > 0 as real,
    ;
    assert(o * 1000 as real <= ae && ae > 0 as real) by (nonlinear_arith)
        requires
            o <= e * e * e,
            e == (1 as real) / (0x100_0000 as real),
            a >= e,
            ae == a * e,
    ;
    assert(o * (0x1000_0000 as real) <= xe && xe > 0 as real) by (nonlinear_arith)
        requires
            o <= e * e * e * e,
            e == (1 as real) / (0x100_0000 as real),
            x >= 400 as real * (e * e),
            xe == x * e,
    ;
    lemma_small_part(a, e);
    lemma_small_part(x, e);
    assert(a * (5 as real * e) == 5 as real * ae) by (nonlinear_arith)
        requires
            ae == a * e,
    ;
    let k = size(2 as real * av);
    assert(k * e <= 2 as real * ae + ae / (10 as real)) by (nonlinear_arith)
        requires
            k <= 2 as real * a + a / (50 as real),
            ae == a * e,
            e > 0 as real,
            a > 0 as real,
    ;
    let j = m - 2 as real * a;
    assert(size(j) <= 13 as real * ae);
    assert(n <= x + x / (100 as real) && n >= x - x / (100 as real));
    lemma_time_quotient(a, x, m, n, t0, t, j);
}

proof fn lemma_time_quotient(a: real, x: real, m: real, n: real, t0: real, t: real, j: real)
    requires
        a > 0 as real,
        a <= 0x100_0000 as real,
        x > 0 as real,
        j == m - 2 as real * a,
        size(j) <= 13 as real * (a * eps()),
        size(n - x) <= x * eps() + tiny(),
        n <= x + x / (100 as real),
        n >= x - x / (100 as real),
        t0 * m == n,
        size(t - t0) <= size(t0) * eps() + tiny(),
        tiny() * (0x1000_0000 as real) <= x * eps(),
    ensures
        t0 > 0 as real,
        t > 0 as real,
        size(2 as real * (a * t) - x) <= x * (9 as real * eps()),
{
    lemma_tiny();
    let (e, o) = (eps(), tiny());
    let (ae, xe, at) = (a * e, x * e, a * t0);
    lemma_small_part(a, e);
    lemma_small_part(x, e);
    assert(m > a);
    assert(t0 > 0 as real) by (nonlinear_arith)
        requires
            t0 * m == n,
            n > 0 as real,
            m > 0 as real,
    ;
    let jt = j * t0;
    assert(2 as real * at == n - jt) by (nonlinear_arith)
        requires
            t0 * m == n,
            j == m - 2 as real * a,
            at == a * t0,
            jt == j * t0,
    ;
    assert(at > 0 as real) by (nonlinear_arith)
        requires
            at == a * t0,
            a > 0 as real,
            t0 > 0 as real,
    ;
    assert(size(jt) <= 13 as real * (at * e)) by (nonlinear_arith)
        requires
            jt == j * t0,
            size(j) <= 13 as real * ae,
            ae == a * e,
            at == a * t0,
            t0 > 0 as real,
    ;
    lemma_small_part(at, e);
    assert(2 as real * at <= x + x / (50 as real));
    assert(at * e <= (51 as real / (100 as real)) * xe) by (nonlinear_arith)
        requires
            at <= (51 as real / (100 as real)) * x,
            xe == x * e,
            e > 0 as real,
    ;
    // What rounding the quotient does.
    let h = t - t0;
    let ah = a * h;
    assert(size(ah) <= at * e + a * o) by (nonlinear_arith)
        requires
            ah == a * h,
            size(h) <= t0 * e + o,
            at == a * t0,
            a > 0 as real,
    ;
    assert(a * o <= 0x100_0000 as real * o) by (nonlinear_arith)
        requires
            a <= 0x100_0000 as real,
            o > 0 as real,
    ;
    assert(a * t == at + ah) by (nonlinear_arith)
        requires
            h == t - t0,
            at == a * t0,
            ah == a * h,
    ;
    assert(x * (9 as real * e) == 9 as real * xe) by (nonlinear_arith)
        requires
            xe == x * e,
    ;
    assert(a * t > 0 as real);
    assert(t > 0 as real) by (nonlinear_arith)
        requires
            a * t > 0 as real,
            a > 0 as real,
    ;
}

/// The polynomial at the time of entry and before it: `y` is twice the leading
/// coefficient times the time of entry, less twice the inner product, and `z` the
/// same at an earlier time.
proof fn lemma_at_entry(y: real, z: real, s: real, u: real, f: real, delta: real)
    requires
        size(y + s) <= u * (30 as real * eps()),
        z <= y,
        s >= 0 as real,
        s <= u * (21 as real / (10 as real)),
        u >= eps(),
        u * u <= 2 as real * f,
        size(s * s - delta) <= f * (240 as real * eps()),
    ensures
        y * y - delta <= f * (512 as real * eps()),
        z * z - delta >= -(f * (512 as real * eps())),
{
    lemma_tiny();
    let (e, fe, uu) = (eps(), f * eps(), u * u);
    let k = u * (30 as real * e);
    lemma_small_part(u, e);
    assert(k == 30 as real * (u * e)) by (nonlinear_arith)
        requires
            k == u * (30 as real * e),
    ;
    assert(u * (21 as real / (10 as real)) == 21 as real * u / (10 as real)) by (nonlinear_arith);
    let (p, q) = (y + s, y - s);
    assert(p * q == y * y - s * s) by (nonlinear_arith)
        requires
            p == y + s,
            q == y - s,
    ;
    let w = 43 as real * u / (10 as real);
    lemma_product_size(p, q, k, w);
    let v = u * (u * e);
    assert(k * w == 129 as real * v) by (nonlinear_arith)
        requires
            k == 30 as real * (u * e),
            w == 43 as real * u / (10 as real),
            v == u * (u * e),
    ;
    assert(v <= 2 as real * fe && v >= 0 as real) by (nonlinear_arith)
        requires
            v == u * (u * e),
            u * u <= 2 as real * f,
            fe == f * e,
            e > 0 as real,
            u > 0 as real,
    ;
    assert(f * (240 as real * e) == 240 as real * fe && f * (512 as real * e) == 512 as real * fe)
        by (nonlinear_arith)
        requires
            fe == f * e,
    ;
    lemma_square_sign(z);
    let l = 21 as real * u / (10 as real);
    assert(k * l == 63 as real * v) by (nonlinear_arith)
        requires
            k == 30 as real * (u * e),
            l == 21 as real * u / (10 as real),
            v == u * (u * e),
    ;
    if s >= k {
        let r = s - k;
        assert(z <= -r);
        assert(z * z >= r * r) by (nonlinear_arith)
            requires
                z <= -r,
                r >= 0 as real,
        ;
        assert(r * r >= s * s - 2 as real * (k * s)) by (nonlinear_arith)
            requires
                r == s - k,
        ;
        lemma_product_size(k, s, k, l);
    } else {
        assert(s * s <= k * l) by (nonlinear_arith)
            requires
                s <= k,
                s <= l,
                s >= 0 as real,
        ;
    }
}

/// A bound on the completed square bounds the distance; `h` is the square of the
/// distance less that of the radius.
proof fn lemma_divided(a: real, h: real, s: real, v: real)
    requires
        a > 0 as real,
        4 as real * (a * h) == v,
    ensures
        v <= (a * s) * (512 as real * eps()) ==> h <= s * (128 as real * eps()),
        v >= -((a * s) * (512 as real * eps())) ==> h >= -(s * (128 as real * eps())),
{
    let k = s * (128 as real * eps());
    assert((a * s) * (512 as real * eps()) == 4 as real * (a * k)) by {
        let e = eps();
        assert((a * s) * (512 as real * e) == 4 as real * (a * (s * (128 as real * e))))
            by (nonlinear_arith);
    }
    if v <= 4 as real * (a * k) {
        assert(h <= k) by (nonlinear_arith)
            requires
                a * h <= a * k,
                a > 0 as real,
        ;
    }
    if v >= -(4 as real * (a * k)) {
        let (p, q) = (-h, k);
        assert(a * (-h) == -(a * h)) by (nonlinear_arith);
        assert(p <= q) by (nonlinear_arith)
            requires
                a * p <= a * q,
                a > 0 as real,
        ;
    }
}

proof fn lemma_constants()
    ensures
        decode(TWO) is Finite,
        decode(FOUR) is Finite,
        decode(MINUS_TWO) is Finite,
        decode(MIN_CLOSING) is Finite,
        value(decode(TWO)) == 2 as real,
        value(decode(FOUR)) == 4 as real,
        value(decode(MINUS_TWO)) == -(2 as real),
        value(decode(MIN_CLOSING)) >= 15 as real * eps(),
{
    lemma2_to64();
    lemma_units(decode(TWO), 0x80_0000, 127, 22);
    lemma_units(decode(FOUR), 0x80_0000, 128, 21);
    assert(pow2(22) as real == 0x40_0000 as real && pow2(21) as real == 0x20_0000 as real);
    assert(decode(MINUS_TWO) == -decode(TWO));
    lemma_negated_value(decode(TWO));
    let (x, y) = (value(decode(TWO)), value(decode(FOUR)));
    assert(x * (0x40_0000 as real) == 0x80_0000 as real && y * (0x20_0000 as real)
        == 0x80_0000 as real);
    lemma_units(decode(MIN_CLOSING), 0x86_37bd, 106, 43);
    let z = value(decode(MIN_CLOSING));
    assert(pow2(43) as real == 0x800_0000_0000 as real) by {
        lemma_pow2_adds(32, 11);
    }
    assert(z * (0x800_0000_0000 as real) == 0x86_37bd as real);
}

/// Whether the components are finite and at most `most`.
pub open spec fn is_bounded(v: V3, most: real) -> bool {
    &&& finite(v)
    &&& size(value(v.x)) <= most
    &&& size(value(v.y)) <= most
    &&& size(value(v.z)) <= most
}

proof fn lemma_lengths(v: V3, most: real)
    requires
        is_bounded(v, most),
        most <= 0x2000 as real,
        most >= 0 as real,
    ensures
        inner(v, v) >= 0 as real,
        inner(v, v) <= 3 as real * (most * most),
        v.length_squared() is Finite,
        size(value(v.length_squared()) - inner(v, v)) <= inner(v, v) * (4 as real * eps())
            + 8 as real * tiny(),
{
    let (x, y, z) = (value(v.x), value(v.y), value(v.z));
    lemma_product_size(x, x, most, most);
    lemma_product_size(y, y, most, most);
    lemma_product_size(z, z, most, most);
    lemma_square_sign(x);
    lemma_square_sign(y);
    lemma_square_sign(z);
    assert(most * most <= 0x400_0000 as real) by (nonlinear_arith)
        requires
            most <= 0x2000 as real,
            most >= 0 as real,
    ;
    lemma_inner_error(v, v);
    lemma_square_error(v);
}

/// What the rounded coefficients and the discriminant are near to. `u` is the
/// reach and `f` the leading coefficient times `s`, the squared distance and one
/// more.
proof fn lemma_coefficients(rel: V3, w: V3, radius: Number)
    requires
        is_bounded(rel, 0x2000 as real),
        is_bounded(w, 0x800 as real),
        radius is Finite,
        size(value(radius)) <= 0x2000 as real,
        value(radius) * value(radius) <= inner(rel, rel),
        inner(w, w) >= 8 as real * eps(),
    ensures
        ({
            let (g, a, d) = (inner(rel, rel), inner(w, w), inner(rel, w));
            let (c, s, u) = (g - value(radius) * value(radius), g + 1 as real, reach(rel, w));
            let b = decode(MINUS_TWO) * rel.dot(w);
            let disc = discriminant(rel, w, radius);
            &&& b is Finite
            &&& disc is Finite
            &&& w.length_squared() is Finite
            &&& size(value(w.length_squared()) - a) <= a * (5 as real * eps())
            &&& size(value(b) + 2 as real * d) <= u * (11 as real * eps())
            &&& size(value(b)) <= u * (21 as real / (10 as real))
            &&& size(value(b) * value(b) - 4 as real * (d * d)) <= (u * u) * (46 as real * eps())
            &&& u >= eps()
            &&& u * u <= 2 as real * (a * s)
            &&& d * d <= u * u
            &&& size(d) <= u
            &&& a <= 0x100_0000 as real
            &&& size(value(disc) - (4 as real * (d * d) - 4 as real * (a * c))) <= (a * s) * (
            200 as real * eps())
        }),
{
    lemma_tiny();
    lemma_constants();
    lemma_lengths(rel, 0x2000 as real);
    lemma_lengths(w, 0x800 as real);
    lemma_bulk(rel, w);
    let e = eps();
    let (g, a, d, p) = (inner(rel, rel), inner(w, w), inner(rel, w), bulk(rel, w));
    let rho = value(radius);
    let (q, s, u) = (rho * rho, g + 1 as real, reach(rel, w));
    let c = g - q;
    assert(g <= 0xc00_0000 as real && a <= 0xc0_0000 as real);
    lemma_bulk_size(rel, w);
    lemma_inner_error(rel, w);
    let dt = rel.dot(w);
    lemma_product_size(value(decode(MINUS_TWO)), value(dt), 2 as real, 0x1000_0000 as real);
    lemma_product_error(decode(MINUS_TWO), dt);
    let b = decode(MINUS_TWO) * dt;
    lemma_linear(d, p, u, value(dt), value(b));
    lemma_square_of_reach(p, g, a, u, s);
    lemma_product_size(value(b), value(b), 0x1000_0000 as real, 0x1000_0000 as real);
    lemma_product_error(b, b);
    let bb = b * b;
    lemma_linear_square(d, u, value(b), value(bb));
    lemma_product_size(rho, rho, 0x2000 as real, 0x2000 as real);
    lemma_square_sign(rho);
    lemma_product_error(radius, radius);
    let (pp, rr) = (rel.length_squared(), radius * radius);
    lemma_negated_value(rr);
    lemma_term_size(value(rr), q);
    lemma_term_size_of_length(value(pp), g);
    lemma_sum_error(pp, -rr);
    let cf = pp - rr;
    lemma_constant(g, q, value(pp), value(rr), value(cf));
    let av = w.length_squared();
    lemma_term_size_of_length(value(av), a);
    lemma_product_size(4 as real, value(av), 4 as real, 0x200_0000 as real);
    lemma_product_error(decode(FOUR), av);
    let qf = decode(FOUR) * av;
    lemma_term_size(value(qf), 4 as real * value(av));
    lemma_term_size(value(cf), value(pp) - value(rr));
    lemma_product_size(value(qf), value(cf), 0x2000_0000 as real, 0x8000_0000 as real);
    lemma_product_error(qf, cf);
    let q2 = qf * cf;
    lemma_leading(a, c, s, value(av), value(qf), value(cf), value(q2));
    lemma_term_size(value(bb), value(b) * value(b));
    lemma_term_size(value(q2), value(qf) * value(cf));
    lemma_negated_value(q2);
    lemma_sum_error(bb, -q2);
    let disc = bb - q2;
    assert(disc == discriminant(rel, w, radius));
    let f = a * s;
    assert(f >= a) by (nonlinear_arith)
        requires
            f == a * s,
            s >= 1 as real,
            a > 0 as real,
    ;
    assert(a * c <= f && a * c >= 0 as real) by (nonlinear_arith)
        requires
            f == a * s,
            c <= s,
            c >= 0 as real,
            a > 0 as real,
    ;
    lemma_square_sign(d);
    lemma_square_sign(u);
    lemma_disc(d * d, a * c, u * u, f, value(bb), value(q2), value(disc));
}

proof fn lemma_term_size_of_length(got: real, exact: real)
    requires
        size(got - exact) <= exact * (4 as real * eps()) + 8 as real * tiny(),
        exact >= 0 as real,
    ensures
        size(got) <= 2 as real * exact + 1 as real,
{
    lemma_tiny();
    let e = eps();
    assert(exact * (4 as real * e) <= exact) by (nonlinear_arith)
        requires
            exact >= 0 as real,
            e == (1 as real) / (0x100_0000 as real),
    ;
}

proof fn lemma_bulk_size(rel: V3, w: V3)
    requires
        is_bounded(rel, 0x2000 as real),
        is_bounded(w, 0x800 as real),
    ensures
        bulk(rel, w) <= 0x300_0000 as real,
{
    lemma_product_size(value(rel.x), value(w.x), 0x2000 as real, 0x800 as real);
    lemma_product_size(value(rel.y), value(w.y), 0x2000 as real, 0x800 as real);
    lemma_product_size(value(rel.z), value(w.z), 0x2000 as real, 0x800 as real);
}

proof fn lemma_square_of_reach(p: real, g: real, a: real, u: real, s: real)
    requires
        u == p + eps(),
        p * p <= g * a,
        a >= 8 as real * eps(),
        s == g + 1 as real,
        p >= 0 as real,
    ensures
        u * u <= 2 as real * (a * s),
{
    lemma_tiny();
    let e = eps();
    lemma_square_sign(p - e);
    assert((p - e) * (p - e) == p * p - 2 as real * (p * e) + e * e) by (nonlinear_arith);
    assert(u * u == p * p + 2 as real * (p * e) + e * e) by (nonlinear_arith)
        requires
            u == p + e,
    ;
    assert(e * e <= e) by (nonlinear_arith)
        requires
            e == (1 as real) / (0x100_0000 as real),
    ;
    assert(a * s == g * a + a) by (nonlinear_arith)
        requires
            s == g + 1 as real,
    ;
}

/// The rounded root of a discriminant that is not negative.
proof fn lemma_root(disc: Number)
    requires
        disc is Finite,
        disc->mag < limit(),
        !less(disc, zero()),
    ensures
        square_root(disc) is Finite,
        value(square_root(disc)) >= 0 as real,
        size(value(square_root(disc)) * value(square_root(disc)) - value(disc)) <= value(disc) * (
        4 as real * eps()),
        value(disc) >= 0 as real,
{
    lemma_tiny();
    lemma_no_value(zero());
    lemma_less_value(disc, zero());
    if value(disc) > 0 as real {
        lemma_root_error(disc);
    } else {
        lemma_no_mag(disc);
        let r = square_root(disc);
        assert(is_nought(r)) by {
            reveal(square_root);
        }
        lemma_no_value(r);
        lemma_no_value(disc);
        assert(0 as real * (0 as real) == 0 as real && 0 as real * (4 as real * eps()) == 0 as real)
            by (nonlinear_arith);
    }
}

proof fn lemma_no_mag(a: Number)
    requires
        a is Finite,
        value(a) == 0 as real,
    ensures
        a->mag == 0,
{
    lemma_pow2_pos(149);
    let (m, u) = (a->mag as real, unit() as real);
    assert(m / u > 0 as real || m == 0 as real) by (nonlinear_arith)
        requires
            m >= 0 as real,
            u > 0 as real,
    ;
    assert((-m) / u == -(m / u)) by (nonlinear_arith)
        requires
            u > 0 as real,
    ;
}

/// How far outside the radius the body is, by the completed square.
proof fn lemma_gap_by_square(rel: V3, w: V3, q: real, t: real)
    ensures
        ({
            let (g, a, d) = (inner(rel, rel), inner(w, w), inner(rel, w));
            let y = 2 as real * (a * t) - 2 as real * d;
            4 as real * (a * (gap(rel, w, t) - q)) == y * y - (4 as real * (d * d) - 4 as real * (a
                * (g - q)))
        }),
{
    let (g, a, d) = (inner(rel, rel), inner(w, w), inner(rel, w));
    lemma_gap(rel, w, t);
    lemma_completed(g, d, a, t, g - q, q);
}

/// Where the discriminant is negative the body never comes near enough.
proof fn lemma_passes_by(rel: V3, w: V3, q: real, t: real)
    requires
        inner(w, w) > 0 as real,
        ({
            let (g, a, d) = (inner(rel, rel), inner(w, w), inner(rel, w));
            4 as real * (d * d) - 4 as real * (a * (g - q)) <= (a * (g + 1 as real)) * (512 as real
                * eps())
        }),
    ensures
        gap(rel, w, t) >= q - (inner(rel, rel) + 1 as real) * (128 as real * eps()),
{
    let (g, a, d) = (inner(rel, rel), inner(w, w), inner(rel, w));
    let y = 2 as real * (a * t) - 2 as real * d;
    lemma_gap_by_square(rel, w, q, t);
    lemma_square_sign(y);
    let delta = 4 as real * (d * d) - 4 as real * (a * (g - q));
    lemma_divided(a, gap(rel, w, t) - q, g + 1 as real, y * y - delta);
}

/// A body that moves away, or hardly comes nearer, stays outside.
proof fn lemma_moves_away(rel: V3, w: V3, q: real, u: real, t: real)
    requires
        inner(w, w) > 0 as real,
        inner(rel, w) <= u * (6 as real * eps()),
        u > 0 as real,
        u * u <= 2 as real * (inner(w, w) * (inner(rel, rel) + 1 as real)),
        inner(rel, rel) - q >= (inner(rel, rel) + 1 as real) * (1024 as real * eps()),
        inner(rel, rel) >= 0 as real,
        t >= 0 as real,
    ensures
        gap(rel, w, t) >= q - (inner(rel, rel) + 1 as real) * (128 as real * eps()),
{
    lemma_tiny();
    let e = eps();
    let (g, a, d) = (inner(rel, rel), inner(w, w), inner(rel, w));
    let (s, c) = (g + 1 as real, g - q);
    let f = a * s;
    let at = a * t;
    let y = 2 as real * at - 2 as real * d;
    lemma_gap_by_square(rel, w, q, t);
    let k = s * (1024 as real * e);
    assert(a * c >= a * k) by (nonlinear_arith)
        requires
            c >= k,
            a > 0 as real,
    ;
    assert(a * k == 1024 as real * (f * e)) by (nonlinear_arith)
        requires
            k == s * (1024 as real * e),
            f == a * s,
    ;
    assert(at >= 0 as real) by (nonlinear_arith)
        requires
            at == a * t,
            a > 0 as real,
            t >= 0 as real,
    ;
    assert(f > 0 as real) by (nonlinear_arith)
        requires
            f == a * s,
            a > 0 as real,
            s >= 1 as real,
    ;
    lemma_small_part(f, e);
    let v = y * y - (4 as real * (d * d) - 4 as real * (a * c));
    lemma_square_sign(y);
    if d > 0 as real {
        let m = u * (6 as real * e);
        assert(d * d <= m * m) by (nonlinear_arith)
            requires
                d <= m,
                d > 0 as real,
        ;
        lemma_square_sign(u);
        assert(m * m == 36 as real * (u * u * (e * e))) by (nonlinear_arith)
            requires
                m == u * (6 as real * e),
        ;
        let uu = u * u;
        assert(uu * (e * e) <= 2 as real * (f * e)) by (nonlinear_arith)
            requires
                uu <= 2 as real * f,
                uu >= 0 as real,
                e == (1 as real) / (0x100_0000 as real),
        ;
    } else {
        assert(y * y >= 4 as real * (d * d)) by (nonlinear_arith)
            requires
                y == 2 as real * at - 2 as real * d,
                at >= 0 as real,
                d <= 0 as real,
        ;
    }
    assert(f * (512 as real * e) == 512 as real * (f * e)) by (nonlinear_arith);
    lemma_divided(a, gap(rel, w, t) - q, s, v);
}

/// A quotient of a negative number by a positive one is not positive.
proof fn lemma_below(n: Number, m: Number)
    requires
        n is Finite,
        m is Finite,
        value(n) < 0 as real,
        value(m) > 0 as real,
    ensures
        !less(zero(), n / m),
{
    lemma_no_value(zero());
    lemma_less_value(n, zero());
    lemma_less_value(zero(), m);
    reveal(less);
    reveal(quotient);
}

/// A sum of about `x`, which is more than a few roundings.
proof fn lemma_some(n: real, x: real, u: real)
    requires
        u >= eps(),
        x >= u * (400 as real * eps()),
        size(n - x) <= size(x) * eps() + tiny(),
    ensures
        n > 0 as real,
        x > 0 as real,
{
    lemma_tiny();
    lemma_tiny_cubed();
    let (e, o) = (eps(), tiny());
    assert(x >= 400 as real * (e * e)) by (nonlinear_arith)
        requires
            x >= u * (400 as real * e),
            u >= e,
            e > 0 as real,
    ;
    assert(o * 1000 as real <= x) by (nonlinear_arith)
        requires
            o <= e * e * e,
            e == (1 as real) / (0x100_0000 as real),
            x >= 400 as real * (e * e),
    ;
    lemma_small_part(x, e);
}

/// The body is clearly outside the radius, by more than rounding can hide.
pub open spec fn is_outside(rel: V3, radius: Number) -> bool {
    inner(rel, rel) - value(radius) * value(radius) >= (inner(rel, rel) + 1 as real) * (1024 as real
        * eps())
}

/// Twice the leading coefficient.
proof fn lemma_twice(w: V3)
    requires
        is_bounded(w, 0x800 as real),
        inner(w, w) >= 8 as real * eps(),
        size(value(w.length_squared()) - inner(w, w)) <= inner(w, w) * (5 as real * eps()),
        w.length_squared() is Finite,
        inner(w, w) <= 0x100_0000 as real,
    ensures
        ({
            let (av, m) = (w.length_squared(), decode(TWO) * w.length_squared());
            &&& m is Finite
            &&& value(m) > 0 as real
            &&& size(value(m) - 2 as real * value(av)) <= size(2 as real * value(av)) * eps()
                + tiny()
        }),
{
    lemma_tiny();
    lemma_tiny_cubed();
    lemma_constants();
    let (e, o) = (eps(), tiny());
    let (a, av) = (inner(w, w), w.length_squared());
    let x = value(av);
    assert(a * (5 as real * e) <= a / (100 as real)) by (nonlinear_arith)
        requires
            a >= 0 as real,
            e == (1 as real) / (0x100_0000 as real),
    ;
    lemma_product_error(decode(TWO), av);
    assert(o <= e) by {
        lemma_tiny();
    }
    let k = size(2 as real * x);
    lemma_small_part(k, e);
    assert(x >= 7 as real * e);
}

/// Where the body is clearly outside, approached and not passed by, the time of
/// entry is the earlier root.
proof fn lemma_entry(rel: V3, w: V3, radius: Number, t: real)
    requires
        is_bounded(rel, 0x2000 as real),
        is_bounded(w, 0x800 as real),
        radius is Finite,
        size(value(radius)) <= 0x2000 as real,
        inner(w, w) >= 8 as real * eps(),
        is_outside(rel, radius),
        !less(discriminant(rel, w, radius), zero()),
        t >= 0 as real,
    ensures
        ({
            let (q, slack) = (
                value(radius) * value(radius),
                (inner(rel, rel) + 1 as real) * (128 as real * eps()),
            );
            match entry_time(rel, w, radius) {
                Some(x) => {
                    &&& x is Finite
                    &&& value(x) > 0 as real
                    &&& gap(rel, w, value(x)) <= q + slack
                    &&& t <= value(x) ==> gap(rel, w, t) >= q - slack
                },
                None => gap(rel, w, t) >= q - slack,
            }
        }),
{
    lemma_tiny();
    lemma_constants();
    let e = eps();
    let (g, a, d) = (inner(rel, rel), inner(w, w), inner(rel, w));
    let q = value(radius) * value(radius);
    let (c, s, u) = (g - q, g + 1 as real, reach(rel, w));
    let f = a * s;
    lemma_lengths(rel, 0x2000 as real);
    lemma_share_is_positive(s, e);
    lemma_coefficients(rel, w, radius);
    let b = decode(MINUS_TWO) * rel.dot(w);
    let disc = discriminant(rel, w, radius);
    lemma_disc_is_single(rel, w, radius);
    lemma_root(disc);
    let root = square_root(disc);
    let (bv, sv) = (value(b), value(root));
    lemma_more(a, s, c, e);
    let delta = 4 as real * (d * d) - 4 as real * (a * c);
    lemma_root_square(sv, value(disc), delta, f);
    lemma_clear_root(sv, bv, d * d, a * c, u * u, f);
    lemma_twice(w);
    let twice = decode(TWO) * w.length_squared();
    lemma_negated_value(b);
    lemma_negated_value(root);
    lemma_sum_error(-b, -root);
    lemma_sum_error(-b, root);
    let (n1, n2) = (-b - root, -b + root);
    lemma_no_value(zero());
    lemma_bulk_size(rel, w);
    assert(u * (21 as real / (10 as real)) == 21 as real * u / (10 as real)) by (nonlinear_arith);
    lemma_nonzero(bv, sv, f, e);
    if bv > 0 as real {
        lemma_left(bv, sv, u, f);
        lemma_some(-value(n2), bv - sv, u);
        lemma_some(-value(n1), bv + sv, u);
        lemma_below(n1, twice);
        lemma_below(n2, twice);
        assert(u * (11 as real * e) == 11 as real * (u * e) && u * (6 as real * e) == 6 as real * (u
            * e)) by (nonlinear_arith);
        lemma_small_part(u, e);
        lemma_moves_away(rel, w, q, u, t);
    } else {
        assert((-bv) * (-bv) == bv * bv) by (nonlinear_arith);
        lemma_left(-bv, sv, u, f);
        let x = -bv - sv;
        lemma_some(value(n1), x, u);
        let (nv, mv) = (value(n1), value(twice));
        let t0 = nv / mv;
        assert(t0 * mv == nv) by (nonlinear_arith)
            requires
                t0 == nv / mv,
                mv > 0 as real,
        ;
        if twice->mag == 0 {
            lemma_no_value(twice);
        }
        lemma_quotient_error(n1, twice, t0);
        lemma_time_finite(nv, mv, t0, a, value(w.length_squared()), u, x);
        let first = n1 / twice;
        let tv = value(first);
        lemma_time(a, x, u, value(w.length_squared()), mv, nv, t0, tv);
        lemma_less_value(zero(), first);
        let y = 2 as real * (a * tv) - 2 as real * d;
        let z = 2 as real * (a * t) - 2 as real * d;
        lemma_offset(x, u, y, sv, d, bv, a * tv);
        lemma_gap_by_square(rel, w, q, tv);
        lemma_gap_by_square(rel, w, q, t);
        if t <= tv {
            assert(a * t <= a * tv) by (nonlinear_arith)
                requires
                    t <= tv,
                    a > 0 as real,
            ;
            lemma_at_entry(y, z, sv, u, f, delta);
            lemma_divided(a, gap(rel, w, t) - q, s, z * z - delta);
        } else {
            lemma_at_entry(y, y, sv, u, f, delta);
        }
        lemma_divided(a, gap(rel, w, tv) - q, s, y * y - delta);
    }
}

proof fn lemma_share_is_positive(s: real, e: real)
    requires
        s >= 1 as real,
        e > 0 as real,
    ensures
        s * (1024 as real * e) > 0 as real,
{
    assert(s * (1024 as real * e) > 0 as real) by (nonlinear_arith)
        requires
            s >= 1 as real,
            e > 0 as real,
    ;
}

proof fn lemma_more(a: real, s: real, c: real, e: real)
    requires
        a > 0 as real,
        s >= 1 as real,
        c >= s * (1024 as real * e),
        e == eps(),
    ensures
        a * s > 0 as real,
        a * c >= (a * s) * (1024 as real * e),
        a * c >= 0 as real,
{
    lemma_tiny();
    let k = s * (1024 as real * e);
    assert(a * c >= a * k) by (nonlinear_arith)
        requires
            c >= k,
            a > 0 as real,
    ;
    assert(a * (s * (1024 as real * e)) == (a * s) * (1024 as real * e)) by (nonlinear_arith);
    assert(a * s > 0 as real) by (nonlinear_arith)
        requires
            a > 0 as real,
            s >= 1 as real,
    ;
    let f = a * s;
    assert(f * (1024 as real * e) >= 0 as real) by (nonlinear_arith)
        requires
            f > 0 as real,
            e > 0 as real,
    ;
}

proof fn lemma_nonzero(b: real, s: real, f: real, e: real)
    requires
        s * s + f * (3700 as real * e) <= b * b,
        f > 0 as real,
        e > 0 as real,
    ensures
        b != 0 as real,
{
    lemma_square_sign(s);
    assert(f * (3700 as real * e) > 0 as real) by (nonlinear_arith)
        requires
            f > 0 as real,
            e > 0 as real,
    ;
    if b == 0 as real {
        assert(b * b == 0 as real) by (nonlinear_arith)
            requires
                b == 0 as real,
        ;
    }
}

proof fn lemma_disc_is_single(rel: V3, w: V3, radius: Number)
    requires
        discriminant(rel, w, radius) is Finite,
    ensures
        discriminant(rel, w, radius)->mag < limit(),
{
    let b = decode(MINUS_TWO) * rel.dot(w);
    let q = decode(FOUR) * w.length_squared() * (rel.length_squared() - radius * radius);
    assert((b * b) is Finite && q is Finite) by {
        reveal(sum);
    }
    lemma_small(b * b, -q);
}

/// The time of entry is not beyond all numbers.
proof fn lemma_time_finite(n: real, m: real, t0: real, a: real, av: real, u: real, x: real)
    requires
        t0 * m == n,
        m > 0 as real,
        n > 0 as real,
        a >= 8 as real * eps(),
        size(av - a) <= a * (5 as real * eps()),
        size(m - 2 as real * av) <= size(2 as real * av) * eps() + tiny(),
        size(n - x) <= size(x) * eps() + tiny(),
        x > 0 as real,
        x <= u * (42 as real / (10 as real)),
        u <= 0x400_0000 as real,
    ensures
        size(t0) <= 0x1_0000_0000_0000_0000 as real,
{
    lemma_tiny();
    let e = eps();
    assert(a * (5 as real * e) <= a / (100 as real)) by (nonlinear_arith)
        requires
            a >= 0 as real,
            e == (1 as real) / (0x100_0000 as real),
    ;
    lemma_small_part(size(2 as real * av), e);
    lemma_small_part(x, e);
    assert(m >= e);
    assert(u * (42 as real / (10 as real)) == 42 as real * u / (10 as real)) by (nonlinear_arith);
    assert(n <= 0x8000_0000 as real);
    assert(t0 > 0 as real && t0 <= 0x1_0000_0000_0000_0000 as real) by (nonlinear_arith)
        requires
            t0 * m == n,
            m >= e,
            n > 0 as real,
            n <= 0x8000_0000 as real,
            e == (1 as real) / (0x100_0000 as real),
    ;
}

proof fn lemma_offset(x: real, u: real, y: real, s: real, d: real, b: real, at: real)
    requires
        size(2 as real * at - x) <= x * (9 as real * eps()),
        x == -b - s,
        x >= 0 as real,
        x <= u * (21 as real / (10 as real)),
        size(b + 2 as real * d) <= u * (11 as real * eps()),
        y == 2 as real * at - 2 as real * d,
        u > 0 as real,
    ensures
        size(y + s) <= u * (30 as real * eps()),
{
    lemma_tiny();
    let e = eps();
    let ue = u * e;
    assert(u * (11 as real * e) == 11 as real * ue && u * (30 as real * e) == 30 as real * ue)
        by (nonlinear_arith)
        requires
            ue == u * e,
    ;
    assert(x * (9 as real * e) <= 19 as real * ue) by (nonlinear_arith)
        requires
            x <= u * (21 as real / (10 as real)),
            ue == u * e,
            e > 0 as real,
            u > 0 as real,
    ;
}

/// What the time to a collision means, but for rounding. A time that comes out is
/// the first at which the body is within `radius`, and no later than `horizon`
/// unless the body is there already; where no time comes out, the body is not
/// within `radius` up to `horizon`. `t` is any time. The squares of the distances
/// are off by at most a hundred thousandth of that at the start. Left out are
/// bodies that hardly move, which are taken to stand still, and bodies that are
/// outside by no more than rounding, where the time of leaving may come out.
pub proof fn law_collision_time_is_first(rel: V3, w: V3, radius: Number, horizon: Number, t: real)
    requires
        is_bounded(rel, 0x2000 as real),
        is_bounded(w, 0x800 as real),
        radius is Finite,
        size(value(radius)) <= 0x2000 as real,
        horizon is Finite,
        !less(w.length_squared(), decode(MIN_CLOSING)),
        overlaps(rel, radius) || is_outside(rel, radius),
        t >= 0 as real,
    ensures
        ({
            let x = collision_time(rel, w, radius, horizon);
            let (q, slack) = (
                value(radius) * value(radius),
                (inner(rel, rel) + 1 as real) * (128 as real * eps()),
            );
            &&& x is Finite || x == infinity()
            &&& x is Finite ==> value(x) >= 0 as real && gap(rel, w, value(x)) <= q + slack
            &&& x is Finite && !overlaps(rel, radius) ==> value(x) <= value(horizon)
            &&& x is Finite && t < value(x) ==> gap(rel, w, t) >= q - slack
            &&& x is Infinite && t <= value(horizon) ==> gap(rel, w, t) >= q - slack
        }),
{
    lemma_tiny();
    lemma_tiny_cubed();
    lemma_constants();
    lemma_no_value(zero());
    let e = eps();
    let (g, a) = (inner(rel, rel), inner(w, w));
    let q = value(radius) * value(radius);
    let s = g + 1 as real;
    lemma_lengths(rel, 0x2000 as real);
    lemma_lengths(w, 0x800 as real);
    let slack = s * (128 as real * e);
    assert(slack == 128 as real * (g * e) + 128 as real * e) by (nonlinear_arith)
        requires
            slack == s * (128 as real * e),
            s == g + 1 as real,
    ;
    lemma_small_part(g, e);
    if overlaps(rel, radius) {
        lemma_gap(rel, w, 0 as real);
        lemma_at_start(inner(rel, w), a);
        lemma_product_size(value(radius), value(radius), 0x2000 as real, 0x2000 as real);
        lemma_product_error(radius, radius);
        let (pp, rr) = (rel.length_squared(), radius * radius);
        lemma_less_value(rr, pp);
        lemma_square_sign(value(radius));
        lemma_overlap(g, q, value(pp), value(rr));
    } else {
        let av = w.length_squared();
        lemma_less_value(av, decode(MIN_CLOSING));
        assert(a * (4 as real * e) <= a / (100 as real)) by (nonlinear_arith)
            requires
                a >= 0 as real,
                e == (1 as real) / (0x100_0000 as real),
        ;
        assert(tiny() * 8 as real <= e) by (nonlinear_arith)
            requires
                tiny() <= e * e,
                e == (1 as real) / (0x100_0000 as real),
        ;
        assert(a >= 8 as real * e);
        lemma_share_is_positive(s, e);
        lemma_coefficients(rel, w, radius);
        let disc = discriminant(rel, w, radius);
        lemma_less_value(disc, zero());
        if less(disc, zero()) {
            let f = a * s;
            assert(f * (200 as real * e) <= f * (512 as real * e)) by (nonlinear_arith)
                requires
                    f == a * s,
                    a > 0 as real,
                    s >= 1 as real,
                    e > 0 as real,
            ;
            lemma_passes_by(rel, w, q, t);
        } else {
            lemma_entry(rel, w, radius, t);
            if let Some(x) = entry_time(rel, w, radius) {
                lemma_less_value(horizon, x);
            }
        }
    }
}

proof fn lemma_at_start(d: real, a: real)
    ensures
        2 as real * (0 as real * d) == 0 as real,
        (0 as real * (0 as real)) * a == 0 as real,
{
    assert(0 as real * d == 0 as real) by (nonlinear_arith);
    assert((0 as real * (0 as real)) * a == 0 as real) by (nonlinear_arith);
}

proof fn lemma_overlap(g: real, q: real, pp: real, rr: real)
    requires
        pp <= rr,
        g >= 0 as real,
        size(pp - g) <= g * (4 as real * eps()) + 8 as real * tiny(),
        size(rr - q) <= size(q) * eps() + tiny(),
        q >= 0 as real,
    ensures
        g <= q + 128 as real * (g * eps()) + 128 as real * eps(),
{
    lemma_tiny();
    let e = eps();
    assert(g * (4 as real * e) == 4 as real * (g * e)) by (nonlinear_arith);
    assert(g * e >= 0 as real) by (nonlinear_arith)
        requires
            g >= 0 as real,
            e > 0 as real,
    ;
    if q < g {
        assert(q * e <= g * e) by (nonlinear_arith)
            requires
                q < g,
                e > 0 as real,
        ;
    }
}

} // verus!
