//! What a range, an azimuth and an elevation say of a place: how they change as the
//! place moves away, around and upwards.
use crate::config::{MIN_LEVEL_RANGE, MIN_RANGE};
use crate::error::{
    eps, lemma_less_value, lemma_no_value, lemma_product_error, lemma_quotient_error,
    lemma_root_error, lemma_square_sign, lemma_sum_error, lemma_tiny, lemma_tiny_fourth,
    lemma_units, size, tiny, value,
};
use crate::foresight::row_within;
use crate::forms::{triple, Triple};
use crate::metric::{lemma_inner_error, lemma_product_size, lemma_small, lemma_square_error};
use crate::number::{decode, larger, limit, square_root, Number};
use crate::relative::lemma_inverse_of;
use crate::vector::V3;
use vstd::arithmetic::power2::{lemma2_to64, lemma_pow2_adds, pow2};
use vstd::prelude::*;

verus! {

/// The square of a vector's level part.
pub open spec fn level_square(d: Triple) -> real {
    d.x * d.x + d.z * d.z
}

/// The square of a vector's length.
pub open spec fn whole_square(d: Triple) -> real {
    d.x * d.x + d.y * d.y + d.z * d.z
}

/// The way round a vertical axis, at the level distance.
pub open spec fn around(d: Triple) -> Triple {
    Triple { x: d.z, y: 0 as real, z: -d.x }
}

/// The way up on a sphere, times the level distance.
pub open spec fn upwards(d: Triple) -> Triple {
    Triple { x: -(d.y * d.x), y: level_square(d), z: -(d.y * d.z) }
}

/// Whether a place lies to the side: at least one away on the level, and each way no
/// further than `m`.
pub open spec fn is_aside(d: V3, m: real) -> bool {
    &&& row_within(d, m)
    &&& m >= 1 as real
    &&& m <= 0x40 as real
    &&& level_square(triple(d)) >= 1 as real
}

/// The least range and level range are small.
proof fn lemma_least()
    ensures
        decode(MIN_RANGE) is Finite,
        decode(MIN_LEVEL_RANGE) is Finite,
        value(decode(MIN_RANGE)) <= (1 as real) / (2 as real),
        value(decode(MIN_LEVEL_RANGE)) <= (1 as real) / (2 as real),
{
    lemma2_to64();
    lemma_pow2_adds(32, 5);
    lemma_pow2_adds(32, 11);
    assert(pow2(37) as real == 0x20_0000_0000 as real);
    assert(pow2(43) as real == 0x800_0000_0000 as real);
    lemma_units(decode(MIN_RANGE), 0xd1_b717, 112, 37);
    lemma_units(decode(MIN_LEVEL_RANGE), 0x86_37bd, 106, 43);
}

/// The root of a sum of squares.
proof fn lemma_rooted(a: Number, s: real, w: real)
    requires
        a is Finite,
        a->mag < limit(),
        size(value(a) - s) <= 8 as real * (s * eps()),
        s >= 1 as real,
        s <= w * w,
        w >= 1 as real,
    ensures
        ({
            let v = value(square_root(a));
            &&& square_root(a) is Finite
            &&& size(v * v - s) <= 16 as real * (s * eps())
            &&& v >= (9 as real) / (10 as real)
            &&& v <= 2 as real * w
        }),
{
    let (e, v) = (eps(), value(square_root(a)));
    let (g, se) = (value(a), s * eps());
    assert(se * 1000 as real <= s && se > 0 as real) by (nonlinear_arith)
        requires
            se == s * e,
            s >= 1 as real,
            e == (1 as real) / (0x100_0000 as real),
    ;
    lemma_root_error(a);
    assert(g * (4 as real * e) <= 5 as real * se) by (nonlinear_arith)
        requires
            g <= s + 8 as real * se,
            se == s * e,
            s >= 1 as real,
            e == (1 as real) / (0x100_0000 as real),
    ;
    assert(v >= (9 as real) / (10 as real)) by (nonlinear_arith)
        requires
            v * v >= (9 as real) / (10 as real),
            v > 0 as real,
    ;
    assert(v <= 2 as real * w) by (nonlinear_arith)
        requires
            v * v <= 2 as real * s,
            s <= w * w,
            v > 0 as real,
            w >= 1 as real,
    ;
}

/// The range and the level range of a place to the side.
pub proof fn lemma_ranges(d: V3, m: real)
    requires
        is_aside(d, m),
    ensures
        ({
            let r = larger(d.length(), decode(MIN_RANGE));
            let level2 = larger(d.x * d.x + d.z * d.z, decode(MIN_LEVEL_RANGE));
            let level = square_root(level2);
            let (rho, lambda) = (value(r), value(level));
            let t = triple(d);
            &&& r is Finite
            &&& level2 is Finite
            &&& level is Finite
            &&& size(rho * rho - whole_square(t)) <= 16 as real * (whole_square(t) * eps())
            &&& size(value(level2) - level_square(t)) <= 8 as real * (level_square(t) * eps())
            &&& size(lambda * lambda - level_square(t)) <= 16 as real * (level_square(t) * eps())
            &&& rho >= (9 as real) / (10 as real)
            &&& rho <= 4 as real * m
            &&& lambda >= (9 as real) / (10 as real)
            &&& lambda <= 4 as real * m
            &&& whole_square(t) <= 3 as real * (m * m)
            &&& level_square(t) <= 2 as real * (m * m)
        }),
{
    lemma_tiny();
    lemma_tiny_fourth();
    lemma_least();
    let (e, o, t) = (eps(), tiny(), triple(d));
    let (x, y, z) = (t.x, t.y, t.z);
    lemma_square_sign(x);
    lemma_square_sign(y);
    lemma_square_sign(z);
    lemma_product_size(x, x, m, m);
    lemma_product_size(y, y, m, m);
    lemma_product_size(z, z, m, m);
    let (s, l, mm) = (whole_square(t), level_square(t), m * m);
    assert(mm <= 0x1000 as real && mm >= 1 as real) by (nonlinear_arith)
        requires
            mm == m * m,
            m >= 1 as real,
            m <= 0x40 as real,
    ;
    let w = 2 as real * m;
    assert(w * w == 4 as real * mm) by (nonlinear_arith)
        requires
            w == 2 as real * m,
            mm == m * m,
    ;
    assert(e * e * e * e <= e / (0x1000_0000 as real) && e > 0 as real) by (nonlinear_arith)
        requires
            e == (1 as real) / (0x100_0000 as real),
    ;
    lemma_inner_error(d, d);
    let (se, le) = (s * e, l * e);
    assert(s * (4 as real * e) == 4 as real * se && se >= e && le >= e) by (nonlinear_arith)
        requires
            se == s * e,
            le == l * e,
            s >= 1 as real,
            l >= 1 as real,
            e > 0 as real,
    ;
    let q = d.dot(d);
    assert(se * 1000 as real <= s && le * 1000 as real <= l) by (nonlinear_arith)
        requires
            se == s * e,
            le == l * e,
            s >= 1 as real,
            l >= 1 as real,
            e == (1 as real) / (0x100_0000 as real),
    ;
    lemma_square_error(d);
    lemma_rooted(q, s, w);
    lemma_less_value(d.length(), decode(MIN_RANGE));
    let (xx, zz) = (d.x * d.x, d.z * d.z);
    lemma_product_error(d.x, d.x);
    lemma_product_error(d.z, d.z);
    let (a, c) = (value(xx), value(zz));
    assert(x * x * e + z * z * e == le) by (nonlinear_arith)
        requires
            le == l * e,
            l == x * x + z * z,
    ;
    lemma_sum_error(xx, zz);
    let g = a + c;
    assert(size(g - l) <= le + 2 as real * o);
    assert(size(g) * e <= 2 as real * le) by (nonlinear_arith)
        requires
            size(g) <= 2 as real * l,
            le == l * e,
            e > 0 as real,
    ;
    let f = xx + zz;
    lemma_less_value(f, decode(MIN_LEVEL_RANGE));
    lemma_small(xx, zz);
    lemma_rooted(f, l, w);
}

/// The sizes of a quotient.
proof fn lemma_share(p: real, q: real, w: real) -> (exact: real)
    requires
        size(p) <= w,
        q >= (1 as real) / (2 as real),
    ensures
        exact * q == p,
        size(exact) * q == size(p),
        size(exact) <= 2 as real * w,
{
    let i = lemma_inverse_of(q);
    let exact = p * i;
    assert(exact * q == p) by (nonlinear_arith)
        requires
            exact == p * i,
            i * q == 1 as real,
    ;
    if exact >= 0 as real {
        assert(p >= 0 as real && exact <= 2 as real * p) by (nonlinear_arith)
            requires
                exact * q == p,
                exact >= 0 as real,
                q >= (1 as real) / (2 as real),
        ;
    } else {
        let n = -exact;
        assert(n * q == -p) by (nonlinear_arith)
            requires
                exact * q == p,
                n == -exact,
        ;
        assert(p < 0 as real && n <= 2 as real * (-p)) by (nonlinear_arith)
            requires
                n * q == -p,
                n > 0 as real,
                q >= (1 as real) / (2 as real),
        ;
    }
    exact
}

/// The error of a quotient, multiplied out.
proof fn lemma_undone(g: real, x: real, p: real, q: real, y: real, o: real, w: real)
    requires
        x * q == p,
        size(x) * q == y,
        size(g - x) <= size(x) * eps() + o,
        y <= w,
        w >= 1 as real,
        q > 0 as real,
        q <= 0x1_0000_0000 as real,
        o * 0x1_0000_0000 as real <= eps(),
    ensures
        size(g * q - p) <= 2 as real * (w * eps()),
{
    let (e, err, z) = (eps(), g - x, size(x));
    let f = z * e + o;
    lemma_product_size(err, q, f, q);
    let we = w * e;
    assert(f * q <= 2 as real * we) by {
        assert(f * q == (z * q) * e + o * q) by (nonlinear_arith)
            requires
                f == z * e + o,
        ;
        assert((z * q) * e <= we) by (nonlinear_arith)
            requires
                z * q <= w,
                we == w * e,
                e == (1 as real) / (0x100_0000 as real),
        ;
        assert(o * q <= we) by (nonlinear_arith)
            requires
                q <= 0x1_0000_0000 as real,
                q > 0 as real,
                o * 0x1_0000_0000 as real <= e,
                we == w * e,
                w >= 1 as real,
                e == (1 as real) / (0x100_0000 as real),
        ;
    }
    assert(g * q - p == err * q) by (nonlinear_arith)
        requires
            err == g - x,
            x * q == p,
    ;
}

/// A quotient, multiplied out.
pub proof fn lemma_fraction(a: Number, b: Number, w: real)
    requires
        a is Finite,
        b is Finite,
        size(value(a)) <= w,
        w >= 1 as real,
        w <= 0x1_0000_0000 as real,
        value(b) >= (1 as real) / (2 as real),
        value(b) <= 0x1_0000_0000 as real,
    ensures
        (a / b) is Finite,
        size(value(a / b) * value(b) - value(a)) <= 2 as real * (w * eps()),
{
    lemma_least_rounding();
    let (p, q) = (value(a), value(b));
    let exact = lemma_share(p, q, w);
    assert(b->mag > 0) by {
        if b->mag == 0 {
            lemma_no_value(b);
        }
    }
    lemma_quotient_error(a, b, exact);
    lemma_undone(value(a / b), exact, p, q, size(p), tiny(), w);
}

/// The smallest number is far below one rounding.
pub proof fn lemma_least_rounding()
    ensures
        tiny() * 0x1_0000_0000 as real <= eps(),
        tiny() > 0 as real,
{
    lemma_tiny();
    lemma_tiny_fourth();
    let (e, o) = (eps(), tiny());
    assert(e * e * e * e <= e / (0x1_0000_0000 as real)) by (nonlinear_arith)
        requires
            e == (1 as real) / (0x100_0000 as real),
    ;
}

/// A product of two numbers of ordinary size.
pub proof fn lemma_multiplied(a: Number, b: Number, w: real)
    requires
        a is Finite,
        b is Finite,
        size(value(a) * value(b)) <= w,
        w >= 1 as real,
        w <= 0x1_0000_0000 as real,
    ensures
        (a * b) is Finite,
        size(value(a * b) - value(a) * value(b)) <= 2 as real * (w * eps()),
{
    lemma_tiny();
    let (e, o, p) = (eps(), tiny(), value(a) * value(b));
    lemma_product_error(a, b);
    assert(size(p) * e + o <= 2 as real * (w * e)) by (nonlinear_arith)
        requires
            size(p) <= w,
            o <= e,
            w >= 1 as real,
            e > 0 as real,
    ;
}

/// A row whose multiple by `k` is known, along `c`.
proof fn lemma_along(h: Triple, g: Triple, c: Triple, k: real, d: real, w: real, aim: real, off: real)
    requires
        size(h.x * k - g.x) <= d,
        size(h.y * k - g.y) <= d,
        size(h.z * k - g.z) <= d,
        size(c.x) <= w,
        size(c.y) <= w,
        size(c.z) <= w,
        size(g.dot(c) - k * aim) <= off,
        k >= (1 as real) / (2 as real),
    ensures
        size(h.dot(c) - aim) <= 2 as real * (3 as real * (d * w) + off),
{
    let (a, b, f) = (h.x * k - g.x, h.y * k - g.y, h.z * k - g.z);
    lemma_product_size(a, c.x, d, w);
    lemma_product_size(b, c.y, d, w);
    lemma_product_size(f, c.z, d, w);
    let (p, o) = (h.dot(c) - aim, g.dot(c) - k * aim);
    assert(p * k == o + a * c.x + b * c.y + f * c.z) by {
        assert(a * c.x == (h.x * c.x) * k - g.x * c.x) by (nonlinear_arith)
            requires
                a == h.x * k - g.x,
        ;
        assert(b * c.y == (h.y * c.y) * k - g.y * c.y) by (nonlinear_arith)
            requires
                b == h.y * k - g.y,
        ;
        assert(f * c.z == (h.z * c.z) * k - g.z * c.z) by (nonlinear_arith)
            requires
                f == h.z * k - g.z,
        ;
        let (l, m, n) = (h.x * c.x, h.y * c.y, h.z * c.z);
        assert(p * k == l * k + m * k + n * k - k * aim) by (nonlinear_arith)
            requires
                p == l + m + n - aim,
        ;
    }
    lemma_divided(p, k, 3 as real * (d * w) + off);
}

proof fn lemma_divided(p: real, k: real, z: real)
    requires
        size(p * k) <= z,
        k >= (1 as real) / (2 as real),
    ensures
        size(p) <= 2 as real * z,
{
    if p >= 0 as real {
        assert(p <= 2 as real * (p * k)) by (nonlinear_arith)
            requires
                p >= 0 as real,
                k >= (1 as real) / (2 as real),
        ;
    } else {
        assert(p >= 2 as real * (p * k)) by (nonlinear_arith)
            requires
                p < 0 as real,
                k >= (1 as real) / (2 as real),
        ;
    }
}

/// What is lost to rounding.
pub open spec fn slack(m: real) -> real {
    4000 as real * (((m * m) * (m * m)) * eps())
}

proof fn lemma_ways(t: Triple, m: real)
    requires
        size(t.x) <= m,
        size(t.y) <= m,
        size(t.z) <= m,
        m >= 1 as real,
    ensures
        size(around(t).x) <= m,
        size(around(t).y) <= m,
        size(around(t).z) <= m,
        size(upwards(t).x) <= 2 as real * (m * m),
        size(upwards(t).y) <= 2 as real * (m * m),
        size(upwards(t).z) <= 2 as real * (m * m),
        t.dot(around(t)) == 0 as real,
        t.dot(upwards(t)) == 0 as real,
        around(t).dot(around(t)) == level_square(t),
        around(t).dot(upwards(t)) == 0 as real,
        upwards(t).dot(t) == 0 as real,
        upwards(t).dot(around(t)) == 0 as real,
        around(t).dot(t) == 0 as real,
        upwards(t).dot(upwards(t)) == level_square(t) * whole_square(t),
        t.dot(t) == whole_square(t),
{
    let (x, y, z) = (t.x, t.y, t.z);
    lemma_product_size(x, x, m, m);
    lemma_product_size(z, z, m, m);
    lemma_product_size(y, x, m, m);
    lemma_product_size(y, z, m, m);
    let (l, s, a, b) = (level_square(t), whole_square(t), -(y * x), -(y * z));
    assert(x * a + y * l + z * b == 0 as real && z * a - x * b == 0 as real) by (nonlinear_arith)
        requires
            l == x * x + z * z,
            a == -(y * x),
            b == -(y * z),
    ;
    assert(x * z + y * 0 as real + z * (-x) == 0 as real) by (nonlinear_arith);
    assert(z * x + 0 as real * y + (-x) * z == 0 as real) by (nonlinear_arith);
    assert(z * z + 0 as real * 0 as real + (-x) * (-x) == l) by (nonlinear_arith)
        requires
            l == x * x + z * z,
    ;
    assert(z * a + 0 as real * l + (-x) * b == 0 as real) by (nonlinear_arith)
        requires
            z * a - x * b == 0 as real,
    ;
    assert(a * z + l * 0 as real + b * (-x) == 0 as real) by (nonlinear_arith)
        requires
            z * a - x * b == 0 as real,
    ;
    assert(a * x + l * y + b * z == 0 as real) by (nonlinear_arith)
        requires
            x * a + y * l + z * b == 0 as real,
    ;
    assert(a * a + l * l + b * b == l * s) by (nonlinear_arith)
        requires
            l == x * x + z * z,
            s == x * x + y * y + z * z,
            a == -(y * x),
            b == -(y * z),
    ;
}

/// Small multiples of the lower powers are within the slack.
proof fn lemma_slack(m: real)
    requires
        m >= 1 as real,
    ensures
        ({
            let (e, mm) = (eps(), m * m);
            &&& 2 as real * (3 as real * ((2 as real * (m * e)) * m) + 48 as real * (mm * e)) <= slack(m)
            &&& 2 as real * (3 as real * ((2 as real * (m * e)) * (2 as real * mm))) <= slack(m)
            &&& 2 as real * (3 as real * ((224 as real * (mm * e)) * m)) <= slack(m)
            &&& 2 as real * (3 as real * ((224 as real * (mm * e)) * (2 as real * mm)) + 300 as real
                * (mm * mm * e)) <= slack(m)
            &&& mm * e >= 0 as real
        }),
{
    lemma_tiny();
    let (e, mm) = (eps(), m * m);
    let (p, q, f) = (mm * e, (mm * m) * e, (mm * mm) * e);
    assert(mm >= 1 as real && mm * m >= mm && mm * mm >= mm * m) by (nonlinear_arith)
        requires
            mm == m * m,
            m >= 1 as real,
    ;
    assert(q >= p && f >= q && p > 0 as real) by (nonlinear_arith)
        requires
            p == mm * e,
            q == (mm * m) * e,
            f == (mm * mm) * e,
            mm >= 1 as real,
            mm * m >= mm,
            mm * mm >= mm * m,
            e > 0 as real,
    ;
    assert((2 as real * (m * e)) * m == 2 as real * p) by (nonlinear_arith)
        requires
            p == mm * e,
            mm == m * m,
    ;
    assert((2 as real * (m * e)) * (2 as real * mm) == 4 as real * q) by (nonlinear_arith)
        requires
            q == (mm * m) * e,
    ;
    assert((224 as real * (mm * e)) * m == 224 as real * q) by (nonlinear_arith)
        requires
            q == (mm * m) * e,
    ;
    assert((224 as real * (mm * e)) * (2 as real * mm) == 448 as real * f) by (nonlinear_arith)
        requires
            f == (mm * mm) * e,
    ;
}

/// Whether a row is `(p, q, s)` along the way out, the way round and the way up.
pub open spec fn reads(h: Triple, t: Triple, p: real, q: real, s: real, off: real) -> bool {
    &&& size(h.dot(t) - p) <= off
    &&& size(h.dot(around(t)) - q) <= off
    &&& size(h.dot(upwards(t)) - s) <= off
}

/// The row of the range.
pub proof fn lemma_range_row(h: Triple, t: Triple, rho: real, m: real)
    requires
        size(h.x * rho - t.x) <= 2 as real * (m * eps()),
        size(h.y * rho - t.y) <= 2 as real * (m * eps()),
        size(h.z * rho - t.z) <= 2 as real * (m * eps()),
        size(t.x) <= m,
        size(t.y) <= m,
        size(t.z) <= m,
        m >= 1 as real,
        rho >= (9 as real) / (10 as real),
        size(rho * rho - whole_square(t)) <= 16 as real * (whole_square(t) * eps()),
        whole_square(t) <= 3 as real * (m * m),
    ensures
        reads(h, t, rho, 0 as real, 0 as real, slack(m)),
{
    lemma_tiny();
    lemma_ways(t, m);
    lemma_slack(m);
    let (e, mm, s) = (eps(), m * m, whole_square(t));
    let d = 2 as real * (m * e);
    assert(16 as real * (s * e) <= 48 as real * (mm * e)) by (nonlinear_arith)
        requires
            s <= 3 as real * mm,
            e > 0 as real,
    ;
    assert(rho * 0 as real == 0 as real);
    lemma_along(h, t, t, rho, d, m, rho, 48 as real * (mm * e));
    lemma_along(h, t, around(t), rho, d, m, 0 as real, 0 as real);
    lemma_along(h, t, upwards(t), rho, d, 2 as real * mm, 0 as real, 0 as real);
}

/// The row of the azimuth.
pub proof fn lemma_azimuth_row(h: Triple, t: Triple, k: real, m: real)
    requires
        size(h.x * k - t.z) <= 2 as real * (m * eps()),
        h.y == 0 as real,
        size(h.z * k + t.x) <= 2 as real * (m * eps()),
        size(t.x) <= m,
        size(t.y) <= m,
        size(t.z) <= m,
        m >= 1 as real,
        k >= (1 as real) / (2 as real),
        size(k - level_square(t)) <= 8 as real * (level_square(t) * eps()),
        level_square(t) <= 2 as real * (m * m),
    ensures
        reads(h, t, 0 as real, 1 as real, 0 as real, slack(m)),
{
    lemma_tiny();
    lemma_ways(t, m);
    lemma_slack(m);
    let (e, mm, l) = (eps(), m * m, level_square(t));
    let d = 2 as real * (m * e);
    assert(8 as real * (l * e) <= 48 as real * (mm * e)) by (nonlinear_arith)
        requires
            l <= 2 as real * mm,
            mm * e >= 0 as real,
            e > 0 as real,
    ;
    assert(d >= 0 as real) by (nonlinear_arith)
        requires
            d == 2 as real * (m * e),
            m >= 1 as real,
            e > 0 as real,
    ;
    assert(h.y * k == 0 as real) by (nonlinear_arith)
        requires
            h.y == 0 as real,
    ;
    lemma_along(h, around(t), t, k, d, m, 0 as real, 0 as real);
    lemma_along(h, around(t), around(t), k, d, m, 1 as real, 48 as real * (mm * e));
    lemma_along(h, around(t), upwards(t), k, d, 2 as real * mm, 0 as real, 0 as real);
}

/// The row of the elevation.
pub proof fn lemma_elevation_row(h: Triple, t: Triple, rho: real, lambda: real, m: real)
    requires
        ({
            let k = lambda * (rho * rho);
            let d = 224 as real * ((m * m) * eps());
            &&& size(h.x * k - upwards(t).x) <= d
            &&& size(h.y * k - upwards(t).y) <= d
            &&& size(h.z * k - upwards(t).z) <= d
        }),
        size(t.x) <= m,
        size(t.y) <= m,
        size(t.z) <= m,
        m >= 1 as real,
        lambda >= (9 as real) / (10 as real),
        rho >= (9 as real) / (10 as real),
        size(rho * rho - whole_square(t)) <= 16 as real * (whole_square(t) * eps()),
        whole_square(t) <= 3 as real * (m * m),
        size(lambda * lambda - level_square(t)) <= 16 as real * (level_square(t) * eps()),
        level_square(t) <= 2 as real * (m * m),
    ensures
        reads(h, t, 0 as real, 0 as real, lambda, slack(m)),
{
    lemma_tiny();
    lemma_ways(t, m);
    lemma_slack(m);
    let (e, mm, l, s) = (eps(), m * m, level_square(t), whole_square(t));
    let d = 224 as real * (mm * e);
    let (rr, ll) = (rho * rho, lambda * lambda);
    let k = lambda * rr;
    assert(k >= (1 as real) / (2 as real)) by (nonlinear_arith)
        requires
            k == lambda * rr,
            rr == rho * rho,
            rho >= (9 as real) / (10 as real),
            lambda >= (9 as real) / (10 as real),
    ;
    lemma_square_sign(t.x);
    lemma_square_sign(t.y);
    lemma_square_sign(t.z);
    let (p, q) = (ll - l, rr - s);
    let (le, se) = (l * e, s * e);
    assert(k * lambda == ll * rr) by (nonlinear_arith)
        requires
            k == lambda * rr,
            ll == lambda * lambda,
    ;
    assert(ll * rr - l * s == p * s + l * q + p * q) by (nonlinear_arith)
        requires
            p == ll - l,
            q == rr - s,
    ;
    lemma_product_size(p, s, 16 as real * le, s);
    lemma_product_size(l, q, l, 16 as real * se);
    lemma_product_size(p, q, 16 as real * le, 16 as real * se);
    let lse = (l * s) * e;
    assert((16 as real * le) * s == 16 as real * lse && l * (16 as real * se) == 16 as real * lse)
        by (nonlinear_arith)
        requires
            le == l * e,
            se == s * e,
            lse == (l * s) * e,
    ;
    assert((16 as real * le) * (16 as real * se) <= 16 as real * lse) by (nonlinear_arith)
        requires
            le == l * e,
            se == s * e,
            lse == (l * s) * e,
            l >= 0 as real,
            s >= 0 as real,
            e == (1 as real) / (0x100_0000 as real),
    ;
    assert(lse <= 6 as real * (mm * mm * e)) by (nonlinear_arith)
        requires
            lse == (l * s) * e,
            l >= 0 as real,
            s >= 0 as real,
            l <= 2 as real * mm,
            s <= 3 as real * mm,
            e > 0 as real,
    ;
    lemma_along(h, upwards(t), t, k, d, m, 0 as real, 0 as real);
    lemma_along(h, upwards(t), around(t), k, d, m, 0 as real, 0 as real);
    lemma_along(h, upwards(t), upwards(t), k, d, 2 as real * mm, lambda, 300 as real * (mm * mm * e));
}

} // verus!
