//! How an elevation changes with the place that it is taken of.
use crate::bearings::{
    is_aside, lemma_azimuth_row, lemma_elevation_row, lemma_fraction, lemma_least_rounding,
    lemma_multiplied, lemma_range_row, lemma_ranges, level_square, reads, slack, whole_square,
};
use crate::config::{MIN_LEVEL_RANGE, MIN_RANGE};
use crate::error::{
    eps, lemma_negated_value, lemma_no_value, lemma_product_error, lemma_tiny, size, tiny, value,
};
use crate::forms::{grid, triple};
use crate::metric::lemma_product_size;
use crate::number::{decode, larger, square_root, zero, Number};
use crate::track::position_jacobian;
use crate::vector::V3;
use vstd::prelude::*;

verus! {

/// A product of two divisors.
proof fn lemma_divisor(a: Number, b: Number)
    requires
        a is Finite,
        b is Finite,
        value(a) * value(b) >= (1 as real) / (2 as real),
        value(a) * value(b) <= 0x1_0000_0000 as real,
    ensures
        (a * b) is Finite,
        size(value(a * b) - value(a) * value(b)) <= 2 as real * ((value(a) * value(b)) * eps()),
{
    lemma_product_error(a, b);
    lemma_one_part(value(a) * value(b));
}

proof fn lemma_one_part(p: real)
    requires
        p >= (1 as real) / (2 as real),
    ensures
        size(p) * eps() + tiny() <= 2 as real * (p * eps()),
{
    lemma_tiny();
    lemma_least_rounding();
    let e = eps();
    assert(size(p) == p);
    assert(e <= 2 as real * (p * e)) by (nonlinear_arith)
        requires
            p >= (1 as real) / (2 as real),
            e > 0 as real,
    ;
}

/// A quotient by `u` that nearly undoes a multiplication by `k`.
proof fn lemma_nearly_undone(h: real, u: real, k: real, n: real, w: real)
    requires
        size(h * u - n) <= 4 as real * (w * eps()),
        size(n) <= w,
        size(u - k) <= 6 as real * (k * eps()),
        k >= (1 as real) / (2 as real),
        w >= 1 as real,
    ensures
        size(h * k - n) <= 12 as real * (w * eps()),
{
    lemma_tiny();
    let (e, ke, we) = (eps(), k * eps(), w * eps());
    assert(we * 1000 as real <= w && ke * 1000 as real <= k && ke > 0 as real) by (nonlinear_arith)
        requires
            we == w * e,
            ke == k * e,
            w >= 1 as real,
            k >= (1 as real) / (2 as real),
            e == (1 as real) / (0x100_0000 as real),
    ;
    let (s, c, j) = (h * u, u - k, k - 6 as real * ke);
    if h >= 0 as real {
        assert(h * j <= h * u) by (nonlinear_arith)
            requires
                h >= 0 as real,
                j <= u,
        ;
        assert(100 as real * (h * k) <= 101 as real * (h * j)) by (nonlinear_arith)
            requires
                h >= 0 as real,
                100 as real * k <= 101 as real * j,
        ;
        assert(h * k >= 0 as real) by (nonlinear_arith)
            requires
                h >= 0 as real,
                k > 0 as real,
        ;
    } else {
        assert(h * j >= h * u) by (nonlinear_arith)
            requires
                h < 0 as real,
                j <= u,
        ;
        assert(100 as real * (h * k) >= 101 as real * (h * j)) by (nonlinear_arith)
            requires
                h < 0 as real,
                100 as real * k <= 101 as real * j,
        ;
        assert(h * k <= 0 as real) by (nonlinear_arith)
            requires
                h < 0 as real,
                k > 0 as real,
        ;
    }
    assert(size(h * k) <= (11 as real) / (10 as real) * w);
    lemma_product_size(h, c, size(h), 6 as real * ke);
    let z = size(h);
    assert(z * k == size(h * k)) by {
        lemma_signed(h, k);
    }
    let zk = z * k;
    assert(z * (6 as real * ke) == 6 as real * (zk * e)) by (nonlinear_arith)
        requires
            ke == k * e,
            zk == z * k,
    ;
    assert(10 as real * (zk * e) <= 11 as real * we) by (nonlinear_arith)
        requires
            10 as real * zk <= 11 as real * w,
            we == w * e,
            e > 0 as real,
    ;
    assert(h * k == s - h * c) by (nonlinear_arith)
        requires
            s == h * u,
            c == u - k,
    ;
}

proof fn lemma_signed(h: real, k: real)
    requires
        k > 0 as real,
    ensures
        size(h) * k == size(h * k),
{
    if h >= 0 as real {
        assert(h * k >= 0 as real) by (nonlinear_arith)
            requires
                h >= 0 as real,
                k > 0 as real,
        ;
    } else {
        assert(h * k < 0 as real && (-h) * k == -(h * k)) by (nonlinear_arith)
            requires
                h < 0 as real,
                k > 0 as real,
        ;
    }
}

/// A product of two coordinates.
proof fn lemma_coordinates(y: Number, x: Number, m: real)
    requires
        x is Finite,
        y is Finite,
        size(value(x)) <= m,
        size(value(y)) <= m,
        m >= 1 as real,
        m <= 0x40 as real,
    ensures
        (-y * x) is Finite,
        size(value(-y * x) + value(y) * value(x)) <= 2 as real * ((m * m) * eps()),
        size(value(y) * value(x)) <= m * m,
        m * m <= 0x1000 as real,
        m * m >= 1 as real,
{
    lemma_negated_value(y);
    lemma_product_size(value(y), value(x), m, m);
    assert(value(-y) * value(x) == -(value(y) * value(x))) by (nonlinear_arith)
        requires
            value(-y) == -value(y),
    ;
    assert(m * m <= 0x1000 as real && m * m >= 1 as real) by (nonlinear_arith)
        requires
            m >= 1 as real,
            m <= 0x40 as real,
    ;
    lemma_multiplied(-y, x, m * m);
}

proof fn lemma_lean_level(h: real, u: real, k: real, n: real, p: real, mm: real)
    requires
        size(h * u - n) <= 2 as real * ((2 as real * mm) * eps()),
        size(n - p) <= 2 as real * (mm * eps()),
        size(p) <= mm,
        mm >= 1 as real,
        size(u - k) <= 6 as real * (k * eps()),
        k >= (1 as real) / (2 as real),
    ensures
        size(h * k - p) <= 224 as real * (mm * eps()),
{
    lemma_tiny();
    let (e, w, me) = (eps(), 2 as real * mm, mm * eps());
    assert(w * e == 2 as real * me) by (nonlinear_arith)
        requires
            w == 2 as real * mm,
            me == mm * e,
    ;
    assert(me > 0 as real && me <= mm / (1000 as real)) by (nonlinear_arith)
        requires
            me == mm * e,
            mm >= 1 as real,
            e == (1 as real) / (0x100_0000 as real),
    ;
    lemma_nearly_undone(h, u, k, n, w);
}

/// What a divisor is within.
proof fn lemma_divisor_size(u: real, k: real)
    requires
        size(u - k) <= 6 as real * (k * eps()),
        k >= (6 as real) / (10 as real),
        k <= 0x1000_0000 as real,
    ensures
        u >= (1 as real) / (2 as real),
        u <= 0x1_0000_0000 as real,
{
    let (e, ke) = (eps(), k * eps());
    assert(ke <= k / (1000 as real) && ke > 0 as real) by (nonlinear_arith)
        requires
            ke == k * e,
            k >= (6 as real) / (10 as real),
            e == (1 as real) / (0x100_0000 as real),
    ;
}

/// One level entry of the row of the elevation.
proof fn lemma_lean(y: Number, x: Number, u: Number, k: real, m: real)
    requires
        x is Finite,
        y is Finite,
        u is Finite,
        size(value(x)) <= m,
        size(value(y)) <= m,
        m >= 1 as real,
        m <= 0x40 as real,
        size(value(u) - k) <= 6 as real * (k * eps()),
        k >= (6 as real) / (10 as real),
        k <= 0x1000_0000 as real,
    ensures
        (-y * x / u) is Finite,
        size(value(-y * x / u) * k + value(y) * value(x)) <= 224 as real * ((m * m) * eps()),
{
    lemma_coordinates(y, x, m);
    lemma_divisor_size(value(u), k);
    let n = -y * x;
    let p = -(value(y) * value(x));
    assert(size(value(n)) <= 2 as real * (m * m)) by {
        lemma_few_parts(m * m);
    }
    lemma_fraction(n, u, 2 as real * (m * m));
    lemma_lean_level(value(n / u), value(u), k, value(n), p, m * m);
}

proof fn lemma_few_parts(a: real)
    requires
        a >= 1 as real,
    ensures
        2 as real * (a * eps()) <= a,
{
    let e = eps();
    assert(2 as real * (a * e) <= a) by (nonlinear_arith)
        requires
            a >= 1 as real,
            e == (1 as real) / (0x100_0000 as real),
    ;
}

/// The upright entry of the row of the elevation.
proof fn lemma_rise(level: Number, s: Number, rr: real, l: real, m: real)
    requires
        level is Finite,
        s is Finite,
        value(level) >= (9 as real) / (10 as real),
        value(level) <= 4 as real * m,
        m >= 1 as real,
        m <= 0x40 as real,
        size(value(s) - rr) <= 6 as real * (rr * eps()),
        rr >= (6 as real) / (10 as real),
        rr <= 0x1000_0000 as real,
        size(value(level) * value(level) - l) <= 16 as real * (l * eps()),
        l <= 2 as real * (m * m),
    ensures
        (level / s) is Finite,
        size(value(level / s) * (value(level) * rr) - l) <= 224 as real * ((m * m) * eps()),
{
    lemma_tiny();
    let (e, v) = (eps(), value(level));
    let re = rr * e;
    assert(re * 1000 as real <= rr && re > 0 as real) by (nonlinear_arith)
        requires
            re == rr * e,
            rr >= (6 as real) / (10 as real),
            e == (1 as real) / (0x100_0000 as real),
    ;
    let w = 4 as real * m;
    lemma_fraction(level, s, w);
    let h = value(level / s);
    assert(w * e > 0 as real) by (nonlinear_arith)
        requires
            w >= 4 as real,
            e > 0 as real,
    ;
    lemma_nearly_undone(h, value(s), rr, v, w);
    lemma_rise_level(h, rr, v, l, m);
}

proof fn lemma_rise_level(h: real, rr: real, v: real, l: real, m: real)
    requires
        size(h * rr - v) <= 12 as real * ((4 as real * m) * eps()),
        v >= 0 as real,
        v <= 4 as real * m,
        size(v * v - l) <= 16 as real * (l * eps()),
        l <= 2 as real * (m * m),
    ensures
        size(h * (v * rr) - l) <= 224 as real * ((m * m) * eps()),
{
    lemma_tiny();
    let (e, mm, w) = (eps(), m * m, 4 as real * m);
    let c = h * rr - v;
    let we = w * e;
    lemma_product_size(c, v, 12 as real * we, w);
    assert(we * w == 16 as real * (mm * e)) by (nonlinear_arith)
        requires
            we == w * e,
            w == 4 as real * m,
            mm == m * m,
    ;
    assert((12 as real * we) * w == 12 as real * (we * w)) by (nonlinear_arith);
    assert(h * (v * rr) == v * v + c * v) by (nonlinear_arith)
        requires
            c == h * rr - v,
    ;
    assert(l * e <= 2 as real * (mm * e)) by (nonlinear_arith)
        requires
            l <= 2 as real * mm,
            e > 0 as real,
    ;
}


proof fn lemma_once(v: real, a: real, rho: real)
    requires
        size(v - a) <= 2 as real * (a * eps()),
        a >= (8 as real) / (10 as real),
        rho >= (9 as real) / (10 as real),
    ensures
        size(v * rho - a * rho) <= 2 as real * ((a * rho) * eps()),
        v * rho <= 2 as real * (a * rho),
        v * rho >= (6 as real) / (10 as real),
{
    lemma_tiny();
    let (e, k, c) = (eps(), a * rho, v - a);
    let ae = a * e;
    lemma_product_size(c, rho, 2 as real * ae, rho);
    assert((2 as real * ae) * rho == 2 as real * (k * e)) by (nonlinear_arith)
        requires
            ae == a * e,
            k == a * rho,
    ;
    assert(v * rho == k + c * rho) by (nonlinear_arith)
        requires
            k == a * rho,
            c == v - a,
    ;
    assert(k >= (7 as real) / (10 as real)) by (nonlinear_arith)
        requires
            k == a * rho,
            a >= (8 as real) / (10 as real),
            rho >= (9 as real) / (10 as real),
    ;
    lemma_few_more(k);
}

proof fn lemma_twice(v: real, a: real, rho: real, u: real)
    requires
        size(v - a) <= 2 as real * (a * eps()),
        size(u - v * rho) <= 2 as real * ((v * rho) * eps()),
        a >= (8 as real) / (10 as real),
        rho >= (9 as real) / (10 as real),
    ensures
        size(u - a * rho) <= 6 as real * ((a * rho) * eps()),
{
    lemma_tiny();
    lemma_once(v, a, rho);
    let (e, k, w) = (eps(), a * rho, v * rho);
    assert(w * e <= 2 as real * (k * e)) by (nonlinear_arith)
        requires
            w <= 2 as real * k,
            e > 0 as real,
    ;
}

proof fn lemma_few_more(k: real)
    requires
        k >= (7 as real) / (10 as real),
    ensures
        k * eps() <= k / (1000 as real),
        k * eps() > 0 as real,
{
    let e = eps();
    assert(k * e <= k / (1000 as real) && k * e > 0 as real) by (nonlinear_arith)
        requires
            k >= (7 as real) / (10 as real),
            e == (1 as real) / (0x100_0000 as real),
    ;
}

/// The sizes of the divisors.
proof fn lemma_divisor_bounds(rho: real, lambda: real, m: real)
    requires
        rho >= (9 as real) / (10 as real),
        rho <= 4 as real * m,
        lambda >= (9 as real) / (10 as real),
        lambda <= 4 as real * m,
        m >= 1 as real,
        m <= 0x40 as real,
    ensures
        rho * rho >= (8 as real) / (10 as real),
        rho * rho <= 0x1_0000 as real,
        lambda * rho >= (8 as real) / (10 as real),
        lambda * rho <= 0x1_0000 as real,
        (lambda * rho) * rho == lambda * (rho * rho),
        lambda * (rho * rho) >= (6 as real) / (10 as real),
        lambda * (rho * rho) <= 0x1000_0000 as real,
        m * m <= 0x1000 as real,
        m * m >= 1 as real,
{
    let (a, b) = (rho * rho, lambda * rho);
    lemma_band(rho, rho);
    lemma_band(lambda, rho);
    lemma_band(m, m);
    assert((lambda * rho) * rho == lambda * (rho * rho)) by (nonlinear_arith);
    assert(lambda * a >= (6 as real) / (10 as real)) by (nonlinear_arith)
        requires
            lambda >= (9 as real) / (10 as real),
            a >= (8 as real) / (10 as real),
    ;
    assert(lambda * a <= 0x1000_0000 as real) by (nonlinear_arith)
        requires
            lambda <= 0x100 as real,
            lambda >= 0 as real,
            a >= 0 as real,
            a <= 0x1_0000 as real,
    ;
    assert(m * m <= 0x1000 as real && m * m >= 1 as real) by (nonlinear_arith)
        requires
            m >= 1 as real,
            m <= 0x40 as real,
    ;
}

proof fn lemma_band(a: real, b: real)
    requires
        a >= (9 as real) / (10 as real),
        b >= (9 as real) / (10 as real),
        a <= 0x100 as real,
        b <= 0x100 as real,
    ensures
        a * b >= (8 as real) / (10 as real),
        a * b <= 0x1_0000 as real,
{
    assert(a * b >= (8 as real) / (10 as real)) by (nonlinear_arith)
        requires
            a >= (9 as real) / (10 as real),
            b >= (9 as real) / (10 as real),
    ;
    assert(a * b <= 0x1_0000 as real) by (nonlinear_arith)
        requires
            a >= 0 as real,
            b >= 0 as real,
            a <= 0x100 as real,
            b <= 0x100 as real,
    ;
}

/// The divisor of the level entries.
proof fn lemma_third_divisor(level: Number, r: Number, m: real)
    requires
        level is Finite,
        r is Finite,
        value(r) >= (9 as real) / (10 as real),
        value(r) <= 4 as real * m,
        value(level) >= (9 as real) / (10 as real),
        value(level) <= 4 as real * m,
        m >= 1 as real,
        m <= 0x40 as real,
    ensures
        ({
            let k = value(level) * (value(r) * value(r));
            &&& (level * r * r) is Finite
            &&& size(value(level * r * r) - k) <= 6 as real * (k * eps())
        }),
{
    let (rho, lambda) = (value(r), value(level));
    lemma_divisor_bounds(rho, lambda, m);
    lemma_divisor(level, r);
    let v = value(level * r);
    let a = lambda * rho;
    lemma_once(v, a, rho);
    lemma_divisor(level * r, r);
    lemma_twice(v, a, rho, value(level * r * r));
}

/// How a measured range, azimuth and elevation change with the place of what is
/// measured. Away from the drone the range grows, by as much as the place moves, and
/// neither angle changes; round the drone only the azimuth grows, by the angle gone
/// round; upwards on the sphere about the drone only the elevation grows, likewise. All
/// but for rounding. The result is the range and the level range.
pub proof fn law_bearings_follow_the_place(d: V3, m: real) -> (r: (real, real))
    requires
        is_aside(d, m),
    ensures
        ({
            let (h, t) = (grid(position_jacobian(d)), triple(d));
            &&& reads(h.r0, t, r.0, 0 as real, 0 as real, slack(m))
            &&& reads(h.r1, t, 0 as real, 1 as real, 0 as real, slack(m))
            &&& reads(h.r2, t, 0 as real, 0 as real, r.1, slack(m))
            &&& r.0 > 0 as real
            &&& r.1 > 0 as real
            &&& size(r.0 * r.0 - whole_square(t)) <= 16 as real * (whole_square(t) * eps())
            &&& size(r.1 * r.1 - level_square(t)) <= 16 as real * (level_square(t) * eps())
        }),
{
    lemma_ranges(d, m);
    let r = larger(d.length(), decode(MIN_RANGE));
    let level2 = larger(d.x * d.x + d.z * d.z, decode(MIN_LEVEL_RANGE));
    let level = square_root(level2);
    let (h, t) = (grid(position_jacobian(d)), triple(d));
    let (rho, lambda, flat) = (value(r), value(level), value(level2));
    lemma_divisor_bounds(rho, lambda, m);
    lemma_fraction(d.x, r, m);
    lemma_fraction(d.y, r, m);
    lemma_fraction(d.z, r, m);
    lemma_range_row(h.r0, t, rho, m);
    lemma_negated_value(d.x);
    lemma_few_more(level_square(t));
    lemma_fraction(d.z, level2, m);
    lemma_fraction(-d.x, level2, m);
    lemma_no_value(zero());
    lemma_azimuth_row(h.r1, t, flat, m);
    let k = lambda * (rho * rho);
    lemma_third_divisor(level, r, m);
    lemma_lean(d.y, d.x, level * r * r, k, m);
    lemma_lean(d.y, d.z, level * r * r, k, m);
    lemma_divisor(r, r);
    lemma_few_more(rho * rho);
    lemma_rise(level, r * r, rho * rho, level_square(t), m);
    lemma_elevation_row(h.r2, t, rho, lambda, m);
    (rho, lambda)
}

} // verus!
