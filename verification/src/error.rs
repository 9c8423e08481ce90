//! How far arithmetic on numbers is from arithmetic on the reals.
use crate::number::{
    count, less, limit, product, quotient, rounded, rounded_root, square_root, sum, unit, Number,
};
use crate::rounding::{lemma_rounded_close, lemma_rounded_root_close};
use vstd::arithmetic::power2::{
    lemma2_to64, lemma_pow2_adds, lemma_pow2_pos, lemma_pow2_strictly_increases, pow2,
};
use vstd::prelude::*;

verus! {

/// The real value of a finite number.
pub open spec fn value(x: Number) -> real {
    match x {
        Number::Finite { neg, mag } => (count(neg, mag) as real) / (unit() as real),
        _ => 0 as real,
    }
}

pub open spec fn size(x: real) -> real {
    if x < 0 as real {
        -x
    } else {
        x
    }
}

/// Whether `a` and `b` are at most `e` apart.
pub open spec fn within(a: real, b: real, e: real) -> bool {
    size(a - b) <= e
}

/// One part in 2^24.
pub open spec fn eps() -> real {
    (1 as real) / (0x100_0000 as real)
}

/// Half the smallest positive number.
pub open spec fn tiny() -> real {
    (1 as real) / (2 as real * (unit() as real))
}

/// A value that is certainly finite: 2^64.
pub open spec fn roomy() -> real {
    0x1_0000_0000_0000_0000 as real
}

proof fn lemma_unit()
    ensures
        unit() as real >= 0x1_0000_0000_0000_0000 as real,
        limit() as real >= (unit() as real) * (2 as real * roomy()),
        limit() as real == (unit() as real) * (roomy() * roomy()),
        tiny() > 0 as real,
        tiny() <= eps() * eps(),
        tiny() * (2 as real * (unit() as real)) == 1 as real,
{
    lemma2_to64();
    lemma_pow2_adds(64, 85);
    lemma_pow2_pos(85);
    assert(unit() >= 0x1_0000_0000_0000_0000) by (nonlinear_arith)
        requires
            unit() == 0x1_0000_0000_0000_0000 * pow2(85),
            pow2(85) >= 1,
    ;
    lemma_pow2_adds(149, 128);
    lemma_pow2_adds(64, 64);
    let u = unit() as real;
    assert(pow2(128) >= 2 * 0x1_0000_0000_0000_0000);
    assert(limit() >= unit() * (2 * 0x1_0000_0000_0000_0000)) by (nonlinear_arith)
        requires
            limit() == unit() * pow2(128),
            pow2(128) >= 2 * 0x1_0000_0000_0000_0000,
    ;
    let v = unit();
    assert((v * (2 * 0x1_0000_0000_0000_0000)) as real == u * (2 as real * roomy())) by (nonlinear_arith)
        requires
            u == v as real,
            roomy() == 0x1_0000_0000_0000_0000 as real,
    ;
    let top = pow2(128);
    assert(top == 0x1_0000_0000_0000_0000 * 0x1_0000_0000_0000_0000);
    assert(top as real == roomy() * roomy()) by (nonlinear_arith)
        requires
            top == 0x1_0000_0000_0000_0000 * 0x1_0000_0000_0000_0000,
            roomy() == 0x1_0000_0000_0000_0000 as real,
    ;
    assert((v * top) as real == u * (top as real)) by (nonlinear_arith)
        requires
            u == v as real,
    ;
    assert(tiny() * (2 as real * u) == 1 as real) by (nonlinear_arith)
        requires
            tiny() == (1 as real) / (2 as real * u),
            u > 0 as real,
    ;
    assert(tiny() > 0 as real && tiny() <= eps() * eps()) by (nonlinear_arith)
        requires
            tiny() * (2 as real * u) == 1 as real,
            u >= 0x1_0000_0000_0000_0000 as real,
            eps() == (1 as real) / (0x100_0000 as real),
    ;
}

/// A rounded quotient, as a count of the smallest number, is near the exact one.
proof fn lemma_rounded_value(n: nat, d: nat, exact: real)
    requires
        d > 0,
        exact * (unit() as real) * (d as real) == n as real,
    ensures
        within(
            (rounded(n, d) as real) / (unit() as real),
            exact,
            exact * eps() + tiny(),
        ),
        exact <= roomy() ==> rounded(n, d) < limit(),
        exact >= 0 as real,
{
    lemma_unit();
    lemma_rounded_close(n, d);
    let r = rounded(n, d);
    let (rr, dd, u) = (r as real, d as real, unit() as real);
    let nn = n as real;
    assert((r * d) as real == rr * dd) by (nonlinear_arith)
        requires
            rr == r as real,
            dd == d as real,
    ;
    assert(exact >= 0 as real) by (nonlinear_arith)
        requires
            exact * u * dd == nn,
            nn >= 0 as real,
            u > 0 as real,
            dd > 0 as real,
    ;
    let got = rr / u;
    assert(got * u == rr) by (nonlinear_arith)
        requires
            got == rr / u,
            u > 0 as real,
    ;
    let off = size(rr * dd - nn);
    assert(0x100_0000 as real * off <= nn || 2 as real * off <= dd);
    assert(within(got, exact, exact * eps() + tiny())) by {
        let e = exact * eps() + tiny();
        assert(size(got - exact) * (u * dd) == off) by (nonlinear_arith)
            requires
                off == size(rr * dd - nn),
                got * u == rr,
                exact * u * dd == nn,
                u > 0 as real,
                dd > 0 as real,
        ;
        assert(e * (u * dd) >= off) by (nonlinear_arith)
            requires
                0x100_0000 as real * off <= nn || 2 as real * off <= dd,
                exact * u * dd == nn,
                exact >= 0 as real,
                eps() == (1 as real) / (0x100_0000 as real),
                tiny() * (2 as real * u) == 1 as real,
                tiny() > 0 as real,
                e == exact * eps() + tiny(),
                u > 0 as real,
                dd > 0 as real,
                nn >= 0 as real,
        ;
        assert(size(got - exact) <= e) by (nonlinear_arith)
            requires
                size(got - exact) * (u * dd) <= e * (u * dd),
                u > 0 as real,
                dd > 0 as real,
        ;
    }
    if exact <= roomy() {
        assert(got < 2 as real * roomy()) by (nonlinear_arith)
            requires
                size(got - exact) <= exact * eps() + tiny(),
                exact <= roomy(),
                roomy() == 0x1_0000_0000_0000_0000 as real,
                eps() == (1 as real) / (0x100_0000 as real),
                tiny() <= eps() * eps(),
        ;
        assert(rr < limit() as real) by (nonlinear_arith)
            requires
                got * u == rr,
                got < 2 as real * roomy(),
                limit() as real >= u * (2 as real * roomy()),
                u > 0 as real,
        ;
    }
}

/// The smallest numbers are far below one part in 2^24.
pub proof fn lemma_tiny()
    ensures
        tiny() > 0 as real,
        tiny() <= eps() * eps(),
        tiny() <= eps(),
        eps() > 0 as real,
{
    lemma_unit();
    let e = eps();
    assert(e * e <= e && e > 0 as real) by (nonlinear_arith)
        requires
            e == (1 as real) / (0x100_0000 as real),
    ;
}

/// One unit is at least 2^96 of the smallest numbers.
proof fn lemma_many_units()
    ensures
        unit() as real >= (0x1_0000_0000_0000_0000 * 0x1_0000_0000) as real,
{
    lemma2_to64();
    lemma_pow2_adds(64, 85);
    lemma_pow2_adds(32, 53);
    lemma_pow2_pos(53);
    let (p, q) = (pow2(53), pow2(85));
    assert(unit() >= 0x1_0000_0000_0000_0000 * 0x1_0000_0000) by (nonlinear_arith)
        requires
            unit() == 0x1_0000_0000_0000_0000 * q,
            q == 0x1_0000_0000 * p,
            p >= 1,
    ;
}

/// The smallest number is far below the rounding of a third power.
pub proof fn lemma_tiny_cubed()
    ensures
        tiny() <= eps() * eps() * eps(),
{
    lemma_many_units();
    let u = unit() as real;
    let (e, o) = (eps(), tiny());
    assert(o <= e * e * e) by (nonlinear_arith)
        requires
            o == (1 as real) / (2 as real * u),
            u >= (0x1_0000_0000_0000_0000 * 0x1_0000_0000) as real,
            e == (1 as real) / (0x100_0000 as real),
    ;
}

/// And of a fourth power.
pub proof fn lemma_tiny_fourth()
    ensures
        tiny() <= eps() * eps() * eps() * eps(),
{
    lemma_many_units();
    let u = unit() as real;
    let (e, o) = (eps(), tiny());
    assert(o <= e * e * e * e) by (nonlinear_arith)
        requires
            o == (1 as real) / (2 as real * u),
            u >= (0x1_0000_0000_0000_0000 * 0x1_0000_0000) as real,
            e == (1 as real) / (0x100_0000 as real),
    ;
}

/// The value of a number by its sign and its magnitude.
proof fn lemma_value(neg: bool, mag: nat)
    ensures
        size(value(Number::Finite { neg, mag })) == (mag as real) / (unit() as real),
        value(Number::Finite { neg, mag }) * (unit() as real) == count(neg, mag) as real,
        size(value(Number::Finite { neg, mag })) * (unit() as real) == mag as real,
        neg ==> value(Number::Finite { neg, mag }) == -((mag as real) / (unit() as real)),
        !neg ==> value(Number::Finite { neg, mag }) == (mag as real) / (unit() as real),
{
    lemma_unit();
    let (m, u) = (mag as real, unit() as real);
    let x = m / u;
    assert(x * u == m && x >= 0 as real && (-m) / u == -x) by (nonlinear_arith)
        requires
            x == m / u,
            m >= 0 as real,
            u > 0 as real,
    ;
    assert((-x) * u == -m) by (nonlinear_arith)
        requires
            x * u == m,
    ;
}

/// The sum of two numbers is near the sum of their values.
pub proof fn lemma_sum_error(a: Number, b: Number)
    requires
        a is Finite,
        b is Finite,
    ensures
        size(value(a) + value(b)) <= roomy() ==> (a + b) is Finite,
        (a + b) is Finite ==> within(
            value(a + b),
            value(a) + value(b),
            size(value(a) + value(b)) * eps() + tiny(),
        ),
{
    reveal(sum);
    lemma_unit();
    let (p, m, q, n) = (a->Finite_neg, a->mag, b->Finite_neg, b->mag);
    lemma_value(p, m);
    lemma_value(q, n);
    let u = unit() as real;
    let s = count(p, m) + count(q, n);
    let exact = value(a) + value(b);
    assert(exact * u == s as real) by (nonlinear_arith)
        requires
            value(a) * u == count(p, m) as real,
            value(b) * u == count(q, n) as real,
            exact == value(a) + value(b),
            s == count(p, m) + count(q, n),
    ;
    let k = (if s < 0 { -s } else { s }) as nat;
    assert(size(exact) * u * (1 as real) == k as real) by (nonlinear_arith)
        requires
            exact * u == s as real,
            k as real == size(s as real),
            u > 0 as real,
    ;
    lemma_rounded_value(k, 1, size(exact));
    if s == 0 {
        lemma_value(p && q, 0);
        assert(exact == 0 as real) by (nonlinear_arith)
            requires
                exact * u == 0 as real,
                u > 0 as real,
        ;
    } else {
        lemma_value(s < 0, rounded(k, 1));
        assert(s < 0 ==> exact < 0 as real) by (nonlinear_arith)
            requires
                exact * u == s as real,
                u > 0 as real,
        ;
        assert(s > 0 ==> exact > 0 as real) by (nonlinear_arith)
            requires
                exact * u == s as real,
                u > 0 as real,
        ;
    }
}

/// The product of two numbers is near the product of their values.
pub proof fn lemma_product_error(a: Number, b: Number)
    requires
        a is Finite,
        b is Finite,
    ensures
        size(value(a) * value(b)) <= roomy() ==> (a * b) is Finite,
        (a * b) is Finite ==> within(
            value(a * b),
            value(a) * value(b),
            size(value(a) * value(b)) * eps() + tiny(),
        ),
{
    reveal(product);
    lemma_unit();
    let (p, m, q, n) = (a->Finite_neg, a->mag, b->Finite_neg, b->mag);
    lemma_value(p, m);
    lemma_value(q, n);
    let u = unit() as real;
    let (x, y) = ((m as real) / u, (n as real) / u);
    let exact = x * y;
    assert(size(value(a) * value(b)) == exact && (p == q ==> value(a) * value(b) == exact) && (p
        != q ==> value(a) * value(b) == -exact)) by (nonlinear_arith)
        requires
            x >= 0 as real,
            y >= 0 as real,
            p ==> value(a) == -x,
            !p ==> value(a) == x,
            q ==> value(b) == -y,
            !q ==> value(b) == y,
            exact == x * y,
    ;
    assert((m * n) as real == (m as real) * (n as real)) by (nonlinear_arith);
    assert(exact * u * u == (m * n) as real) by (nonlinear_arith)
        requires
            x * u == m as real,
            y * u == n as real,
            exact == x * y,
            (m * n) as real == (m as real) * (n as real),
    ;
    lemma_rounded_value(m * n, unit(), exact);
    lemma_value(p != q, rounded(m * n, unit()));
}

/// The quotient of two numbers is near the quotient of their values.
pub proof fn lemma_quotient_error(a: Number, b: Number, exact: real)
    requires
        a is Finite,
        b is Finite,
        b->mag > 0,
        exact * value(b) == value(a),
    ensures
        size(exact) <= roomy() ==> (a / b) is Finite,
        (a / b) is Finite ==> within(value(a / b), exact, size(exact) * eps() + tiny()),
{
    reveal(quotient);
    lemma_unit();
    let (p, m, q, n) = (a->Finite_neg, a->mag, b->Finite_neg, b->mag);
    lemma_value(p, m);
    lemma_value(q, n);
    let u = unit() as real;
    let (x, y) = ((m as real) / u, (n as real) / u);
    assert(y > 0 as real) by (nonlinear_arith)
        requires
            y * u == n as real,
            n as real > 0 as real,
            u > 0 as real,
    ;
    let e = size(exact);
    assert(e * y == x && (p == q && exact != e ==> x == 0 as real) && (p != q && exact != -e ==> x
        == 0 as real)) by (nonlinear_arith)
        requires
            exact * value(b) == value(a),
            e == size(exact),
            x >= 0 as real,
            y > 0 as real,
            p ==> value(a) == -x,
            !p ==> value(a) == x,
            q ==> value(b) == -y,
            !q ==> value(b) == y,
    ;
    assert((m * unit()) as real == (m as real) * u) by (nonlinear_arith)
        requires
            u == unit() as real,
    ;
    assert(e * u * (n as real) == (m * unit()) as real) by (nonlinear_arith)
        requires
            e * y == x,
            x * u == m as real,
            y * u == n as real,
            (m * unit()) as real == (m as real) * u,
    ;
    lemma_rounded_value(m * unit(), n, e);
    lemma_value(p != q, rounded(m * unit(), n));
    if x == 0 as real {
        assert(e == 0 as real) by (nonlinear_arith)
            requires
                e * y == 0 as real,
                y > 0 as real,
        ;
    }
}

/// The square of a number's root is near the number's value.
pub proof fn lemma_root_error(a: Number)
    requires
        a is Finite,
        a->mag < limit(),
        value(a) > 0 as real,
    ensures
        square_root(a) is Finite,
        value(square_root(a)) > 0 as real,
        within(
            value(square_root(a)) * value(square_root(a)),
            value(a),
            value(a) * (4 as real * eps()),
        ),
{
    reveal(square_root);
    lemma_unit();
    let (neg, m) = (a->Finite_neg, a->mag);
    lemma_value(neg, m);
    let (u, x) = (unit() as real, value(a));
    assert(!neg && m > 0) by {
        if neg {
            assert((m as real) / u >= 0 as real) by (nonlinear_arith)
                requires
                    m as real >= 0 as real,
                    u > 0 as real,
            ;
        } else {
            assert(m > 0) by (nonlinear_arith)
                requires
                    x * u == m as real,
                    x > 0 as real,
                    u > 0 as real,
            ;
        }
    }
    let n = m * unit();
    lemma_large_unit();
    assert(n >= 0x4000_0000_0000 * 1) by (nonlinear_arith)
        requires
            n == m * unit(),
            m >= 1,
            unit() >= 0x4000_0000_0000,
    ;
    lemma_rounded_root_close(n, 1);
    let r = rounded_root(n, 1);
    let (rr, nn) = (r as real, n as real);
    let y = rr / u;
    assert(y * u == rr && y >= 0 as real) by (nonlinear_arith)
        requires
            y == rr / u,
            rr >= 0 as real,
            u > 0 as real,
    ;
    assert(nn == x * u * u) by (nonlinear_arith)
        requires
            nn == n as real,
            n == m * unit(),
            u == unit() as real,
            x * u == m as real,
    ;
    let (lo, hi) = (0xff_ffff as real * rr, 0x100_0001 as real * rr);
    assert(lo * lo <= 0x1_0000_0000_0000 as real * nn && 0x1_0000_0000_0000 as real * nn <= hi * hi)
        by {
        assert(((0xff_ffff * r) * (0xff_ffff * r) * 1) as real == lo * lo) by (nonlinear_arith)
            requires
                rr == r as real,
                lo == 0xff_ffff as real * rr,
        ;
        assert(((0x100_0001 * r) * (0x100_0001 * r) * 1) as real == hi * hi) by (nonlinear_arith)
            requires
                rr == r as real,
                hi == 0x100_0001 as real * rr,
        ;
        assert((0x1_0000_0000_0000 * n) as real == 0x1_0000_0000_0000 as real * nn);
    }
    let e = eps();
    assert((1 as real - e) * (1 as real - e) * (y * y) <= x && x <= (1 as real + e) * (1 as real + e)
        * (y * y)) by (nonlinear_arith)
        requires
            lo == 0xff_ffff as real * rr,
            hi == 0x100_0001 as real * rr,
            lo * lo <= 0x1_0000_0000_0000 as real * nn,
            0x1_0000_0000_0000 as real * nn <= hi * hi,
            nn == x * u * u,
            y * u == rr,
            u > 0 as real,
            e == (1 as real) / (0x100_0000 as real),
    {
        let (p, q) = (1 as real - e, 1 as real + e);
        assert(lo == 0x100_0000 as real * (p * (y * u)));
        assert(hi == 0x100_0000 as real * (q * (y * u)));
        assert(lo * lo == 0x1_0000_0000_0000 as real * ((p * p * (y * y)) * (u * u)));
        assert(hi * hi == 0x1_0000_0000_0000 as real * ((q * q * (y * y)) * (u * u)));
        assert((p * p * (y * y)) * (u * u) <= x * (u * u));
        assert(x * (u * u) <= (q * q * (y * y)) * (u * u));
        assert(u * u > 0 as real);
    }
    assert(y * y >= 0 as real) by (nonlinear_arith);
    lemma_root_band(x, y * y);
    assert(y > 0 as real) by (nonlinear_arith)
        requires
            x <= (1 as real + e) * (1 as real + e) * (y * y),
            x > 0 as real,
            y >= 0 as real,
    ;
    assert(x < roomy() * roomy()) by (nonlinear_arith)
        requires
            x * u == m as real,
            (m as real) < u * (roomy() * roomy()),
            u > 0 as real,
    ;
    assert(y < 2 as real * roomy()) by (nonlinear_arith)
        requires
            size(y * y - x) <= x * (4 as real * e),
            x < roomy() * roomy(),
            roomy() == 0x1_0000_0000_0000_0000 as real,
            e == (1 as real) / (0x100_0000 as real),
            y > 0 as real,
    ;
    assert(rr < limit() as real) by (nonlinear_arith)
        requires
            y * u == rr,
            y < 2 as real * roomy(),
            limit() as real >= u * (2 as real * roomy()),
            u > 0 as real,
    ;
    lemma_value(false, r);
}

proof fn lemma_large_unit()
    ensures
        unit() >= 0x4000_0000_0000,
{
    lemma2_to64();
    lemma_pow2_strictly_increases(64, 149);
}

/// A band of one part in 2^24 about the root, squared.
proof fn lemma_root_band(x: real, z: real)
    requires
        (1 as real - eps()) * (1 as real - eps()) * z <= x,
        x <= (1 as real + eps()) * (1 as real + eps()) * z,
        z >= 0 as real,
        x > 0 as real,
    ensures
        within(z, x, x * (4 as real * eps())),
{
    let e = eps();
    assert(size(z - x) <= x * (4 as real * e)) by (nonlinear_arith)
        requires
            (1 as real - e) * (1 as real - e) * z <= x,
            x <= (1 as real + e) * (1 as real + e) * z,
            z >= 0 as real,
            x > 0 as real,
            e == (1 as real) / (0x100_0000 as real),
    ;
}

/// Numbers are ordered as their values are.
pub proof fn lemma_less_value(a: Number, b: Number)
    requires
        a is Finite,
        b is Finite,
    ensures
        less(a, b) <==> value(a) < value(b),
{
    reveal(less);
    lemma_pow2_pos(149);
    let (p, q, u) = (
        count(a->Finite_neg, a->mag) as real,
        count(b->Finite_neg, b->mag) as real,
        unit() as real,
    );
    assert(p < q <==> p / u < q / u) by (nonlinear_arith)
        requires
            u > 0 as real,
    ;
}

/// Both zeros have the value zero.
pub proof fn lemma_no_value(a: Number)
    requires
        a is Finite,
        a->mag == 0,
    ensures
        value(a) == 0 as real,
{
    lemma_pow2_pos(149);
    let u = unit() as real;
    assert((0 as real) / u == 0 as real) by (nonlinear_arith)
        requires
            u > 0 as real,
    ;
}

/// The sign swaps the value's.
pub proof fn lemma_negated_value(a: Number)
    requires
        a is Finite,
    ensures
        (-a) is Finite,
        value(-a) == -value(a),
{
    lemma_pow2_pos(149);
    let (c, u) = (count(a->Finite_neg, a->mag) as real, unit() as real);
    assert((-c) / u == -(c / u)) by (nonlinear_arith)
        requires
            u > 0 as real,
    ;
}

pub proof fn lemma_square_sign(x: real)
    ensures
        x * x >= 0 as real,
{
    assert(x * x >= 0 as real) by (nonlinear_arith);
}

/// A number of `m` units of `1 / pow2(s)`.
pub proof fn lemma_units(x: Number, m: nat, k: nat, s: nat)
    requires
        x == (Number::Finite { neg: false, mag: m * pow2(k) }),
        k + s == 149,
    ensures
        value(x) * (pow2(s) as real) == m as real,
{
    lemma_pow2_adds(k, s);
    lemma_pow2_pos(k);
    lemma_pow2_pos(s);
    let (a, b) = (pow2(k), pow2(s));
    let (ar, br, mr) = (a as real, b as real, m as real);
    let u = unit() as real;
    assert((a * b) as real == ar * br && (m * a) as real == mr * ar) by (nonlinear_arith)
        requires
            ar == a as real,
            br == b as real,
            mr == m as real,
    ;
    assert((mr * ar) / u * br == mr) by (nonlinear_arith)
        requires
            u == ar * br,
            ar > 0 as real,
            br > 0 as real,
    ;
}

} // verus!
