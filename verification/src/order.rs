//! Facts about the order of numbers, and how arithmetic keeps it.
use crate::number::{
    at_most, clamped, count, decode, is_single, less, limit, nearest, one, product, quotient,
    rounded, square_root, sum, unit, zero, Number,
};
use crate::rounding::{
    lemma_pow2_le, lemma_root_of_square, lemma_rounded_again, lemma_rounded_cancel,
    lemma_rounded_divisor, lemma_rounded_exact, lemma_rounded_keeps_most, lemma_rounded_monotone,
    lemma_rounded_root_monotone,
};
use vstd::arithmetic::power2::{lemma2_to64, lemma_pow2_adds, lemma_pow2_pos, pow2};
use vstd::prelude::*;

verus! {

pub proof fn lemma_less_irreflexive(a: Number)
    ensures
        !less(a, a),
{
    reveal(less);
}

pub proof fn lemma_less_transitive(a: Number, b: Number, c: Number)
    requires
        less(a, b),
        less(b, c),
    ensures
        less(a, c),
{
    reveal(less);
}

pub proof fn lemma_at_most_transitive(a: Number, b: Number, c: Number)
    requires
        at_most(a, b),
        at_most(b, c),
    ensures
        at_most(a, c),
{
    reveal(less);
}

/// A number brought into a range lies in it.
pub proof fn lemma_clamped(a: Number, low: Number, high: Number)
    requires
        !(a is Nan),
        at_most(low, high),
    ensures
        at_most(low, clamped(a, low, high)),
        at_most(clamped(a, low, high), high),
{
    reveal(less);
}

/// The magnitude of a pattern is exact.
pub proof fn lemma_single(neg: bool, mag: nat)
    requires
        is_single(Number::Finite { neg, mag }),
    ensures
        rounded(mag, 1) == mag,
        mag < limit(),
{
    let bits = choose|bits: u32| #[trigger] decode(bits) == (Number::Finite { neg, mag });
    let rest = (bits as nat) % 0x8000_0000;
    let exponent = rest / 0x80_0000;
    let fraction = rest % 0x80_0000;
    lemma2_to64();
    if exponent == 0 {
        assert(fraction * pow2(0) == fraction);
        lemma_rounded_exact(fraction, 0);
        lemma_pow2_le(24, 277);
    } else {
        let k = (exponent - 1) as nat;
        lemma_rounded_exact(0x80_0000 + fraction, k);
        lemma_pow2_adds(24, 253);
        lemma_pow2_le(k, 253);
        lemma_pow2_pos(k);
        assert((0x80_0000 + fraction) * pow2(k) < 0x100_0000 * pow2(253)) by (nonlinear_arith)
            requires
                fraction < 0x80_0000,
                0 < pow2(k) <= pow2(253),
        ;
    }
}

/// Adding something that is not negative takes nothing away.
pub proof fn lemma_sum_grows(a: Number, b: Number)
    requires
        is_single(a),
        at_most(zero(), a),
        at_most(zero(), b),
    ensures
        at_most(a, a + b),
{
    reveal(less);
    reveal(sum);
    if let (Number::Finite { neg: p, mag: m }, Number::Finite { neg: q, mag: n }) = (a, b) {
        lemma_single(p, m);
        if m + n > 0 {
            lemma_rounded_monotone(m, m + n, 1);
        }
    }
}

/// The sum of two numbers that are not negative is not negative.
pub proof fn lemma_sum_of_growth(a: Number, b: Number)
    requires
        at_most(zero(), a),
        at_most(zero(), b),
    ensures
        at_most(zero(), a + b),
{
    reveal(less);
    reveal(sum);
    lemma_pow2_pos(277);
}

/// A positive number times one that is not negative is not negative.
pub proof fn lemma_product_of_growth(a: Number, b: Number)
    requires
        a is Finite,
        a->mag > 0,
        at_most(zero(), a),
        at_most(zero(), b),
    ensures
        at_most(zero(), a * b),
{
    reveal(less);
    reveal(product);
    if let Number::Finite { mag: n, .. } = b {
        if n == 0 {
            lemma_rounded_exact(0, 0);
            assert(0 * pow2(0) == 0);
            lemma_pow2_pos(149);
            assert(0 * unit() == 0 && 1 * unit() == unit());
            lemma_rounded_cancel(0, 1, unit());
            assert(a->mag * 0 == 0);
            lemma_pow2_pos(277);
        }
    }
}

/// The count of a number; infinite ones are beyond all others.
pub open spec fn level(a: Number) -> int {
    match a {
        Number::Nan => 0,
        Number::Infinite { neg } => count(neg, limit()),
        Number::Finite { neg, mag } => count(neg, mag),
    }
}

proof fn lemma_level(a: Number, b: Number)
    requires
        !(a is Nan),
        !(b is Nan),
        a is Finite ==> a->mag < limit(),
        b is Finite ==> b->mag < limit(),
    ensures
        at_most(a, b) <==> level(a) <= level(b),
{
    reveal(less);
    lemma_pow2_pos(277);
}

/// The number nearest to a count, or the bound beyond which it is infinite.
proof fn lemma_nearest(s: int)
    ensures
        !(nearest(s) is Nan),
        nearest(s) is Finite ==> nearest(s)->mag < limit(),
        level(nearest(s)) == ({
            let m = rounded((if s < 0 { -s } else { s }) as nat, 1);
            count(s < 0, if m < limit() { m } else { limit() })
        }),
{
}

proof fn lemma_nearest_monotone(s: int, t: int)
    requires
        s <= t,
    ensures
        level(nearest(s)) <= level(nearest(t)),
{
    lemma_nearest(s);
    lemma_nearest(t);
    if s >= 0 {
        lemma_rounded_monotone(s as nat, t as nat, 1);
    } else if t < 0 {
        lemma_rounded_monotone((-t) as nat, (-s) as nat, 1);
    }
}

/// Adding the same to both keeps the order.
pub proof fn lemma_sum_monotone(a: Number, b: Number, c: Number)
    requires
        at_most(a, b),
        (a + c) !is Nan,
        (b + c) !is Nan,
    ensures
        at_most(a + c, b + c),
{
    reveal(sum);
    if a is Finite && b is Finite && c is Finite {
        let s = level(a) + level(c);
        let t = level(b) + level(c);
        assert(s <= t) by {
            reveal(less);
        }
        lemma_nearest_monotone(s, t);
        lemma_nearest(s);
        lemma_nearest(t);
        lemma_pow2_pos(277);
        assert(nearest(0) == zero()) by {
            lemma_rounded_exact(0, 0);
            assert(0 * pow2(0) == 0);
        }
        lemma_level(a + c, b + c);
    } else {
        reveal(less);
    }
}

/// Dividing by the same positive number keeps the order.
pub proof fn lemma_quotient_monotone(a: Number, b: Number, d: Number)
    requires
        at_most(a, b),
        d is Finite,
        less(zero(), d),
    ensures
        at_most(a / d, b / d),
{
    reveal(less);
    reveal(quotient);
    lemma_pow2_pos(277);
    lemma_pow2_pos(149);
    let n = d->mag;
    assert(0 * unit() == 0);
    lemma_zero_quotient(n);
    if a is Finite && b is Finite {
        let (p, q) = (a->mag, b->mag);
        assert(p <= q ==> p * unit() <= q * unit()) by (nonlinear_arith);
        assert(q <= p ==> q * unit() <= p * unit()) by (nonlinear_arith);
        if p <= q {
            lemma_rounded_monotone(p * unit(), q * unit(), n);
        } else {
            lemma_rounded_monotone(q * unit(), p * unit(), n);
        }
    }
}

/// Multiplying the same positive number by both keeps the order.
pub proof fn lemma_product_monotone(c: Number, a: Number, b: Number)
    requires
        at_most(a, b),
        c is Finite,
        less(zero(), c),
    ensures
        at_most(c * a, c * b),
{
    reveal(less);
    reveal(product);
    lemma_pow2_pos(277);
    lemma_pow2_pos(149);
    lemma_zero_quotient(unit());
    let k = c->mag;
    assert(k * 0 == 0);
    if a is Finite && b is Finite {
        let (p, q) = (a->mag, b->mag);
        assert(p <= q ==> k * p <= k * q) by (nonlinear_arith);
        assert(q <= p ==> k * q <= k * p) by (nonlinear_arith);
        if p <= q {
            lemma_rounded_monotone(k * p, k * q, unit());
        } else {
            lemma_rounded_monotone(k * q, k * p, unit());
        }
    }
}

/// Roots keep the order.
pub proof fn lemma_root_monotone(a: Number, b: Number)
    requires
        at_most(zero(), a),
        at_most(a, b),
    ensures
        at_most(square_root(a), square_root(b)),
        at_most(zero(), square_root(a)),
{
    reveal(less);
    reveal(square_root);
    lemma_pow2_pos(277);
    if a is Finite && b is Finite {
        let (p, q) = (a->mag, b->mag);
        assert(p * unit() <= q * unit()) by (nonlinear_arith)
            requires
                p <= q,
        ;
        lemma_rounded_root_monotone(p * unit(), q * unit(), 1);
    }
}

/// Nothing divided is nothing.
pub proof fn lemma_zero_quotient(d: nat)
    requires
        d > 0,
    ensures
        rounded(0, d) == 0,
{
    lemma_rounded_exact(0, 0);
    assert(0 * pow2(0) == 0 && 0 * d == 0 && 1 * d == d);
    lemma_rounded_cancel(0, 1, d);
}

/// Signs swapped, the order is reversed.
pub proof fn lemma_negated(a: Number, b: Number)
    requires
        at_most(a, b),
    ensures
        at_most(-b, -a),
{
    reveal(less);
}

/// The larger minus the smaller is not negative.
pub proof fn lemma_difference_sign(a: Number, b: Number)
    requires
        less(a, b),
    ensures
        at_most(zero(), b - a),
{
    reveal(less);
    reveal(sum);
    lemma_pow2_pos(277);
}

/// Whether a number has no more digits than single precision holds.
pub open spec fn is_rounded(a: Number) -> bool {
    a matches Number::Finite { mag, .. } ==> rounded(mag, 1) == mag < limit()
}

/// What an operation yields is rounded.
pub proof fn lemma_results_are_rounded(a: Number, b: Number)
    ensures
        is_rounded(a + b),
        is_rounded(a * b),
        is_rounded(a / b),
{
    reveal(sum);
    reveal(product);
    reveal(quotient);
    lemma_pow2_pos(149);
    lemma_pow2_pos(277);
    lemma_zero_quotient(1);
    if let (Number::Finite { neg: p, mag: m }, Number::Finite { neg: q, mag: n }) = (a, b) {
        let s = count(p, m) + count(q, n);
        lemma_rounded_again((if s < 0 { -s } else { s }) as nat, 1);
        lemma_rounded_again(m * n, unit());
        if n > 0 {
            lemma_rounded_again(m * unit(), n);
        }
    }
}

/// So is the value of a pattern.
pub proof fn lemma_single_is_rounded(a: Number)
    requires
        is_single(a),
    ensures
        is_rounded(a),
{
    if let Number::Finite { neg, mag } = a {
        lemma_single(neg, mag);
    }
}

/// The reciprocal of two reciprocals' sum, where the first of the two numbers
/// is the larger, is not above it.
pub proof fn lemma_harmonic(a: Number, b: Number)
    requires
        is_rounded(a),
        is_rounded(b),
        less(zero(), b),
        less(b, a),
    ensures
        at_most(one() / (one() / a + one() / b), a),
        at_most(zero(), one() / (one() / a + one() / b)),
{
    reveal(less);
    reveal(sum);
    reveal(quotient);
    lemma2_to64();
    lemma_pow2_pos(149);
    let u = unit();
    let n = b->mag;
    lemma_pow2_adds(149, 149);
    lemma_pow2_adds(277, 21);
    assert(u * u >= 0x20_0000 * n) by (nonlinear_arith)
        requires
            u * u == limit() * 0x20_0000,
            n < limit(),
    ;
    let inv_b = rounded(u * u, n);
    lemma_rounded_keeps_most(u * u, n);
    assert(inv_b > 0) by (nonlinear_arith)
        requires
            4 * (inv_b * n) >= 3 * (u * u),
            u * u > 0,
    ;
    assert(u * u > 0) by (nonlinear_arith)
        requires
            u > 0,
    ;
    if let Number::Finite { mag: m, .. } = a {
        assert(u * u >= 0x20_0000 * m) by (nonlinear_arith)
            requires
                u * u == limit() * 0x20_0000,
                m < limit(),
        ;
        let inv_a = rounded(u * u, m);
        lemma_rounded_keeps_most(u * u, m);
        assert(inv_a > 0) by (nonlinear_arith)
            requires
                4 * (inv_a * m) >= 3 * (u * u),
                u * u > 0,
        ;
        lemma_rounded_divisor(u * u, n, m);
        if inv_b < limit() {
            let t = inv_a + inv_b;
            let s = rounded(t, 1);
            lemma_rounded_keeps_most(t, 1);
            assert(s * 1 == s);
            assert(one() / a == (Number::Finite { neg: false, mag: inv_a }));
            assert(one() / b == (Number::Finite { neg: false, mag: inv_b }));
            assert(s > 0);
            assert(u * u <= m * s) by (nonlinear_arith)
                requires
                    4 * s >= 3 * t,
                    t >= 2 * inv_a,
                    4 * (inv_a * m) >= 3 * (u * u),
                    m >= 0,
            ;
            lemma_rounded_monotone(u * u, m * s, s);
            lemma_rounded_cancel(m, 1, s);
            assert(1 * s == s);
        }
    }
}

/// `h` halves.
pub open spec fn halves(h: nat) -> Number {
    Number::Finite { neg: false, mag: h * pow2(148) }
}

/// Few halves are added and compared exactly.
pub proof fn lemma_halves(g: nat, h: nat)
    requires
        0 < g + h < 0x100_0000,
    ensures
        halves(g) + halves(h) == halves(g + h),
        less(halves(g), halves(h)) <==> g < h,
        g < h ==> halves(h) - halves(g) == halves((h - g) as nat),
        rounded(halves(g)->mag, 1) == halves(g)->mag < limit(),
{
    reveal(sum);
    reveal(less);
    lemma_rounded_exact(g + h, 148);
    lemma_rounded_exact(g, 148);
    lemma_pow2_pos(148);
    lemma2_to64();
    lemma_pow2_adds(24, 148);
    vstd::arithmetic::power2::lemma_pow2_strictly_increases(172, 277);
    assert((g + h) * pow2(148) == g * pow2(148) + h * pow2(148)) by (nonlinear_arith);
    assert(0 < (g + h) * pow2(148) < 0x100_0000 * pow2(148)) by (nonlinear_arith)
        requires
            0 < g + h < 0x100_0000,
            pow2(148) > 0,
    ;
    assert(g * pow2(148) < h * pow2(148) <==> g < h) by (nonlinear_arith)
        requires
            pow2(148) > 0,
    ;
    if g < h {
        let d = (h - g) as nat;
        lemma_rounded_exact(d, 148);
        assert(d * pow2(148) == h * pow2(148) - g * pow2(148)) by (nonlinear_arith)
            requires
                d == h - g,
        ;
        assert(0 < d * pow2(148)) by (nonlinear_arith)
            requires
                d > 0,
                pow2(148) > 0,
        ;
    }
}

/// A number between minus one and one, times another, is no farther from zero
/// than that one.
pub proof fn lemma_product_within(a: Number, mag: nat)
    requires
        at_most(-one(), a),
        at_most(a, one()),
        rounded(mag, 1) == mag < limit(),
    ensures
        ({
            let c = Number::Finite { neg: false, mag };
            at_most(-c, a * c) && at_most(a * c, c)
        }),
{
    reveal(less);
    reveal(product);
    lemma_pow2_pos(149);
    let u = unit();
    let m = a->mag;
    assert(m * mag <= mag * u) by (nonlinear_arith)
        requires
            m <= u,
    ;
    lemma_rounded_monotone(m * mag, mag * u, u);
    lemma_rounded_cancel(mag, 1, u);
    assert(1 * u == u);
}

/// The order of two numbers does not change their sum.
pub proof fn lemma_sum_commutes(a: Number, b: Number)
    ensures
        a + b == b + a,
{
    reveal(sum);
}

/// A number that is not positive, divided by a positive one, is not positive.
pub proof fn lemma_quotient_sign(a: Number, d: Number)
    requires
        !less(zero(), a),
        less(zero(), d),
    ensures
        !less(zero(), a / d),
{
    reveal(less);
    reveal(quotient);
    lemma_pow2_pos(277);
    if let Number::Finite { mag: n, .. } = d {
        lemma_zero_quotient(n);
        assert(0 * unit() == 0);
    }
}

/// The root of a number's square is not above the number, where the square is
/// not so small that it has fewer digits; `x * y` stands for the number.
pub proof fn lemma_root_of_product(x: Number, y: Number)
    requires
        at_most(zero(), x * y),
        x is Finite,
        y is Finite,
        ((x * y) * (x * y)) matches Number::Finite { mag, .. } ==> mag == 0 || mag >= 0x80_0000,
        ((x * y) * (x * y)) is Finite,
    ensures
        at_most(square_root((x * y) * (x * y)), x * y),
{
    reveal(less);
    reveal(product);
    reveal(square_root);
    lemma_pow2_pos(149);
    lemma_pow2_pos(277);
    let b = x * y;
    if ((b * b)->mag) > 0 {
        lemma_root_of_square(x->mag * y->mag, unit(), unit());
    }
}

} // verus!
