//! What the measures shown to the pilot follow: the mean charge, and the root of the mean
//! square of the errors.
use crate::bearings::lemma_fraction;
use crate::config::{ONE_TENTH, ONE_TWENTIETH};
use crate::consistency::lemma_one;
use crate::error::{
    eps, lemma_less_value, lemma_no_value, lemma_root_error, lemma_units, size, value,
};
use crate::goal::next_coverage;
use crate::margins::agree;
use crate::metric::lemma_product_size;
use crate::metrics::{eased, tally};
use crate::neighbors::next_est_error;
use crate::number::{decode, less, limit, one, quotient, square_root, zero, Number};
use crate::quad::next_charge;
use crate::selfloc::next_self_error;
use crate::tolerance::{lemma_difference_near, lemma_product_near, lemma_sum_near};
use vstd::arithmetic::power2::{lemma2_to64, lemma_pow2_pos, pow2};
use vstd::prelude::*;

verus! {

/// Whether a measure has gone the share from `before` to `aim`.
pub open spec fn follows(after: Number, before: real, aim: real, share: real, m: real) -> bool {
    &&& after is Finite
    &&& size(value(after) - (before + share * (aim - before))) <= m / (100 as real)
}

proof fn lemma_shares()
    ensures
        agree(value(decode(ONE_TENTH)), (1 as real) / (10 as real)),
        agree(value(decode(ONE_TWENTIETH)), (1 as real) / (20 as real)),
        decode(ONE_TENTH) is Finite,
        decode(ONE_TWENTIETH) is Finite,
{
    lemma2_to64();
    assert(pow2(27) as real == 0x800_0000 as real);
    assert(pow2(28) as real == 0x1000_0000 as real);
    lemma_units(decode(ONE_TENTH), 0xcc_cccd, 122, 27);
    lemma_units(decode(ONE_TWENTIETH), 0xcc_cccd, 121, 28);
}

/// A few roundings of `m`.
proof fn lemma_rounded_part(m: real, k: real)
    requires
        m >= 1 as real,
        k >= 0 as real,
        k <= 100 as real,
    ensures
        2 as real * ((k * m) * eps()) <= m / (10_000 as real),
{
    let (e, me) = (eps(), m * eps());
    assert((k * m) * e == k * me) by (nonlinear_arith)
        requires
            me == m * e,
    ;
    assert(me <= m / (10_000_000 as real) && me > 0 as real) by (nonlinear_arith)
        requires
            me == m * e,
            m >= 1 as real,
            e == (1 as real) / (0x100_0000 as real),
    ;
    assert(k * me <= 100 as real * me) by (nonlinear_arith)
        requires
            k <= 100 as real,
            me > 0 as real,
    ;
}

/// Easing goes the share of the way.
proof fn lemma_follows(a: Number, b: Number, k: Number, aim: real, share: real, m: real)
    requires
        a is Finite,
        b is Finite,
        k is Finite,
        size(value(a)) <= m,
        size(value(b)) <= 2 as real * m,
        size(value(b) - aim) <= m / (200 as real),
        agree(value(k), share),
        share >= 0 as real,
        share <= (1 as real) / (10 as real),
        m >= 1 as real,
        m <= 0x100_0000 as real,
    ensures
        follows(eased(a, b, k), value(a), aim, share, m),
{
    let d = b - a;
    lemma_difference_near(b, a, 3 as real * m);
    lemma_rounded_part(m, 3 as real);
    let (c, f) = (value(k) - share, value(d) - (aim - value(a)));
    lemma_product_size(value(k), value(d), (1 as real) / (5 as real), 4 as real * m);
    lemma_product_near(k, d, m);
    lemma_rounded_part(m, 1 as real);
    lemma_sum_near(a, k * d, 3 as real * m);
    lemma_product_size(c, value(d), (1 as real) / (1_000_000 as real), 4 as real * m);
    lemma_product_size(share, f, (1 as real) / (10 as real), m / (100 as real));
    let (v, x, y) = (value(k), value(d), aim - value(a));
    assert(v * x == share * y + share * f + c * x) by (nonlinear_arith)
        requires
            c == v - share,
            f == x - y,
    ;
}

/// A count of no more than a thousand.
proof fn lemma_tally(n: nat)
    requires
        n <= 1000,
    ensures
        tally(n) is Finite,
        size(value(tally(n)) - n as real) <= (n as real) * ((1 as real) / (5_000 as real)),
    decreases n,
{
    let u = (1 as real) / (5_000 as real);
    let r = n as real;
    if n == 0 {
        lemma_no_value(zero());
        assert(r * u == 0 as real);
    } else {
        let p = (n - 1) as nat;
        lemma_tally(p);
        lemma_one();
        let q = p as real;
        assert(r == q + 1 as real);
        assert(r * u == q * u + u) by (nonlinear_arith)
            requires
                r == q + 1 as real,
        ;
        assert(q * u <= 1 as real) by (nonlinear_arith)
            requires
                q <= 1000 as real,
                u == (1 as real) / (5_000 as real),
        ;
        let w = 1100 as real;
        lemma_sum_near(tally(p), one(), w);
        let e = eps();
        assert(2 as real * (w * e) <= u) by (nonlinear_arith)
            requires
                w == 1100 as real,
                u == (1 as real) / (5_000 as real),
                e == (1 as real) / (0x100_0000 as real),
        ;
    }
}

/// A mean of as many as `n`.
proof fn lemma_mean(sum: Number, n: nat, m: real) -> (mean: real)
    requires
        sum is Finite,
        size(value(sum)) <= m,
        m >= 1 as real,
        m <= 0x100_0000 as real,
        0 < n <= 1000,
    ensures
        mean * (n as real) == value(sum),
        (sum / tally(n)) is Finite,
        size(value(sum / tally(n)) - mean) <= m / (500 as real),
        size(mean) <= m + m / (10_000 as real),
        less(zero(), tally(n)),
        value(sum) * 1000 as real >= m ==> value(sum / tally(n)) > 0 as real,
{
    lemma_tally(n);
    let (t, r, s) = (value(tally(n)), n as real, value(sum));
    let u = (1 as real) / (5_000 as real);
    assert(r * u <= r / (1000 as real)) by (nonlinear_arith)
        requires
            r >= 1 as real,
            u == (1 as real) / (5_000 as real),
    ;
    lemma_no_value(zero());
    lemma_less_value(zero(), tally(n));
    lemma_fraction(sum, tally(n), m);
    lemma_rounded_part(m, 1 as real);
    let g = value(sum / tally(n));
    if s * 1000 as real >= m {
        assert(g > 0 as real) by (nonlinear_arith)
            requires
                g * t > 0 as real,
                t > 0 as real,
        ;
    }
    let mean = s / r;
    assert(mean * r == s) by (nonlinear_arith)
        requires
            mean == s / r,
            r >= 1 as real,
    ;
    lemma_quotient_part(mean, r, m);
    lemma_quotient_part(g, t, m);
    let (c, f) = (t - r, r * u);
    lemma_product_size(g, c, 3 as real * m, f);
    assert((3 as real * m) * f == r * ((3 as real * m) * u)) by (nonlinear_arith)
        requires
            f == r * u,
    ;
    let p = g - mean;
    assert(p * r == (g * t - s) - g * c) by (nonlinear_arith)
        requires
            p == g - mean,
            c == t - r,
            mean * r == s,
    ;
    let h = m / (10_000 as real);
    assert(h <= r * h) by (nonlinear_arith)
        requires
            r >= 1 as real,
            h >= 0 as real,
    ;
    let z = (3 as real * m) * u + h;
    assert(r * z == r * ((3 as real * m) * u) + r * h) by (nonlinear_arith)
        requires
            z == (3 as real * m) * u + h,
    ;
    assert(size(p) <= z) by {
        if p > z {
            assert(p * r > r * z) by (nonlinear_arith)
                requires
                    p > z,
                    r >= 1 as real,
            ;
        }
        if -p > z {
            assert(p * r < -(r * z)) by (nonlinear_arith)
                requires
                    -p > z,
                    r >= 1 as real,
            ;
        }
    }
    assert((3 as real * m) * u == 3 as real * m / (5_000 as real)) by (nonlinear_arith)
        requires
            u == (1 as real) / (5_000 as real),
    ;
    mean
}

/// A quotient by at least about one.
proof fn lemma_quotient_part(g: real, t: real, m: real)
    requires
        size(g * t) <= m + m / (10_000 as real),
        t >= (1 as real) / (2 as real),
        m >= 0 as real,
    ensures
        size(g) <= 3 as real * m,
        t >= 1 as real ==> size(g) <= m + m / (10_000 as real),
{
    if g >= 0 as real {
        assert(g <= 2 as real * (g * t) && (t >= 1 as real ==> g <= g * t)) by (nonlinear_arith)
            requires
                g >= 0 as real,
                t >= (1 as real) / (2 as real),
        ;
    } else {
        assert(g >= 2 as real * (g * t) && (t >= 1 as real ==> g >= g * t)) by (nonlinear_arith)
            requires
                g < 0 as real,
                t >= (1 as real) / (2 as real),
        ;
    }
}

/// The measure of the charge goes a twentieth of the way to the mean charge. The result
/// is that mean.
pub proof fn law_charge_follows_the_mean(before: Number, charges: Number, n: nat, m: real) -> (mean:
    real)
    requires
        before is Finite,
        charges is Finite,
        size(value(before)) <= m,
        size(value(charges)) <= m,
        m >= 1 as real,
        m <= 0x100_0000 as real,
        0 < n <= 1000,
    ensures
        mean * (n as real) == value(charges),
        follows(
            next_charge(before, charges, n),
            value(before),
            mean,
            (1 as real) / (20 as real),
            m,
        ),
{
    lemma_shares();
    let mean = lemma_mean(charges, n, m);
    lemma_follows(
        before,
        charges / tally(n),
        decode(ONE_TWENTIETH),
        mean,
        (1 as real) / (20 as real),
        m,
    );
    mean
}


/// A finite quotient is below the limit.
proof fn lemma_bounded_quotient(a: Number, b: Number)
    requires
        a is Finite,
        b is Finite,
    ensures
        (a / b) is Finite ==> (a / b)->mag < limit(),
{
    reveal(quotient);
    lemma_pow2_pos(277);
}

/// The root of a mean of squares.
proof fn lemma_root_mean(q: Number, mean: real, m: real)
    requires
        q is Finite,
        q->mag < limit(),
        value(q) > 0 as real,
        size(value(q) - mean) <= m / (500 as real),
        size(mean) <= m + m / (10_000 as real),
        m >= 1 as real,
    ensures
        ({
            let s = value(square_root(q));
            &&& square_root(q) is Finite
            &&& s > 0 as real
            &&& s <= 2 as real * m
            &&& size(s * s - mean) <= m / (100 as real)
        }),
{
    lemma_root_error(q);
    let (s, v, e) = (value(square_root(q)), value(q), eps());
    assert(v * (4 as real * e) <= v / (1000 as real)) by (nonlinear_arith)
        requires
            v > 0 as real,
            e == (1 as real) / (0x100_0000 as real),
    ;
    assert(s * s <= 2 as real * m);
    assert(s <= 2 as real * m) by (nonlinear_arith)
        requires
            s * s <= 2 as real * m,
            s > 0 as real,
            m >= 1 as real,
    ;
}

/// Whether `root` is the root of the mean of `n` squares that sum up to `sum`, where `m`
/// bounds the sum.
pub open spec fn is_root_mean(root: real, sum: real, n: real, m: real) -> bool {
    &&& root > 0 as real
    &&& size(root * root - sum / n) <= m / (100 as real)
}

/// The measure of the drones' own errors goes a tenth of the way to the root of their
/// mean square. The result is that root.
pub proof fn law_self_error_follows_the_root_mean_square(
    before: Number,
    errors: Number,
    n: nat,
    m: real,
) -> (root: real)
    requires
        before is Finite,
        errors is Finite,
        size(value(before)) <= m,
        value(errors) <= m,
        value(errors) * 1000 as real >= m,
        m >= 1 as real,
        m <= 0x100_0000 as real,
        0 < n <= 1000,
    ensures
        is_root_mean(root, value(errors), n as real, m),
        follows(
            next_self_error(before, errors, n),
            value(before),
            root,
            (1 as real) / (10 as real),
            m,
        ),
{
    lemma_shares();
    let mean = lemma_mean(errors, n, m);
    let (r, s) = (n as real, value(errors));
    assert(mean == s / r) by (nonlinear_arith)
        requires
            mean * r == s,
            r >= 1 as real,
    ;
    let q = errors / tally(n);
    lemma_tally(n);
    lemma_bounded_quotient(errors, tally(n));
    lemma_root_mean(q, mean, m);
    let root = value(square_root(q));
    lemma_follows(before, square_root(q), decode(ONE_TENTH), root, (1 as real) / (10 as real), m);
    root
}

/// The measure of the tracks' errors goes a tenth of the way to the root of their mean
/// square. The result is that root.
pub proof fn law_track_error_follows_the_root_mean_square(
    before: Number,
    errors: Number,
    n: nat,
    m: real,
) -> (root: real)
    requires
        before is Finite,
        errors is Finite,
        size(value(before)) <= m,
        value(errors) <= m,
        value(errors) * 1000 as real >= m,
        m >= 1 as real,
        m <= 0x100_0000 as real,
        0 < n <= 1000,
    ensures
        is_root_mean(root, value(errors), n as real, m),
        follows(
            next_est_error(before, errors, tally(n)),
            value(before),
            root,
            (1 as real) / (10 as real),
            m,
        ),
{
    law_self_error_follows_the_root_mean_square(before, errors, n, m)
}

/// The measure of the goal's coverage goes a tenth of the way to the share of drones that
/// know the goal.
pub proof fn law_coverage_follows_the_share(before: Number, known: nat, n: nat)
    requires
        before is Finite,
        size(value(before)) <= 1 as real,
        known <= n,
        0 < n <= 1000,
    ensures
        follows(
            next_coverage(before, known, n),
            value(before),
            (known as real) / (n as real),
            (1 as real) / (10 as real),
            2 as real,
        ),
{
    lemma_shares();
    lemma_tally(known);
    lemma_tally(n);
    let (k, r) = (known as real, n as real);
    let u = (1 as real) / (5_000 as real);
    let (p, t) = (value(tally(known)), value(tally(n)));
    assert(k * u <= r * u && r * u <= r / (1000 as real) && k * u <= k / (1000 as real) && k * u
        >= 0 as real) by (nonlinear_arith)
        requires
            k <= r,
            k >= 0 as real,
            u == (1 as real) / (5_000 as real),
    ;
    lemma_no_value(zero());
    lemma_less_value(zero(), tally(n));
    let w = 2000 as real;
    lemma_fraction(tally(known), tally(n), w);
    let e = eps();
    assert(2 as real * (w * e) <= (1 as real) / (2000 as real)) by (nonlinear_arith)
        requires
            w == 2000 as real,
            e == (1 as real) / (0x100_0000 as real),
    ;
    let g = value(tally(known) / tally(n));
    let aim = k / r;
    assert(aim * r == k && aim >= 0 as real && aim <= 1 as real) by (nonlinear_arith)
        requires
            aim == k / r,
            r >= 1 as real,
            k >= 0 as real,
            k <= r,
    ;
    let f = g - aim;
    let z = (1 as real) / (200 as real);
    assert(aim * t >= aim * r - r / (1000 as real) && aim * t <= aim * r + r / (1000 as real))
        by (nonlinear_arith)
        requires
            t >= r - r / (1000 as real),
            t <= r + r / (1000 as real),
            aim >= 0 as real,
            aim <= 1 as real,
            r >= 1 as real,
    ;
    assert(f * t == g * t - aim * t) by (nonlinear_arith)
        requires
            f == g - aim,
    ;
    assert(f <= z && -f <= z) by {
        if f > z {
            assert(f * t > z * t) by (nonlinear_arith)
                requires
                    f > z,
                    t > 0 as real,
            ;
        }
        if -f > z {
            assert(f * t < -(z * t)) by (nonlinear_arith)
                requires
                    -f > z,
                    t > 0 as real,
            ;
        }
    }
    lemma_follows(
        before,
        tally(known) / tally(n),
        decode(ONE_TENTH),
        aim,
        (1 as real) / (10 as real),
        2 as real,
    );
}

} // verus!
