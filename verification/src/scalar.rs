//! Single-precision numbers as bit patterns, with exact arithmetic.
use crate::number::{
    bounded, clamped, decode, difference, floor_root, half_even, is_single, larger, less, limit,
    negated, product, quotient, rounded, smaller, square_root, sum, unit, whole, Number,
};
use crate::rounding::{jammed, last_digit, scaled, width};
use vstd::arithmetic::power2::{
    lemma2_to64, lemma_pow2_adds, lemma_pow2_pos, lemma_pow2_unfold, pow2,
};
use vstd::prelude::*;

verus! {

/// A single-precision number, held as its bit pattern.
#[derive(Clone, Copy, Debug)]
pub struct Scalar {
    bits: u32,
}

impl View for Scalar {
    type V = Number;

    closed spec fn view(&self) -> Number {
        decode(self.bits)
    }
}

/// The exponent and fraction fields `k` and `q` say `q` times two to the `k`.
proof fn lemma_encode(neg: bool, k: nat, q: nat, bits: u32)
    requires
        q <= 0x100_0000,
        k <= 253,
        k > 0 ==> q >= 0x80_0000,
        k * 0x80_0000 + q < 0x7f80_0000,
        bits == k * 0x80_0000 + q + (if neg { 0x8000_0000int } else { 0 }),
    ensures
        decode(bits) == (Number::Finite { neg, mag: q * pow2(k) }),
{
    lemma2_to64();
    let rest = k * 0x80_0000 + q;
    assert((bits as nat) % 0x8000_0000 == rest);
    if q < 0x80_0000 {
        assert(rest / 0x80_0000 == 0 && rest % 0x80_0000 == q);
        assert(q * pow2(0) == q);
    } else if q < 0x100_0000 {
        assert(rest / 0x80_0000 == k + 1 && rest % 0x80_0000 == q - 0x80_0000);
    } else {
        assert(rest / 0x80_0000 == k + 2 && rest % 0x80_0000 == 0);
        lemma_pow2_unfold(k + 1);
        assert((k + 2 - 1) as nat == k + 1 && (k + 1 - 1) as nat == k);
        assert(0x80_0000 * pow2(k + 1) == 0x100_0000 * pow2(k)) by (nonlinear_arith)
            requires
                pow2(k + 1) == 2 * pow2(k),
        ;
    }
}

proof fn lemma_too_large(k: nat, q: nat)
    requires
        q <= 0x100_0000,
        q >= 0x80_0000,
        k * 0x80_0000 + q >= 0x7f80_0000,
    ensures
        q * pow2(k) >= limit(),
{
    lemma2_to64();
    if k >= 254 {
        lemma_pow2_adds(23, k);
        crate::rounding::lemma_pow2_le(277, 23 + k);
        assert(q * pow2(k) >= 0x80_0000 * pow2(k)) by (nonlinear_arith)
            requires
                q >= 0x80_0000,
        ;
    } else {
        assert(k == 253 && q == 0x100_0000);
        lemma_pow2_adds(24, 253);
    }
}

proof fn lemma_leading_zeros(m: u64)
    requires
        m > 0,
    ensures
        0 <= vstd::std_specs::bits::u64_leading_zeros(m) < 64,
        width(m as nat) == 64 - vstd::std_specs::bits::u64_leading_zeros(m),
    decreases m,
{
    reveal(vstd::std_specs::bits::u64_leading_zeros);
    if m > 1 {
        lemma_leading_zeros(m / 2);
        lemma_top_bit(m);
    } else {
        assert(vstd::std_specs::bits::u64_leading_zeros(m / 2) == 64);
        assert(width((m / 2) as nat) == 0);
    }
}

proof fn lemma_top_bit(m: u64)
    requires
        m > 0,
    ensures
        width(m as nat) <= 64,
{
    lemma2_to64();
    crate::rounding::lemma_width(m as nat);
    if width(m as nat) > 64 {
        crate::rounding::lemma_pow2_le(64, (width(m as nat) - 1) as nat);
    }
}

/// The integer nearest to `m` divided by two to the power `s`.
fn shift_half_even(m: u64, s: u32) -> (q: u64)
    requires
        m < 0x4000_0000_0000_0000,
    ensures
        q == half_even(m as nat, pow2(s as nat)),
{
    proof {
        lemma2_to64();
        vstd::arithmetic::power2::lemma2_to64_rest();
        lemma_pow2_pos(s as nat);
    }
    if s >= 63 {
        proof {
            crate::rounding::lemma_pow2_le(63, s as nat);
            crate::rounding::lemma_div_mod_unique(m as nat, pow2(s as nat), 0, m as nat);
        }
        return 0;
    }
    let ghost d = pow2(s as nat);
    proof {
        crate::rounding::lemma_pow2_le(s as nat, 62);
        vstd::bits::lemma_u64_shr_is_div(m, s as u64);
        vstd::bits::lemma_u64_shl_is_mul(1, s as u64);
        vstd::arithmetic::div_mod::lemma_fundamental_div_mod(m as int, d as int);
        vstd::arithmetic::div_mod::lemma_mod_bound(m as int, d as int);
    }
    let one: u64 = 1u64 << s;
    let q: u64 = m >> s;
    let r: u64 = m % one;
    if 2 * r < one || (2 * r == one && q % 2 == 0) {
        q
    } else {
        proof {
            assert(q <= m) by (nonlinear_arith)
                requires
                    m == d * q + (m as int % d as int),
                    (m as int % d as int) >= 0,
                    d >= 1,
            ;
        }
        q + 1
    }
}

/// The number nearest to `m` times two to the power `e`.
fn pack(neg: bool, m: u64, e: i32) -> (r: Scalar)
    requires
        m < 0x4000_0000_0000_0000,
        -1000 <= e <= 1000,
    ensures
        r@ == bounded(neg, scaled(m as nat, 1, e as int)),
{
    let sign: u32 = if neg {
        0x8000_0000
    } else {
        0
    };
    proof {
        lemma2_to64();
        vstd::arithmetic::power2::lemma2_to64_rest();
        lemma_pow2_pos(277);
    }
    if m == 0 {
        proof {
            assert(0 * pow2(e as nat) == 0);
            lemma_pow2_pos((-e) as nat);
            assert(half_even(0, 1) == 0);
            if e < 0 {
                let d = pow2((-e) as nat);
                assert(1 * d == d);
                crate::rounding::lemma_div_mod_unique(0, d, 0, 0);
                assert(rounded(0, d) == half_even(0, d));
            }
            lemma_encode(neg, 0, 0, sign);
            assert(0 * pow2(0) == 0);
        }
        return Scalar { bits: sign };
    }
    let b: i32 = 64 - m.leading_zeros() as i32;
    let ghost bw = width(m as nat);
    proof {
        lemma_leading_zeros(m);
        crate::rounding::lemma_width(m as nat);
        assert(1 * pow2(bw) == pow2(bw));
        assert(1 * pow2((bw - 1) as nat) == pow2((bw - 1) as nat));
        crate::rounding::lemma_scaled_at(m as nat, 1, e as int, bw);
        if bw >= 63 {
            crate::rounding::lemma_pow2_le(62, (bw - 1) as nat);
        }
    }
    let k: i32 = if e + b >= 24 {
        e + b - 24
    } else {
        0
    };
    assert(k == last_digit(bw, e as int));
    let q: u64;
    if k >= e {
        let s: u32 = (k - e) as u32;
        q = shift_half_even(m, s);
        proof {
            let d = pow2(s as nat);
            assert(1 * d == d);
            lemma_pow2_pos(s as nat);
            vstd::arithmetic::div_mod::lemma_fundamental_div_mod(m as int, d as int);
            vstd::arithmetic::div_mod::lemma_mod_bound(m as int, d as int);
            let f = m as nat / d;
            lemma_pow2_adds(24, s as nat);
            crate::rounding::lemma_pow2_le(bw, 24 + s as nat);
            assert(f < 0x100_0000) by (nonlinear_arith)
                requires
                    m == d * f + (m as int % d as int),
                    (m as int % d as int) >= 0,
                    m < 0x100_0000 * d,
                    d > 0,
            ;
            if k > 0 {
                lemma_pow2_adds(23, s as nat);
                assert(f >= 0x80_0000) by (nonlinear_arith)
                    requires
                        m == d * f + (m as int % d as int),
                        (m as int % d as int) < d,
                        m >= 0x80_0000 * d,
                        d > 0,
                ;
            }
        }
    } else {
        let t: u32 = (e - k) as u32;
        proof {
            assert(t + bw <= 24);
            let c = pow2(t as nat);
            lemma_pow2_adds(bw, t as nat);
            crate::rounding::lemma_pow2_le(bw + t as nat, 24);
            lemma_pow2_pos(t as nat);
            assert(m * c < 0x100_0000) by (nonlinear_arith)
                requires
                    m < pow2(bw),
                    pow2(bw) * c <= 0x100_0000,
                    c > 0,
            ;
            vstd::bits::lemma_u64_shl_is_mul(m, t as u64);
            crate::rounding::lemma_div_mod_unique(m as nat * c, 1, m as nat * c, 0);
            if k > 0 {
                lemma_pow2_adds((bw - 1) as nat, t as nat);
                assert(m * c >= 0x80_0000) by (nonlinear_arith)
                    requires
                        m >= pow2((bw - 1) as nat),
                        pow2((bw - 1) as nat) * c == 0x80_0000,
                        c > 0,
                ;
            }
        }
        q = m << t;
    }
    assert(scaled(m as nat, 1, e as int) == pow2(k as nat) * q as nat);
    proof {
        vstd::arithmetic::mul::lemma_mul_is_commutative(pow2(k as nat) as int, q as int);
    }
    if k >= 254 {
        proof {
            lemma_too_large(k as nat, q as nat);
            lemma_infinite(neg, (sign + 0x7f80_0000) as u32);
        }
        return Scalar { bits: sign + 0x7f80_0000 };
    }
    let body: u32 = k as u32 * 0x80_0000 + q as u32;
    if body >= 0x7f80_0000 {
        proof {
            lemma_too_large(k as nat, q as nat);
            lemma_infinite(neg, (sign + 0x7f80_0000) as u32);
        }
        return Scalar { bits: sign + 0x7f80_0000 };
    }
    proof {
        lemma_encode(neg, k as nat, q as nat, (sign + body) as u32);
        lemma_below_limit(k as nat, q as nat);
    }
    Scalar { bits: sign + body }
}

proof fn lemma_infinite(neg: bool, bits: u32)
    requires
        bits == 0x7f80_0000 + (if neg { 0x8000_0000int } else { 0 }),
    ensures
        decode(bits) == (Number::Infinite { neg }),
{
    assert((bits as nat) % 0x8000_0000 == 0x7f80_0000);
}

proof fn lemma_below_limit(k: nat, q: nat)
    requires
        q <= 0x100_0000,
        k <= 253,
        k * 0x80_0000 + q < 0x7f80_0000,
    ensures
        q * pow2(k) < limit(),
{
    lemma2_to64();
    lemma_pow2_pos(k);
    if k <= 252 {
        lemma_pow2_adds(24, k);
        vstd::arithmetic::power2::lemma_pow2_strictly_increases(24 + k, 277);
        assert(q * pow2(k) <= 0x100_0000 * pow2(k)) by (nonlinear_arith)
            requires
                q <= 0x100_0000,
        ;
    } else if k == 253 {
        lemma_pow2_adds(24, 253);
        assert(q * pow2(k) < 0x100_0000 * pow2(k)) by (nonlinear_arith)
            requires
                q < 0x100_0000,
                pow2(k) > 0,
        ;
    }
}


/// A finite number's significant digits and the exponent of the last of them.
fn parts(a: Scalar) -> (r: (u64, i32))
    requires
        a@ is Finite,
    ensures
        r.0 < 0x100_0000,
        0 <= r.1 <= 253,
        r.1 > 0 ==> r.0 >= 0x80_0000,
        a@->mag == r.0 * pow2(r.1 as nat),
        a@->Finite_neg == (a.bits >= 0x8000_0000),
{
    let rest: u32 = a.bits % 0x8000_0000;
    let exponent: u32 = rest / 0x80_0000;
    let fraction: u32 = rest % 0x80_0000;
    proof {
        lemma2_to64();
        assert(fraction * pow2(0) == fraction);
    }
    if exponent == 0 {
        (fraction as u64, 0)
    } else {
        (0x80_0000 + fraction as u64, exponent as i32 - 1)
    }
}

/// The digits shifted up until there are 24 of them.
fn normal(f: u64, e: i32) -> (r: (u64, i32))
    requires
        0 < f < 0x100_0000,
        0 <= e <= 253,
    ensures
        0x80_0000 <= r.0 < 0x100_0000,
        -23 <= r.1 <= e,
        r.0 == f * pow2((e - r.1) as nat),
{
    proof {
        lemma2_to64();
        lemma_leading_zeros(f);
        crate::rounding::lemma_width(f as nat);
        if width(f as nat) > 24 {
            crate::rounding::lemma_pow2_le(24, (width(f as nat) - 1) as nat);
        }
    }
    let z: u32 = f.leading_zeros() - 40;
    proof {
        let b = width(f as nat);
        let c = pow2(z as nat);
        assert(z == 24 - b);
        lemma_pow2_pos(z as nat);
        lemma_pow2_adds(b, z as nat);
        lemma_pow2_adds((b - 1) as nat, z as nat);
        assert(0x80_0000 <= f * c < 0x100_0000) by (nonlinear_arith)
            requires
                pow2((b - 1) as nat) <= f < pow2(b),
                pow2((b - 1) as nat) * c == 0x80_0000,
                pow2(b) * c == 0x100_0000,
                c > 0,
        ;
        vstd::bits::lemma_u64_shl_is_mul(f, z as u64);
    }
    (f << z, e - z as i32)
}

/// The sign of the exact sum of two magnitudes, its digits and their exponent.
fn add_magnitudes(p: bool, fa: u64, ea: i32, q: bool, fb: u64, eb: i32) -> (r: (bool, u64, i32))
    requires
        fa < 0x100_0000,
        fb < 0x100_0000,
        0 <= eb <= ea <= 253,
        ea > 0 ==> fa >= 0x80_0000,
    ensures
        r.1 < 0x4000_0000_0000_0000,
        0 <= r.2 <= 253,
        ({
            let s = crate::number::count(p, fa as nat * pow2(ea as nat)) + crate::number::count(
                q,
                fb as nat * pow2(eb as nat),
            );
            &&& r.1 == 0 <==> s == 0
            &&& s != 0 ==> r.0 == (s < 0)
            &&& rounded((if s < 0 { -s } else { s }) as nat, 1) == scaled(r.1 as nat, 1, r.2 as int)
        }),
{
    let ghost ma = fa as nat * pow2(ea as nat);
    let ghost mb = fb as nat * pow2(eb as nat);
    let ghost s = crate::number::count(p, ma) + crate::number::count(q, mb);
    let gap: u32 = (ea - eb) as u32;
    proof {
        lemma2_to64();
        lemma_pow2_pos(ea as nat);
        lemma_pow2_pos(eb as nat);
        lemma_pow2_pos(gap as nat);
        lemma_pow2_adds(gap as nat, eb as nat);
    }
    if gap <= 37 {
        proof {
            vstd::arithmetic::power2::lemma2_to64_rest();
            crate::rounding::lemma_pow2_le(gap as nat, 37);
            assert(fa * pow2(gap as nat) < 0x2000_0000_0000_0000) by (nonlinear_arith)
                requires
                    fa < 0x100_0000,
                    pow2(gap as nat) <= 0x20_0000_0000,
            ;
            vstd::bits::lemma_u64_shl_is_mul(fa, gap as u64);
        }
        let a: u64 = fa << gap;
        let ghost c = pow2(eb as nat);
        assert(ma == a as nat * c) by (nonlinear_arith)
            requires
                ma == fa as nat * pow2(ea as nat),
                a == fa * pow2(gap as nat),
                pow2(ea as nat) == pow2(gap as nat) * c,
        ;
        if p == q {
            proof {
                assert((a as nat + fb as nat) * c == ma + mb) by (nonlinear_arith)
                    requires
                        ma == a as nat * c,
                        mb == fb as nat * c,
                ;
                assert((a + fb == 0) <==> (ma + mb == 0)) by (nonlinear_arith)
                    requires
                        (a as nat + fb as nat) * c == ma + mb,
                        c > 0,
                ;
            }
            (p, a + fb, eb)
        } else if a >= fb {
            proof {
                assert((a - fb) * c == ma - mb) by (nonlinear_arith)
                    requires
                        ma == a as nat * c,
                        mb == fb as nat * c,
                ;
                assert(((a - fb == 0) <==> (ma - mb == 0)) && ma >= mb) by (nonlinear_arith)
                    requires
                        (a - fb) * c == ma - mb,
                        a >= fb,
                        c > 0,
                ;
            }
            (p, a - fb, eb)
        } else {
            proof {
                assert((fb - a) * c == mb - ma) by (nonlinear_arith)
                    requires
                        ma == a as nat * c,
                        mb == fb as nat * c,
                ;
                assert(mb > ma) by (nonlinear_arith)
                    requires
                        (fb - a) * c == mb - ma,
                        fb > a,
                        c > 0,
                ;
            }
            (q, fb - a, eb)
        }
    } else {
        // Far apart: the smaller magnitude only says on which side of the
        // larger one the sum lies.
        let a: u64 = fa * 0x8000;
        let ghost g = (gap - 14) as nat;
        let ghost d = pow2(g);
        let ghost big = fa as nat * pow2(gap as nat);
        let ghost c = pow2(eb as nat);
        proof {
            lemma_pow2_pos(g);
            lemma_pow2_adds(g, 14);
            crate::rounding::lemma_pow2_le(24, g);
            lemma_pow2_adds(g, (ea - gap) as nat);
            assert(ma == big * c) by (nonlinear_arith)
                requires
                    ma == fa as nat * pow2(ea as nat),
                    big == fa as nat * pow2(gap as nat),
                    pow2(ea as nat) == pow2(gap as nat) * c,
            ;
            assert(big == (fa as nat * 0x4000) * d) by (nonlinear_arith)
                requires
                    big == fa as nat * pow2(gap as nat),
                    pow2(gap as nat) == d * 0x4000,
            ;
            assert(fb < d);
            assert(fa >= 0x80_0000);
            assert(big > fb) by (nonlinear_arith)
                requires
                    big == (fa as nat * 0x4000) * d,
                    fa >= 1,
                    fb < d,
            ;
            assert(ma > mb) by (nonlinear_arith)
                requires
                    ma == big * c,
                    mb == fb as nat * c,
                    big > fb,
                    c > 0,
            ;
        }
        if fb == 0 {
            proof {
                assert(mb == 0);
                let t = (ea - 15) as nat;
                lemma_pow2_adds(t, 15);
                assert(a as nat * pow2(t) == ma) by (nonlinear_arith)
                    requires
                        a == fa * 0x8000,
                        ma == fa as nat * pow2(ea as nat),
                        pow2(ea as nat) == pow2(t) * 0x8000,
                ;
            }
            (p, a, ea - 15)
        } else if p == q {
            proof {
                let n = big + fb as nat;
                crate::rounding::lemma_div_mod_unique(n, d, fa as nat * 0x4000, fb as nat);
                assert(n * c == ma + mb) by (nonlinear_arith)
                    requires
                        n == big + fb as nat,
                        ma == big * c,
                        mb == fb as nat * c,
                ;
                lemma_far(n, d, g, c, ea as nat, ma + mb, eb as nat);
            }
            (p, a + 1, ea - 15)
        } else {
            proof {
                let n = (big - fb) as nat;
                assert(n == (fa * 0x4000 - 1) * d + (d - fb)) by (nonlinear_arith)
                    requires
                        n == big - fb,
                        big == (fa as nat * 0x4000) * d,
                ;
                crate::rounding::lemma_div_mod_unique(n, d, (fa * 0x4000 - 1) as nat, (d - fb) as nat);
                assert(n * c == ma - mb) by (nonlinear_arith)
                    requires
                        n == big - fb,
                        ma == big * c,
                        mb == fb as nat * c,
                ;
                lemma_far(n, d, g, c, ea as nat, (ma - mb) as nat, eb as nat);
            }
            (p, a - 1, ea - 15)
        }
    }
}

proof fn lemma_far(n: nat, d: nat, g: nat, c: nat, ea: nat, total: nat, eb: nat)
    requires
        d == pow2(g),
        c == pow2(eb),
        g + 14 + eb == ea,
        ea >= 15,
        n / d >= 0x100_0000,
        d > 0,
        total == n * c,
    ensures
        rounded(total, 1) == scaled(jammed(n, d), 1, ea - 15),
{
    let t = (ea - 14) as nat;
    lemma_pow2_adds(g, eb);
    assert(pow2(t) == d * c);
    assert(n * pow2(t) * 1 == total * d) by (nonlinear_arith)
        requires
            pow2(t) == d * c,
            total == n * c,
    ;
    crate::rounding::lemma_rounded_equal(total, 1, n * pow2(t), d);
    crate::rounding::lemma_scaled_jam(n, d, t as int);
}


/// The largest integer whose square is at most `n`.
fn integer_root(n: u64) -> (r: u64)
    requires
        n < 0x80_0000_0000_0000,
    ensures
        r == floor_root(n as nat),
        r < 0x1000_0000,
{
    let mut r: u64 = 0;
    let mut b: u64 = 0x1000_0000;
    let ghost mut i: nat = 28;
    proof {
        lemma2_to64();
        assert(0 * 0 == 0);
        assert((0u64 + 0x1000_0000u64) * (0u64 + 0x1000_0000u64) == 0x100_0000_0000_0000) by (nonlinear_arith);
    }
    while b > 1
        invariant
            n < 0x80_0000_0000_0000,
            b == pow2(i),
            i <= 28,
            b <= 0x1000_0000,
            r * r <= n < (r + b) * (r + b),
            r + b <= 0x1000_0000,
        decreases i,
    {
        proof {
            lemma2_to64();
            lemma_pow2_unfold(i);
        }
        let half: u64 = b / 2;
        let t: u64 = r + half;
        proof {
            assert(t * t <= 0x1000_0000 * 0x1000_0000) by (nonlinear_arith)
                requires
                    0 <= t <= 0x1000_0000,
            ;
            assert(t + half == r + b);
            i = (i - 1) as nat;
        }
        if t * t <= n {
            r = t;
        }
        b = half;
    }
    proof {
        lemma2_to64();
        if i >= 1 {
            crate::rounding::lemma_pow2_le(1, i);
        }
        assert(crate::number::is_floor_root(r as nat, n as nat));
        crate::rounding::lemma_floor_root_unique(n as nat, r as nat);
    }
    r
}

/// Every number that is held is a single-precision number.
pub proof fn law_scalar_is_single(s: Scalar)
    ensures
        is_single(s@),
{
    assert(decode(s.bits) == s@);
}

impl Scalar {
    /// The number with this bit pattern.
    pub fn from_bits(bits: u32) -> (r: Scalar)
        ensures
            r@ == decode(bits),
    {
        Scalar { bits }
    }

    /// A bit pattern of this number.
    pub fn to_bits(self) -> (bits: u32)
        ensures
            decode(bits) == self@,
    {
        self.bits
    }

    pub fn is_nan(self) -> (r: bool)
        ensures
            r == self@ is Nan,
    {
        self.bits % 0x8000_0000 > 0x7f80_0000
    }

    pub fn is_infinite(self) -> (r: bool)
        ensures
            r == self@ is Infinite,
    {
        self.bits % 0x8000_0000 == 0x7f80_0000
    }

    pub fn is_finite(self) -> (r: bool)
        ensures
            r == self@ is Finite,
    {
        self.bits % 0x8000_0000 < 0x7f80_0000
    }

    /// Whether this is one of the two zeros.
    pub fn is_zero(self) -> (r: bool)
        ensures
            r == (self@ is Finite && self@->mag == 0),
    {
        proof {
            lemma_zero_bits(self.bits);
        }
        self.bits % 0x8000_0000 == 0
    }

    fn nan() -> (r: Scalar)
        ensures
            r@ == Number::Nan,
    {
        Scalar { bits: 0x7fc0_0000 }
    }

    pub fn infinity() -> (r: Scalar)
        ensures
            r@ == crate::number::infinity(),
    {
        Scalar { bits: 0x7f80_0000 }
    }

    pub fn zero() -> (r: Scalar)
        ensures
            r@ == crate::number::zero(),
    {
        Scalar { bits: 0 }
    }

    pub fn one() -> (r: Scalar)
        ensures
            r@ == crate::number::one(),
    {
        proof {
            lemma2_to64();
            lemma_pow2_adds(23, 126);
        }
        Scalar { bits: 0x3f80_0000 }
    }

    fn signed_infinity(neg: bool) -> (r: Scalar)
        ensures
            r@ == (Number::Infinite { neg }),
    {
        let sign: u32 = if neg {
            0x8000_0000
        } else {
            0
        };
        proof {
            lemma_infinite(neg, (sign + 0x7f80_0000) as u32);
        }
        Scalar { bits: sign + 0x7f80_0000 }
    }

    fn signed_zero(neg: bool) -> (r: Scalar)
        ensures
            r@ == (Number::Finite { neg, mag: 0 }),
    {
        if neg {
            Scalar { bits: 0x8000_0000 }
        } else {
            Scalar { bits: 0 }
        }
    }

    fn sign(self) -> (neg: bool)
        ensures
            self@ is Finite ==> neg == self@->Finite_neg,
            self@ is Infinite ==> neg == self@->Infinite_neg,
    {
        self.bits >= 0x8000_0000
    }

    /// The number nearest to `n`.
    pub fn from_whole(n: u64) -> (r: Scalar)
        ensures
            r@ == whole(n as nat),
    {
        if n < 0x4000_0000_0000_0000 {
            return pack(false, n, 149);
        }
        let rest: u64 = if n % 8 == 0 {
            0
        } else {
            1
        };
        let m: u64 = 2 * (n / 8) + rest;
        proof {
            crate::rounding::lemma_scaled_jam(n as nat, 8, 152);
            lemma2_to64();
            lemma_pow2_adds(149, 3);
            let u = unit();
            assert(n * (u * 8) == (n * u) * 8) by (nonlinear_arith);
            crate::rounding::lemma_rounded_cancel((n * u) as nat, 1, 8);
        }
        pack(false, m, 151)
    }

    /// This number with its sign flipped.
    pub fn negate(self) -> (r: Scalar)
        ensures
            r@ == negated(self@),
    {
        let bits: u32 = if self.bits >= 0x8000_0000 {
            self.bits - 0x8000_0000
        } else {
            self.bits + 0x8000_0000
        };
        assert((bits as nat) % 0x8000_0000 == (self.bits as nat) % 0x8000_0000);
        Scalar { bits }
    }

    /// The square root.
    pub fn sqrt(self) -> (r: Scalar)
        ensures
            r@ == square_root(self@),
    {
        proof {
            reveal(square_root);
        }
        if self.is_nan() {
            return Scalar::nan();
        }
        if self.is_infinite() {
            if self.sign() {
                return Scalar::nan();
            }
            return self;
        }
        if self.is_zero() {
            return self;
        }
        if self.sign() {
            return Scalar::nan();
        }
        let (f0, e0) = parts(self);
        proof {
            lemma_positive_digits(f0 as nat, e0 as nat);
        }
        let (f, e) = normal(f0, e0);
        let even: i32 = if (e + 149) % 2 == 0 {
            e + 149
        } else {
            e + 148
        };
        let g: u64 = if (e + 149) % 2 == 0 {
            f
        } else {
            2 * f
        };
        let n: u64 = g * 0x4000_0000;
        let h: i32 = (even - 30) / 2;
        proof {
            lemma2_to64();
            let mag = self@->mag;
            // mag * unit == n * 2^(2h)
            let z = (e0 - e) as nat;
            lemma_pow2_adds(z, (e + 23) as nat);
            lemma_pow2_adds(e0 as nat, 149);
            lemma_pow2_adds(z, (e + 149) as nat);
            assert(z + (e + 149) == e0 + 149);
            assert(mag * unit() == f as nat * pow2((e + 149) as nat)) by (nonlinear_arith)
                requires
                    mag == f0 * pow2(e0 as nat),
                    f == f0 * pow2(z),
                    unit() == pow2(149),
                    pow2((e0 + 149) as nat) == pow2(e0 as nat) * pow2(149),
                    pow2((e0 + 149) as nat) == pow2(z) * pow2((e + 149) as nat),
            ;
            if (e + 149) % 2 != 0 {
                lemma_pow2_unfold((e + 149) as nat);
            }
            assert(f as nat * pow2((e + 149) as nat) == g as nat * pow2(even as nat)) by (nonlinear_arith)
                requires
                    (g == f && even == e + 149) || (g == 2 * f && pow2((e + 149) as nat) == 2 * pow2(
                        even as nat,
                    )),
            ;
            assert(2 * h == even - 30);
            lemma_pow2_adds(30, (2 * h) as nat);
            assert(g as nat * pow2(even as nat) == n as nat * pow2((2 * h) as nat)) by (nonlinear_arith)
                requires
                    n == g * 0x4000_0000,
                    pow2(even as nat) == 0x4000_0000 * pow2((2 * h) as nat),
            ;
            crate::rounding::lemma_floor_root_exists(n as nat);
            let r = floor_root(n as nat);
            assert(r >= 0x100_0000) by (nonlinear_arith)
                requires
                    n < (r + 1) * (r + 1),
                    n >= 0x20_0000_0000_0000,
                    r >= 0,
            ;
            crate::rounding::lemma_rounded_root_jam(n as nat, h as nat);
        }
        let r: u64 = integer_root(n);
        assert(r * r <= n) by {
            crate::rounding::lemma_floor_root_exists(n as nat);
        }
        let m: u64 = if r * r == n {
            2 * r
        } else {
            2 * r + 1
        };
        pack(false, m, h - 1)
    }
}

proof fn lemma_zero_bits(bits: u32)
    ensures
        (bits % 0x8000_0000 == 0) == (decode(bits) is Finite && decode(bits)->mag == 0),
{
    let rest = (bits as nat) % 0x8000_0000;
    let exponent = rest / 0x80_0000;
    let fraction = rest % 0x80_0000;
    if exponent > 0 && exponent < 255 {
        lemma_positive_digits(0x80_0000 + fraction, (exponent - 1) as nat);
    }
}

proof fn lemma_positive_digits(f: nat, e: nat)
    ensures
        f * pow2(e) == 0 <==> f == 0,
{
    lemma_pow2_pos(e);
    assert(f * pow2(e) == 0 <==> f == 0) by (nonlinear_arith)
        requires
            pow2(e) > 0,
    ;
}

/// Whole numbers below 2^24 are exact.
pub proof fn lemma_whole_exact(n: nat)
    requires
        n < 0x100_0000,
    ensures
        whole(n) == (Number::Finite { neg: false, mag: n * unit() }),
{
    lemma2_to64();
    lemma_pow2_pos(149);
    assert(n * unit() < limit()) by {
        lemma_pow2_adds(24, 149);
        vstd::arithmetic::power2::lemma_pow2_strictly_increases(173, 277);
        assert(n * unit() <= 0x100_0000 * unit()) by (nonlinear_arith)
            requires
                n < 0x100_0000,
                unit() > 0,
        ;
    }
    if n > 0 {
        let b = width(n);
        crate::rounding::lemma_width(n);
        assert(1 * pow2(b) == pow2(b));
        assert(1 * pow2((b - 1) as nat) == pow2((b - 1) as nat));
        if b > 24 {
            crate::rounding::lemma_pow2_le(24, (b - 1) as nat);
        }
        crate::rounding::lemma_scaled_at(n, 1, 149, b);
        let k = last_digit(b, 149);
        if k == 149 {
            lemma2_to64();
            assert(1 * pow2(0) == 1);
            crate::rounding::lemma_div_mod_unique(n, 1, n, 0);
        } else {
            let t = (149 - k) as nat;
            crate::rounding::lemma_div_mod_unique(n * pow2(t), 1, n * pow2(t), 0);
            lemma_pow2_adds(k, t);
            assert(pow2(k) * (n * pow2(t)) == n * pow2(149)) by (nonlinear_arith)
                requires
                    pow2(149) == pow2(k) * pow2(t),
            ;
        }
        vstd::arithmetic::mul::lemma_mul_is_commutative(n as int, unit() as int);
    } else {
        assert(0 * unit() == 0);
        assert(half_even(0, 1) == 0);
    }
}

impl core::ops::Add for Scalar {
    type Output = Scalar;

    fn add(self, other: Scalar) -> (r: Scalar)
        ensures
            r@ == sum(self@, other@),
    {
        proof {
            reveal(sum);
        }
        if self.is_nan() || other.is_nan() {
            return Scalar::nan();
        }
        let p = self.sign();
        let q = other.sign();
        if self.is_infinite() {
            if other.is_infinite() && p != q {
                return Scalar::nan();
            }
            return self;
        }
        if other.is_infinite() {
            return other;
        }
        let (fa, ea) = parts(self);
        let (fb, eb) = parts(other);
        let (neg, m, e) = if ea >= eb {
            add_magnitudes(p, fa, ea, q, fb, eb)
        } else {
            add_magnitudes(q, fb, eb, p, fa, ea)
        };
        if m == 0 {
            Scalar::signed_zero(p && q)
        } else {
            pack(neg, m, e)
        }
    }
}

impl vstd::std_specs::ops::AddSpecImpl for Scalar {
    open spec fn obeys_add_spec() -> bool {
        false
    }

    open spec fn add_req(self, other: Scalar) -> bool {
        true
    }

    open spec fn add_spec(self, other: Scalar) -> Scalar {
        self
    }
}

impl core::ops::Sub for Scalar {
    type Output = Scalar;

    fn sub(self, other: Scalar) -> (r: Scalar)
        ensures
            r@ == difference(self@, other@),
    {
        self + other.negate()
    }
}

impl vstd::std_specs::ops::SubSpecImpl for Scalar {
    open spec fn obeys_sub_spec() -> bool {
        false
    }

    open spec fn sub_req(self, other: Scalar) -> bool {
        true
    }

    open spec fn sub_spec(self, other: Scalar) -> Scalar {
        self
    }
}

impl core::ops::Mul for Scalar {
    type Output = Scalar;

    fn mul(self, other: Scalar) -> (r: Scalar)
        ensures
            r@ == product(self@, other@),
    {
        proof {
            reveal(product);
        }
        if self.is_nan() || other.is_nan() {
            return Scalar::nan();
        }
        let neg = self.sign() != other.sign();
        if self.is_infinite() {
            if other.is_zero() {
                return Scalar::nan();
            }
            return Scalar::signed_infinity(neg);
        }
        if other.is_infinite() {
            if self.is_zero() {
                return Scalar::nan();
            }
            return Scalar::signed_infinity(neg);
        }
        let (fa, ea) = parts(self);
        let (fb, eb) = parts(other);
        assert(fa * fb < 0x1_0000_0000_0000) by (nonlinear_arith)
            requires
                fa < 0x100_0000,
                fb < 0x100_0000,
        ;
        let m: u64 = fa * fb;
        let e: i32 = ea + eb - 149;
        proof {
            lemma2_to64();
            let x = self@->mag;
            let y = other@->mag;
            lemma_pow2_pos(149);
            lemma_pow2_adds(ea as nat, eb as nat);
            if e >= 0 {
                lemma_pow2_adds(e as nat, 149);
                assert((x * y) * 1 == (m as nat * pow2(e as nat)) * unit()) by (nonlinear_arith)
                    requires
                        x == fa * pow2(ea as nat),
                        y == fb * pow2(eb as nat),
                        m == fa * fb,
                        pow2(ea as nat) * pow2(eb as nat) == pow2(e as nat) * unit(),
                ;
                crate::rounding::lemma_rounded_equal(x * y, unit(), m as nat * pow2(e as nat), 1);
            } else {
                let t = (-e) as nat;
                lemma_pow2_pos(t);
                lemma_pow2_adds((ea + eb) as nat, t);
                assert(1 * pow2(t) == pow2(t));
                assert((x * y) * pow2(t) == m as nat * unit()) by (nonlinear_arith)
                    requires
                        x == fa * pow2(ea as nat),
                        y == fb * pow2(eb as nat),
                        m == fa * fb,
                        pow2(ea as nat) * pow2(eb as nat) * pow2(t) == unit(),
                ;
                crate::rounding::lemma_rounded_equal(x * y, unit(), m as nat, pow2(t));
            }
        }
        pack(neg, m, e)
    }
}

impl vstd::std_specs::ops::MulSpecImpl for Scalar {
    open spec fn obeys_mul_spec() -> bool {
        false
    }

    open spec fn mul_req(self, other: Scalar) -> bool {
        true
    }

    open spec fn mul_spec(self, other: Scalar) -> Scalar {
        self
    }
}

proof fn lemma_regroup(a: int, p: int, u: int, b: int, q: int, e: int)
    ensures
        ((a * p) * u) * ((b * q) * e) == (a * b) * (p * u * q * e),
{
    assert((a * p) * u == a * (p * u)) by (nonlinear_arith);
    assert((b * q) * e == b * (q * e)) by (nonlinear_arith);
    let x = p * u;
    let y = q * e;
    assert((a * x) * (b * y) == (a * b) * (x * y)) by (nonlinear_arith);
    assert(x * (q * e) == x * q * e) by (nonlinear_arith);
}

impl core::ops::Div for Scalar {
    type Output = Scalar;

    fn div(self, other: Scalar) -> (r: Scalar)
        ensures
            r@ == quotient(self@, other@),
    {
        proof {
            reveal(quotient);
        }
        if self.is_nan() || other.is_nan() {
            return Scalar::nan();
        }
        let neg = self.sign() != other.sign();
        if self.is_infinite() {
            if other.is_infinite() {
                return Scalar::nan();
            }
            return Scalar::signed_infinity(neg);
        }
        if other.is_infinite() {
            return Scalar::signed_zero(neg);
        }
        if other.is_zero() {
            if self.is_zero() {
                return Scalar::nan();
            }
            return Scalar::signed_infinity(neg);
        }
        if self.is_zero() {
            proof {
                let d = other@->mag;
                assert(0 * unit() == 0);
                crate::rounding::lemma_div_mod_unique(0, d, 0, 0);
                assert(rounded(0, d) == 0);
                lemma_pow2_pos(277);
            }
            return Scalar::signed_zero(neg);
        }
        let (fa0, ea0) = parts(self);
        let (fb0, eb0) = parts(other);
        proof {
            lemma_positive_digits(fa0 as nat, ea0 as nat);
            lemma_positive_digits(fb0 as nat, eb0 as nat);
        }
        let (fa, ea) = normal(fa0, ea0);
        let (fb, eb) = normal(fb0, eb0);
        let n: u64 = fa * 0x40_0000_0000;
        let e: i32 = ea - eb + 111;
        let ghost f = n as nat / fb as nat;
        proof {
            lemma2_to64();
            vstd::arithmetic::power2::lemma2_to64_rest();
            let x = self@->mag;
            let y = other@->mag;
            let za = (ea0 - ea) as nat;
            let zb = (eb0 - eb) as nat;
            lemma_pow2_pos(149);
            vstd::arithmetic::div_mod::lemma_fundamental_div_mod(n as int, fb as int);
            vstd::arithmetic::div_mod::lemma_mod_bound(n as int, fb as int);
            let rr = n as int % fb as int;
            assert(f >= 0x20_0000_0000 && f <= 0x80_0000_0000) by (nonlinear_arith)
                requires
                    n == fb * f + rr,
                    0 <= rr < fb,
                    n >= 0x80_0000 * 0x40_0000_0000,
                    n <= 0x100_0000 * 0x40_0000_0000,
                    0x80_0000 <= fb < 0x100_0000,
            ;
            // x * unit / y == n / fb * 2^e
            let pa = pow2(ea0 as nat);
            let pb = pow2(eb0 as nat);
            let qa = pow2(za);
            let qb = pow2(zb);
            if e >= 0 {
                let pe = pow2(e as nat);
                lemma_pow2_adds(ea0 as nat, 149);
                lemma_pow2_adds((ea0 + 149) as nat, zb);
                lemma_pow2_adds(za, 38);
                lemma_pow2_adds(za + 38, e as nat);
                lemma_pow2_adds((za + 38 + e) as nat, eb0 as nat);
                assert((ea0 + 149) + zb == (za + 38 + e) + eb0);
                assert(pa * unit() * qb == qa * 0x40_0000_0000 * pe * pb);
                lemma_regroup(fa0 as int, pa as int, unit() as int, fb0 as int, qb as int, 1);
                lemma_regroup(fa0 as int, qa as int, (0x40_0000_0000 * pe) as int, fb0 as int, pb as int, 1);
                assert(fb0 * qb * 1 == fb && fb0 * pb * 1 == y);
                assert(qa * (0x40_0000_0000 * pe) * pb * 1 == qa * 0x40_0000_0000 * pe * pb) by (nonlinear_arith);
                assert((fa * (0x40_0000_0000 * pe)) * y == (n as nat * pe) * y) by (nonlinear_arith)
                    requires
                        n == fa * 0x40_0000_0000,
                ;
                assert((x * unit()) * fb as nat == (n as nat * pe) * y);
                crate::rounding::lemma_rounded_equal(x * unit(), y, n as nat * pe, fb as nat);
            } else {
                let t = (-e) as nat;
                let pe = pow2(t);
                lemma_pow2_pos(t);
                lemma_pow2_adds(ea0 as nat, 149);
                lemma_pow2_adds((ea0 + 149) as nat, zb);
                lemma_pow2_adds((ea0 + 149 + zb) as nat, t);
                lemma_pow2_adds(za, 38);
                lemma_pow2_adds(za + 38, eb0 as nat);
                assert((ea0 + 149 + zb) + t == (za + 38) + eb0);
                assert(pa * unit() * qb * pe == qa * 0x40_0000_0000 * pb);
                assert(fb as nat * pe > 0) by (nonlinear_arith)
                    requires
                        fb > 0,
                        pe > 0,
                ;
                lemma_regroup(fa0 as int, pa as int, unit() as int, fb0 as int, qb as int, pe as int);
                lemma_regroup(fa0 as int, qa as int, 0x40_0000_0000, fb0 as int, pb as int, 1);
                assert(fb0 * pb * 1 == y);
                assert(qa * 0x40_0000_0000 * pb * 1 == qa * 0x40_0000_0000 * pb);
                assert((x * unit()) * (fb as nat * pe) == n as nat * y);
                crate::rounding::lemma_rounded_equal(x * unit(), y, n as nat, fb as nat * pe);
            }
            crate::rounding::lemma_scaled_jam(n as nat, fb as nat, e as int);
        }
        let q: u64 = n / fb;
        let m: u64 = if n % fb == 0 {
            2 * q
        } else {
            2 * q + 1
        };
        pack(neg, m, e - 1)
    }
}

impl vstd::std_specs::ops::DivSpecImpl for Scalar {
    open spec fn obeys_div_spec() -> bool {
        false
    }

    open spec fn div_req(self, other: Scalar) -> bool {
        true
    }

    open spec fn div_spec(self, other: Scalar) -> Scalar {
        self
    }
}


/// Patterns of finite magnitudes are ordered as the magnitudes are.
proof fn lemma_pattern_order(a: nat, b: nat)
    requires
        a < b < 0x7f80_0000,
    ensures
        decode(a as u32)->mag < decode(b as u32)->mag,
{
    lemma2_to64();
    let ea = a / 0x80_0000;
    let eb = b / 0x80_0000;
    let fa = a % 0x80_0000;
    let fb = b % 0x80_0000;
    assert(a % 0x8000_0000 == a && b % 0x8000_0000 == b);
    if ea == eb {
        if ea > 0 {
            let c = pow2((ea - 1) as nat);
            lemma_pow2_pos((ea - 1) as nat);
            assert((0x80_0000 + fa) * c < (0x80_0000 + fb) * c) by (nonlinear_arith)
                requires
                    fa < fb,
                    c > 0,
            ;
        }
    } else {
        let c = pow2((eb - 1) as nat);
        lemma_pow2_pos((eb - 1) as nat);
        assert((0x80_0000 + fb) * c >= 0x80_0000 * c) by (nonlinear_arith)
            requires
                fb >= 0,
        ;
        if ea > 0 {
            let d = pow2((ea - 1) as nat);
            lemma_pow2_pos((ea - 1) as nat);
            lemma_pow2_unfold(ea);
            crate::rounding::lemma_pow2_le(ea, (eb - 1) as nat);
            assert((0x80_0000 + fa) * d < 0x80_0000 * c) by (nonlinear_arith)
                requires
                    fa < 0x80_0000,
                    2 * d <= c,
                    d > 0,
            ;
        }
    }
}

/// A pattern without its sign has the same magnitude.
proof fn lemma_pattern_magnitude(bits: u32)
    requires
        decode(bits) is Finite,
    ensures
        decode(bits)->mag == decode((bits as nat % 0x8000_0000) as u32)->mag,
{
}

impl Scalar {
    /// `self < other`.
    pub fn lt(self, other: Scalar) -> (r: bool)
        ensures
            r == less(self@, other@),
    {
        proof {
            reveal(less);
        }
        if self.is_nan() || other.is_nan() {
            return false;
        }
        let p = self.sign();
        let q = other.sign();
        let a: u32 = self.bits % 0x8000_0000;
        let b: u32 = other.bits % 0x8000_0000;
        proof {
            if self@ is Finite && other@ is Finite {
                lemma_pattern_magnitude(self.bits);
                lemma_pattern_magnitude(other.bits);
                if a < b {
                    lemma_pattern_order(a as nat, b as nat);
                }
                if b < a {
                    lemma_pattern_order(b as nat, a as nat);
                }
                lemma_zero_bits(self.bits);
                lemma_zero_bits(other.bits);
            }
        }
        if p {
            if q {
                b < a
            } else {
                a != 0 || b != 0
            }
        } else {
            if q {
                false
            } else {
                a < b
            }
        }
    }

    /// `self > other`.
    pub fn gt(self, other: Scalar) -> (r: bool)
        ensures
            r == less(other@, self@),
    {
        other.lt(self)
    }

    /// `self <= other`.
    pub fn le(self, other: Scalar) -> (r: bool)
        ensures
            r == crate::number::at_most(self@, other@),
    {
        !self.is_nan() && !other.is_nan() && !other.lt(self)
    }

    /// The larger of the two; the other one where one is not a number.
    pub fn max(self, other: Scalar) -> (r: Scalar)
        ensures
            r@ == larger(self@, other@),
    {
        if self.is_nan() || self.lt(other) {
            other
        } else {
            self
        }
    }

    /// The smaller of the two; the other one where one is not a number.
    pub fn min(self, other: Scalar) -> (r: Scalar)
        ensures
            r@ == smaller(self@, other@),
    {
        if self.is_nan() || other.lt(self) {
            other
        } else {
            self
        }
    }

    /// This number brought into `low ..= high`.
    pub fn clamp(self, low: Scalar, high: Scalar) -> (r: Scalar)
        ensures
            r@ == clamped(self@, low@, high@),
    {
        if self.lt(low) {
            low
        } else if self.gt(high) {
            high
        } else {
            self
        }
    }
}

} // verus!
