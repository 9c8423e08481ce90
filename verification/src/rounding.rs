//! Facts about rounding that the arithmetic on bit patterns rests on.
use crate::number::{floor_root, half_even, is_floor_root, root_half_even, rounded, rounded_root};
use vstd::arithmetic::div_mod::{
    lemma_div_denominator, lemma_div_is_ordered, lemma_fundamental_div_mod,
    lemma_fundamental_div_mod_converse, lemma_mod_bound,
};
use vstd::arithmetic::mul::lemma_mul_is_commutative;
use vstd::arithmetic::power2::{
    lemma2_to64, lemma_pow2_adds, lemma_pow2_pos, lemma_pow2_unfold, pow2,
};
use vstd::prelude::*;

verus! {

pub proof fn lemma_halving_decreases(n: nat, d: nat)
    requires
        d > 0,
        n >= 0x100_0000 * d,
    ensures
        n / (2 * d) < n / d,
{
    let q = n / d;
    lemma_fundamental_div_mod(n as int, d as int);
    lemma_mod_bound(n as int, d as int);
    assert(q >= 1) by (nonlinear_arith)
        requires
            n == d * q + n % d,
            n % d < d,
            n >= 0x100_0000 * d,
            d > 0,
    ;
    lemma_div_denominator(n as int, d as int, 2);
    assert(d * 2 == 2 * d);
}

pub proof fn lemma_quartering_decreases(n: nat, d: nat)
    requires
        d > 0,
        n >= 0x1_0000_0000_0000 * d,
    ensures
        n / (4 * d) < n / d,
{
    let q = n / d;
    lemma_fundamental_div_mod(n as int, d as int);
    lemma_mod_bound(n as int, d as int);
    assert(q >= 1) by (nonlinear_arith)
        requires
            n == d * q + n % d,
            n % d < d,
            n >= 0x1_0000_0000_0000 * d,
            d > 0,
    ;
    lemma_div_denominator(n as int, d as int, 4);
    assert(d * 4 == 4 * d);
}

/// Quotient and remainder are the pair that adds up.
pub proof fn lemma_div_mod_unique(n: nat, d: nat, q: nat, r: nat)
    requires
        n == q * d + r,
        r < d,
    ensures
        n / d == q,
        n % d == r,
{
    lemma_fundamental_div_mod_converse(n as int, d as int, q as int, r as int);
}

/// A common factor does not change the nearest integer.
pub proof fn lemma_half_even_cancel(n: nat, d: nat, c: nat)
    requires
        d > 0,
        c > 0,
    ensures
        d * c > 0,
        half_even(n * c, d * c) == half_even(n, d),
{
    let q = n / d;
    let r = n % d;
    lemma_fundamental_div_mod(n as int, d as int);
    lemma_mod_bound(n as int, d as int);
    assert(d * c > 0 && n * c == q * (d * c) + r * c && r * c < d * c) by (nonlinear_arith)
        requires
            n == d * q + r,
            r < d,
            d > 0,
            c > 0,
    ;
    lemma_div_mod_unique(n * c, d * c, q, r * c);
    assert((2 * (r * c) < d * c <==> 2 * r < d) && (2 * (r * c) == d * c <==> 2 * r == d)) by (nonlinear_arith)
        requires
            c > 0,
    ;
}

/// `rounded` finds the power of two at which the quotient has 24 bits.
pub proof fn lemma_rounded_at(n: nat, d: nat, k: nat)
    requires
        d > 0,
        n < 0x100_0000 * (d * pow2(k)),
        k > 0 ==> n >= 0x100_0000 * (d * pow2((k - 1) as nat)),
    ensures
        d * pow2(k) > 0,
        rounded(n, d) == pow2(k) * half_even(n, d * pow2(k)),
    decreases k,
{
    lemma2_to64();
    lemma_pow2_pos(k);
    assert(d * pow2(k) > 0) by (nonlinear_arith)
        requires
            d > 0,
            pow2(k) > 0,
    ;
    if k == 0 {
        assert(d * pow2(0) == d);
    } else {
        let j = (k - 1) as nat;
        lemma_pow2_pos(j);
        lemma_pow2_unfold(k);
        assert(n >= 0x100_0000 * d) by (nonlinear_arith)
            requires
                n >= 0x100_0000 * (d * pow2(j)),
                pow2(j) >= 1,
        ;
        assert((2 * d) * pow2(j) == d * pow2(k)) by (nonlinear_arith)
            requires
                pow2(k) == 2 * pow2(j),
        ;
        if j > 0 {
            lemma_pow2_unfold(j);
            assert((2 * d) * pow2((j - 1) as nat) == d * pow2(j)) by (nonlinear_arith)
                requires
                    pow2(j) == 2 * pow2((j - 1) as nat),
            ;
        }
        lemma_rounded_at(n, 2 * d, j);
        let h = half_even(n, d * pow2(k));
        assert(2 * (pow2(j) * h) == pow2(k) * h) by (nonlinear_arith)
            requires
                pow2(k) == 2 * pow2(j),
        ;
    }
}

/// A common factor does not change the rounded quotient.
pub proof fn lemma_rounded_cancel(n: nat, d: nat, c: nat)
    requires
        d > 0,
        c > 0,
    ensures
        rounded(n * c, d * c) == rounded(n, d),
    decreases n / d,
{
    assert(d * c > 0) by (nonlinear_arith)
        requires
            d > 0,
            c > 0,
    ;
    assert(n * c < 0x100_0000 * (d * c) <==> n < 0x100_0000 * d) by (nonlinear_arith)
        requires
            c > 0,
    ;
    if n < 0x100_0000 * d {
        lemma_half_even_cancel(n, d, c);
    } else {
        lemma_halving_decreases(n, d);
        lemma_rounded_cancel(n, 2 * d, c);
        assert((2 * d) * c == 2 * (d * c)) by (nonlinear_arith);
    }
}

/// The number of binary digits of `n`.
pub open spec fn width(n: nat) -> nat
    decreases n,
{
    if n == 0 {
        0
    } else {
        1 + width(n / 2)
    }
}

pub proof fn lemma_width(n: nat)
    requires
        n > 0,
    ensures
        width(n) > 0,
        pow2((width(n) - 1) as nat) <= n < pow2(width(n)),
    decreases n,
{
    lemma2_to64();
    lemma_pow2_unfold(width(n));
    if n > 1 {
        lemma_width(n / 2);
        assert(width(n) == 1 + width(n / 2));
        lemma_pow2_unfold(width(n / 2));
    } else {
        assert(width(n / 2) == 0);
    }
}

pub proof fn lemma_pow2_le(a: nat, b: nat)
    requires
        a <= b,
    ensures
        pow2(a) <= pow2(b),
{
    if a < b {
        vstd::arithmetic::power2::lemma_pow2_strictly_increases(a, b);
    }
}

/// `n / d` times two to the power `e`, rounded.
pub open spec fn scaled(n: nat, d: nat, e: int) -> nat {
    if e >= 0 {
        rounded(n * pow2(e as nat), d)
    } else {
        rounded(n, d * pow2((-e) as nat))
    }
}

/// The exponent of the last digit kept of a quotient of `b` digits.
pub open spec fn last_digit(b: nat, e: int) -> nat {
    if e + b >= 24 {
        (e + b - 24) as nat
    } else {
        0
    }
}

/// `scaled` as one division by a power of two.
pub proof fn lemma_scaled_at(n: nat, d: nat, e: int, b: nat)
    requires
        d > 0,
        b > 0,
        d * pow2((b - 1) as nat) <= n < d * pow2(b),
    ensures
        last_digit(b, e) >= e ==> scaled(n, d, e) == pow2(last_digit(b, e)) * half_even(
            n,
            d * pow2((last_digit(b, e) - e) as nat),
        ),
        last_digit(b, e) < e ==> scaled(n, d, e) == pow2(last_digit(b, e)) * half_even(
            n * pow2((e - last_digit(b, e)) as nat),
            d,
        ),
{
    lemma2_to64();
    let k = last_digit(b, e);
    lemma_pow2_pos(k);
    lemma_pow2_pos(b);
    if e >= 0 {
        let u = e as nat;
        let big = n * pow2(u);
        lemma_pow2_pos(u);
        lemma_pow2_adds(b, u);
        lemma_pow2_adds(k, 24);
        lemma_pow2_le(b + u, k + 24);
        assert(big < 0x100_0000 * (d * pow2(k))) by {
            assert(big < d * pow2(b) * pow2(u)) by (nonlinear_arith)
                requires
                    n < d * pow2(b),
                    pow2(u) > 0,
                    big == n * pow2(u),
            ;
            assert(d * pow2(b) * pow2(u) == d * pow2(b + u)) by (nonlinear_arith)
                requires
                    pow2(b + u) == pow2(b) * pow2(u),
            ;
            assert(d * pow2(b + u) <= d * pow2(k + 24)) by (nonlinear_arith)
                requires
                    pow2(b + u) <= pow2(k + 24),
            ;
            assert(d * pow2(k + 24) == 0x100_0000 * (d * pow2(k))) by (nonlinear_arith)
                requires
                    pow2(k + 24) == pow2(k) * 0x100_0000,
            ;
        }
        if k > 0 {
            let j = (k - 1) as nat;
            let a = (b - 1) as nat;
            lemma_pow2_adds(a, u);
            lemma_pow2_adds(j, 24);
            assert(a + u == j + 24);
            assert(big >= 0x100_0000 * (d * pow2(j))) by (nonlinear_arith)
                requires
                    n >= d * pow2(a),
                    pow2(u) > 0,
                    big == n * pow2(u),
                    pow2(a) * pow2(u) == pow2(j) * 0x100_0000,
            ;
        }
        lemma_rounded_at(big, d, k);
        if k >= u {
            let t = (k - u) as nat;
            lemma_pow2_pos(t);
            lemma_pow2_adds(t, u);
            assert(d * pow2(t) > 0) by (nonlinear_arith)
                requires
                    d > 0,
                    pow2(t) > 0,
            ;
            lemma_half_even_cancel(n, d * pow2(t), pow2(u));
            assert((d * pow2(t)) * pow2(u) == d * pow2(k)) by (nonlinear_arith)
                requires
                    pow2(k) == pow2(t) * pow2(u),
            ;
        } else {
            let t = (u - k) as nat;
            lemma_pow2_adds(t, k);
            lemma_half_even_cancel(n * pow2(t), d, pow2(k));
            assert((n * pow2(t)) * pow2(k) == big) by (nonlinear_arith)
                requires
                    pow2(u) == pow2(t) * pow2(k),
                    big == n * pow2(u),
            ;
        }
    } else {
        let u = (-e) as nat;
        let den = d * pow2(u);
        let t = (k - e) as nat;
        lemma_pow2_pos(u);
        lemma_pow2_adds(u, k);
        lemma_pow2_adds(t, 24);
        lemma_pow2_le(b, t + 24);
        assert(den > 0) by (nonlinear_arith)
            requires
                d > 0,
                pow2(u) > 0,
                den == d * pow2(u),
        ;
        assert(den * pow2(k) == d * pow2(t)) by (nonlinear_arith)
            requires
                pow2(t) == pow2(u) * pow2(k),
                den == d * pow2(u),
        ;
        assert(n < 0x100_0000 * (den * pow2(k))) by (nonlinear_arith)
            requires
                n < d * pow2(b),
                pow2(b) <= pow2(t) * 0x100_0000,
                den * pow2(k) == d * pow2(t),
        ;
        if k > 0 {
            let j = (k - 1) as nat;
            let a = (b - 1) as nat;
            lemma_pow2_adds(u, j);
            lemma_pow2_adds(u + j, 24);
            assert(a == u + j + 24);
            assert(n >= 0x100_0000 * (den * pow2(j))) by (nonlinear_arith)
                requires
                    n >= d * pow2(a),
                    pow2(a) == pow2(u) * pow2(j) * 0x100_0000,
                    den == d * pow2(u),
            ;
        }
        lemma_rounded_at(n, den, k);
    }
}

/// One more bit than the quotient's own, for whether anything is left over.
pub open spec fn jammed(n: nat, d: nat) -> nat {
    2 * (n / d) + (if n % d == 0 { 0nat } else { 1nat })
}

/// Rounding to fewer digits than the integer quotient has needs no more of the
/// remainder than whether there is one.
pub proof fn lemma_half_even_jam(n: nat, d: nat, c: nat)
    requires
        d > 0,
        c > 0,
    ensures
        half_even(n, d * (2 * c)) == half_even(jammed(n, d), 2 * (2 * c)),
{
    let f = n / d;
    let r = n % d;
    let w = 2 * c;
    let q = f / w;
    let v = f % w;
    lemma_fundamental_div_mod(n as int, d as int);
    lemma_mod_bound(n as int, d as int);
    lemma_fundamental_div_mod(f as int, w as int);
    lemma_mod_bound(f as int, w as int);
    assert(n == q * (d * w) + (v * d + r)) by (nonlinear_arith)
        requires
            n == d * f + r,
            f == w * q + v,
    ;
    assert(v * d + r < d * w) by (nonlinear_arith)
        requires
            v + 1 <= w,
            r < d,
    ;
    lemma_div_mod_unique(n, d * w, q, v * d + r);
    let st: nat = if r == 0 { 0 } else { 1 };
    assert(2 * f + st == q * (2 * w) + (2 * v + st)) by (nonlinear_arith)
        requires
            f == w * q + v,
    ;
    lemma_div_mod_unique(2 * f + st, 2 * w, q, 2 * v + st);
    if v < c {
        assert(2 * (v * d + r) < d * w) by (nonlinear_arith)
            requires
                v + 1 <= c,
                r < d,
                w == 2 * c,
        ;
    } else if v == c {
        assert(2 * (v * d + r) == d * w + 2 * r) by (nonlinear_arith)
            requires
                v == c,
                w == 2 * c,
        ;
    } else {
        assert(2 * (v * d + r) > d * w) by (nonlinear_arith)
            requires
                v >= c + 1,
                d > 0,
                r >= 0,
                w == 2 * c,
        ;
    }
}

/// A quotient of at least 24 bits is rounded alike with its remainder jammed.
pub proof fn lemma_scaled_jam(n: nat, d: nat, e: int)
    requires
        d > 0,
        n / d >= 0x100_0000,
    ensures
        scaled(n, d, e) == scaled(jammed(n, d), 1, e - 1),
{
    lemma2_to64();
    let f = n / d;
    let b = width(f);
    let a = (b - 1) as nat;
    let m = jammed(n, d);
    lemma_width(f);
    lemma_fundamental_div_mod(n as int, d as int);
    lemma_mod_bound(n as int, d as int);
    assert(b >= 25) by {
        if b < 25 {
            lemma_pow2_le(b, 24);
        }
    }
    assert(d * pow2(a) <= n < d * pow2(b)) by (nonlinear_arith)
        requires
            n == d * f + n % d,
            0 <= n % d < d,
            pow2(a) <= f,
            f + 1 <= pow2(b),
    ;
    lemma_scaled_at(n, d, e, b);
    lemma_pow2_unfold(b);
    lemma_pow2_unfold(b + 1);
    assert(1 * pow2(b) <= m < 1 * pow2(b + 1));
    lemma_scaled_at(m, 1, e - 1, b + 1);
    let k = last_digit(b, e);
    assert(last_digit(b + 1, e - 1) == k);
    let s = (k - e) as nat;
    lemma_pow2_unfold(s);
    lemma_pow2_unfold(s + 1);
    lemma_pow2_pos((s - 1) as nat);
    lemma_half_even_jam(n, d, pow2((s - 1) as nat));
    assert(1 * pow2((k - (e - 1)) as nat) == 2 * pow2(s));
}

pub proof fn lemma_floor_root_exists(n: nat)
    ensures
        is_floor_root(floor_root(n), n),
    decreases n,
{
    if n == 0 {
        assert(is_floor_root(0, 0)) by (nonlinear_arith);
    } else {
        lemma_floor_root_exists((n - 1) as nat);
        let r = floor_root((n - 1) as nat);
        if n < (r + 1) * (r + 1) {
            assert(is_floor_root(r, n));
        } else {
            assert((r + 1) * (r + 1) < (r + 2) * (r + 2)) by (nonlinear_arith);
            assert(is_floor_root(r + 1, n));
        }
    }
}

pub proof fn lemma_floor_root_unique(n: nat, r: nat)
    requires
        is_floor_root(r, n),
    ensures
        floor_root(n) == r,
{
    let s = floor_root(n);
    assert(is_floor_root(s, n));
    if s < r {
        assert((s + 1) * (s + 1) <= r * r) by (nonlinear_arith)
            requires
                s + 1 <= r,
        ;
    }
    if r < s {
        assert((r + 1) * (r + 1) <= s * s) by (nonlinear_arith)
            requires
                r + 1 <= s,
        ;
    }
}

pub proof fn lemma_root_cancel(n: nat, d: nat, c: nat)
    requires
        d > 0,
        c > 0,
    ensures
        root_half_even(n * c, d * c) == root_half_even(n, d),
{
    vstd::arithmetic::div_mod::lemma_div_by_multiple(n as int, c as int);
    let q = n / d;
    let t = n % d;
    lemma_fundamental_div_mod(n as int, d as int);
    lemma_mod_bound(n as int, d as int);
    assert(n * c == q * (d * c) + t * c && t * c < d * c) by (nonlinear_arith)
        requires
            n == d * q + t,
            t < d,
            c > 0,
    ;
    lemma_div_mod_unique(n * c, d * c, q, t * c);
    let r = floor_root(q);
    let o = (2 * r + 1) * (2 * r + 1);
    assert((4 * (n * c) < o * (d * c) <==> 4 * n < o * d) && (4 * (n * c) == o * (d * c) <==> 4 * n
        == o * d)) by (nonlinear_arith)
        requires
            c > 0,
    ;
}

/// `rounded_root` finds the power of two at which the root has 24 bits.
pub proof fn lemma_rounded_root_at(n: nat, d: nat, k: nat)
    requires
        d > 0,
        n < 0x1_0000_0000_0000 * (d * pow2(2 * k)),
        k > 0 ==> n >= 0x1_0000_0000_0000 * (d * pow2((2 * k - 2) as nat)),
    ensures
        rounded_root(n, d) == pow2(k) * root_half_even(n, d * pow2(2 * k)),
    decreases k,
{
    lemma2_to64();
    if k == 0 {
        assert(d * pow2(0) == d);
    } else {
        let j = (k - 1) as nat;
        lemma_pow2_pos(2 * j);
        lemma_pow2_unfold(k);
        lemma_pow2_unfold(2 * k);
        lemma_pow2_unfold((2 * k - 1) as nat);
        assert(2 * j == 2 * k - 2);
        assert(n >= 0x1_0000_0000_0000 * d) by (nonlinear_arith)
            requires
                n >= 0x1_0000_0000_0000 * (d * pow2(2 * j)),
                pow2(2 * j) >= 1,
        ;
        assert((4 * d) * pow2(2 * j) == d * pow2(2 * k)) by (nonlinear_arith)
            requires
                pow2(2 * k) == 4 * pow2(2 * j),
        ;
        if j > 0 {
            let i = (2 * j - 2) as nat;
            lemma_pow2_unfold(2 * j);
            lemma_pow2_unfold((2 * j - 1) as nat);
            assert((4 * d) * pow2(i) == d * pow2(2 * j)) by (nonlinear_arith)
                requires
                    pow2(2 * j) == 4 * pow2(i),
            ;
        }
        lemma_rounded_root_at(n, 4 * d, j);
        let h = root_half_even(n, d * pow2(2 * k));
        assert(2 * (pow2(j) * h) == pow2(k) * h) by (nonlinear_arith)
            requires
                pow2(k) == 2 * pow2(j),
        ;
    }
}

/// One more bit than the integer root's own, for whether it is exact.
pub open spec fn jammed_root(n: nat) -> nat {
    let r = floor_root(n);
    2 * r + (if r * r == n { 0nat } else { 1nat })
}

pub proof fn lemma_root_half_even_jam(n: nat, c: nat)
    requires
        c > 0,
    ensures
        root_half_even(n, (2 * c) * (2 * c)) == half_even(jammed_root(n), 2 * (2 * c)),
{
    let big = floor_root(n);
    lemma_floor_root_exists(n);
    let w = 2 * c;
    let r = big / w;
    let v = big % w;
    lemma_fundamental_div_mod(big as int, w as int);
    lemma_mod_bound(big as int, w as int);
    let ww = w * w;
    assert(ww > 0) by (nonlinear_arith)
        requires
            w > 0,
            ww == w * w,
    ;
    let q = n / ww;
    lemma_fundamental_div_mod(n as int, ww as int);
    lemma_mod_bound(n as int, ww as int);
    assert(r * r <= q) by {
        assert((r * w) * (r * w) <= big * big) by (nonlinear_arith)
            requires
                big == w * r + v,
                v >= 0,
        ;
        assert((r * w) * (r * w) == (r * r) * ww) by (nonlinear_arith)
            requires
                ww == w * w,
        ;
        assert(r * r <= q) by (nonlinear_arith)
            requires
                (r * r) * ww <= n,
                n == ww * q + n % ww,
                n % ww < ww,
                ww > 0,
        ;
    }
    assert(q < (r + 1) * (r + 1)) by {
        let x = (r + 1) * w;
        assert(x >= big + 1) by (nonlinear_arith)
            requires
                big == w * r + v,
                v + 1 <= w,
                x == (r + 1) * w,
        ;
        assert(x * x >= (big + 1) * (big + 1)) by (nonlinear_arith)
            requires
                x >= big + 1,
        ;
        assert(x * x == ((r + 1) * (r + 1)) * ww) by (nonlinear_arith)
            requires
                ww == w * w,
                x == (r + 1) * w,
        ;
        assert(q < (r + 1) * (r + 1)) by (nonlinear_arith)
            requires
                n < ((r + 1) * (r + 1)) * ww,
                n == ww * q + n % ww,
                n % ww >= 0,
                ww > 0,
        ;
    }
    lemma_floor_root_unique(q, r);
    let t = w * r + c;
    assert((2 * r + 1) * (2 * r + 1) * ww == 4 * (t * t)) by (nonlinear_arith)
        requires
            ww == w * w,
            w == 2 * c,
            t == w * r + c,
    ;
    let st: nat = if big * big == n { 0 } else { 1 };
    assert(2 * big + st == r * (2 * w) + (2 * v + st)) by (nonlinear_arith)
        requires
            big == w * r + v,
    ;
    lemma_div_mod_unique(2 * big + st, 2 * w, r, 2 * v + st);
    if v < c {
        assert(t * t >= (big + 1) * (big + 1)) by (nonlinear_arith)
            requires
                t >= big + 1,
        ;
    } else if v > c {
        assert(t * t < big * big) by (nonlinear_arith)
            requires
                t < big,
        ;
    }
}

/// A root of at least 24 bits is rounded alike with what is left over jammed.
pub proof fn lemma_rounded_root_jam(n: nat, h: nat)
    requires
        floor_root(n) >= 0x100_0000,
    ensures
        rounded_root(n * pow2(2 * h), 1) == scaled(jammed_root(n), 1, h - 1),
{
    lemma2_to64();
    vstd::arithmetic::power2::lemma2_to64_rest();
    let big = floor_root(n);
    lemma_floor_root_exists(n);
    let b = width(big);
    let a = (b - 1) as nat;
    lemma_width(big);
    assert(b >= 25) by {
        if b < 25 {
            lemma_pow2_le(b, 24);
        }
    }
    let k = (h + b - 24) as nat;
    let s = (b - 24) as nat;
    let m = n * pow2(2 * h);
    lemma_pow2_adds(b, b);
    lemma_pow2_adds(a, a);
    lemma_pow2_adds(2 * b, 2 * h);
    lemma_pow2_adds(2 * a, 2 * h);
    lemma_pow2_adds(48, 2 * k);
    lemma_pow2_adds(48, (2 * k - 2) as nat);
    lemma_pow2_pos(2 * h);
    assert(48 + 2 * k == 2 * b + 2 * h);
    assert(48 + (2 * k - 2) == 2 * a + 2 * h);
    assert(n < pow2(2 * b)) by (nonlinear_arith)
        requires
            n < (big + 1) * (big + 1),
            big + 1 <= pow2(b),
            pow2(2 * b) == pow2(b) * pow2(b),
    ;
    assert(n >= pow2(2 * a)) by (nonlinear_arith)
        requires
            n >= big * big,
            big >= pow2(a),
            pow2(2 * a) == pow2(a) * pow2(a),
    ;
    assert(m < pow2(2 * b) * pow2(2 * h)) by (nonlinear_arith)
        requires
            n < pow2(2 * b),
            pow2(2 * h) > 0,
            m == n * pow2(2 * h),
    ;
    assert(m >= pow2(2 * a) * pow2(2 * h)) by (nonlinear_arith)
        requires
            n >= pow2(2 * a),
            m == n * pow2(2 * h),
    ;
    assert(1 * pow2(2 * k) == pow2(2 * k));
    lemma_rounded_root_at(m, 1, k);
    lemma_pow2_adds(2 * s, 2 * h);
    lemma_pow2_pos(2 * s);
    lemma_root_cancel(n, pow2(2 * s), pow2(2 * h));
    assert(root_half_even(m, pow2(2 * k)) == root_half_even(n, pow2(2 * s)));
    lemma_pow2_unfold(s);
    lemma_pow2_pos((s - 1) as nat);
    lemma_pow2_adds(s, s);
    lemma_root_half_even_jam(n, pow2((s - 1) as nat));
    let j = jammed_root(n);
    lemma_pow2_unfold(b);
    lemma_pow2_unfold(b + 1);
    assert(1 * pow2(b) <= j < 1 * pow2(b + 1));
    lemma_scaled_at(j, 1, h - 1, b + 1);
    assert(last_digit(b + 1, h - 1) == k);
    lemma_pow2_unfold(s + 1);
    assert(1 * pow2((k - (h - 1)) as nat) == 2 * pow2(s));
}

/// Equal quotients are rounded alike.
pub proof fn lemma_rounded_equal(n: nat, d: nat, m: nat, c: nat)
    requires
        d > 0,
        c > 0,
        n * c == m * d,
    ensures
        rounded(n, d) == rounded(m, c),
{
    lemma_rounded_cancel(n, d, c);
    lemma_rounded_cancel(m, c, d);
    lemma_mul_is_commutative(c as int, d as int);
}

pub proof fn lemma_half_even_monotone(n: nat, m: nat, d: nat)
    requires
        d > 0,
        n <= m,
    ensures
        half_even(n, d) <= half_even(m, d),
{
    lemma_div_is_ordered(n as int, m as int, d as int);
    if n / d == m / d {
        lemma_fundamental_div_mod(n as int, d as int);
        lemma_fundamental_div_mod(m as int, d as int);
    }
}

/// The nearest integer is at most half a step away.
pub proof fn lemma_half_even_error(n: nat, d: nat)
    requires
        d > 0,
    ensures
        2 * (half_even(n, d) * d) <= 2 * n + d,
        2 * n <= 2 * (half_even(n, d) * d) + d,
{
    let q = n / d;
    lemma_fundamental_div_mod(n as int, d as int);
    lemma_mod_bound(n as int, d as int);
    assert((q + 1) * d == d * q + d && q * d == d * q) by (nonlinear_arith);
}

/// Rounding keeps the order.
pub proof fn lemma_rounded_monotone(n: nat, m: nat, d: nat)
    requires
        d > 0,
        n <= m,
    ensures
        rounded(n, d) <= rounded(m, d),
    decreases m / d,
{
    if m < 0x100_0000 * d {
        lemma_half_even_monotone(n, m, d);
    } else {
        lemma_halving_decreases(m, d);
        if n >= 0x100_0000 * d {
            lemma_rounded_monotone(n, m, 2 * d);
        } else {
            let top = 0x100_0000 * d;
            lemma_half_even_monotone(n, top, d);
            lemma_div_mod_unique(top, d, 0x100_0000, 0);
            lemma_rounded_monotone(top, m, 2 * d);
            assert(top == 0x80_0000 * (2 * d) + 0) by (nonlinear_arith)
                requires
                    top == 0x100_0000 * d,
            ;
            lemma_div_mod_unique(top, 2 * d, 0x80_0000, 0);
            assert(rounded(top, 2 * d) == half_even(top, 2 * d));
        }
    }
}

/// A magnitude of at most 24 bits is not changed.
pub proof fn lemma_rounded_exact(f: nat, k: nat)
    requires
        f <= 0x100_0000,
    ensures
        rounded(f * pow2(k), 1) == f * pow2(k),
{
    lemma2_to64();
    if f == 0 {
        assert(0 * pow2(k) == 0);
        lemma_div_mod_unique(0, 1, 0, 0);
    } else {
        let b = width(f);
        lemma_width(f);
        if b > 25 {
            lemma_pow2_le(25, (b - 1) as nat);
        }
        assert(1 * pow2(b) == pow2(b));
        assert(1 * pow2((b - 1) as nat) == pow2((b - 1) as nat));
        lemma_scaled_at(f, 1, k as int, b);
        let j = last_digit(b, k as int);
        if j < k {
            let t = (k - j) as nat;
            lemma_div_mod_unique(f * pow2(t), 1, f * pow2(t), 0);
            lemma_pow2_adds(j, t);
            assert(pow2(j) * (f * pow2(t)) == f * pow2(k)) by (nonlinear_arith)
                requires
                    pow2(k) == pow2(j) * pow2(t),
            ;
        } else if j == k {
            assert(1 * pow2(0) == 1);
            lemma_div_mod_unique(f, 1, f, 0);
            lemma_mul_is_commutative(f as int, pow2(k) as int);
        } else {
            assert(b == 25 && j == k + 1);
            assert(f == 0x100_0000);
            assert(1 * pow2(1) == 2);
            lemma_div_mod_unique(f, 2, 0x80_0000, 0);
            lemma_pow2_unfold(j);
            assert(pow2(j) * 0x80_0000 == f * pow2(k)) by (nonlinear_arith)
                requires
                    pow2(j) == 2 * pow2(k),
                    f == 0x100_0000,
            ;
        }
    }
}

/// A magnitude of `b` binary digits is changed by at most half its 24th.
pub proof fn lemma_rounded_error(n: nat, b: nat)
    requires
        n < pow2(b),
        b >= 25,
    ensures
        rounded(n, 1) <= n + pow2((b - 25) as nat),
        n <= rounded(n, 1) + pow2((b - 25) as nat),
{
    lemma2_to64();
    let half = pow2((b - 25) as nat);
    lemma_pow2_pos((b - 25) as nat);
    if n == 0 {
        lemma_div_mod_unique(0, 1, 0, 0);
    } else {
        let w = width(n);
        lemma_width(n);
        if w > b {
            lemma_pow2_le(b, (w - 1) as nat);
        }
        assert(1 * pow2(w) == pow2(w));
        assert(1 * pow2((w - 1) as nat) == pow2((w - 1) as nat));
        lemma_scaled_at(n, 1, 0, w);
        assert(n * pow2(0) == n);
        let k = last_digit(w, 0);
        let d = 1 * pow2(k);
        lemma_pow2_pos(k);
        lemma_half_even_error(n, d);
        lemma_mul_is_commutative(pow2(k) as int, half_even(n, d) as int);
        if k > 0 {
            lemma_pow2_unfold(k);
            lemma_pow2_le((k - 1) as nat, (b - 25) as nat);
        } else {
            lemma_div_mod_unique(n, 1, n, 0);
        }
    }
}

/// Rounding takes off at most a quarter.
pub proof fn lemma_rounded_keeps_most(n: nat, d: nat)
    requires
        d > 0,
        n >= 2 * d,
    ensures
        4 * (rounded(n, d) * d) >= 3 * n,
    decreases n / d,
{
    if n < 0x100_0000 * d {
        lemma_half_even_error(n, d);
    } else {
        lemma_halving_decreases(n, d);
        lemma_rounded_keeps_most(n, 2 * d);
        let h = rounded(n, 2 * d);
        assert((2 * h) * d == h * (2 * d)) by (nonlinear_arith);
    }
}

/// A smaller divisor gives no smaller quotient.
pub proof fn lemma_rounded_divisor(n: nat, d: nat, c: nat)
    requires
        0 < d <= c,
    ensures
        rounded(n, c) <= rounded(n, d),
{
    lemma_rounded_cancel(n, d, c);
    lemma_rounded_cancel(n, c, d);
    lemma_mul_is_commutative(c as int, d as int);
    assert(n * d <= n * c && d * c > 0) by (nonlinear_arith)
        requires
            0 < d <= c,
    ;
    lemma_rounded_monotone(n * d, n * c, d * c);
}

/// What was rounded is not changed by rounding again.
pub proof fn lemma_rounded_again(n: nat, d: nat)
    requires
        d > 0,
    ensures
        rounded(rounded(n, d), 1) == rounded(n, d),
{
    let (h, k) = lemma_rounded_form(n, d);
    lemma_rounded_exact(h, k);
}

/// The root of one or more is not rounded to nothing.
pub proof fn lemma_rounded_root_positive(n: nat, d: nat)
    requires
        0 < d <= n,
    ensures
        rounded_root(n, d) > 0,
    decreases n / d,
{
    if n < 0x1_0000_0000_0000 * d {
        lemma_floor_root_exists(n / d);
        let r = crate::number::floor_root(n / d);
        lemma_div_is_ordered(d as int, n as int, d as int);
        lemma_div_mod_unique(d, d, 1, 0);
        assert(r >= 1) by (nonlinear_arith)
            requires
                1 <= n / d < (r + 1) * (r + 1),
        ;
    } else {
        lemma_quartering_decreases(n, d);
        lemma_rounded_root_positive(n, 4 * d);
    }
}

proof fn lemma_root_half_even_monotone(n: nat, m: nat, d: nat)
    requires
        d > 0,
        n <= m,
    ensures
        root_half_even(n, d) <= root_half_even(m, d),
{
    lemma_div_is_ordered(n as int, m as int, d as int);
    lemma_floor_root_exists(n / d);
    lemma_floor_root_exists(m / d);
    let (r, s) = (floor_root(n / d), floor_root(m / d));
    assert(r <= s) by (nonlinear_arith)
        requires
            r * r <= n / d,
            n / d <= m / d,
            m / d < (s + 1) * (s + 1),
    ;
}

/// Rounded roots keep the order.
pub proof fn lemma_rounded_root_monotone(n: nat, m: nat, d: nat)
    requires
        d > 0,
        n <= m,
    ensures
        rounded_root(n, d) <= rounded_root(m, d),
    decreases m / d,
{
    if m < 0x1_0000_0000_0000 * d {
        lemma_root_half_even_monotone(n, m, d);
    } else {
        lemma_quartering_decreases(m, d);
        if n >= 0x1_0000_0000_0000 * d {
            lemma_rounded_root_monotone(n, m, 4 * d);
        } else {
            let top = 0x1_0000_0000_0000 * d;
            lemma_root_half_even_monotone(n, top, d);
            lemma_div_mod_unique(top, d, 0x1_0000_0000_0000, 0);
            assert(is_floor_root(0x100_0000, 0x1_0000_0000_0000)) by (nonlinear_arith);
            lemma_floor_root_unique(0x1_0000_0000_0000, 0x100_0000);
            assert(4 * top < (2 * 0x100_0000 + 1) * (2 * 0x100_0000 + 1) * d) by (nonlinear_arith)
                requires
                    top == 0x1_0000_0000_0000 * d,
                    d > 0,
            ;
            assert(top == 0x4000_0000_0000 * (4 * d) + 0) by (nonlinear_arith)
                requires
                    top == 0x1_0000_0000_0000 * d,
            ;
            lemma_div_mod_unique(top, 4 * d, 0x4000_0000_0000, 0);
            assert(is_floor_root(0x80_0000, 0x4000_0000_0000)) by (nonlinear_arith);
            lemma_floor_root_unique(0x4000_0000_0000, 0x80_0000);
            assert(4 * top < (2 * 0x80_0000 + 1) * (2 * 0x80_0000 + 1) * (4 * d)) by (nonlinear_arith)
                requires
                    top == 0x1_0000_0000_0000 * d,
                    d > 0,
            ;
            lemma_rounded_root_monotone(top, m, 4 * d);
        }
    }
}

/// A rounded quotient is off by at most half a unit, or by one part in 2^24.
pub proof fn lemma_rounded_close(n: nat, d: nat)
    requires
        d > 0,
    ensures
        ({
            let r = rounded(n, d) * d;
            let off = if r < n {
                n - r
            } else {
                r - n
            };
            0x100_0000 * off <= n || (n < 0x100_0000 * d && 2 * off <= d)
        }),
    decreases n / d,
{
    if n < 0x100_0000 * d {
        lemma_half_even_error(n, d);
    } else {
        lemma_halving_decreases(n, d);
        lemma_rounded_close(n, 2 * d);
        let h = rounded(n, 2 * d);
        assert((2 * h) * d == h * (2 * d)) by (nonlinear_arith);
    }
}

proof fn lemma_root_half_even_close(n: nat, d: nat)
    requires
        d > 0,
        n >= d,
    ensures
        root_half_even(n, d) > 0,
        ({
            let r = root_half_even(n, d);
            (2 * r - 1) * (2 * r - 1) * d <= 4 * n <= (2 * r + 1) * (2 * r + 1) * d
        }),
        n >= 0x4000_0000_0000 * d ==> root_half_even(n, d) >= 0x80_0000,
{
    let q = n / d;
    lemma_floor_root_exists(q);
    let f = floor_root(q);
    lemma_fundamental_div_mod(n as int, d as int);
    lemma_mod_bound(n as int, d as int);
    let rest = n % d;
    assert(q * d <= n < (q + 1) * d) by (nonlinear_arith)
        requires
            n == d * q + rest,
            rest < d,
    ;
    assert(q >= 1) by (nonlinear_arith)
        requires
            n >= d,
            n < (q + 1) * d,
    ;
    assert(f >= 1) by (nonlinear_arith)
        requires
            1 <= q < (f + 1) * (f + 1),
    ;
    let r = root_half_even(n, d);
    if r == f {
        assert((2 * f - 1) * (2 * f - 1) * d <= 4 * n) by (nonlinear_arith)
            requires
                f >= 1,
                f * f <= q,
                q * d <= n,
                d > 0,
        {
            assert((2 * f - 1) * (2 * f - 1) <= 4 * (f * f));
            assert((2 * f - 1) * (2 * f - 1) * d <= 4 * (f * f) * d);
            assert(4 * (f * f) * d <= 4 * (q * d));
        }
    } else {
        assert(r == f + 1);
        assert(4 * n <= (2 * r + 1) * (2 * r + 1) * d) by (nonlinear_arith)
            requires
                r == f + 1,
                q < (f + 1) * (f + 1),
                n < (q + 1) * d,
                d > 0,
        {
            assert((q + 1) * d <= (r * r) * d);
            assert(4 * (r * r) * d <= (2 * r + 1) * (2 * r + 1) * d);
        }
    }
    if n >= 0x4000_0000_0000 * d {
        assert(q >= 0x4000_0000_0000) by (nonlinear_arith)
            requires
                n >= 0x4000_0000_0000 * d,
                n < (q + 1) * d,
        ;
        assert(f >= 0x80_0000) by (nonlinear_arith)
            requires
                0x4000_0000_0000 <= q < (f + 1) * (f + 1),
        ;
    }
}

/// A rounded root is off by at most one part in 2^24.
pub proof fn lemma_rounded_root_close(n: nat, d: nat)
    requires
        d > 0,
        n >= 0x4000_0000_0000 * d,
    ensures
        ({
            let r = rounded_root(n, d);
            (0xff_ffff * r) * (0xff_ffff * r) * d <= 0x1_0000_0000_0000 * n <= (0x100_0001 * r) * (
            0x100_0001 * r) * d
        }),
    decreases n / d,
{
    if n < 0x1_0000_0000_0000 * d {
        lemma_root_half_even_close(n, d);
        let r = root_half_even(n, d);
        assert((0xff_ffff * r) * (0xff_ffff * r) * d <= 0x1_0000_0000_0000 * n) by (nonlinear_arith)
            requires
                (2 * r - 1) * (2 * r - 1) * d <= 4 * n,
                r >= 0x80_0000,
                d > 0,
        {
            let a = 0xff_ffff * r;
            let b = 0x80_0000 * (2 * r - 1);
            assert(0 <= a <= b);
            assert(a * a <= b * b);
            assert(b * b == 0x4000_0000_0000 * ((2 * r - 1) * (2 * r - 1)));
            assert(a * a * d <= 0x4000_0000_0000 * ((2 * r - 1) * (2 * r - 1)) * d);
        }
        assert(0x1_0000_0000_0000 * n <= (0x100_0001 * r) * (0x100_0001 * r) * d) by (nonlinear_arith)
            requires
                4 * n <= (2 * r + 1) * (2 * r + 1) * d,
                r >= 0x80_0000,
                d > 0,
        {
            let a = 0x100_0001 * r;
            let b = 0x80_0000 * (2 * r + 1);
            assert(0 <= b <= a);
            assert(b * b <= a * a);
            assert(b * b == 0x4000_0000_0000 * ((2 * r + 1) * (2 * r + 1)));
            assert(0x4000_0000_0000 * ((2 * r + 1) * (2 * r + 1)) * d <= a * a * d);
        }
    } else {
        lemma_quartering_decreases(n, d);
        lemma_rounded_root_close(n, 4 * d);
        let h = rounded_root(n, 4 * d);
        assert((0xff_ffff * (2 * h)) * (0xff_ffff * (2 * h)) * d == (0xff_ffff * h) * (0xff_ffff * h)
            * (4 * d)) by (nonlinear_arith);
        assert((0x100_0001 * (2 * h)) * (0x100_0001 * (2 * h)) * d == (0x100_0001 * h) * (0x100_0001
            * h) * (4 * d)) by (nonlinear_arith);
    }
}

/// A rounded count is a whole number of at most 24 digits at some last digit,
/// and of no fewer where that is not the first.
pub proof fn lemma_rounded_form(n: nat, d: nat) -> (r: (nat, nat))
    requires
        d > 0,
    ensures
        r.0 < 0x100_0000,
        r.1 > 0 ==> r.0 >= 0x80_0000,
        rounded(n, d) == r.0 * pow2(r.1),
    decreases n / d,
{
    if n < 0x100_0000 * d {
        let top = 0x100_0000 * d;
        lemma_half_even_monotone(n, top, d);
        lemma_div_mod_unique(top, d, 0x100_0000, 0);
        lemma2_to64();
        let h = half_even(n, d);
        assert(h * pow2(0) == h);
        if h == 0x100_0000 {
            assert(0x80_0000 * pow2(1) == h);
            (0x80_0000, 1)
        } else {
            (h, 0)
        }
    } else {
        lemma_halving_decreases(n, d);
        let (h, k) = lemma_rounded_form(n, 2 * d);
        lemma_pow2_unfold(k + 1);
        assert(2 * (h * pow2(k)) == h * pow2(k + 1)) by (nonlinear_arith)
            requires
                pow2(k + 1) == 2 * pow2(k),
        ;
        if k == 0 {
            let low = 0x80_0000 * (2 * d);
            lemma2_to64();
            assert(h * pow2(0) == h);
            lemma_rounded_monotone(low, n, 2 * d);
            lemma_div_mod_unique(low, 2 * d, 0x80_0000, 0);
        }
        (h, k + 1)
    }
}

/// The root of a number below the middle between `f` and the next number rounds
/// to `f` or less; `f` is counted at the digit `k`.
proof fn lemma_root_below(n: nat, d: nat, f: nat, k: nat)
    requires
        d > 0,
        f < 0x100_0000,
        k > 0 ==> f >= 0x80_0000,
        4 * n < ((2 * f + 1) * pow2(k)) * ((2 * f + 1) * pow2(k)) * d,
    ensures
        rounded_root(n, d) <= f * pow2(k),
    decreases k,
{
    lemma2_to64();
    lemma_pow2_pos(k);
    let g = pow2(k);
    if n >= 0x1_0000_0000_0000 * d {
        if k == 0 {
            assert(4 * n < 4 * (0x1_0000_0000_0000 * d)) by (nonlinear_arith)
                requires
                    4 * n < ((2 * f + 1) * 1) * ((2 * f + 1) * 1) * d,
                    2 * f + 1 <= 0x200_0000,
            ;
        } else {
            let j = (k - 1) as nat;
            lemma_pow2_unfold(k);
            let h = pow2(j);
            assert(((2 * f + 1) * g) * ((2 * f + 1) * g) * d == ((2 * f + 1) * h) * ((2 * f + 1) * h)
                * (4 * d)) by (nonlinear_arith)
                requires
                    g == 2 * h,
            ;
            lemma_root_below(n, 4 * d, f, j);
            assert(2 * (f * h) == f * g) by (nonlinear_arith)
                requires
                    g == 2 * h,
            ;
            lemma_quartering_decreases(n, d);
        }
    } else {
        let r = floor_root(n / d);
        lemma_floor_root_exists(n / d);
        lemma_fundamental_div_mod(n as int, d as int);
        lemma_mod_bound(n as int, d as int);
        assert(r * r * d <= n) by (nonlinear_arith)
            requires
                r * r <= n / d,
                n == d * (n / d) + n % d,
                n % d >= 0,
                d > 0,
        ;
        if k == 0 {
            let m = 2 * f + 1;
            assert((m * 1) * (m * 1) * d == m * m * d);
            assert(2 * r < m) by (nonlinear_arith)
                requires
                    4 * (r * r * d) < m * m * d,
                    d > 0,
            ;
        } else {
            assert(r < 0x100_0000) by (nonlinear_arith)
                requires
                    r * r * d < 0x1_0000_0000_0000 * d,
                    d > 0,
            ;
            lemma_pow2_unfold(k);
            lemma_pow2_pos((k - 1) as nat);
            assert(f * g >= 0x100_0000) by (nonlinear_arith)
                requires
                    f >= 0x80_0000,
                    g >= 2,
            ;
        }
    }
}

/// The square of a number `m` is not so far above the exact square that its
/// root would be above `m`, where it has 24 digits; `m` is `n / d` rounded.
pub proof fn lemma_root_of_square(n: nat, d: nat, u: nat)
    requires
        d > 0,
        u > 0,
        rounded(rounded(n, d) * rounded(n, d), u) >= 0x80_0000,
    ensures
        rounded_root(rounded(rounded(n, d) * rounded(n, d), u) * u, 1) <= rounded(n, d),
{
    let m = rounded(n, d);
    let (f, k) = lemma_rounded_form(n, d);
    let g = pow2(k);
    lemma_pow2_pos(k);
    let mm = m * m;
    let l = rounded(mm, u);
    let lu = l * u;
    let mg = m * g;
    lemma_rounded_close(mm, u);
    assert(mm == f * mg && mm <= 0xff_ffff * mg) by (nonlinear_arith)
        requires
            mm == m * m,
            mg == m * g,
            m == f * g,
            f <= 0xff_ffff,
    ;
    assert(4 * lu <= 4 * mm + 4 * mg) by {
        if lu > mm && 0x100_0000 * (lu - mm) > mm {
            lemma_half_even_error(mm, u);
            assert(0x80_0000 * u <= lu) by (nonlinear_arith)
                requires
                    l >= 0x80_0000,
                    lu == l * u,
            ;
        }
    }
    let w = (2 * f + 1) * g;
    assert(w * w * 1 == 4 * mm + 4 * mg + g * g && g * g > 0) by {
        assert(w == 2 * m + g) by (nonlinear_arith)
            requires
                w == (2 * f + 1) * g,
                m == f * g,
        ;
        assert((2 * m + g) * (2 * m + g) == 4 * (m * m) + 4 * (m * g) + g * g) by (nonlinear_arith);
        assert(g * g > 0) by (nonlinear_arith)
            requires
                g > 0,
        ;
    }
    lemma_root_below(lu, 1, f, k);
}

} // verus!
