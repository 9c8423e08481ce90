//! What a single-precision number is, and what its arithmetic yields.
//!
//! A `Number` is the meaning of a 32-bit IEEE 754 pattern. The magnitude of a
//! finite number is counted in multiples of the smallest positive one,
//! 2^-149, so every finite number is a whole count and every operation below
//! is an exact integer or rational computation followed by one rounding to the
//! nearest number, ties to even.
use vstd::arithmetic::power2::pow2;
use vstd::prelude::*;

verus! {

/// The value of a single-precision pattern. All not-a-number patterns are one
/// value; the two zeros are told apart by `neg`.
pub enum Number {
    Nan,
    Infinite { neg: bool },
    Finite { neg: bool, mag: nat },
}

impl Number {
    pub open spec fn spec_add(self, other: Number) -> Number {
        sum(self, other)
    }

    pub open spec fn spec_sub(self, other: Number) -> Number {
        difference(self, other)
    }

    pub open spec fn spec_mul(self, other: Number) -> Number {
        product(self, other)
    }

    pub open spec fn spec_euclidean_or_real_div(self, other: Number) -> Number {
        quotient(self, other)
    }

    pub open spec fn spec_neg(self) -> Number {
        negated(self)
    }
}

/// One unit, that is 1, as a count of the smallest positive number.
pub open spec fn unit() -> nat {
    pow2(149)
}

/// The first magnitude that is too large to be finite: 2^128.
pub open spec fn limit() -> nat {
    pow2(277)
}

/// The integer nearest to `n / d`, the even one of two that are as near.
pub open spec fn half_even(n: nat, d: nat) -> nat {
    let q = n / d;
    let twice = 2 * (n % d);
    if twice < d || (twice == d && q % 2 == 0) {
        q
    } else {
        q + 1
    }
}

/// `n / d` rounded to 24 significant bits, and to a whole count.
pub open spec fn rounded(n: nat, d: nat) -> nat
    decreases n / d,
{
    if d == 0 || n < 0x100_0000 * d {
        half_even(n, d)
    } else {
        proof {
            crate::rounding::lemma_halving_decreases(n, d);
        }
        2 * rounded(n, 2 * d)
    }
}

pub open spec fn is_floor_root(r: nat, n: nat) -> bool {
    r * r <= n < (r + 1) * (r + 1)
}

/// The largest integer whose square is at most `n`.
pub open spec fn floor_root(n: nat) -> nat {
    choose|r: nat| is_floor_root(r, n)
}

/// The integer nearest to the square root of `n / d`, ties to even.
pub open spec fn root_half_even(n: nat, d: nat) -> nat {
    let r = floor_root(n / d);
    let middle = (2 * r + 1) * (2 * r + 1) * d;
    if 4 * n < middle || (4 * n == middle && r % 2 == 0) {
        r
    } else {
        r + 1
    }
}

/// The square root of `n / d` rounded to 24 significant bits.
pub open spec fn rounded_root(n: nat, d: nat) -> nat
    decreases n / d,
{
    if d == 0 || n < 0x1_0000_0000_0000 * d {
        root_half_even(n, d)
    } else {
        proof {
            crate::rounding::lemma_quartering_decreases(n, d);
        }
        2 * rounded_root(n, 4 * d)
    }
}

/// The number of this sign and rounded magnitude.
pub open spec fn bounded(neg: bool, mag: nat) -> Number {
    if mag >= limit() {
        Number::Infinite { neg }
    } else {
        Number::Finite { neg, mag }
    }
}

/// The signed count of a finite number.
pub open spec fn count(neg: bool, mag: nat) -> int {
    if neg {
        -(mag as int)
    } else {
        mag as int
    }
}

/// The number nearest to the exact signed count `s`.
pub open spec fn nearest(s: int) -> Number {
    bounded(s < 0, rounded((if s < 0 { -s } else { s }) as nat, 1))
}

pub open spec fn zero() -> Number {
    Number::Finite { neg: false, mag: 0 }
}

pub open spec fn one() -> Number {
    Number::Finite { neg: false, mag: unit() }
}

pub open spec fn infinity() -> Number {
    Number::Infinite { neg: false }
}

/// `-a`.
pub open spec fn negated(a: Number) -> Number {
    match a {
        Number::Nan => Number::Nan,
        Number::Infinite { neg } => Number::Infinite { neg: !neg },
        Number::Finite { neg, mag } => Number::Finite { neg: !neg, mag },
    }
}

/// `a + b`.
#[verifier::opaque]
pub open spec fn sum(a: Number, b: Number) -> Number {
    match (a, b) {
        (Number::Nan, _) => Number::Nan,
        (_, Number::Nan) => Number::Nan,
        (Number::Infinite { neg: p }, Number::Infinite { neg: q }) => if p == q {
            a
        } else {
            Number::Nan
        },
        (Number::Infinite { .. }, _) => a,
        (_, Number::Infinite { .. }) => b,
        (Number::Finite { neg: p, mag: m }, Number::Finite { neg: q, mag: n }) => {
            let s = count(p, m) + count(q, n);
            if s == 0 {
                Number::Finite { neg: p && q, mag: 0 }
            } else {
                nearest(s)
            }
        },
    }
}

/// `a - b`.
pub open spec fn difference(a: Number, b: Number) -> Number {
    sum(a, negated(b))
}

/// `a * b`.
#[verifier::opaque]
pub open spec fn product(a: Number, b: Number) -> Number {
    match (a, b) {
        (Number::Nan, _) => Number::Nan,
        (_, Number::Nan) => Number::Nan,
        (Number::Infinite { neg: p }, Number::Infinite { neg: q }) => Number::Infinite {
            neg: p != q,
        },
        (Number::Infinite { neg: p }, Number::Finite { neg: q, mag: n }) => if n == 0 {
            Number::Nan
        } else {
            Number::Infinite { neg: p != q }
        },
        (Number::Finite { neg: p, mag: m }, Number::Infinite { neg: q }) => if m == 0 {
            Number::Nan
        } else {
            Number::Infinite { neg: p != q }
        },
        (Number::Finite { neg: p, mag: m }, Number::Finite { neg: q, mag: n }) => bounded(
            p != q,
            rounded(m * n, unit()),
        ),
    }
}

/// `a / b`.
#[verifier::opaque]
pub open spec fn quotient(a: Number, b: Number) -> Number {
    match (a, b) {
        (Number::Nan, _) => Number::Nan,
        (_, Number::Nan) => Number::Nan,
        (Number::Infinite { .. }, Number::Infinite { .. }) => Number::Nan,
        (Number::Infinite { neg: p }, Number::Finite { neg: q, .. }) => Number::Infinite {
            neg: p != q,
        },
        (Number::Finite { neg: p, .. }, Number::Infinite { neg: q }) => Number::Finite {
            neg: p != q,
            mag: 0,
        },
        (Number::Finite { neg: p, mag: m }, Number::Finite { neg: q, mag: n }) => if n == 0 {
            if m == 0 {
                Number::Nan
            } else {
                Number::Infinite { neg: p != q }
            }
        } else {
            bounded(p != q, rounded(m * unit(), n))
        },
    }
}

/// The square root of `a`.
#[verifier::opaque]
pub open spec fn square_root(a: Number) -> Number {
    match a {
        Number::Nan => Number::Nan,
        Number::Infinite { neg } => if neg {
            Number::Nan
        } else {
            a
        },
        Number::Finite { neg, mag } => if mag == 0 {
            a
        } else if neg {
            Number::Nan
        } else {
            bounded(false, rounded_root(mag * unit(), 1))
        },
    }
}

/// `a < b`.
#[verifier::opaque]
pub open spec fn less(a: Number, b: Number) -> bool {
    match (a, b) {
        (Number::Nan, _) => false,
        (_, Number::Nan) => false,
        (Number::Infinite { neg: p }, Number::Infinite { neg: q }) => p && !q,
        (Number::Infinite { neg: p }, _) => p,
        (_, Number::Infinite { neg: q }) => !q,
        (Number::Finite { neg: p, mag: m }, Number::Finite { neg: q, mag: n }) => count(p, m)
            < count(q, n),
    }
}

/// `a <= b`.
pub open spec fn at_most(a: Number, b: Number) -> bool {
    !(a is Nan) && !(b is Nan) && !less(b, a)
}

/// The larger of the two; the other one where one is not a number.
pub open spec fn larger(a: Number, b: Number) -> Number {
    if a is Nan || less(a, b) {
        b
    } else {
        a
    }
}

/// The smaller of the two; the other one where one is not a number.
pub open spec fn smaller(a: Number, b: Number) -> Number {
    if a is Nan || less(b, a) {
        b
    } else {
        a
    }
}

/// `a` brought into `low ..= high`.
pub open spec fn clamped(a: Number, low: Number, high: Number) -> Number {
    if less(a, low) {
        low
    } else if less(high, a) {
        high
    } else {
        a
    }
}

/// The number nearest to the whole number `n`.
pub open spec fn whole(n: nat) -> Number {
    bounded(false, rounded(n * unit(), 1))
}

/// The value of a 32-bit pattern: one sign bit, eight exponent bits and
/// twenty-three fraction bits.
pub open spec fn decode(bits: u32) -> Number {
    let neg = bits >= 0x8000_0000;
    let rest = (bits as nat) % 0x8000_0000;
    let exponent = rest / 0x80_0000;
    let fraction = rest % 0x80_0000;
    if exponent == 255 {
        if fraction == 0 {
            Number::Infinite { neg }
        } else {
            Number::Nan
        }
    } else if exponent == 0 {
        Number::Finite { neg, mag: fraction }
    } else {
        Number::Finite {
            neg,
            mag: (0x80_0000 + fraction) * pow2((exponent - 1) as nat),
        }
    }
}

/// Whether a number is one of the two zeros.
pub open spec fn is_nought(a: Number) -> bool {
    a matches Number::Finite { mag, .. } && mag == 0
}

/// Whether a number is the value of some pattern.
pub open spec fn is_single(a: Number) -> bool {
    exists|bits: u32| #[trigger] decode(bits) == a
}

} // verus!
