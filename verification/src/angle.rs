//! Angles brought into a single turn.
use crate::config::{PI, TAU};
use crate::number::{at_most, count, decode, less, limit, sum, unit, Number};
use crate::rounding::{lemma_rounded_error, lemma_rounded_exact, lemma_rounded_monotone};
use crate::scalar::Scalar;
use vstd::arithmetic::power2::{lemma2_to64, lemma_pow2_adds, lemma_pow2_pos, lemma_pow2_unfold, pow2};
use vstd::prelude::*;

verus! {

/// Whether whole turns can be taken off `a` one by one: up to 2^27 each step
/// gets nearer; beyond, a turn is less than half the spacing of numbers.
pub open spec fn can_wrap(a: Number) -> bool {
    match a {
        Number::Nan => true,
        Number::Infinite { .. } => false,
        Number::Finite { mag, .. } => mag <= 0x800_0000 * unit(),
    }
}

pub open spec fn size(a: Number) -> nat {
    match a {
        Number::Finite { mag, .. } => mag,
        _ => 0,
    }
}

/// Whole turns taken off an angle above half a turn.
pub open spec fn turned_down(a: Number) -> Number
    decreases size(a),
    when can_wrap(a)
{
    if less(decode(PI), a) {
        proof {
            lemma_step_down(a);
        }
        turned_down(a - decode(TAU))
    } else {
        a
    }
}

/// Whole turns added to an angle below minus half a turn.
pub open spec fn turned_up(a: Number) -> Number
    decreases size(a),
    when can_wrap(a)
{
    if less(a, -decode(PI)) {
        proof {
            lemma_step_up(a);
        }
        turned_up(a + decode(TAU))
    } else {
        a
    }
}

/// The angle within half a turn of zero.
pub open spec fn wrapped(a: Number) -> Number {
    turned_up(turned_down(a))
}

pub open spec fn half_turn() -> nat {
    0xc9_0fdb * pow2(127)
}

pub proof fn lemma_turns()
    ensures
        decode(PI) == (Number::Finite { neg: false, mag: half_turn() }),
        decode(TAU) == (Number::Finite { neg: false, mag: 2 * half_turn() }),
        5 * unit() < 2 * half_turn() < 7 * unit(),
        half_turn() > 0,
        0x800_0000 * unit() < limit(),
{
    lemma2_to64();
    lemma_pow2_unfold(128);
    lemma_pow2_adds(127, 22);
    lemma_pow2_pos(127);
    lemma_pow2_adds(27, 149);
    vstd::arithmetic::power2::lemma_pow2_strictly_increases(176, 277);
    assert(0xc9_0fdb * pow2(128) == 2 * (0xc9_0fdb * pow2(127)));
}

/// Taking a turn off an angle above half a turn leaves a smaller one.
pub proof fn lemma_step_down(a: Number)
    requires
        can_wrap(a),
        less(decode(PI), a),
    ensures
        can_wrap(a - decode(TAU)),
        size(a - decode(TAU)) < size(a),
{
    lemma_turns();
    reveal(less);
    reveal(sum);
    let m = a->mag;
    let t = 2 * half_turn();
    let s = m - t;
    assert(count(true, t) == -t);
    if s < 0 {
        // Less than a turn: what is left is below half a turn.
        let r = (-s) as nat;
        assert(r < half_turn());
        lemma_rounded_monotone(r, half_turn(), 1);
        lemma_rounded_exact(0xc9_0fdb, 127);
    } else if s > 0 {
        let r = s as nat;
        lemma2_to64();
        lemma_pow2_adds(27, 149);
        lemma_pow2_adds(2, 149);
        lemma_rounded_error(r, 176);
        assert(pow2(151) == 4 * unit());
    }
}

/// Adding a turn to an angle below minus half a turn leaves a smaller one,
/// which is not above half a turn.
pub proof fn lemma_step_up(a: Number)
    requires
        can_wrap(a),
        less(a, -decode(PI)),
    ensures
        can_wrap(a + decode(TAU)),
        size(a + decode(TAU)) < size(a),
        at_most(a + decode(TAU), decode(PI)),
{
    lemma_turns();
    reveal(less);
    reveal(sum);
    let m = a->mag;
    let t = 2 * half_turn();
    let s = t - m;
    if s > 0 {
        let r = s as nat;
        assert(r < half_turn());
        lemma_rounded_monotone(r, half_turn(), 1);
        lemma_rounded_exact(0xc9_0fdb, 127);
    } else if s < 0 {
        let r = (-s) as nat;
        lemma2_to64();
        lemma_pow2_adds(27, 149);
        lemma_pow2_adds(2, 149);
        lemma_rounded_error(r, 176);
        assert(pow2(151) == 4 * unit());
    }
}

/// The angle brought to within half a turn of zero.
pub fn wrap_angle(a: Scalar) -> (r: Scalar)
    requires
        can_wrap(a@),
    ensures
        r@ == wrapped(a@),
        a@ is Nan || (at_most(-decode(PI), r@) && at_most(r@, decode(PI))),
{
    let pi = Scalar::from_bits(PI);
    let tau = Scalar::from_bits(TAU);
    let mut b = a;
    while b.gt(pi)
        invariant
            pi@ == decode(PI),
            tau@ == decode(TAU),
            can_wrap(b@),
            turned_down(b@) == turned_down(a@),
            b@ is Nan ==> a@ is Nan,
        decreases size(b@),
    {
        proof {
            lemma_step_down(b@);
            lemma_turns();
            reveal(less);
            reveal(sum);
        }
        b = b - tau;
    }
    let ghost down = b@;
    assert(a@ is Nan || at_most(down, decode(PI))) by {
        lemma_turns();
        reveal(less);
    }
    while b.lt(pi.negate())
        invariant
            pi@ == decode(PI),
            tau@ == decode(TAU),
            can_wrap(b@),
            turned_up(b@) == turned_up(down),
            a@ is Nan || at_most(b@, decode(PI)),
        decreases size(b@),
    {
        proof {
            lemma_step_up(b@);
        }
        b = b + tau;
    }
    proof {
        lemma_turns();
        reveal(less);
    }
    b
}

} // verus!
