//! Covariance intersection: fusing two estimates whose correlation is unknown.
use crate::config::TEN;
use crate::matrix::{M3, Mat3};
use crate::number::{
    at_most, decode, infinity, is_nought, is_single, less, one, product, quotient, rounded, sum,
    unit, whole, zero, Number,
};
use crate::order::{
    lemma_less_irreflexive, lemma_less_transitive, lemma_single, lemma_zero_quotient,
};
use crate::rounding::{
    lemma_pow2_le, lemma_rounded_cancel, lemma_rounded_exact, lemma_rounded_monotone,
};
use crate::scalar::{lemma_whole_exact, Scalar};
use crate::vector::{V3, Vec3};
use vstd::arithmetic::power2::{
    lemma2_to64, lemma_pow2_adds, lemma_pow2_pos, lemma_pow2_unfold, pow2,
};
use vstd::prelude::*;

verus! {

/// A position and its covariance.
#[verifier::ext_equal]
pub struct Fix {
    pub pos: V3,
    pub cov: M3,
}

/// The `i`-th of the eleven weights tried, from zero to one.
pub open spec fn weight(i: nat) -> Number {
    whole(i) / decode(TEN)
}

/// The information in both estimates where the first one has weight `w`.
pub open spec fn information(a: M3, b: M3, w: Number) -> M3 {
    a.scaled(w) + b.scaled(one() - w)
}

/// The best weight among the first `n` and the determinant it gives, where `a`
/// and `b` are the inverses of the two covariances: the first weight whose
/// fused covariance has the least determinant, and one if none has any.
pub open spec fn best_weight(a: M3, b: M3, n: nat) -> (Number, Number)
    decreases n,
{
    if n == 0 {
        (one(), infinity())
    } else {
        let (w, det) = best_weight(a, b, (n - 1) as nat);
        let v = weight((n - 1) as nat);
        let m = information(a, b, v);
        if !m.is_singular() && less(m.inverse().determinant(), det) {
            (v, m.inverse().determinant())
        } else {
            (w, det)
        }
    }
}

/// The fused estimate; `a` alone where a covariance cannot be inverted.
#[verifier::opaque]
pub open spec fn intersected(a: Fix, b: Fix) -> Fix {
    if a.cov.is_singular() || b.cov.is_singular() {
        a
    } else {
        let (ia, ib) = (a.cov.inverse(), b.cov.inverse());
        let w = best_weight(ia, ib, 11).0;
        let m = information(ia, ib, w);
        if m.is_singular() {
            a
        } else {
            Fix {
                pos: m.inverse().apply(ia.apply(a.pos) * w + ib.apply(b.pos) * (one() - w)),
                cov: m.inverse(),
            }
        }
    }
}

fn information_exec(a: Mat3, b: Mat3, w: Scalar) -> (r: Mat3)
    ensures
        r@ == information(a@, b@, w@),
{
    a.scale(w).plus(b.scale(Scalar::one() - w))
}

/// Fuses the estimates `(xa, pa)` and `(xb, pb)`.
pub fn covariance_intersection(xa: Vec3, pa: Mat3, xb: Vec3, pb: Mat3) -> (r: (Vec3, Mat3))
    ensures
        (Fix { pos: r.0@, cov: r.1@ }) == intersected(
            Fix { pos: xa@, cov: pa@ },
            Fix { pos: xb@, cov: pb@ },
        ),
{
    reveal(intersected);
    let (ia, ib) = match (pa.try_inverse(), pb.try_inverse()) {
        (Some(ia), Some(ib)) => (ia, ib),
        _ => return (xa, pa),
    };
    let mut best_w = Scalar::one();
    let mut best_det = Scalar::infinity();
    let mut i: u64 = 0;
    while i < 11
        invariant
            i <= 11,
            (best_w@, best_det@) == best_weight(ia@, ib@, i as nat),
        decreases 11 - i,
    {
        let w = Scalar::from_whole(i) / Scalar::from_bits(TEN);
        if let Some(p) = information_exec(ia, ib, w).try_inverse() {
            let det = p.determinant();
            if det.lt(best_det) {
                best_det = det;
                best_w = w;
            }
        }
        i = i + 1;
    }
    let rest = Scalar::one() - best_w;
    match information_exec(ia, ib, best_w).try_inverse() {
        None => (xa, pa),
        Some(p) => {
            let x = p.apply(ia.apply(xa) * best_w + ib.apply(xb) * rest);
            (x, p)
        },
    }
}

/// No weight tried gives a fused covariance of smaller determinant than the
/// one chosen.
pub proof fn law_weight_is_best(a: M3, b: M3, i: nat)
    requires
        i < 11,
        !information(a, b, weight(i)).is_singular(),
    ensures
        !less(information(a, b, weight(i)).inverse().determinant(), best_weight(a, b, 11).1),
{
    lemma_best_so_far(a, b, i, 11);
}

proof fn lemma_best_so_far(a: M3, b: M3, i: nat, n: nat)
    requires
        i < n,
        !information(a, b, weight(i)).is_singular(),
    ensures
        !less(information(a, b, weight(i)).inverse().determinant(), best_weight(a, b, n).1),
    decreases n,
{
    let d = information(a, b, weight(i)).inverse().determinant();
    let det = best_weight(a, b, (n - 1) as nat).1;
    if i == n - 1 {
        lemma_less_irreflexive(d);
    } else {
        lemma_best_so_far(a, b, i, (n - 1) as nat);
        let m = information(a, b, weight((n - 1) as nat));
        if less(d, m.inverse().determinant()) && less(m.inverse().determinant(), det) {
            lemma_less_transitive(d, m.inverse().determinant(), det);
        }
    }
}

/// An estimate that cannot be weighed leaves the other one as it was.
pub proof fn law_singular_keeps_first(a: Fix, b: Fix)
    requires
        a.cov.is_singular() || b.cov.is_singular(),
    ensures
        intersected(a, b) == a,
{
    reveal(intersected);
}

/// The weight chosen is one of those tried, or one.
pub proof fn law_weight_is_tried(a: M3, b: M3, n: nat)
    ensures
        best_weight(a, b, n).0 == one() || exists|i: nat|
            i < n && best_weight(a, b, n).0 == #[trigger] weight(i),
    decreases n,
{
    if n > 0 {
        law_weight_is_tried(a, b, (n - 1) as nat);
    }
}

/// Every weight tried lies between zero and one, and so does what is left for
/// the other estimate.
pub proof fn law_weights_share_one(i: nat)
    requires
        i < 11,
    ensures
        at_most(zero(), weight(i)),
        at_most(weight(i), one()),
        at_most(zero(), one() - weight(i)),
        at_most(one() - weight(i), one()),
{
    reveal(less);
    reveal(sum);
    reveal(quotient);
    lemma2_to64();
    lemma_pow2_pos(149);
    let u = unit();
    lemma_whole_exact(i);
    lemma_pow2_adds(129, 20);
    let ten = 10 * u;
    assert(decode(TEN) == (Number::Finite { neg: false, mag: ten })) by {
        assert(0xa0_0000 * pow2(129) == 10 * (pow2(129) * 0x10_0000)) by (nonlinear_arith);
    }
    assert(i * u * u <= u * ten) by (nonlinear_arith)
        requires
            i <= 10,
            ten == 10 * u,
    ;
    lemma_rounded_monotone(i * u * u, u * ten, ten);
    lemma_rounded_cancel(u, 1, ten);
    lemma_rounded_exact(1, 149);
    assert(1 * ten == ten && 1 * u == u);
    lemma_pow2_le(149, 276);
    lemma_pow2_unfold(277);
    let m = rounded(i * u * u, ten);
    assert(weight(i) == (Number::Finite { neg: false, mag: m }));
    if m < u {
        lemma_rounded_monotone((u - m) as nat, u, 1);
    }
}

/// The last of the weights tried is one.
pub proof fn lemma_last_weight()
    ensures
        weight(10) == one(),
        one() - one() == zero(),
{
    reveal(sum);
    reveal(quotient);
    lemma2_to64();
    lemma_pow2_pos(149);
    lemma_pow2_pos(277);
    let u = unit();
    lemma_whole_exact(10);
    lemma_pow2_adds(129, 20);
    let ten = 10 * u;
    assert(decode(TEN) == (Number::Finite { neg: false, mag: ten })) by {
        assert(0xa0_0000 * pow2(129) == 10 * (pow2(129) * 0x10_0000)) by (nonlinear_arith);
    }
    assert(10 * u * u == u * ten) by (nonlinear_arith)
        requires
            ten == 10 * u,
    ;
    lemma_rounded_cancel(u, 1, ten);
    lemma_rounded_exact(1, 149);
    assert(1 * ten == ten && 1 * u == u);
    lemma_pow2_le(149, 276);
    lemma_pow2_unfold(277);
}

/// The weight chosen has the least determinant found.
proof fn lemma_determinant_of_best(a: M3, b: M3, n: nat)
    ensures
        best_weight(a, b, n).1 == infinity() || ({
            let m = information(a, b, best_weight(a, b, n).0);
            !m.is_singular() && m.inverse().determinant() == best_weight(a, b, n).1
        }),
    decreases n,
{
    if n > 0 {
        lemma_determinant_of_best(a, b, (n - 1) as nat);
    }
}

/// Fusing leaves a covariance of no larger determinant than the first estimate
/// gives alone, with all the weight on it.
pub proof fn law_no_larger_than_alone(a: Fix, b: Fix)
    requires
        !a.cov.is_singular(),
        !b.cov.is_singular(),
        !information(a.cov.inverse(), b.cov.inverse(), one()).is_singular(),
    ensures
        ({
            let alone = information(a.cov.inverse(), b.cov.inverse(), one()).inverse();
            !less(alone.determinant(), intersected(a, b).cov.determinant())
        }),
{
    reveal(intersected);
    let (ia, ib) = (a.cov.inverse(), b.cov.inverse());
    lemma_last_weight();
    law_weight_is_best(ia, ib, 10);
    lemma_determinant_of_best(ia, ib, 11);
    if best_weight(ia, ib, 11).1 == infinity() {
        lemma_no_determinant(ia, ib, 11);
        lemma_less_irreflexive(
            information(ia, ib, one()).inverse().determinant(),
        );
    }
}

/// Where no determinant was found that is less than infinite, the weight is
/// one.
proof fn lemma_no_determinant(a: M3, b: M3, n: nat)
    ensures
        best_weight(a, b, n).1 == infinity() ==> best_weight(a, b, n).0 == one(),
    decreases n,
{
    if n > 0 {
        lemma_no_determinant(a, b, (n - 1) as nat);
        lemma_less_irreflexive(infinity());
        let m = information(a, b, weight((n - 1) as nat));
        let det = best_weight(a, b, (n - 1) as nat).1;
        assert(less(m.inverse().determinant(), det) && m.inverse().determinant() == infinity()
            ==> false) by {
            reveal(less);
        }
    }
}

/// Whether two finite numbers are the same, but for the sign of a zero.
pub open spec fn equals(a: Number, b: Number) -> bool {
    a is Finite && b is Finite && (a == b || (is_nought(a) && is_nought(b)))
}

pub open spec fn equal_rows(a: V3, b: V3) -> bool {
    equals(a.x, b.x) && equals(a.y, b.y) && equals(a.z, b.z)
}

/// Whether the components are finite single-precision numbers.
pub open spec fn is_plain(a: V3) -> bool {
    &&& a.x is Finite && is_single(a.x)
    &&& a.y is Finite && is_single(a.y)
    &&& a.z is Finite && is_single(a.z)
}

proof fn lemma_all_weight(x: Number, y: Number)
    requires
        x is Finite,
        is_single(x),
        y is Finite,
    ensures
        equals(x * one() + y * (one() - one()), x),
{
    lemma_last_weight();
    reveal(sum);
    reveal(product);
    lemma_pow2_pos(149);
    lemma_pow2_pos(277);
    let u = unit();
    let (m, n) = (x->mag, y->mag);
    lemma_single(x->Finite_neg, m);
    lemma_rounded_cancel(m, 1, u);
    lemma_zero_quotient(u);
    assert(1 * u == u && n * 0 == 0);
}

/// With all the weight on the first estimate, the information is its own.
pub proof fn law_all_weight_is_the_first(a: M3, b: M3)
    requires
        is_plain(a.r0) && is_plain(a.r1) && is_plain(a.r2),
        is_plain(b.r0) && is_plain(b.r1) && is_plain(b.r2),
    ensures
        equal_rows(information(a, b, one()).r0, a.r0),
        equal_rows(information(a, b, one()).r1, a.r1),
        equal_rows(information(a, b, one()).r2, a.r2),
{
    lemma_all_weight(a.r0.x, b.r0.x);
    lemma_all_weight(a.r0.y, b.r0.y);
    lemma_all_weight(a.r0.z, b.r0.z);
    lemma_all_weight(a.r1.x, b.r1.x);
    lemma_all_weight(a.r1.y, b.r1.y);
    lemma_all_weight(a.r1.z, b.r1.z);
    lemma_all_weight(a.r2.x, b.r2.x);
    lemma_all_weight(a.r2.y, b.r2.y);
    lemma_all_weight(a.r2.z, b.r2.z);
}

} // verus!
