//! The rounding of single operations on numbers and vectors whose size is bounded.
use crate::error::{
    eps, lemma_negated_value, lemma_no_value, lemma_product_error, lemma_sum_error, lemma_tiny,
    size, tiny, value,
};
use crate::foresight::row_close;
use crate::forms::{triple, Triple};
use crate::metric::{finite, lemma_product_size};
use crate::number::{zero, Number};
use crate::vector::V3;
use vstd::prelude::*;

verus! {

/// The largest bound that is used.
pub open spec fn vast() -> real {
    0x1000_0000_0000_0000 as real
}

/// One rounding of a result of at most `m`.
proof fn lemma_one_rounding(got: real, exact: real, m: real)
    requires
        size(got - exact) <= size(exact) * eps() + tiny(),
        size(exact) <= m,
        m >= 1 as real,
    ensures
        size(got - exact) <= 2 as real * (m * eps()),
        2 as real * (m * eps()) <= m / (1000 as real),
{
    lemma_tiny();
    let (e, o, x) = (eps(), tiny(), size(exact));
    assert(x * e + o <= 2 as real * (m * e) && 2 as real * (m * e) <= m / (1000 as real))
        by (nonlinear_arith)
        requires
            x <= m,
            m >= 1 as real,
            o <= e * e,
            e == (1 as real) / (0x100_0000 as real),
    ;
}

pub proof fn lemma_sum_near(a: Number, b: Number, m: real)
    requires
        a is Finite,
        b is Finite,
        size(value(a) + value(b)) <= m,
        m >= 1 as real,
        m <= vast(),
    ensures
        (a + b) is Finite,
        size(value(a + b) - (value(a) + value(b))) <= 2 as real * (m * eps()),
        2 as real * (m * eps()) <= m / (1000 as real),
{
    lemma_sum_error(a, b);
    lemma_one_rounding(value(a + b), value(a) + value(b), m);
}

pub proof fn lemma_difference_near(a: Number, b: Number, m: real)
    requires
        a is Finite,
        b is Finite,
        size(value(a) - value(b)) <= m,
        m >= 1 as real,
        m <= vast(),
    ensures
        (a - b) is Finite,
        size(value(a - b) - (value(a) - value(b))) <= 2 as real * (m * eps()),
        2 as real * (m * eps()) <= m / (1000 as real),
{
    lemma_negated_value(b);
    lemma_sum_near(a, -b, m);
}

pub proof fn lemma_product_near(a: Number, b: Number, m: real)
    requires
        a is Finite,
        b is Finite,
        size(value(a) * value(b)) <= m,
        m >= 1 as real,
        m <= vast(),
    ensures
        (a * b) is Finite,
        size(value(a * b) - value(a) * value(b)) <= 2 as real * (m * eps()),
        2 as real * (m * eps()) <= m / (1000 as real),
{
    lemma_product_error(a, b);
    lemma_one_rounding(value(a * b), value(a) * value(b), m);
}

/// Component by component, `a` and `b`.
pub open spec fn both(a: Triple, b: Triple) -> Triple {
    Triple { x: a.x + b.x, y: a.y + b.y, z: a.z + b.z }
}

/// Each component, `k` times.
pub open spec fn stretched(a: Triple, k: real) -> Triple {
    Triple { x: a.x * k, y: a.y * k, z: a.z * k }
}

pub open spec fn within_reach(a: Triple, b: real) -> bool {
    size(a.x) <= b && size(a.y) <= b && size(a.z) <= b
}

/// The rounded sum of vectors that are near `p` and `q`.
pub proof fn lemma_sum_close(a: V3, b: V3, p: Triple, q: Triple, s: real, t: real, m: real)
    requires
        row_close(a, p, s),
        row_close(b, q, t),
        within_reach(both(p, q), m),
        s + t <= m,
        m >= 1 as real,
        2 as real * m <= vast(),
    ensures
        row_close(a + b, both(p, q), s + t + 4 as real * (m * eps())),
{
    lemma_sum_near(a.x, b.x, 2 as real * m);
    lemma_sum_near(a.y, b.y, 2 as real * m);
    lemma_sum_near(a.z, b.z, 2 as real * m);
    lemma_doubled(m);
}

/// The rounded difference of vectors that are near `p` and `q`.
pub proof fn lemma_difference_close(a: V3, b: V3, p: Triple, q: Triple, s: real, t: real, m: real)
    requires
        row_close(a, p, s),
        row_close(b, q, t),
        within_reach(p.minus(q), m),
        s + t <= m,
        m >= 1 as real,
        2 as real * m <= vast(),
    ensures
        row_close(a - b, p.minus(q), s + t + 4 as real * (m * eps())),
{
    lemma_difference_near(a.x, b.x, 2 as real * m);
    lemma_difference_near(a.y, b.y, 2 as real * m);
    lemma_difference_near(a.z, b.z, 2 as real * m);
    lemma_doubled(m);
}

proof fn lemma_doubled(m: real)
    ensures
        2 as real * ((2 as real * m) * eps()) == 4 as real * (m * eps()),
{
    let e = eps();
    assert((2 as real * m) * e == 2 as real * (m * e)) by (nonlinear_arith);
}

/// The rounded multiple of a vector that is near `p`; `c` bounds the factor.
pub proof fn lemma_multiple_close(a: V3, k: Number, p: Triple, s: real, c: real, m: real)
    requires
        row_close(a, p, s),
        k is Finite,
        size(value(k)) <= c,
        within_reach(stretched(p, value(k)), m),
        s * c <= m,
        m >= 1 as real,
        2 as real * m <= vast(),
    ensures
        row_close(a * k, stretched(p, value(k)), s * c + 4 as real * (m * eps())),
{
    lemma_multiple_near(a.x, k, p.x, s, c, m);
    lemma_multiple_near(a.y, k, p.y, s, c, m);
    lemma_multiple_near(a.z, k, p.z, s, c, m);
}

proof fn lemma_multiple_near(a: Number, k: Number, p: real, s: real, c: real, m: real)
    requires
        a is Finite,
        size(value(a) - p) <= s,
        k is Finite,
        size(value(k)) <= c,
        size(p * value(k)) <= m,
        s * c <= m,
        m >= 1 as real,
        2 as real * m <= vast(),
    ensures
        (a * k) is Finite,
        size(value(a * k) - p * value(k)) <= s * c + 4 as real * (m * eps()),
{
    let (d, kv) = (value(a) - p, value(k));
    lemma_product_size(d, kv, s, c);
    assert(value(a) * kv == p * kv + d * kv) by (nonlinear_arith)
        requires
            d == value(a) - p,
    ;
    lemma_product_near(a, k, 2 as real * m);
    lemma_doubled(m);
}

/// A vector is at itself.
pub proof fn lemma_itself(a: V3)
    requires
        finite(a),
    ensures
        row_close(a, triple(a), 0 as real),
{
}

/// The origin stands for nothing.
pub proof fn lemma_origin_close()
    ensures
        row_close(V3::origin(), Triple { x: 0 as real, y: 0 as real, z: 0 as real }, 0 as real),
{
    lemma_no_value(zero());
}

} // verus!
