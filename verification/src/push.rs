//! What moving a velocity onto the boundary of a half-plane does, in real
//! numbers.
use crate::avoid::{excess, HalfSpace};
use crate::error::{
    eps, lemma_less_value, lemma_negated_value, lemma_no_value, lemma_product_error,
    lemma_sum_error, lemma_tiny, size, tiny, value,
};
use crate::metric::{
    bulk, finite, inner, lemma_components, lemma_inner_error, lemma_product_size, lemma_root_size, lemma_small_part,
};
use crate::number::{less, sum, zero, Number};
use crate::vector::V3;
use vstd::prelude::*;

verus! {

/// Whether a half-plane has a unit vector as its normal, but for rounding, and
/// holds velocities under the speed limit.
pub open spec fn is_cap(h: HalfSpace) -> bool {
    &&& finite(h.n)
    &&& size(inner(h.n, h.n) - 1 as real) <= 100 as real * eps()
    &&& h.b is Finite
    &&& value(h.b) >= -(7 as real)
}

/// Whether the components are finite and at most `m`.
pub open spec fn is_within(v: V3, m: real) -> bool {
    &&& finite(v)
    &&& size(value(v.x)) <= m
    &&& size(value(v.y)) <= m
    &&& size(value(v.z)) <= m
}

/// `v` moved onto the boundary where it violates the half-plane.
pub open spec fn pushed(v: V3, h: HalfSpace) -> V3 {
    let e = excess(v, h);
    if less(zero(), e) {
        v - h.n * e
    } else {
        v
    }
}

/// The error of one operation whose exact result is at most `k` times `m`.
proof fn lemma_op(got: real, exact: real, m: real, k: real)
    requires
        size(got - exact) <= size(exact) * eps() + tiny(),
        size(exact) <= k * m,
        m >= 8 as real,
    ensures
        size(got - exact) <= (k + 1 as real) * (m * eps()),
{
    lemma_tiny();
    let (e, x, me) = (eps(), size(exact), m * eps());
    assert(x * e <= k * me) by (nonlinear_arith)
        requires
            x <= k * m,
            me == m * e,
            e > 0 as real,
    ;
    assert(me >= e) by (nonlinear_arith)
        requires
            me == m * e,
            m >= 8 as real,
            e > 0 as real,
    ;
    assert((k + 1 as real) * me == k * me + me) by (nonlinear_arith);
}

/// The components of a normal.
pub proof fn lemma_unit_parts(h: HalfSpace)
    requires
        is_cap(h),
    ensures
        is_within(h.n, 1001 as real / (1000 as real)),
{
    lemma_tiny();
    let m = 1001 as real / (1000 as real);
    assert(m * m >= 1 as real + 100 as real * eps()) by (nonlinear_arith)
        requires
            m == 1001 as real / (1000 as real),
            eps() == (1 as real) / (0x100_0000 as real),
    ;
    lemma_components(h.n, m);
}

/// The sizes of the terms of an inner product with a normal.
pub proof fn lemma_bulk_along(v: V3, n: V3, m: real)
    requires
        is_within(v, m),
        is_within(n, 1001 as real / (1000 as real)),
        m >= 0 as real,
    ensures
        bulk(v, n) <= (301 as real / (100 as real)) * m,
        size(inner(v, n)) <= (301 as real / (100 as real)) * m,
{
    let k = 1001 as real / (1000 as real);
    lemma_product_size(value(v.x), value(n.x), m, k);
    lemma_product_size(value(v.y), value(n.y), m, k);
    lemma_product_size(value(v.z), value(n.z), m, k);
    assert(m * k == 1001 as real * m / (1000 as real)) by (nonlinear_arith)
        requires
            k == 1001 as real / (1000 as real),
    ;
    assert((301 as real / (100 as real)) * m == 301 as real * m / (100 as real)) by (nonlinear_arith);
}

/// The excess of a velocity with components of at most `m`.
pub proof fn lemma_excess(v: V3, h: HalfSpace, m: real)
    requires
        is_within(v, m),
        m >= 8 as real,
        m <= 100 as real,
        is_cap(h),
    ensures
        !less(zero(), excess(v, h)) ==> inner(v, h.n) <= value(h.b) + 40 as real * (m * eps()),
        less(zero(), excess(v, h)) ==> {
            &&& excess(v, h) is Finite
            &&& value(excess(v, h)) > 0 as real
            &&& value(excess(v, h)) <= 4 as real * m
            &&& value(h.b) <= 8 as real * m
            &&& size(value(excess(v, h)) - (inner(v, h.n) - value(h.b))) <= 40 as real * (m * eps())
        },
{
    lemma_tiny();
    lemma_unit_parts(h);
    let (n, b, e) = (h.n, value(h.b), eps());
    lemma_bulk_along(v, n, m);
    lemma_inner_error(v, n);
    let me = m * e;
    let k = bulk(v, n);
    assert(k * (4 as real * e) <= (1204 as real / (100 as real)) * me) by (nonlinear_arith)
        requires
            k <= (301 as real / (100 as real)) * m,
            me == m * e,
            e > 0 as real,
    ;
    assert(me >= e) by (nonlinear_arith)
        requires
            me == m * e,
            m >= 8 as real,
            e > 0 as real,
    ;
    lemma_small_part(m, e);
    assert(tiny() * 8 as real <= e) by (nonlinear_arith)
        requires
            tiny() <= e * e,
            e == (1 as real) / (0x100_0000 as real),
    ;
    let d = v.dot(n);
    let x = excess(v, h);
    lemma_negated_value(h.b);
    lemma_sum_error(d, -h.b);
    lemma_no_value(zero());
    assert((301 as real / (100 as real)) * m == 301 as real * m / (100 as real)) by (nonlinear_arith);
    if b <= 8 as real * m {
        assert(size(value(d) - b) <= 12 as real * m);
        lemma_op(value(x), value(d) - b, m, 12 as real);
        lemma_less_value(zero(), x);
    } else {
        lemma_far_cap(d, h.b, m);
    }
}

/// A cap that no such velocity comes near.
proof fn lemma_far_cap(d: Number, b: Number, m: real)
    requires
        d is Finite,
        b is Finite,
        size(value(d)) <= 4 as real * m,
        value(b) > 8 as real * m,
        m >= 8 as real,
    ensures
        !less(zero(), d - b),
{
    lemma_tiny();
    lemma_no_value(zero());
    lemma_negated_value(b);
    lemma_sum_error(d, -b);
    let e = d - b;
    if e is Finite {
        lemma_less_value(zero(), e);
        let x = size(value(d) - value(b));
        assert(x * eps() + eps() <= x) by (nonlinear_arith)
            requires
                x >= 1 as real,
                eps() == (1 as real) / (0x100_0000 as real),
        ;
    } else {
        lemma_sum_below(d, b);
    }
}

proof fn lemma_sum_below(d: Number, b: Number)
    requires
        d is Finite,
        b is Finite,
        value(d) < value(b),
        (d - b) !is Finite,
    ensures
        !less(zero(), d - b),
{
    reveal(sum);
    reveal(less);
    lemma_less_value(d, b);
}

/// Whether `u` is `v` less `e` times `n`, within `t` in every component.
pub open spec fn is_moved(u: V3, v: V3, n: V3, e: real, t: real) -> bool {
    &&& finite(u)
    &&& size(value(u.x) - (value(v.x) - value(n.x) * e)) <= t
    &&& size(value(u.y) - (value(v.y) - value(n.y) * e)) <= t
    &&& size(value(u.z) - (value(v.z) - value(n.z) * e)) <= t
}

/// One component of a push.
proof fn lemma_pushed_part(v: Number, n: Number, e: Number, m: real)
    requires
        v is Finite,
        n is Finite,
        e is Finite,
        size(value(v)) <= m,
        m >= 8 as real,
        m <= 100 as real,
        size(value(n)) <= 1001 as real / (1000 as real),
        size(value(e)) <= 4 as real * m,
    ensures
        (v - n * e) is Finite,
        size(value(v - n * e) - (value(v) - value(n) * value(e))) <= 20 as real * (m * eps()),
{
    lemma_tiny();
    let exact = value(n) * value(e);
    let k = 1001 as real / (1000 as real);
    lemma_product_size(value(n), value(e), k, 4 as real * m);
    assert(k * (4 as real * m) == (4004 as real / (1000 as real)) * m) by (nonlinear_arith)
        requires
            k == 1001 as real / (1000 as real),
    ;
    lemma_product_error(n, e);
    lemma_op(value(n * e), exact, m, 4004 as real / (1000 as real));
    lemma_negated_value(n * e);
    lemma_small_part(m, eps());
    lemma_sum_error(v, -(n * e));
    assert((502 as real / (100 as real)) * m == 502 as real * m / (100 as real)) by (nonlinear_arith);
    lemma_op(value(v - n * e), value(v) - value(n * e), m, 502 as real / (100 as real));
    let f = m * eps();
    assert((4004 as real / (1000 as real) + 1 as real) * f == 5004 as real * f / (1000 as real))
        by (nonlinear_arith);
    assert((502 as real / (100 as real) + 1 as real) * f == 602 as real * f / (100 as real))
        by (nonlinear_arith);
}

/// A push moves the velocity along the normal.
pub proof fn lemma_pushed(v: V3, h: HalfSpace, m: real)
    requires
        is_within(v, m),
        m >= 8 as real,
        m <= 100 as real,
        is_cap(h),
        less(zero(), excess(v, h)),
    ensures
        is_moved(pushed(v, h), v, h.n, value(excess(v, h)), 20 as real * (m * eps())),
{
    lemma_unit_parts(h);
    lemma_excess(v, h, m);
    let e = excess(v, h);
    lemma_pushed_part(v.x, h.n.x, e, m);
    lemma_pushed_part(v.y, h.n.y, e, m);
    lemma_pushed_part(v.z, h.n.z, e, m);
}

/// What a push does to the part along a direction `g`.
pub proof fn lemma_moved_along(u: V3, v: V3, n: V3, e: real, t: real, g: V3)
    requires
        is_moved(u, v, n, e, t),
        is_within(g, 1001 as real / (1000 as real)),
    ensures
        size(inner(u, g) - (inner(v, g) - e * inner(n, g))) <= (301 as real / (100 as real)) * t,
{
    let (d1, d2, d3) = (
        value(u.x) - (value(v.x) - value(n.x) * e),
        value(u.y) - (value(v.y) - value(n.y) * e),
        value(u.z) - (value(v.z) - value(n.z) * e),
    );
    let k = 1001 as real / (1000 as real);
    lemma_product_size(d1, value(g.x), t, k);
    lemma_product_size(d2, value(g.y), t, k);
    lemma_product_size(d3, value(g.z), t, k);
    assert(t * k == 1001 as real * t / (1000 as real)) by (nonlinear_arith)
        requires
            k == 1001 as real / (1000 as real),
    ;
    assert((301 as real / (100 as real)) * t == 301 as real * t / (100 as real)) by (nonlinear_arith);
    lemma_moved_term(value(v.x), value(n.x), value(u.x), d1, e, value(g.x));
    lemma_moved_term(value(v.y), value(n.y), value(u.y), d2, e, value(g.y));
    lemma_moved_term(value(v.z), value(n.z), value(u.z), d3, e, value(g.z));
    let (a, b, c) = (
        value(n.x) * value(g.x),
        value(n.y) * value(g.y),
        value(n.z) * value(g.z),
    );
    lemma_three_parts(e, a, b, c);
}

proof fn lemma_moved_term(v: real, n: real, u: real, d: real, e: real, m: real)
    requires
        d == u - (v - n * e),
    ensures
        u * m == v * m - e * (n * m) + d * m,
{
    assert(u * m == v * m - e * (n * m) + d * m) by (nonlinear_arith)
        requires
            d == u - (v - n * e),
    ;
}

proof fn lemma_three_parts(e: real, a: real, b: real, c: real)
    ensures
        e * (a + b + c) == e * a + e * b + e * c,
{
    assert(e * (a + b + c) == e * a + e * b + e * c) by (nonlinear_arith);
}

/// What a push does to the square of the length; `m` bounds the components without
/// rounding.
pub proof fn lemma_moved_length(u: V3, v: V3, n: V3, e: real, t: real, m: real)
    requires
        is_moved(u, v, n, e, t),
        ({
            let all = inner(v, v) - 2 as real * (e * inner(v, n)) + (e * e) * inner(n, n);
            all <= m * m
        }),
        m > 0 as real,
    ensures
        inner(u, u) <= inner(v, v) - 2 as real * (e * inner(v, n)) + (e * e) * inner(n, n)
            + 6 as real * (m * t) + 3 as real * (t * t),
{
    let (x1, x2, x3) = (
        value(v.x) - value(n.x) * e,
        value(v.y) - value(n.y) * e,
        value(v.z) - value(n.z) * e,
    );
    lemma_square_of_push(value(v.x), value(n.x), e);
    lemma_square_of_push(value(v.y), value(n.y), e);
    lemma_square_of_push(value(v.z), value(n.z), e);
    lemma_three_parts(
        e,
        value(v.x) * value(n.x),
        value(v.y) * value(n.y),
        value(v.z) * value(n.z),
    );
    lemma_three_parts(
        e * e,
        value(n.x) * value(n.x),
        value(n.y) * value(n.y),
        value(n.z) * value(n.z),
    );
    lemma_off_square(value(u.x), x1, x2, x3, t, m);
    lemma_off_square(value(u.y), x2, x1, x3, t, m);
    lemma_off_square(value(u.z), x3, x1, x2, t, m);
}

proof fn lemma_square_of_push(v: real, n: real, e: real)
    ensures
        (v - n * e) * (v - n * e) == v * v - 2 as real * (e * (v * n)) + (e * e) * (n * n),
{
    let m = n * e;
    assert((v - m) * (v - m) == v * v - 2 as real * (v * m) + m * m) by (nonlinear_arith);
    assert(v * (n * e) == e * (v * n)) by (nonlinear_arith);
    assert((n * e) * (n * e) == (e * e) * (n * n)) by (nonlinear_arith);
}

proof fn lemma_off_square(u: real, x: real, y: real, z: real, t: real, m: real)
    requires
        size(u - x) <= t,
        x * x + y * y + z * z <= m * m,
        m > 0 as real,
    ensures
        u * u <= x * x + 2 as real * (m * t) + t * t,
{
    let d = u - x;
    assert(y * y >= 0 as real && z * z >= 0 as real) by (nonlinear_arith);
    lemma_root_size(x, m);
    assert(u * u == x * x + 2 as real * (d * x) + d * d) by (nonlinear_arith)
        requires
            d == u - x,
    ;
    lemma_product_size(d, x, t, m);
    lemma_product_size(d, d, t, t);
    assert(t * m == m * t) by (nonlinear_arith);
}

} // verus!
