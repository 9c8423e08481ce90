//! What fusing independent beliefs means, without rounding: for all variances
//! above zero and all places.
use crate::forms::Triple;
use vstd::prelude::*;

verus! {

/// A place and its variance in real numbers.
#[verifier::ext_equal]
pub struct Word {
    pub pos: Triple,
    pub var: real,
}

/// One coordinate of two beliefs, weighted by the inverse variances `p` and `q`.
#[verifier::opaque]
pub open spec fn weighted(x: real, p: real, y: real, q: real) -> real {
    (x * p + y * q) * (1 as real / (p + q))
}

/// Two independent beliefs, weighted by their inverse variances.
pub open spec fn pooled(a: Word, b: Word) -> Word {
    let (p, q) = (1 as real / a.var, 1 as real / b.var);
    Word {
        pos: Triple {
            x: weighted(a.pos.x, p, b.pos.x, q),
            y: weighted(a.pos.y, p, b.pos.y, q),
            z: weighted(a.pos.z, p, b.pos.z, q),
        },
        var: 1 as real / (p + q),
    }
}

proof fn lemma_reciprocal(x: real) -> (r: real)
    requires
        x > 0 as real,
    ensures
        r == 1 as real / x,
        r * x == 1 as real,
        r > 0 as real,
        1 as real / r == x,
{
    let r = 1 as real / x;
    assert(r * x == 1 as real && r > 0 as real) by (nonlinear_arith)
        requires
            r == 1 as real / x,
            x > 0 as real,
    ;
    let y = 1 as real / r;
    assert(y == x) by (nonlinear_arith)
        requires
            y == 1 as real / r,
            r * x == 1 as real,
            r > 0 as real,
    ;
    r
}

/// Fusing two beliefs in either order gives the same.
pub proof fn law_pooling_commutes(a: Word, b: Word)
    ensures
        pooled(a, b) == pooled(b, a),
{
    let (p, q) = (1 as real / a.var, 1 as real / b.var);
    lemma_swapped(a.pos.x, p, b.pos.x, q);
    lemma_swapped(a.pos.y, p, b.pos.y, q);
    lemma_swapped(a.pos.z, p, b.pos.z, q);
}

proof fn lemma_swapped(x: real, p: real, y: real, q: real)
    ensures
        weighted(x, p, y, q) == weighted(y, q, x, p),
{
    reveal(weighted);
    assert(p + q == q + p);
}

/// A fused belief is surer than either, and the precisions add up.
pub proof fn law_pooling_makes_surer(a: Word, b: Word)
    requires
        a.var > 0 as real,
        b.var > 0 as real,
    ensures
        pooled(a, b).var > 0 as real,
        pooled(a, b).var < a.var,
        pooled(a, b).var < b.var,
        1 as real / pooled(a, b).var == 1 as real / a.var + 1 as real / b.var,
{
    let (p, q) = (lemma_reciprocal(a.var), lemma_reciprocal(b.var));
    let v = lemma_reciprocal(p + q);
    lemma_smaller(p, q, v, a.var);
    lemma_smaller(q, p, v, b.var);
}

/// The reciprocal of more is less.
proof fn lemma_smaller(p: real, q: real, v: real, x: real)
    requires
        p > 0 as real,
        q > 0 as real,
        v > 0 as real,
        v * (p + q) == 1 as real,
        p * x == 1 as real,
    ensures
        v < x,
{
    assert(v * (p + q) == v * p + v * q) by (nonlinear_arith);
    assert(v * q > 0 as real) by (nonlinear_arith)
        requires
            v > 0 as real,
            q > 0 as real,
    ;
    assert(v < x) by (nonlinear_arith)
        requires
            v * p < 1 as real,
            p * x == 1 as real,
            p > 0 as real,
    ;
}

/// Whether `r` lies between `x` and `y`, and divides the way between them as the
/// variances `a` and `b` do: nearer to the surer one.
pub open spec fn divides(r: real, x: real, y: real, a: real, b: real) -> bool {
    &&& (r - x) * b == (y - r) * a
    &&& x <= y ==> x <= r && r <= y
    &&& y <= x ==> y <= r && r <= x
}

/// A fused belief lies on the way from one place to the other, and divides it as
/// the variances do.
pub proof fn law_pooled_place_lies_between(a: Word, b: Word)
    requires
        a.var > 0 as real,
        b.var > 0 as real,
    ensures
        divides(pooled(a, b).pos.x, a.pos.x, b.pos.x, a.var, b.var),
        divides(pooled(a, b).pos.y, a.pos.y, b.pos.y, a.var, b.var),
        divides(pooled(a, b).pos.z, a.pos.z, b.pos.z, a.var, b.var),
        a.pos == b.pos ==> pooled(a, b).pos == a.pos,
{
    lemma_divides(a.pos.x, b.pos.x, a.var, b.var);
    lemma_divides(a.pos.y, b.pos.y, a.var, b.var);
    lemma_divides(a.pos.z, b.pos.z, a.var, b.var);
    if a.pos == b.pos {
        assert(pooled(a, b).pos =~= a.pos);
    }
}

proof fn lemma_divides(x: real, y: real, a: real, b: real)
    requires
        a > 0 as real,
        b > 0 as real,
    ensures
        divides(weighted(x, 1 as real / a, y, 1 as real / b), x, y, a, b),
{
    let (p, q) = (lemma_reciprocal(a), lemma_reciprocal(b));
    let v = lemma_reciprocal(p + q);
    let r = weighted(x, p, y, q);
    assert(r == (x * p + y * q) * v) by {
        reveal(weighted);
    }
    lemma_shares(p, q, v, a, b);
    lemma_on_the_way(x, y, p * v, q * v, a, b, r, v, p, q);
}

/// The shares of the two precisions.
proof fn lemma_shares(p: real, q: real, v: real, a: real, b: real)
    requires
        v * (p + q) == 1 as real,
        p * a == 1 as real,
        q * b == 1 as real,
        p > 0 as real,
        q > 0 as real,
        v > 0 as real,
    ensures
        p * v + q * v == 1 as real,
        p * v > 0 as real,
        q * v > 0 as real,
        (p * v) * a == v,
        (q * v) * b == v,
{
    assert(v * (p + q) == p * v + q * v) by (nonlinear_arith);
    assert(p * v > 0 as real) by (nonlinear_arith)
        requires
            p > 0 as real,
            v > 0 as real,
    ;
    assert(q * v > 0 as real) by (nonlinear_arith)
        requires
            q > 0 as real,
            v > 0 as real,
    ;
    assert((p * v) * a == (p * a) * v && (q * v) * b == (q * b) * v) by (nonlinear_arith);
    assert(1 as real * v == v) by (nonlinear_arith);
}

/// `t` of the first place and `s` of the second.
proof fn lemma_on_the_way(
    x: real,
    y: real,
    t: real,
    s: real,
    a: real,
    b: real,
    r: real,
    v: real,
    p: real,
    q: real,
)
    requires
        t + s == 1 as real,
        t > 0 as real,
        s > 0 as real,
        t * a == v,
        s * b == v,
        t == p * v,
        s == q * v,
        r == (x * p + y * q) * v,
    ensures
        divides(r, x, y, a, b),
{
    let d = y - x;
    let (ds, dt) = (d * s, d * t);
    let (xp, yq) = (x * p, y * q);
    assert((xp + yq) * v == xp * v + yq * v) by (nonlinear_arith);
    assert((x * p) * v == x * (p * v) && (y * q) * v == y * (q * v)) by (nonlinear_arith);
    assert(ds == y * s - x * s) by (nonlinear_arith)
        requires
            ds == d * s,
            d == y - x,
    ;
    assert(dt == y * t - x * t) by (nonlinear_arith)
        requires
            dt == d * t,
            d == y - x,
    ;
    assert(x * t + x * s == x) by {
        assert(x * t + x * s == x * (t + s)) by (nonlinear_arith);
        assert(x * (1 as real) == x) by (nonlinear_arith);
    }
    assert(y * t + y * s == y) by {
        assert(y * t + y * s == y * (t + s)) by (nonlinear_arith);
        assert(y * (1 as real) == y) by (nonlinear_arith);
    }
    assert(r - x == ds && y - r == dt);
    assert((d * s) * b == d * (s * b) && (d * t) * a == d * (t * a)) by (nonlinear_arith);
    lemma_same_side(d, s);
    lemma_same_side(d, t);
}

proof fn lemma_same_side(d: real, s: real)
    requires
        s > 0 as real,
    ensures
        d >= 0 as real ==> d * s >= 0 as real,
        d <= 0 as real ==> d * s <= 0 as real,
{
    if d >= 0 as real {
        assert(d * s >= 0 as real) by (nonlinear_arith)
            requires
                d >= 0 as real,
                s > 0 as real,
        ;
    }
    if d <= 0 as real {
        assert(d * s <= 0 as real) by (nonlinear_arith)
            requires
                d <= 0 as real,
                s > 0 as real,
        ;
    }
}

/// In which order three beliefs are fused does not matter.
pub proof fn law_pooling_is_associative(a: Word, b: Word, c: Word)
    requires
        a.var > 0 as real,
        b.var > 0 as real,
        c.var > 0 as real,
    ensures
        pooled(pooled(a, b), c) == pooled(a, pooled(b, c)),
{
    let (p, q, r) = (
        lemma_reciprocal(a.var),
        lemma_reciprocal(b.var),
        lemma_reciprocal(c.var),
    );
    let (v, w) = (lemma_reciprocal(p + q), lemma_reciprocal(q + r));
    lemma_regrouped(a.pos.x, b.pos.x, c.pos.x, p, q, r, v, w);
    lemma_regrouped(a.pos.y, b.pos.y, c.pos.y, p, q, r, v, w);
    lemma_regrouped(a.pos.z, b.pos.z, c.pos.z, p, q, r, v, w);
    assert(p + q + r == p + (q + r));
    assert(pooled(pooled(a, b), c).pos =~= pooled(a, pooled(b, c)).pos);
}

/// One coordinate; `v` and `w` are the variances of the two that are fused first.
proof fn lemma_regrouped(
    x: real,
    y: real,
    z: real,
    p: real,
    q: real,
    r: real,
    v: real,
    w: real,
)
    requires
        v == 1 as real / (p + q),
        w == 1 as real / (q + r),
        v * (p + q) == 1 as real,
        w * (q + r) == 1 as real,
    ensures
        weighted(weighted(x, p, y, q), p + q, z, r) == weighted(x, p, weighted(y, q, z, r), q + r),
{
    reveal(weighted);
    let (m, n) = (x * p + y * q, y * q + z * r);
    lemma_undone(m, v, p + q);
    lemma_undone(n, w, q + r);
    let (s, t) = ((m * v) * (p + q) + z * r, x * p + (n * w) * (q + r));
    assert(s == t);
    let u = 1 as real / (p + q + r);
    assert(p + q + r == p + (q + r));
    assert(s * u == t * u);
}

proof fn lemma_undone(m: real, v: real, s: real)
    requires
        v * s == 1 as real,
    ensures
        (m * v) * s == m,
{
    assert((m * v) * s == m * (v * s)) by (nonlinear_arith);
    assert(m * 1 as real == m) by (nonlinear_arith);
}

} // verus!
