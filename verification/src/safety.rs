//! What the cap on closing in on a body guarantees, in real numbers.
use crate::avoid::{
    excess, limit_on_closing, limits_on_closing, projected, safe_velocity, seen, settled, Body,
    HalfSpace,
};
use crate::config::MAX_SPEED;
use crate::direction::lemma_normal;
use crate::error::{
    eps, lemma_less_value, lemma_negated_value, lemma_no_value, lemma_product_error,
    lemma_sum_error, lemma_tiny, size, value, within,
};
use crate::metric::{
    finite, inner, lemma_components, lemma_dot_error, lemma_product_size, lemma_step,
};
use crate::number::{decode, less, product, sum, zero, Number};
use crate::retreat::lemma_backed_away;
use crate::speed::{has_nan, law_speed_limit_holds, lemma_clamp, lemma_clamp_not_finite};
use crate::vector::V3;
use vstd::prelude::*;

verus! {

/// Moving a vector back along a unit vector by its excess puts it on the
/// boundary, but for rounding.
proof fn lemma_projection(v: V3, h: HalfSpace)
    requires
        finite(v),
        finite(h.n),
        inner(v, v) <= 50 as real,
        size(inner(h.n, h.n) - 1 as real) <= 100 as real * eps(),
        h.b is Finite,
        value(h.b) >= 0 as real,
        value(h.b) <= 64 as real,
    ensures
        ({
            let e = excess(v, h);
            let u = if less(zero(), e) {
                v - h.n * e
            } else {
                v
            };
            finite(u) && inner(u, h.n) <= value(h.b) + (1 as real) / (500 as real)
        }),
{
    lemma_tiny();
    let (n, b) = (h.n, value(h.b));
    let e = excess(v, h);
    assert(50 as real <= 8 as real * (8 as real) && inner(n, n) <= 2 as real * (2 as real));
    lemma_components(v, 8 as real);
    lemma_components(n, 2 as real);
    lemma_dot_error(v, n);
    let d = v.dot(n);
    assert((-h.b) is Finite && value(-h.b) == -b) by {
        lemma_negated_value(h.b);
    }
    lemma_sum_error(d, -h.b);
    lemma_step(value(e), value(d) - b, 120 as real);
    lemma_no_value(zero());
    lemma_less_value(zero(), e);
    if less(zero(), e) {
        let ev = value(e);
        let u = v - n * e;
        lemma_moved(v.x, n.x, e);
        lemma_moved(v.y, n.y, e);
        lemma_moved(v.z, n.z, e);
        let (d1, d2, d3) = (
            value(u.x) - (value(v.x) - value(n.x) * ev),
            value(u.y) - (value(v.y) - value(n.y) * ev),
            value(u.z) - (value(v.z) - value(n.z) * ev),
        );
        lemma_product_size(d1, value(n.x), 2000 as real * eps(), 2 as real);
        lemma_product_size(d2, value(n.y), 2000 as real * eps(), 2 as real);
        lemma_product_size(d3, value(n.z), 2000 as real * eps(), 2 as real);
        let rest = d1 * value(n.x) + d2 * value(n.y) + d3 * value(n.z);
        lemma_expand(value(v.x), value(n.x), value(u.x), d1, ev);
        lemma_expand(value(v.y), value(n.y), value(u.y), d2, ev);
        lemma_expand(value(v.z), value(n.z), value(u.z), d3, ev);
        let nn = inner(n, n);
        assert(ev * nn == ev * (value(n.x) * value(n.x)) + ev * (value(n.y) * value(n.y)) + ev * (
        value(n.z) * value(n.z))) by (nonlinear_arith)
            requires
                nn == value(n.x) * value(n.x) + value(n.y) * value(n.y) + value(n.z) * value(n.z),
        ;
        assert(inner(u, n) == inner(v, n) - ev * nn + rest);
        let off = 1 as real - nn;
        lemma_product_size(ev, off, 121 as real, 100 as real * eps());
        assert(ev * nn == ev - ev * off) by (nonlinear_arith)
            requires
                off == 1 as real - nn,
        ;
    }
}

/// One component of the projection.
proof fn lemma_moved(v: Number, n: Number, e: Number)
    requires
        v is Finite,
        n is Finite,
        e is Finite,
        size(value(v)) <= 8 as real,
        size(value(n)) <= 2 as real,
        size(value(e)) <= 121 as real,
    ensures
        (v - n * e) is Finite,
        size(value(v - n * e) - (value(v) - value(n) * value(e))) <= 2000 as real * eps(),
{
    let exact = value(n) * value(e);
    lemma_product_size(value(n), value(e), 2 as real, 121 as real);
    lemma_product_error(n, e);
    lemma_step(value(n * e), exact, 242 as real);
    lemma_negated_value(n * e);
    lemma_sum_error(v, -(n * e));
    lemma_step(value(v - n * e), value(v) - value(n * e), 252 as real);
}

proof fn lemma_expand(v: real, n: real, u: real, d: real, e: real)
    requires
        d == u - (v - n * e),
    ensures
        u * n == v * n - e * (n * n) + d * n,
{
    assert(u * n == v * n - e * (n * n) + d * n) by (nonlinear_arith)
        requires
            d == u - (v - n * e),
    ;
}

pub proof fn lemma_nan_excess(v: V3, h: HalfSpace)
    requires
        has_nan(v),
    ensures
        !less(zero(), excess(v, h)),
{
    assert(excess(v, h) is Nan) by {
        reveal(sum);
        reveal(product);
    }
    reveal(less);
}

/// What scaling by `s` and a small error make of an inner product.
pub proof fn lemma_scaled_inner(u: V3, w: V3, n: V3, s: real)
    requires
        within(value(w.x), s * value(u.x), 32 as real * eps()),
        within(value(w.y), s * value(u.y), 32 as real * eps()),
        within(value(w.z), s * value(u.z), 32 as real * eps()),
        size(value(n.x)) <= 2 as real,
        size(value(n.y)) <= 2 as real,
        size(value(n.z)) <= 2 as real,
    ensures
        inner(w, n) <= s * inner(u, n) + 192 as real * eps(),
{
    let (u1, u2, u3) = (value(u.x), value(u.y), value(u.z));
    let (n1, n2, n3) = (value(n.x), value(n.y), value(n.z));
    let (d1, d2, d3) = (value(w.x) - s * u1, value(w.y) - s * u2, value(w.z) - s * u3);
    lemma_product_size(d1, n1, 32 as real * eps(), 2 as real);
    lemma_product_size(d2, n2, 32 as real * eps(), 2 as real);
    lemma_product_size(d3, n3, 32 as real * eps(), 2 as real);
    lemma_scaled_term(value(w.x), s, u1, d1, n1);
    lemma_scaled_term(value(w.y), s, u2, d2, n2);
    lemma_scaled_term(value(w.z), s, u3, d3, n3);
    let (p1, p2, p3) = (u1 * n1, u2 * n2, u3 * n3);
    assert(s * (p1 + p2 + p3) == s * p1 + s * p2 + s * p3) by (nonlinear_arith);
}

proof fn lemma_scaled_term(w: real, s: real, u: real, d: real, n: real)
    requires
        d == w - s * u,
    ensures
        w * n == s * (u * n) + d * n,
{
    assert(w * n == s * (u * n) + d * n) by (nonlinear_arith)
        requires
            d == w - s * u,
    ;
}

/// The half-planes of a lone body.
pub proof fn lemma_lone(c: Body, v_cur: V3, h: HalfSpace)
    requires
        limit_on_closing(c, v_cur) == Some(h),
    ensures
        limits_on_closing(seq![c], v_cur) == seq![h],
{
    let cs = seq![c];
    assert(cs.drop_last() =~= Seq::empty());
    assert(limits_on_closing(cs.drop_last(), v_cur) =~= Seq::empty());
    assert(limits_on_closing(cs, v_cur) =~= seq![h]);
}

/// A drone that has one body to avoid closes in on it no faster than the distance
/// allows, within a centimetre per second. That holds also where the body comes
/// on, or is too near already, so that the drone has to back away, with up to five
/// and a half metres per second; beyond, see `law_lone_body_is_backed_away_from`.
pub proof fn law_lone_body_is_not_rushed(v_pref: V3, v_cur: V3, c: Body, h: HalfSpace)
    requires
        limit_on_closing(c, v_cur) == Some(h),
        finite(seen(c).rel),
        seen(c).rel.length() is Finite,
        h.b is Finite,
        value(h.b) >= -(11 as real / (2 as real)),
        finite(safe_velocity(v_pref, v_cur, seq![c])),
    ensures
        inner(safe_velocity(v_pref, v_cur, seq![c]), h.n) <= value(h.b) + (1 as real) / (
        100 as real),
{
    if value(h.b) <= 0 as real {
        lemma_backed_away(v_pref, v_cur, c, h);
    } else {
        lemma_not_rushed(v_pref, v_cur, c, h);
    }
}

/// Where the drone may still come nearer.
proof fn lemma_not_rushed(v_pref: V3, v_cur: V3, c: Body, h: HalfSpace)
    requires
        limit_on_closing(c, v_cur) == Some(h),
        finite(seen(c).rel),
        seen(c).rel.length() is Finite,
        h.b is Finite,
        value(h.b) >= 0 as real,
        finite(safe_velocity(v_pref, v_cur, seq![c])),
    ensures
        inner(safe_velocity(v_pref, v_cur, seq![c]), h.n) <= value(h.b) + (1 as real) / (
        100 as real),
{
    lemma_tiny();
    lemma_lone(c, v_cur, h);
    let hs = seq![h];
    let w = safe_velocity(v_pref, v_cur, seq![c]);
    let before = projected(settled(v_pref, hs, 14), hs);
    let v = settled(v_pref, hs, 15);
    assert(v == before.clamp_length_max(decode(MAX_SPEED)));
    let u = projected(v, hs);
    assert(hs.drop_last() =~= Seq::empty());
    assert(projected(v, hs.drop_last()) == v);
    assert(w == u.clamp_length_max(decode(MAX_SPEED)));
    if !finite(v) {
        if finite(before) {
            let s = lemma_clamp(before);
        } else {
            lemma_clamp_not_finite(before);
        }
        lemma_nan_excess(v, h);
        lemma_clamp_not_finite(u);
    }
    law_speed_limit_holds(before);
    let rel = seen(c).rel;
    lemma_normal(rel, rel.length());
    let n = h.n;
    assert(inner(n, n) <= 2 as real * (2 as real));
    lemma_components(n, 2 as real);
    let b = value(h.b);
    law_speed_limit_holds(u);
    assert(50 as real <= 8 as real * (8 as real));
    lemma_components(w, 8 as real);
    if b > 64 as real {
        lemma_dot_error(w, n);
    } else {
        lemma_projection(v, h);
        let s = lemma_clamp(u);
        lemma_scaled_inner(u, w, n, s);
        let t = inner(u, n);
        assert(s * t <= b + (1 as real) / (500 as real) + (1 as real) / (1000 as real))
            by (nonlinear_arith)
            requires
                t <= b + (1 as real) / (500 as real),
                b >= 0 as real,
                b <= 64 as real,
                s >= 0 as real,
                s <= 1 as real + (1 as real) / (100000 as real),
        ;
    }
}

} // verus!
