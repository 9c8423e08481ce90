//! Who is near whom: what is compared is the distance in space, on all axes.
use crate::config::{ANCHOR_RANGE, GOAL_ARRIVE_RADIUS, LANDMARK_OBS_RANGE};
use crate::error::{
    eps, lemma_less_value, lemma_negated_value, lemma_no_value, lemma_product_error,
    lemma_root_error, lemma_square_sign, lemma_sum_error, lemma_tiny, lemma_tiny_fourth,
    lemma_units, size, tiny, value,
};
use crate::foresight::row_within;
use crate::forms::triple;
use crate::hud::{closest, closest_to, is_neighbor, is_other, is_there};
use crate::metric::{
    finite, inner, lemma_inner_error, lemma_length_is_some, lemma_positive, lemma_product_size,
    lemma_square_error,
};
use crate::neighbors::Entry;
use crate::number::{at_most, decode, less, product, square_root, sum, Number};
use crate::quad::in_view;
use crate::surveying::in_reach;
use crate::swarm::{audible, linked, Seen};
use crate::vector::V3;
use vstd::arithmetic::power2::{lemma2_to64, pow2};
use vstd::prelude::*;

verus! {

/// The square of the distance of two places, in real numbers.
pub open spec fn apart_squared(a: V3, b: V3) -> real {
    let d = triple(a).minus(triple(b));
    d.dot(d)
}

/// One component of a difference, squared.
proof fn lemma_squared_part(a: Number, b: Number)
    requires
        a is Finite,
        b is Finite,
        size(value(a)) <= 0x400_0000 as real,
        size(value(b)) <= 0x400_0000 as real,
    ensures
        (a - b) is Finite,
        ({
            let (v, d) = (value(a - b), value(a) - value(b));
            &&& size(v * v - d * d) <= (d * d) * (3 as real * eps()) + eps() * eps()
            &&& size(v) <= 0x801_0000 as real
        }),
{
    lemma_tiny();
    lemma_tiny_fourth();
    lemma_negated_value(b);
    lemma_sum_error(a, -b);
    let (v, d, e, o) = (value(a - b), value(a) - value(b), eps(), tiny());
    let (x, s, dd) = (v - d, size(d), d * d);
    lemma_square_sign(d);
    assert(s * s == dd) by (nonlinear_arith)
        requires
            s == size(d),
            dd == d * d,
    ;
    assert(v * v - dd == x * (v + d)) by (nonlinear_arith)
        requires
            x == v - d,
            dd == d * d,
    ;
    let (p, q) = (s * e + o, 2 as real * s + s * e + o);
    lemma_product_size(x, v + d, p, q);
    assert(p * q <= dd * (3 as real * e) + e * e) by (nonlinear_arith)
        requires
            p == s * e + o,
            q == 2 as real * s + s * e + o,
            dd == s * s,
            s >= 0 as real,
            s <= 0x800_0000 as real,
            o <= e * e * e * e,
            o > 0 as real,
            e == (1 as real) / (0x100_0000 as real),
    ;
    assert(s * e <= 8 as real) by (nonlinear_arith)
        requires
            s <= 0x800_0000 as real,
            e == (1 as real) / (0x100_0000 as real),
    ;
}

/// The computed square of the distance of two places.
pub proof fn lemma_distance(a: V3, b: V3)
    requires
        row_within(a, 0x400_0000 as real),
        row_within(b, 0x400_0000 as real),
    ensures
        a.distance_squared(b) is Finite,
        size(value(a.distance_squared(b)) - apart_squared(a, b)) <= 8 as real * ((apart_squared(a, b)
            + 1 as real) * eps()),
        apart_squared(a, b) >= 0 as real,
        finite(a - b),
{
    lemma_tiny();
    lemma_tiny_fourth();
    let (e, o) = (eps(), tiny());
    lemma_squared_part(a.x, b.x);
    lemma_squared_part(a.y, b.y);
    lemma_squared_part(a.z, b.z);
    let w = a - b;
    let m = 0x801_0000 as real;
    lemma_product_size(value(w.x), value(w.x), m, m);
    lemma_product_size(value(w.y), value(w.y), m, m);
    lemma_product_size(value(w.z), value(w.z), m, m);
    let d = triple(a).minus(triple(b));
    lemma_square_sign(d.x);
    lemma_square_sign(d.y);
    lemma_square_sign(d.z);
    let (x, y, z) = (d.x * d.x, d.y * d.y, d.z * d.z);
    let t = x + y + z;
    let i = inner(w, w);
    let k = 3 as real * e;
    assert(x * k + y * k + z * k == t * k) by (nonlinear_arith)
        requires
            t == x + y + z,
    ;
    let te = t * e;
    assert(t * k == 3 as real * te && te <= t / (1000 as real) && te >= 0 as real)
        by (nonlinear_arith)
        requires
            k == 3 as real * e,
            te == t * e,
            t >= 0 as real,
            e == (1 as real) / (0x100_0000 as real),
    ;
    assert(e * e <= e / (1000 as real) && e > 0 as real) by (nonlinear_arith)
        requires
            e == (1 as real) / (0x100_0000 as real),
    ;
    assert(size(i - t) <= 3 as real * te + e / (100 as real));
    assert(m * m <= 0x41_0000_0000_0000 as real) by (nonlinear_arith)
        requires
            m == 0x801_0000 as real,
    ;
    lemma_inner_error(w, w);
    lemma_square_sign(value(w.x));
    lemma_square_sign(value(w.y));
    lemma_square_sign(value(w.z));
    assert(i * (4 as real * e) <= (4 as real * te + te / (10 as real)) + e / (10 as real))
        by (nonlinear_arith)
        requires
            i <= t + 3 as real * te + e / (100 as real),
            te == t * e,
            te <= t / (1000 as real),
            t >= 0 as real,
            e == (1 as real) / (0x100_0000 as real),
    ;
    assert((t + 1 as real) * e == te + e) by (nonlinear_arith)
        requires
            te == t * e,
    ;
}

/// The square of a radius.
proof fn lemma_radius(r: Number)
    requires
        r is Finite,
        size(value(r)) <= 0x400_0000 as real,
    ensures
        (r * r) is Finite,
        size(value(r * r) - value(r) * value(r)) <= (value(r) * value(r) + 1 as real) * eps(),
        value(r) * value(r) >= 0 as real,
{
    lemma_tiny();
    let (v, e) = (value(r), eps());
    lemma_square_sign(v);
    lemma_product_size(v, v, 0x400_0000 as real, 0x400_0000 as real);
    lemma_product_error(r, r);
    let vv = v * v;
    assert((vv + 1 as real) * e == vv * e + e) by (nonlinear_arith);
}

/// What rounding can make of the comparison of a distance with the radius `r`.
pub open spec fn blur(a: V3, b: V3, r: Number) -> real {
    16 as real * ((apart_squared(a, b) + value(r) * value(r) + 2 as real) * eps())
}

/// Whether two places are within the radius `r` of each other, beyond all rounding.
pub open spec fn is_within_radius(a: V3, b: V3, r: Number) -> bool {
    apart_squared(a, b) + blur(a, b, r) <= value(r) * value(r)
}

/// Whether they are farther apart than that, beyond all rounding.
pub open spec fn is_beyond_radius(a: V3, b: V3, r: Number) -> bool {
    apart_squared(a, b) > value(r) * value(r) + blur(a, b, r)
}

/// Whether the places and the radius are ordinary numbers.
pub open spec fn is_comparable(a: V3, b: V3, r: Number) -> bool {
    &&& row_within(a, 0x400_0000 as real)
    &&& row_within(b, 0x400_0000 as real)
    &&& r is Finite
    &&& size(value(r)) <= 0x400_0000 as real
}

proof fn lemma_compared(a: V3, b: V3, r: Number)
    requires
        is_comparable(a, b, r),
    ensures
        is_within_radius(a, b, r) ==> !less(r * r, a.distance_squared(b)) && at_most(
            a.distance_squared(b),
            r * r,
        ),
        is_beyond_radius(a, b, r) ==> less(r * r, a.distance_squared(b)) && !at_most(
            a.distance_squared(b),
            r * r,
        ),
{
    lemma_tiny();
    lemma_distance(a, b);
    lemma_radius(r);
    let (d, v, e) = (apart_squared(a, b), value(r) * value(r), eps());
    assert((d + v + 2 as real) * e == (d + 1 as real) * e + (v + 1 as real) * e) by (nonlinear_arith);
    assert((v + 1 as real) * e >= 0 as real) by (nonlinear_arith)
        requires
            v >= 0 as real,
            e > 0 as real,
    ;
    lemma_less_value(r * r, a.distance_squared(b));
    lemma_less_value(a.distance_squared(b), r * r);
    assert(at_most(a.distance_squared(b), r * r) <==> !less(r * r, a.distance_squared(b))) by {
        reveal(less);
    }
}

/// A drone hears the others that live and are within the perception radius of where
/// it truly is, whatever the direction, and no others; itself never.
pub proof fn law_hearing_reaches_to_the_radius(s: Seq<Seen>, id: int, me: V3, j: int, r: Number)
    requires
        is_comparable(me, s[j].pos, r),
    ensures
        is_within_radius(me, s[j].pos, r) && s[j].alive && j != id ==> audible(s, id, me, j, r),
        is_beyond_radius(me, s[j].pos, r) || !s[j].alive || j == id ==> !audible(s, id, me, j, r),
{
    lemma_compared(me, s[j].pos, r);
}

/// A neighbour is in view where it is believed to be within the perception radius of
/// where the drone believes to be.
pub proof fn law_view_reaches_to_the_radius(e: Entry, p: V3, r: Number)
    requires
        is_comparable(e.est.pos, p, r),
    ensures
        is_within_radius(e.est.pos, p, r) ==> in_view(e, p, r),
        is_beyond_radius(e.est.pos, p, r) ==> !in_view(e, p, r),
{
    lemma_compared(e.est.pos, p, r);
}

/// Two drones are linked, and neighbours of each other, where both live and they are
/// within the perception radius.
pub proof fn law_links_reach_to_the_radius(s: Seq<Seen>, i: int, j: int, r: Number)
    requires
        is_comparable(s[i].pos, s[j].pos, r),
        s[i].alive && s[j].alive,
        i != j,
    ensures
        is_within_radius(s[i].pos, s[j].pos, r) ==> linked(s, i, j, r) && is_neighbor(s, i, j, r),
        is_beyond_radius(s[i].pos, s[j].pos, r) ==> !linked(s, i, j, r) && !is_neighbor(s, i, j, r),
{
    lemma_compared(s[i].pos, s[j].pos, r);
}

/// The root of a distance, compared with a radius of at least a tenth.
proof fn lemma_root_compared(a: V3, b: V3, r: Number)
    requires
        is_comparable(a, b, r),
        value(r) >= 1 as real / (10 as real),
    ensures
        a.distance(b) is Finite,
        value(a.distance(b)) >= 0 as real,
        is_within_radius(a, b, r) ==> !less(r, a.distance(b)) && at_most(a.distance(b), r),
        is_beyond_radius(a, b, r) ==> less(r, a.distance(b)) && !at_most(a.distance(b), r),
{
    lemma_tiny();
    lemma_distance(a, b);
    let (q, e, v) = (a.distance_squared(b), eps(), value(r));
    let (l, d) = (a.distance(b), apart_squared(a, b));
    lemma_length_is_some(a - b);
    assert(!(q->mag > 0 && q->Finite_neg)) by {
        reveal(sum);
        reveal(product);
    }
    if q->mag == 0 {
        lemma_no_value(q);
        assert(l == q) by {
            reveal(square_root);
        }
    } else {
        lemma_positive(q);
        lemma_square_error(a - b);
        lemma_root_error(q);
    }
    let (lv, qv, vv) = (value(l), value(q), v * v);
    let ll = lv * lv;
    if q->mag == 0 {
        assert(ll == 0 as real && qv * (4 as real * e) == 0 as real) by (nonlinear_arith)
            requires
                ll == lv * lv,
                lv == 0 as real,
                qv == 0 as real,
        ;
    }
    assert(size(ll - qv) <= qv * (4 as real * e));
    assert(vv >= 1 as real / (100 as real)) by (nonlinear_arith)
        requires
            vv == v * v,
            v >= 1 as real / (10 as real),
    ;
    let t = (d + vv + 2 as real) * e;
    assert((d + 1 as real) * e <= t && t > 0 as real && t >= (d + vv) * e + 2 as real * e)
        by (nonlinear_arith)
        requires
            t == (d + vv + 2 as real) * e,
            vv >= 0 as real,
            d >= 0 as real,
            e > 0 as real,
    ;
    lemma_less_value(r, l);
    assert(at_most(l, r) <==> !less(r, l)) by {
        reveal(less);
    }
    if is_within_radius(a, b, r) {
        lemma_root_within(lv, ll, qv, d, v, vv, e);
    }
    if is_beyond_radius(a, b, r) {
        lemma_root_beyond(lv, ll, qv, d, v, vv, e);
    }
}

proof fn lemma_root_within(l: real, ll: real, q: real, d: real, v: real, vv: real, e: real)
    requires
        ll == l * l,
        vv == v * v,
        vv >= 0 as real,
        l >= 0 as real,
        v > 0 as real,
        d >= 0 as real,
        q >= 0 as real,
        size(ll - q) <= q * (4 as real * e),
        size(q - d) <= 8 as real * ((d + 1 as real) * e),
        d + 16 as real * ((d + vv + 2 as real) * e) <= vv,
        e == (1 as real) / (0x100_0000 as real),
    ensures
        l <= v,
{
    let (de, ve, qe) = (d * e, vv * e, q * e);
    assert((d + 1 as real) * e == de + e && (d + vv + 2 as real) * e == de + ve + 2 as real * e && q * (
    4 as real * e) == 4 as real * qe) by (nonlinear_arith)
        requires
            de == d * e,
            ve == vv * e,
            qe == q * e,
    ;
    assert(qe <= 2 as real * de + e && ve >= 0 as real && de >= 0 as real) by (nonlinear_arith)
        requires
            q <= d + 8 as real * ((d + 1 as real) * e),
            de == d * e,
            ve == vv * e,
            qe == q * e,
            d >= 0 as real,
            vv >= 0 as real,
            e == (1 as real) / (0x100_0000 as real),
    ;
    assert(ll <= vv);
    assert(l <= v) by (nonlinear_arith)
        requires
            l * l <= v * v,
            l >= 0 as real,
            v > 0 as real,
    ;
}

proof fn lemma_root_beyond(l: real, ll: real, q: real, d: real, v: real, vv: real, e: real)
    requires
        ll == l * l,
        vv == v * v,
        vv >= 0 as real,
        l >= 0 as real,
        v > 0 as real,
        d >= 0 as real,
        q >= 0 as real,
        size(ll - q) <= q * (4 as real * e),
        size(q - d) <= 8 as real * ((d + 1 as real) * e),
        d > vv + 16 as real * ((d + vv + 2 as real) * e),
        e == (1 as real) / (0x100_0000 as real),
    ensures
        l > v,
{
    let (de, ve, qe) = (d * e, vv * e, q * e);
    assert((d + 1 as real) * e == de + e && (d + vv + 2 as real) * e == de + ve + 2 as real * e && q * (
    4 as real * e) == 4 as real * qe) by (nonlinear_arith)
        requires
            de == d * e,
            ve == vv * e,
            qe == q * e,
    ;
    assert(qe <= 2 as real * de + e && ve >= 0 as real && de >= 0 as real) by (nonlinear_arith)
        requires
            q <= d + 8 as real * ((d + 1 as real) * e),
            de == d * e,
            ve == vv * e,
            qe == q * e,
            d >= 0 as real,
            vv >= 0 as real,
            e == (1 as real) / (0x100_0000 as real),
    ;
    assert(ll > vv);
    assert(l > v) by (nonlinear_arith)
        requires
            l * l > v * v,
            l >= 0 as real,
            v > 0 as real,
    ;
}

/// A drone counts as at the goal where it lives and truly is within the radius of
/// arrival.
pub proof fn law_arrival_is_within_the_radius(o: Seen, goal: V3)
    requires
        is_comparable(o.pos, goal, decode(GOAL_ARRIVE_RADIUS)),
        o.alive,
    ensures
        is_within_radius(o.pos, goal, decode(GOAL_ARRIVE_RADIUS)) ==> is_there(o, goal),
        is_beyond_radius(o.pos, goal, decode(GOAL_ARRIVE_RADIUS)) ==> !is_there(o, goal),
{
    lemma_reaches();
    lemma_root_compared(o.pos, goal, decode(GOAL_ARRIVE_RADIUS));
}

/// A landmark is in reach of a drone that truly is within the range of observation of
/// where the landmark truly is, and an anchor likewise.
pub proof fn law_reach_is_within_the_range(truth: V3, me: V3)
    requires
        is_comparable(truth, me, decode(LANDMARK_OBS_RANGE)),
        is_comparable(truth, me, decode(ANCHOR_RANGE)),
    ensures
        is_within_radius(truth, me, decode(LANDMARK_OBS_RANGE)) ==> in_reach(truth, me),
        is_beyond_radius(truth, me, decode(LANDMARK_OBS_RANGE)) ==> !in_reach(truth, me),
        is_within_radius(truth, me, decode(ANCHOR_RANGE)) ==> !less(
            decode(ANCHOR_RANGE),
            (truth - me).length(),
        ),
        is_beyond_radius(truth, me, decode(ANCHOR_RANGE)) ==> less(
            decode(ANCHOR_RANGE),
            (truth - me).length(),
        ),
{
    lemma_reaches();
    lemma_root_compared(truth, me, decode(LANDMARK_OBS_RANGE));
    lemma_root_compared(truth, me, decode(ANCHOR_RANGE));
}

/// The radii that places are compared with: four, eight and twenty-two metres.
proof fn lemma_reaches()
    ensures
        value(decode(GOAL_ARRIVE_RADIUS)) == 4 as real,
        value(decode(LANDMARK_OBS_RANGE)) == 8 as real,
        value(decode(ANCHOR_RANGE)) == 22 as real,
{
    lemma2_to64();
    assert(pow2(19) as real == 0x8_0000 as real);
    assert(pow2(20) as real == 0x10_0000 as real);
    assert(pow2(21) as real == 0x20_0000 as real);
    lemma_units(decode(GOAL_ARRIVE_RADIUS), 0x80_0000, 128, 21);
    lemma_units(decode(LANDMARK_OBS_RANGE), 0x80_0000, 129, 20);
    lemma_units(decode(ANCHOR_RANGE), 0xb0_0000, 130, 19);
}

/// Some pair is as close as the closest pair is said to be. Yields that pair.
pub proof fn law_closest_pair_is_one(s: Seq<Seen>, n: int) -> (p: (int, int))
    requires
        0 <= n <= s.len(),
        closest(s, n) is Finite,
    ensures
        0 <= p.0 < n,
        0 <= p.1 < s.len(),
        p.0 != p.1,
        s[p.0].alive && s[p.1].alive,
        closest(s, n) == s[p.0].pos.distance_squared(s[p.1].pos),
    decreases n,
{
    if s[n - 1].alive {
        let best = closest(s, n - 1);
        let j = lemma_closest_from(s, n - 1, best, s.len() as int);
        if j >= 0 {
            (n - 1, j)
        } else {
            law_closest_pair_is_one(s, n - 1)
        }
    } else {
        law_closest_pair_is_one(s, n - 1)
    }
}

proof fn lemma_closest_from(s: Seq<Seen>, i: int, best: Number, n: int) -> (j: int)
    requires
        n <= s.len(),
    ensures
        j < n || j < 0,
        j >= 0 ==> is_other(s, i, j) && closest_to(s, i, best, n) == s[i].pos.distance_squared(
            s[j].pos,
        ),
        j < 0 ==> closest_to(s, i, best, n) == best,
    decreases n,
{
    if n <= 0 {
        -1
    } else {
        let b = closest_to(s, i, best, n - 1);
        let d = s[i].pos.distance_squared(s[n - 1].pos);
        if is_other(s, i, n - 1) && less(d, b) {
            n - 1
        } else {
            lemma_closest_from(s, i, best, n - 1)
        }
    }
}

} // verus!
