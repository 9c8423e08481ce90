//! The velocity that a drone prefers: with the flock, towards its centre, towards
//! the goal and away from the walls.
use crate::avoid::push_from_walls;
use crate::config::{
    CRUISE_SPEED, GOAL_ARRIVE_RADIUS, GOAL_NEAR, MIN_SEPARATION, W_ALIGNMENT, W_BOUNDARY,
    W_COHESION, W_GOAL,
};
use crate::consistency::lemma_one;
use crate::direction::lemma_direction;
use crate::error::{
    eps, lemma_less_value, lemma_no_value, lemma_quotient_error, lemma_tiny, lemma_tiny_fourth,
    lemma_units, size, tiny, value,
};
use crate::foresight::{row_close, row_within};
use crate::forms::{triple, Triple};
use crate::goal::{is_known, Belief};
use crate::metric::{finite, inner, lemma_product_size};
use crate::neighbors::Entry;
use crate::number::{decode, less, one, smaller, unit, zero, Number};
use crate::order::{halves, lemma_halves};
use crate::quad::{flock, flocking, in_view, planned, towards, Obstacles, Situation};
use crate::relative::lemma_not_nought;
use crate::sim::Mode;
use crate::speed::lemma_clamp;
use crate::tolerance::{
    both, lemma_difference_close, lemma_itself, lemma_multiple_close, lemma_origin_close,
    lemma_product_near, lemma_sum_close, stretched, within_reach,
};
use crate::vector::V3;
use vstd::arithmetic::power2::{lemma2_to64, lemma_pow2_adds, lemma_pow2_pos, pow2};
use vstd::prelude::*;

verus! {

/// How many of the first `n` neighbours are in view.
pub open spec fn company(s: Seq<Entry>, p: V3, perception: Number, n: int) -> nat
    decreases n,
{
    if n <= 0 {
        0
    } else {
        company(s, p, perception, n - 1) + if in_view(s[n - 1], p, perception) {
            1nat
        } else {
            0nat
        }
    }
}

/// Their velocities, added up.
pub open spec fn all_velocities(s: Seq<Entry>, p: V3, perception: Number, n: int) -> Triple
    decreases n,
{
    if n <= 0 {
        Triple { x: 0 as real, y: 0 as real, z: 0 as real }
    } else if in_view(s[n - 1], p, perception) {
        both(all_velocities(s, p, perception, n - 1), triple(s[n - 1].est.vel))
    } else {
        all_velocities(s, p, perception, n - 1)
    }
}

/// Their places, added up.
pub open spec fn all_places(s: Seq<Entry>, p: V3, perception: Number, n: int) -> Triple
    decreases n,
{
    if n <= 0 {
        Triple { x: 0 as real, y: 0 as real, z: 0 as real }
    } else if in_view(s[n - 1], p, perception) {
        both(all_places(s, p, perception, n - 1), triple(s[n - 1].est.pos))
    } else {
        all_places(s, p, perception, n - 1)
    }
}

/// Whether all neighbours are within `b`.
pub open spec fn are_within(s: Seq<Entry>, b: real) -> bool {
    forall|i: int|
        0 <= i < s.len() ==> row_within((#[trigger] s[i]).est.pos, b) && row_within(s[i].est.vel, b)
}

/// The value of a whole number of ones.
proof fn lemma_whole(k: nat)
    ensures
        value(halves(2 * k)) == k as real,
        halves(2 * k) is Finite,
        halves(0) == zero(),
        halves(2) == one(),
{
    lemma_pow2_pos(148);
    lemma_pow2_pos(149);
    lemma_pow2_adds(1, 148);
    lemma2_to64();
    let (h, u) = (pow2(148), unit());
    assert(u == 2 * h);
    assert((2 * k) * h == k * u) by (nonlinear_arith)
        requires
            u == 2 * h,
    ;
    let (ur, kr) = (u as real, k as real);
    assert((k * u) as real == kr * ur) by (nonlinear_arith)
        requires
            ur == u as real,
            kr == k as real,
    ;
    assert((kr * ur) / ur == kr) by (nonlinear_arith)
        requires
            ur > 0 as real,
    ;
    assert(0 * h == 0);
}

/// A sum of `k` vectors and one more.
proof fn lemma_one_more(a: V3, v: V3, t: Triple, k: nat, b: real)
    requires
        row_close(a, t, 4 as real * (((k * k) as real) * (b * eps()))),
        within_reach(t, (k as real) * b),
        row_within(v, b),
        b >= 1 as real,
        b <= 0x1000_0000_0000 as real,
        k < 64,
    ensures
        row_close(
            a + v,
            both(t, triple(v)),
            4 as real * ((((k + 1) * (k + 1)) as real) * (b * eps())),
        ),
        within_reach(both(t, triple(v)), ((k + 1) as real) * b),
{
    lemma_tiny();
    let (e, be) = (eps(), b * eps());
    let (kr, kk, n) = (k as real, (k * k) as real, (k + 1) as real);
    let nn = ((k + 1) * (k + 1)) as real;
    assert(k * k <= 63 * 63 && (k + 1) * (k + 1) == k * k + 2 * k + 1) by (nonlinear_arith)
        requires
            k < 64,
    ;
    assert(nn == kk + 2 as real * kr + 1 as real);
    let m = n * b;
    assert(m == kr * b + b && m >= b) by (nonlinear_arith)
        requires
            m == n * b,
            n == kr + 1 as real,
            kr >= 0 as real,
            b >= 1 as real,
    ;
    assert(be <= b / (100000 as real) && be > 0 as real) by (nonlinear_arith)
        requires
            be == b * e,
            b >= 1 as real,
            e == (1 as real) / (0x100_0000 as real),
    ;
    assert(kk * be <= 3969 as real * be && kk * be >= 0 as real) by (nonlinear_arith)
        requires
            kk <= 3969 as real,
            kk >= 0 as real,
            be > 0 as real,
    ;
    assert(m <= 64 as real * b) by (nonlinear_arith)
        requires
            m == n * b,
            n <= 64 as real,
            b >= 1 as real,
    ;
    lemma_itself(v);
    lemma_sum_close(a, v, t, triple(v), 4 as real * (kk * be), 0 as real, m);
    assert(m * e == n * be) by (nonlinear_arith)
        requires
            m == n * b,
            be == b * e,
    ;
    assert(kk * be + n * be <= nn * be) by (nonlinear_arith)
        requires
            nn == kk + 2 as real * kr + 1 as real,
            n == kr + 1 as real,
            kr >= 0 as real,
            be > 0 as real,
    ;
}

/// The flock is what the neighbours in view add up to.
proof fn lemma_flock_sums(s: Seq<Entry>, p: V3, perception: Number, n: int, b: real)
    requires
        0 <= n <= s.len(),
        n <= 64,
        are_within(s, b),
        b >= 1 as real,
        b <= 0x1000_0000_0000 as real,
    ensures
        ({
            let (f, k) = (flock(s, p, perception, n), company(s, p, perception, n));
            let tol = 4 as real * (((k * k) as real) * (b * eps()));
            &&& k <= n
            &&& f.count == halves(2 * k)
            &&& row_close(f.align, all_velocities(s, p, perception, n), tol)
            &&& within_reach(all_velocities(s, p, perception, n), (k as real) * b)
            &&& row_close(f.center, all_places(s, p, perception, n), tol)
            &&& within_reach(all_places(s, p, perception, n), (k as real) * b)
        }),
    decreases n,
{
    lemma_whole(0);
    if n <= 0 {
        lemma_origin_close();
        let (be, k) = (b * eps(), company(s, p, perception, n));
        assert(0 as real * be == 0 as real && 0 as real * b == 0 as real) by (nonlinear_arith);
        assert(k == 0);
        assert(k * k == 0) by (nonlinear_arith)
            requires
                k == 0,
        ;
        let (kr, kk) = (k as real, (k * k) as real);
        assert(kr == 0 as real && kk == 0 as real);
    } else {
        lemma_flock_sums(s, p, perception, n - 1, b);
        let f = flock(s, p, perception, n - 1);
        let k = company(s, p, perception, n - 1);
        let e = s[n - 1].est;
        if in_view(s[n - 1], p, perception) {
            lemma_halves(2 * k, 2);
            lemma_one_more(f.align, e.vel, all_velocities(s, p, perception, n - 1), k, b);
            lemma_one_more(f.center, e.pos, all_places(s, p, perception, n - 1), k, b);
        }
    }
}

/// The mean of `k` vectors whose sum is near `t`.
proof fn lemma_mean(a: V3, t: Triple, k: nat, b: real)
    requires
        row_close(a, t, 4 as real * (((k * k) as real) * (b * eps()))),
        within_reach(t, (k as real) * b),
        0 < k <= 64,
        b >= 1 as real,
        b <= 0x1000_0000_0000 as real,
    ensures
        ({
            let m = stretched(t, 1 as real / (k as real));
            &&& row_close(a / halves(2 * k), m, 260 as real * (b * eps()))
            &&& within_reach(m, b)
        }),
{
    lemma_mean_of(a.x, t.x, k, b);
    lemma_mean_of(a.y, t.y, k, b);
    lemma_mean_of(a.z, t.z, k, b);
}

proof fn lemma_mean_of(a: Number, t: real, k: nat, b: real)
    requires
        a is Finite,
        size(value(a) - t) <= 4 as real * (((k * k) as real) * (b * eps())),
        size(t) <= (k as real) * b,
        0 < k <= 64,
        b >= 1 as real,
        b <= 0x1000_0000_0000 as real,
    ensures
        (a / halves(2 * k)) is Finite,
        size(value(a / halves(2 * k)) - t * (1 as real / (k as real))) <= 260 as real * (b * eps()),
        size(t * (1 as real / (k as real))) <= b,
{
    lemma_tiny();
    lemma_whole(k);
    let (e, be, kr, c) = (eps(), b * eps(), k as real, halves(2 * k));
    let i = 1 as real / kr;
    assert(i * kr == 1 as real && i > 0 as real && i <= 1 as real) by (nonlinear_arith)
        requires
            i == 1 as real / kr,
            kr >= 1 as real,
    ;
    let (m, q) = (t * i, value(a) * i);
    assert(m * kr == t && q * kr == value(a)) by (nonlinear_arith)
        requires
            m == t * i,
            q == value(a) * i,
            i * kr == 1 as real,
    ;
    assert(size(m) <= b) by (nonlinear_arith)
        requires
            m * kr == t,
            size(t) <= kr * b,
            kr >= 1 as real,
    ;
    let kk = (k * k) as real;
    assert(kk == kr * kr) by (nonlinear_arith)
        requires
            kk == (k * k) as real,
            kr == k as real,
    ;
    let d = value(a) - t;
    assert(q - m == d * i) by (nonlinear_arith)
        requires
            q == value(a) * i,
            m == t * i,
            d == value(a) - t,
    ;
    let w = 4 as real * (kk * be);
    lemma_product_size(d, i, w, i);
    assert(w * i == 4 as real * (kr * be)) by (nonlinear_arith)
        requires
            w == 4 as real * (kk * be),
            kk == kr * kr,
            i * kr == 1 as real,
    ;
    assert(be > 0 as real && be <= b / (100000 as real) && be >= e) by (nonlinear_arith)
        requires
            be == b * e,
            b >= 1 as real,
            e == (1 as real) / (0x100_0000 as real),
    ;
    assert(kr * be <= 64 as real * be) by (nonlinear_arith)
        requires
            kr <= 64 as real,
            be > 0 as real,
    ;
    lemma_not_nought(c);
    lemma_quotient_error(a, c, q);
    let g = size(q);
    assert(g * e + tiny() <= 4 as real * be) by (nonlinear_arith)
        requires
            g <= 2 as real * b,
            be == b * e,
            be >= e,
            tiny() <= e,
            e > 0 as real,
    ;
}

/// The weights of a drone's wishes, in real numbers.
proof fn lemma_weights_of_wishes()
    ensures
        decode(W_ALIGNMENT) is Finite && decode(W_COHESION) is Finite,
        value(decode(W_ALIGNMENT)) > 0 as real,
        value(decode(W_ALIGNMENT)) <= 1 as real,
        value(decode(W_COHESION)) > 0 as real,
        value(decode(W_COHESION)) <= 1 as real,
        decode(W_GOAL) is Finite && decode(CRUISE_SPEED) is Finite,
        value(decode(W_GOAL)) > 0 as real,
        value(decode(W_GOAL)) <= 2 as real,
        value(decode(CRUISE_SPEED)) == 55 as real / (10 as real),
        decode(GOAL_ARRIVE_RADIUS) is Finite,
        value(decode(GOAL_ARRIVE_RADIUS)) == 4 as real,
        decode(W_BOUNDARY) is Finite,
        value(decode(W_BOUNDARY)) == 10 as real,
        decode(GOAL_NEAR) is Finite,
        decode(MIN_SEPARATION) is Finite,
        value(decode(MIN_SEPARATION)) < value(decode(GOAL_NEAR)),
        value(decode(GOAL_NEAR)) >= 9 as real / (1000 as real),
{
    lemma2_to64();
    assert(pow2(24) as real == 0x100_0000 as real);
    assert(pow2(23) as real == 0x80_0000 as real);
    assert(pow2(21) as real == 0x20_0000 as real);
    assert(pow2(20) as real == 0x10_0000 as real);
    assert(pow2(30) as real == 0x4000_0000 as real);
    assert(pow2(33) as real == 0x2_0000_0000 as real) by {
        lemma_pow2_adds(32, 1);
        assert(pow2(1) == 2);
    }
    lemma_units(decode(W_ALIGNMENT), 0xe6_6666, 125, 24);
    lemma_units(decode(W_COHESION), 0xb3_3333, 125, 24);
    lemma_units(decode(W_GOAL), 0xd9_999a, 126, 23);
    lemma_units(decode(CRUISE_SPEED), 0xb0_0000, 128, 21);
    lemma_units(decode(GOAL_ARRIVE_RADIUS), 0x80_0000, 128, 21);
    lemma_units(decode(W_BOUNDARY), 0xa0_0000, 129, 20);
    lemma_units(decode(GOAL_NEAR), 0xa3_d70a, 119, 30);
    lemma_units(decode(MIN_SEPARATION), 0x83_126f, 116, 33);
}

/// What the flock alone asks for, in real numbers: a share of its mean velocity, and
/// of the way to its centre; nothing where nobody is in view.
pub open spec fn flock_wish(s: Seq<Entry>, p: V3, perception: Number) -> Triple {
    let n = s.len() as int;
    let k = company(s, p, perception, n);
    if k == 0 {
        Triple { x: 0 as real, y: 0 as real, z: 0 as real }
    } else {
        let i = 1 as real / (k as real);
        both(
            stretched(
                stretched(all_velocities(s, p, perception, n), i),
                value(decode(W_ALIGNMENT)),
            ),
            stretched(
                stretched(all_places(s, p, perception, n), i).minus(triple(p)),
                value(decode(W_COHESION)),
            ),
        )
    }
}

/// A drone aligns with the mean velocity of the neighbours in view and is drawn to
/// their centre: both as believed, and weighed.
pub proof fn law_drone_flies_with_the_flock(s: Seq<Entry>, p: V3, perception: Number, b: real)
    requires
        s.len() <= 64,
        are_within(s, b),
        row_within(p, b),
        b >= 1 as real,
        b <= 0x1000_0000_0000 as real,
    ensures
        row_close(
            flocking(flock(s, p, perception, s.len() as int), p),
            flock_wish(s, p, perception),
            600 as real * (b * eps()),
        ),
        within_reach(flock_wish(s, p, perception), 3 as real * b),
{
    lemma_tiny();
    lemma_weights_of_wishes();
    lemma_no_value(zero());
    lemma_origin_close();
    let n = s.len() as int;
    lemma_flock_sums(s, p, perception, n, b);
    let (f, k) = (flock(s, p, perception, n), company(s, p, perception, n));
    lemma_whole(k);
    lemma_less_value(zero(), f.count);
    let (e, be) = (eps(), b * eps());
    assert(be <= b / (100000 as real) && be > 0 as real && (2 as real * b) * e == 2 as real * be && (
    4 as real * b) * e == 4 as real * be) by (nonlinear_arith)
        requires
            be == b * e,
            b >= 1 as real,
            e == (1 as real) / (0x100_0000 as real),
    ;
    if k > 0 {
        let i = 1 as real / (k as real);
        let (v, c) = (all_velocities(s, p, perception, n), all_places(s, p, perception, n));
        lemma_mean(f.align, v, k, b);
        lemma_mean(f.center, c, k, b);
        let (mv, mc) = (stretched(v, i), stretched(c, i));
        let (wa, wc) = (decode(W_ALIGNMENT), decode(W_COHESION));
        lemma_within_share(mv, value(wa), b);
        lemma_multiple_close(f.align / f.count, wa, mv, 260 as real * be, 1 as real, b);
        let x = (f.align / f.count) * wa;
        let tx = stretched(mv, value(wa));
        let o = Triple { x: 0 as real, y: 0 as real, z: 0 as real };
        lemma_sum_close(V3::origin(), x, o, tx, 0 as real, 264 as real * be, b);
        assert(both(o, tx) =~= tx);
        lemma_itself(p);
        lemma_difference_close(
            f.center / f.count,
            p,
            mc,
            triple(p),
            260 as real * be,
            0 as real,
            2 as real * b,
        );
        let way = mc.minus(triple(p));
        lemma_within_share(way, value(wc), 2 as real * b);
        lemma_multiple_close(
            f.center / f.count - p,
            wc,
            way,
            268 as real * be,
            1 as real,
            2 as real * b,
        );
        let ty = stretched(way, value(wc));
        lemma_sum_close(
            V3::origin() + x,
            (f.center / f.count - p) * wc,
            tx,
            ty,
            268 as real * be,
            276 as real * be,
            4 as real * b,
        );
    }
}

proof fn lemma_within_share(t: Triple, k: real, b: real)
    requires
        within_reach(t, b),
        k > 0 as real,
        k <= 1 as real,
        b >= 0 as real,
    ensures
        within_reach(stretched(t, k), b),
{
    lemma_product_size(t.x, k, b, 1 as real);
    lemma_product_size(t.y, k, b, 1 as real);
    lemma_product_size(t.z, k, b, 1 as real);
}

/// The way to the goal over its length.
pub open spec fn heading_to(goal: V3, p: V3) -> Triple {
    let (way, d) = (goal - p, value((goal - p).length()));
    Triple { x: value(way.x) / d, y: value(way.y) / d, z: value(way.z) / d }
}

/// The speed towards a goal at the distance `d`: full, and slower within the radius
/// of arrival, as the distance.
pub open spec fn approach_speed(d: real) -> real {
    let full = (55 as real / (10 as real)) * value(decode(W_GOAL));
    if d >= 4 as real {
        full
    } else {
        full * (d / (4 as real))
    }
}

/// One component of the direction to the goal.
proof fn lemma_heading_part(w: Number, d: Number, q: real)
    requires
        w is Finite,
        d is Finite,
        value(d) >= 9 as real / (1000 as real),
        value(d) <= 0x100_0000_0000 as real,
        q * value(d) == value(w),
        size(q) <= 2 as real,
    ensures
        (w * (one() / d)) is Finite,
        size(value(w * (one() / d)) - q) <= 12 as real * eps(),
        q == value(w) / value(d),
{
    lemma_tiny();
    lemma_one();
    let (e, o, dv, wv) = (eps(), tiny(), value(d), value(w));
    let r = 1 as real / dv;
    assert(r * dv == 1 as real && r > 0 as real && r <= 112 as real) by (nonlinear_arith)
        requires
            r == 1 as real / dv,
            dv >= 9 as real / (1000 as real),
    ;
    lemma_not_nought(d);
    lemma_quotient_error(one(), d, r);
    let i = value(one() / d);
    let x = i - r;
    assert(wv * r == q) by (nonlinear_arith)
        requires
            q * dv == wv,
            r * dv == 1 as real,
    ;
    let wx = wv * x;
    assert(size(wx) <= size(q) * e + size(wv) * o) by (nonlinear_arith)
        requires
            wx == wv * x,
            size(x) <= r * e + o,
            wv * r == q,
            r > 0 as real,
    ;
    assert(size(wv) <= 2 as real * dv) by (nonlinear_arith)
        requires
            q * dv == wv,
            size(q) <= 2 as real,
            dv > 0 as real,
    ;
    lemma_tiny_fourth();
    assert(size(wv) * o <= e) by (nonlinear_arith)
        requires
            size(wv) <= 0x200_0000_0000 as real,
            o <= e * e * e * e,
            o > 0 as real,
            e == (1 as real) / (0x100_0000 as real),
    ;
    assert(size(q) * e <= 2 as real * e) by (nonlinear_arith)
        requires
            size(q) <= 2 as real,
            e > 0 as real,
    ;
    assert(wv * i == q + wx) by (nonlinear_arith)
        requires
            x == i - r,
            wx == wv * x,
            wv * r == q,
    ;
    lemma_product_near(w, one() / d, 4 as real);
    assert(q == wv / dv) by (nonlinear_arith)
        requires
            q * dv == wv,
            dv > 0 as real,
    ;
}

/// A drone that knows the goal flies straight at where it believes it, at full speed
/// and slower near it.
pub proof fn law_drone_flies_to_the_goal(goal: V3, p: V3)
    requires
        finite(goal - p),
        (goal - p).length() is Finite,
        less(decode(GOAL_NEAR), (goal - p).length()),
        value((goal - p).length()) <= 0x100_0000_0000 as real,
    ensures
        row_close(
            towards(goal, p),
            stretched(heading_to(goal, p), approach_speed(value((goal - p).length()))),
            500 as real * eps(),
        ),
        within_reach(
            stretched(heading_to(goal, p), approach_speed(value((goal - p).length()))),
            22 as real,
        ),
{
    lemma_tiny();
    lemma_one();
    lemma_weights_of_wishes();
    let (way, d, e) = (goal - p, (goal - p).length(), eps());
    lemma_less_value(decode(GOAL_NEAR), d);
    lemma_less_value(d, decode(MIN_SEPARATION));
    let q = lemma_direction(way, d);
    lemma_heading_part(way.x, d, q.0);
    lemma_heading_part(way.y, d, q.1);
    lemma_heading_part(way.z, d, q.2);
    let h = heading_to(goal, p);
    let u = way * (one() / d);
    let (c, w) = (decode(CRUISE_SPEED), decode(W_GOAL));
    let (cv, wv) = (value(c), value(w));
    lemma_product_size(h.x, cv, 2 as real, 6 as real);
    lemma_product_size(h.y, cv, 2 as real, 6 as real);
    lemma_product_size(h.z, cv, 2 as real, 6 as real);
    lemma_multiple_close(u, c, h, 12 as real * e, 6 as real, 12 as real);
    let h1 = stretched(h, cv);
    lemma_product_size(h1.x, wv, 11 as real, 2 as real);
    lemma_product_size(h1.y, wv, 11 as real, 2 as real);
    lemma_product_size(h1.z, wv, 11 as real, 2 as real);
    lemma_product_size(h.x, cv, 2 as real, cv);
    lemma_product_size(h.y, cv, 2 as real, cv);
    lemma_product_size(h.z, cv, 2 as real, cv);
    lemma_multiple_close(u * c, w, h1, 120 as real * e, 2 as real, 22 as real);
    let h2 = stretched(h1, wv);
    // The scale.
    let (a, dv) = (decode(GOAL_ARRIVE_RADIUS), value(d));
    lemma_not_nought(a);
    let r = dv / (4 as real);
    lemma_quotient_error(d, a, r);
    lemma_less_value(d / a, one());
    lemma_less_value(one(), d / a);
    let s = smaller(d / a, one());
    let sv = value(s);
    let exact = if dv >= 4 as real {
        1 as real
    } else {
        r
    };
    assert(r * e <= r / (1000 as real)) by (nonlinear_arith)
        requires
            r > 0 as real,
            e == (1 as real) / (0x100_0000 as real),
    ;
    if dv < 4 as real {
        assert(r * e <= e) by (nonlinear_arith)
            requires
                r <= 1 as real,
                e > 0 as real,
        ;
    } else {
        assert(r * e >= e) by (nonlinear_arith)
            requires
                r >= 1 as real,
                e > 0 as real,
        ;
        if less(d / a, one()) {
            assert(value(d / a) >= r - r * e - tiny());
            assert(r - r * e >= 1 as real - e) by (nonlinear_arith)
                requires
                    r >= 1 as real,
                    e <= 1 as real,
                    e > 0 as real,
            ;
        }
    }
    assert(size(sv - exact) <= 2 as real * e && sv <= 1 as real && sv >= 0 as real);
    lemma_product_size(h2.x, sv, 22 as real, 1 as real);
    lemma_product_size(h2.y, sv, 22 as real, 1 as real);
    lemma_product_size(h2.z, sv, 22 as real, 1 as real);
    lemma_multiple_close(u * c * w, s, h2, 328 as real * e, 1 as real, 22 as real);
    lemma_scaled_wish(h.x, cv, wv, sv, exact, e);
    lemma_scaled_wish(h.y, cv, wv, sv, exact, e);
    lemma_scaled_wish(h.z, cv, wv, sv, exact, e);
    let full = cv * wv;
    assert(full * 1 as real == full) by (nonlinear_arith);
}

proof fn lemma_scaled_wish(h: real, c: real, w: real, s: real, x: real, e: real)
    requires
        size((h * c) * w) <= 22 as real,
        size(s - x) <= 2 as real * e,
        x >= 0 as real,
        x <= 1 as real,
    ensures
        size(((h * c) * w) * s - h * ((c * w) * x)) <= 44 as real * e,
        size(h * ((c * w) * x)) <= 22 as real,
{
    let (y, d) = ((h * c) * w, s - x);
    lemma_product_size(y, d, 22 as real, 2 as real * e);
    lemma_product_size(y, x, 22 as real, 1 as real);
    assert(y * s == y * x + y * d) by (nonlinear_arith)
        requires
            d == s - x,
    ;
    assert(((h * c) * w) * x == h * ((c * w) * x)) by (nonlinear_arith);
}

/// Whether a drone heads for the goal: it seeks it, knows it, and is not there yet.
pub open spec fn is_bound(goal_seek: bool, b: Belief, p: V3) -> bool {
    goal_seek && is_known(b.var) && less(decode(GOAL_NEAR), (b.pos - p).length())
}

/// All that a drone wishes for, in real numbers: to fly with the flock, to get to the
/// goal, and to stay off the walls, which push ten times as hard as they say.
pub open spec fn all_wishes(s: Situation, m: Mode) -> Triple {
    let flight = flock_wish(s.tracks, s.p, m.perception);
    let led = if is_bound(m.goal_seek, s.goal, s.p) {
        both(
            flight,
            stretched(
                heading_to(s.goal.pos, s.p),
                approach_speed(value((s.goal.pos - s.p).length())),
            ),
        )
    } else {
        flight
    };
    both(led, stretched(triple(push_from_walls(s.p)), 10 as real))
}

/// Without anything to avoid, a drone sets out to fly as it wishes, up to the speed
/// limit: in the direction of all its wishes together, and as fast as they ask for or
/// as the limit allows. Yields the share `k` that the limit leaves.
pub proof fn law_drone_flies_as_it_wishes(s: Situation, o: Obstacles, m: Mode, b: real) -> (k: real)
    requires
        !m.avoidance,
        s.tracks.len() <= 64,
        are_within(s.tracks, b),
        row_within(s.p, b),
        row_within(push_from_walls(s.p), b),
        is_bound(m.goal_seek, s.goal, s.p) ==> finite(s.goal.pos - s.p) && (s.goal.pos
            - s.p).length() is Finite && value((s.goal.pos - s.p).length()) <= 0x100_0000_0000 as real,
        b >= 22 as real,
        b <= 0x1000_0000_0000 as real,
    ensures
        k >= 0 as real,
        k <= 1 as real + (1 as real) / (100000 as real),
        row_close(
            planned(s, o, m),
            stretched(all_wishes(s, m), k),
            1300 as real * (b * eps()),
        ),
        ({
            let u = uncapped_wish(s, m);
            &&& row_close(u, all_wishes(s, m), 1212 as real * (b * eps()))
            &&& {
                ||| k == 1 as real && inner(u, u) <= 49 as real + (1 as real) / (1000 as real)
                ||| k == 0 as real && u.length_squared() is Infinite
                ||| size((k * k) * inner(u, u) - 49 as real) <= (1 as real) / (1000 as real)
            }
        }),
{
    lemma_tiny();
    lemma_weights_of_wishes();
    let (e, be) = (eps(), b * eps());
    assert(be <= b / (100000 as real) && be >= e && (4 as real * b) * e == 4 as real * be && (
    10 as real * b) * e == 10 as real * be && (14 as real * b) * e == 14 as real * be)
        by (nonlinear_arith)
        requires
            be == b * e,
            b >= 1 as real,
            e == (1 as real) / (0x100_0000 as real),
    ;
    law_drone_flies_with_the_flock(s.tracks, s.p, m.perception, b);
    let f = flock(s.tracks, s.p, m.perception, s.tracks.len() as int);
    let base = flocking(f, s.p);
    let flight = flock_wish(s.tracks, s.p, m.perception);
    let bound = is_bound(m.goal_seek, s.goal, s.p);
    let led = if bound {
        base + towards(s.goal.pos, s.p)
    } else {
        base
    };
    let way = stretched(
        heading_to(s.goal.pos, s.p),
        approach_speed(value((s.goal.pos - s.p).length())),
    );
    let tl = if bound {
        both(flight, way)
    } else {
        flight
    };
    if bound {
        law_drone_flies_to_the_goal(s.goal.pos, s.p);
        lemma_sum_close(
            base,
            towards(s.goal.pos, s.p),
            flight,
            way,
            600 as real * be,
            500 as real * e,
            4 as real * b,
        );
    }
    assert(row_close(led, tl, 1116 as real * be));
    let (push, w) = (push_from_walls(s.p), decode(W_BOUNDARY));
    lemma_itself(push);
    let tp = triple(push);
    lemma_product_size(tp.x, 10 as real, b, 10 as real);
    lemma_product_size(tp.y, 10 as real, b, 10 as real);
    lemma_product_size(tp.z, 10 as real, b, 10 as real);
    lemma_multiple_close(push, w, tp, 0 as real, 10 as real, 10 as real * b);
    let tw = stretched(tp, 10 as real);
    lemma_sum_close(led, push * w, tl, tw, 1116 as real * be, 40 as real * be, 14 as real * b);
    let u = led + push * w;
    assert(u == uncapped_wish(s, m));
    let t = all_wishes(s, m);
    assert(row_close(u, t, 1212 as real * be));
    let k = lemma_clamp(u);
    let v = planned(s, o, m);
    lemma_share_of_wish(value(v.x), value(u.x), t.x, k, be);
    lemma_share_of_wish(value(v.y), value(u.y), t.y, k, be);
    lemma_share_of_wish(value(v.z), value(u.z), t.z, k, be);
    k
}

/// What comes of the wishes before the speed limit.
pub open spec fn uncapped_wish(s: Situation, m: Mode) -> V3 {
    let base = flocking(flock(s.tracks, s.p, m.perception, s.tracks.len() as int), s.p);
    let led = if is_bound(m.goal_seek, s.goal, s.p) {
        base + towards(s.goal.pos, s.p)
    } else {
        base
    };
    led + push_from_walls(s.p) * decode(W_BOUNDARY)
}

proof fn lemma_share_of_wish(v: real, u: real, t: real, k: real, be: real)
    requires
        size(v - k * u) <= 32 as real * be,
        size(u - t) <= 1212 as real * be,
        k >= 0 as real,
        k <= 1 as real + (1 as real) / (100000 as real),
        be >= 0 as real,
    ensures
        size(v - t * k) <= 1300 as real * be,
{
    let d = u - t;
    lemma_product_size(k, d, 1001 as real / (1000 as real), 1212 as real * be);
    assert(k * u == t * k + k * d) by (nonlinear_arith)
        requires
            d == u - t,
    ;
}

} // verus!
