//! How strongly the walls push, in real numbers.
use crate::avoid::{inward, push_from_walls};
use crate::config::{CEIL_Y, FLOOR_Y, ROOM_HALF, WALL_MARGIN};
use crate::error::{
    eps, lemma_less_value, lemma_negated_value, lemma_no_value, lemma_quotient_error,
    lemma_sum_error, lemma_tiny, lemma_tiny_cubed, size, tiny, value, within,
};
use crate::metric::finite;
use crate::number::{
    count, decode, is_single, less, limit, one, quotient, rounded, sum, unit, zero, Number,
};
use crate::order::{
    halves, is_rounded, lemma_halves, lemma_results_are_rounded, lemma_single_is_rounded,
};
use crate::rounding::{
    lemma_pow2_le, lemma_rounded_cancel, lemma_rounded_divisor, lemma_rounded_error,
    lemma_rounded_exact, lemma_rounded_form,
};
use crate::vector::V3;
use vstd::arithmetic::power2::{
    lemma2_to64, lemma_pow2_adds, lemma_pow2_pos, lemma_pow2_unfold, pow2,
};
use vstd::prelude::*;

verus! {

/// Half a unit, `h` times.
proof fn lemma_halves_value(h: nat)
    ensures
        value(halves(h)) == h as real / (2 as real),
{
    lemma_pow2_pos(148);
    lemma_pow2_unfold(149);
    let p = pow2(148);
    let (pr, hr, u) = (p as real, h as real, unit() as real);
    assert((h * p) as real == hr * pr) by (nonlinear_arith)
        requires
            pr == p as real,
            hr == h as real,
    ;
    assert((hr * pr) / u == hr / (2 as real)) by (nonlinear_arith)
        requires
            u == 2 as real * pr,
            pr > 0 as real,
    ;
}

proof fn lemma_sizes()
    ensures
        decode(ROOM_HALF) == halves(28),
        decode(FLOOR_Y) == halves(2),
        decode(CEIL_Y) == halves(32),
        decode(WALL_MARGIN) == halves(5),
{
    lemma2_to64();
    lemma_pow2_adds(129, 19);
    lemma_pow2_adds(126, 22);
    lemma_pow2_adds(130, 18);
    lemma_pow2_adds(127, 21);
    assert(0xe0_0000 * pow2(129) == 28 * (pow2(129) * 0x8_0000)) by (nonlinear_arith);
    assert(0x80_0000 * pow2(126) == 2 * (pow2(126) * 0x40_0000)) by (nonlinear_arith);
    assert(0x80_0000 * pow2(130) == 32 * (pow2(130) * 0x4_0000)) by (nonlinear_arith);
    assert(0xa0_0000 * pow2(127) == 5 * (pow2(127) * 0x20_0000)) by (nonlinear_arith);
}

/// The edges of the room that is free of the walls' push.
proof fn lemma_edges()
    ensures
        decode(ROOM_HALF) - decode(WALL_MARGIN) == halves(23),
        -decode(ROOM_HALF) + decode(WALL_MARGIN) == -halves(23),
        decode(CEIL_Y) - decode(WALL_MARGIN) == halves(27),
        decode(FLOOR_Y) + decode(WALL_MARGIN) == halves(7),
{
    lemma_sizes();
    lemma_halves(5, 28);
    lemma_halves(5, 32);
    lemma_halves(2, 5);
    lemma_pow2_pos(148);
    let p = pow2(148);
    assert(5 * p - 28 * p == -(23 * p) && 28 * p - 5 * p == 23 * p && 23 * p > 0) by (nonlinear_arith)
        requires
            p > 0,
    ;
    assert(-halves(28) + halves(5) == -halves(23)) by {
        reveal(sum);
        lemma_rounded_exact(23, 148);
        lemma_halves(23, 5);
    }
}

/// A number that is not an edge is at least 2^-29 away from it.
proof fn lemma_apart_from_edge(m: nat, neg: bool, h: nat, side: bool)
    requires
        rounded(m, 1) == m,
        7 <= h,
        count(neg, m) != count(side, h * pow2(148)),
    ensures
        ({
            let d = count(neg, m) - count(side, h * pow2(148));
            d >= pow2(120) || -d >= pow2(120)
        }),
{
    lemma2_to64();
    let (f, k) = lemma_rounded_form(m, 1);
    lemma_pow2_pos(120);
    lemma_pow2_adds(120, 28);
    let g = pow2(120);
    let edge = h * pow2(148);
    assert(edge == (h * 0x1000_0000) * g) by (nonlinear_arith)
        requires
            edge == h * pow2(148),
            pow2(148) == g * 0x1000_0000,
    ;
    let a = h * 0x1000_0000;
    if k >= 120 {
        lemma_pow2_adds(120, (k - 120) as nat);
        let j = pow2((k - 120) as nat);
        let b = f * j;
        assert(m == b * g) by (nonlinear_arith)
            requires
                m == f * pow2(k),
                pow2(k) == g * j,
                b == f * j,
        ;
        let (x, y): (int, int) = (count(neg, b), count(side, a));
        let z = x - y;
        assert(count(neg, m) - count(side, edge) == z * g) by (nonlinear_arith)
            requires
                m == b * g,
                edge == a * g,
                z == x - y,
                x == (if neg { -(b as int) } else { b as int }),
                y == (if side { -(a as int) } else { a as int }),
                count(neg, m) == (if neg { -(m as int) } else { m as int }),
                count(side, edge) == (if side { -(edge as int) } else { edge as int }),
        ;
        assert(z * g >= g || -(z * g) >= g) by (nonlinear_arith)
            requires
                z * g != 0,
                g > 0,
        ;
        let d = count(neg, m) - count(side, edge);
        assert(d >= g || -d >= g);
    } else {
        lemma_pow2_le(k, 120);
        assert(m <= 0x100_0000 * g) by (nonlinear_arith)
            requires
                m == f * pow2(k),
                f < 0x100_0000,
                pow2(k) <= g,
        ;
        assert(edge >= 0x100_0000 * g + g) by (nonlinear_arith)
            requires
                edge == a * g,
                a >= 7 * 0x1000_0000,
        ;
        let d = count(neg, m) - count(side, edge);
        assert(d >= g || -d >= g);
    }
}

/// A sum with a small number is finite.
proof fn lemma_stays_finite(a: Number, b: Number)
    requires
        a is Finite,
        is_rounded(a),
        b is Finite,
        b->mag <= pow2(200),
    ensures
        (a + b) is Finite,
{
    reveal(sum);
    lemma2_to64();
    let m = a->mag;
    let (f, k) = lemma_rounded_form(m, 1);
    let big = pow2(253);
    lemma_pow2_adds(24, 253);
    lemma_pow2_unfold(253);
    lemma_pow2_le(200, 251);
    lemma_pow2_unfold(252);
    lemma_pow2_pos(277);
    lemma_pow2_pos(k);
    assert(m + big <= limit()) by {
        if k <= 253 {
            lemma_pow2_le(k, 253);
            let q = pow2(k);
            assert(f * q + big <= 0x100_0000 * big) by (nonlinear_arith)
                requires
                    f < 0x100_0000,
                    q <= big,
                    q > 0,
            ;
        } else {
            lemma_pow2_le(253, k);
            let q = pow2(k);
            if k >= 277 {
                lemma_pow2_le(277, k);
                assert(m == 0) by (nonlinear_arith)
                    requires
                        m == f * q,
                        m < limit(),
                        q >= limit(),
                ;
                lemma_pow2_le(253, 277);
            } else {
                lemma_pow2_adds(k, (277 - k) as nat);
                let r = pow2((277 - k) as nat);
                assert(f + 1 <= r) by (nonlinear_arith)
                    requires
                        f * q < q * r,
                        q > 0,
                ;
                assert(f * q + q <= q * r) by (nonlinear_arith)
                    requires
                        f + 1 <= r,
                        q > 0,
                ;
            }
        }
    }
    let s = count(a->Finite_neg, m) + count(b->Finite_neg, b->mag);
    let n = (if s < 0 { -s } else { s }) as nat;
    assert(n < limit() && n + pow2(252) < limit());
    lemma_rounded_error(n, 277);
}

/// A depth of at least 2^-29, measured in margins.
proof fn lemma_margins(d: Number, depth: real)
    requires
        d is Finite,
        is_rounded(d),
        depth > 0 as real,
        depth >= (1 as real) / (0x4000_0000 as real),
        within(value(d), depth, depth * eps() + tiny()),
    ensures
        ({
            let q = d / decode(WALL_MARGIN);
            &&& q is Finite
            &&& is_rounded(q)
            &&& value(q) > 0 as real
            &&& size(value(q) - depth * (2 as real / (5 as real))) <= depth * (2 as real / (
            5 as real)) * (3 as real * eps())
        }),
{
    lemma_tiny();
    lemma_tiny_cubed();
    lemma_sizes();
    lemma_halves_value(5);
    let margin = decode(WALL_MARGIN);
    let (e, o) = (eps(), tiny());
    lemma_pow2_pos(148);
    lemma_pow2_unfold(149);
    assert(margin->mag > 0 && margin->mag >= unit());
    let exact = value(d) * (2 as real / (5 as real));
    lemma_quotient_error(d, margin, exact);
    lemma_results_are_rounded(d, margin);
    let q = d / margin;
    assert(q is Finite) by {
        reveal(quotient);
        lemma_pow2_pos(149);
        lemma_rounded_divisor(d->mag * unit(), unit(), margin->mag);
        lemma_rounded_cancel(d->mag, 1, unit());
        assert(1 * unit() == unit());
    }
    let share = depth * (2 as real / (5 as real));
    let (dv, qv) = (value(d), value(q));
    let de = depth * e;
    assert(o * 1000 as real <= de && de > 0 as real && de <= depth / (1000 as real))
        by (nonlinear_arith)
        requires
            de == depth * e,
            depth >= (1 as real) / (0x4000_0000 as real),
            o <= e * e * e,
            e == (1 as real) / (0x100_0000 as real),
    ;
    let g = size(exact);
    assert(g * e <= (de + de / (100 as real)) * (2 as real / (5 as real))) by (nonlinear_arith)
        requires
            g <= (depth + depth / (200 as real)) * (2 as real / (5 as real)),
            de == depth * e,
            e > 0 as real,
            depth > 0 as real,
    ;
    assert(share * (3 as real * e) == de * (6 as real / (5 as real))) by (nonlinear_arith)
        requires
            share == depth * (2 as real / (5 as real)),
            de == depth * e,
    ;
}

/// What the push on one axis is, where the walls leave free what lies between
/// `low` and `high`: none there; beyond, inward, and linear in the depth, one
/// per margin, but for rounding.
pub open spec fn measures_depth(push: Number, p: Number, low: real, high: real) -> bool {
    let (x, v) = (value(p), value(push));
    &&& push is Finite
    &&& v == 0 as real <==> low <= x && x <= high
    &&& x > high ==> v < 0 as real && size(v + (x - high) * (2 as real / (5 as real))) <= (x - high)
        * (2 as real / (5 as real)) * (3 as real * eps())
    &&& x < low ==> v > 0 as real && size(v - (low - x) * (2 as real / (5 as real))) <= (low - x)
        * (2 as real / (5 as real)) * (3 as real * eps())
}

/// The value of a difference of counts.
proof fn lemma_gap_value(a: Number, b: Number)
    requires
        a is Finite,
        b is Finite,
        value(a) > value(b),
        count(a->Finite_neg, a->mag) - count(b->Finite_neg, b->mag) >= pow2(120) || count(
            b->Finite_neg,
            b->mag,
        ) - count(a->Finite_neg, a->mag) >= pow2(120),
    ensures
        value(a) - value(b) >= (1 as real) / (0x4000_0000 as real),
{
    lemma_less_value(b, a);
    assert(count(b->Finite_neg, b->mag) < count(a->Finite_neg, a->mag)) by {
        reveal(less);
    }
    lemma2_to64();
    lemma_pow2_adds(120, 29);
    lemma_pow2_pos(120);
    let g = pow2(120);
    let (p, q) = (count(a->Finite_neg, a->mag), count(b->Finite_neg, b->mag));
    let (pr, qr, gr, u) = (p as real, q as real, g as real, unit() as real);
    assert(unit() as real == gr * (0x2000_0000 as real)) by {
        assert(unit() == g * 0x2000_0000);
    }
    assert(pr - qr >= gr);
    assert(pr / u - qr / u >= (1 as real) / (0x4000_0000 as real)) by (nonlinear_arith)
        requires
            pr - qr >= gr,
            u == gr * (0x2000_0000 as real),
            gr > 0 as real,
    ;
}

/// One axis.
proof fn lemma_axis(p: Number, low: Number, high: Number, g: nat, h: nat, below: bool)
    requires
        p is Finite,
        is_single(p),
        high - decode(WALL_MARGIN) == halves(h),
        low + decode(WALL_MARGIN) == (if below {
            -halves(g)
        } else {
            halves(g)
        }),
        7 <= g <= 32,
        7 <= h <= 32,
        below || g < h,
    ensures
        measures_depth(
            inward(p, low, high),
            p,
            (if below {
                -(g as real / (2 as real))
            } else {
                g as real / (2 as real)
            }),
            h as real / (2 as real),
        ),
{
    lemma_single_is_rounded(p);
    let margin = decode(WALL_MARGIN);
    let (top, bottom) = (high - margin, low + margin);
    lemma_halves_value(g);
    lemma_halves_value(h);
    lemma_negated_value(halves(g));
    lemma_no_value(zero());
    lemma_less_value(top, p);
    lemma_less_value(p, bottom);
    lemma_pow2_pos(148);
    lemma_small_halves(g);
    lemma_small_halves(h);
    let x = value(p);
    if less(top, p) {
        lemma_apart_from_edge(p->mag, p->Finite_neg, h, false);
        lemma_gap_value(p, top);
        lemma_negated_value(top);
        lemma_stays_finite(p, -top);
        lemma_sum_error(p, -top);
        lemma_results_are_rounded(p, -top);
        let d = p - top;
        lemma_margins(d, x - value(top));
        let q = d / margin;
        lemma_zero_minus(q);
    } else if less(p, bottom) {
        lemma_apart_from_edge(p->mag, p->Finite_neg, g, below);
        lemma_gap_value(bottom, p);
        lemma_negated_value(p);
        lemma_stays_finite(-p, bottom);
        crate::order::lemma_sum_commutes(bottom, -p);
        lemma_sum_error(bottom, -p);
        lemma_results_are_rounded(bottom, -p);
        let d = bottom - p;
        lemma_margins(d, value(bottom) - x);
        let q = d / margin;
        lemma_zero_plus(q);
    }
}

proof fn lemma_small_halves(h: nat)
    requires
        h <= 32,
    ensures
        halves(h)->mag <= pow2(200),
{
    lemma2_to64();
    lemma_pow2_adds(148, 5);
    lemma_pow2_le(153, 200);
    assert(h * pow2(148) <= 32 * pow2(148)) by (nonlinear_arith)
        requires
            h <= 32,
            pow2(148) >= 0,
    ;
}

proof fn lemma_zero_minus(q: Number)
    requires
        q is Finite,
        is_rounded(q),
        value(q) > 0 as real,
    ensures
        (zero() - q) is Finite,
        value(zero() - q) == -value(q),
{
    lemma_no_value(zero());
    lemma_less_value(zero(), q);
    lemma_negated_value(q);
    assert(zero() - q == -q) by {
        reveal(less);
        reveal(sum);
    }
}

proof fn lemma_zero_plus(q: Number)
    requires
        q is Finite,
        is_rounded(q),
        value(q) > 0 as real,
    ensures
        (zero() + q) is Finite,
        value(zero() + q) == value(q),
{
    lemma_no_value(zero());
    lemma_less_value(zero(), q);
    assert(zero() + q == q) by {
        reveal(less);
        reveal(sum);
    }
}

/// The push from the walls, axis by axis: none more than 2.5 m inside them;
/// else inward, growing linearly with the depth into that margin, to one at the
/// wall and more beyond it. Each component depends on its own coordinate alone.
pub proof fn law_push_is_linear(p: V3)
    requires
        finite(p),
        is_single(p.x),
        is_single(p.y),
        is_single(p.z),
    ensures
        measures_depth(
            push_from_walls(p).x,
            p.x,
            -(23 as real / (2 as real)),
            23 as real / (2 as real),
        ),
        measures_depth(push_from_walls(p).y, p.y, 7 as real / (2 as real), 27 as real / (2 as real)),
        measures_depth(
            push_from_walls(p).z,
            p.z,
            -(23 as real / (2 as real)),
            23 as real / (2 as real),
        ),
        forall|q: V3| q.x == p.x ==> (#[trigger] push_from_walls(q)).x == push_from_walls(p).x,
        forall|q: V3| q.y == p.y ==> (#[trigger] push_from_walls(q)).y == push_from_walls(p).y,
        forall|q: V3| q.z == p.z ==> (#[trigger] push_from_walls(q)).z == push_from_walls(p).z,
{
    lemma_edges();
    let half = decode(ROOM_HALF);
    lemma_axis(p.x, -half, half, 23, 23, true);
    lemma_axis(p.y, decode(FLOOR_Y), decode(CEIL_Y), 7, 27, false);
    lemma_axis(p.z, -half, half, 23, 23, true);
}

/// At the walls the push is exactly one.
pub proof fn law_push_is_one_at_the_wall(low: Number, high: Number, h: nat)
    requires
        high == halves(h),
        low == -halves(h) || low == halves(2),
        28 <= h <= 32,
    ensures
        inward(high, low, high) == -one(),
        inward(low, low, high) == one(),
{
    lemma_sizes();
    lemma_pow2_pos(148);
    lemma_pow2_pos(149);
    lemma_pow2_pos(277);
    lemma_pow2_unfold(149);
    let p = pow2(148);
    let five = halves(5);
    lemma_halves(5, h);
    lemma_halves((h - 5) as nat, h);
    lemma_halves(2, 5);
    lemma_halves(2, 7);
    assert(five / five == one()) by {
        reveal(quotient);
        assert(5 * p > 0) by (nonlinear_arith)
            requires
                p > 0,
        ;
        let m = 5 * p;
        lemma_rounded_cancel(unit(), 1, m);
        assert(m * unit() == unit() * m) by (nonlinear_arith);
        assert(1 * m == m);
        lemma_rounded_exact(2, 148);
        lemma_pow2_le(149, 276);
        lemma_pow2_unfold(277);
    }
    let k = (h - 5) as nat;
    assert(-halves(h) + five == -halves(k) && -halves(k) + halves(h) == five) by {
        reveal(sum);
        assert(5 * p - h * p == -(k * p) && h * p - k * p == 5 * p && k * p > 0 && 5 * p > 0)
            by (nonlinear_arith)
            requires
                k == h - 5,
                p > 0,
                k > 0,
        ;
        lemma_rounded_exact(k, 148);
        lemma_rounded_exact(5, 148);
        lemma_halves(k, 5);
    }
    assert(zero() - one() == -one() && zero() + one() == one()) by {
        reveal(sum);
        lemma_rounded_exact(1, 149);
        assert(1 * unit() == unit());
        lemma_pow2_le(149, 276);
        lemma_pow2_unfold(277);
    }
    assert(less(halves(k), halves(h)));
    if low == -halves(h) {
        assert(!less(halves(k), low) && less(low, low + five)) by {
            reveal(less);
            assert(k * p < h * p && k * p > 0) by (nonlinear_arith)
                requires
                    0 < k < h,
                    p > 0,
            ;
        }
    } else {
        assert(!less(halves(k), low) && less(low, low + five)) by {
            reveal(less);
            assert(2 * p < k * p && 2 * p < 7 * p) by (nonlinear_arith)
                requires
                    2 < k,
                    p > 0,
            ;
        }
    }
}

} // verus!
