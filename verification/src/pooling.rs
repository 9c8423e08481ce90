//! Fusing more than two beliefs: in which order does not matter.
use crate::consistency::lemma_one;
use crate::error::{
    eps, lemma_product_error, lemma_quotient_error, lemma_sum_error, lemma_tiny, lemma_tiny_fourth,
    size, tiny, value, within,
};
use crate::goal::{fused, Belief};
use crate::metric::{finite, lemma_product_size};
use crate::number::{one, Number};
use crate::relative::{
    fair, grain, lemma_fair_reciprocal, lemma_fair_wider, lemma_inverse_of, lemma_near_chain,
    lemma_near_fair, lemma_near_reciprocal, lemma_near_scaled, lemma_near_swapped,
    lemma_not_nought, lemma_over, lemma_rounded_near, near, widest,
};
use vstd::prelude::*;

verus! {

/// One coordinate and its variance stand for the precision `r` and the sum `n` of
/// coordinates, each times its precision, but for `k` roundings. `m` bounds the
/// coordinates.
spec fn stands_for(pos: Number, var: Number, n: real, r: real, m: real, k: nat) -> bool {
    &&& pos is Finite
    &&& var is Finite
    &&& value(var) > 0 as real
    &&& r > 0 as real
    &&& near(value(var) * r, 1 as real, k)
    &&& size(n) <= r * m
    &&& size(value(pos) - value(var) * n) <= (value(var) * r) * (m * ((k as real) * grain()))
}

/// The rounded reciprocal of a variance.
proof fn lemma_precision(a: Number, r: real, k: nat, b: real)
    requires
        a is Finite,
        value(a) > 0 as real,
        r > 0 as real,
        near(value(a) * r, 1 as real, k),
        fair(r, b),
        b <= 0x400_0000_0000 as real,
        k <= 16,
    ensures
        (one() / a) is Finite,
        near(value(one() / a), r, k + 2),
{
    lemma_one();
    let v = value(a);
    let i = lemma_inverse_of(v);
    lemma_near_scaled(v * r, 1 as real, i, k);
    assert(i * (v * r) == r) by {
        assert(i * (v * r) == (i * v) * r) by (nonlinear_arith);
        assert(1 as real * r == r) by (nonlinear_arith);
    }
    assert(i * 1 as real == i) by (nonlinear_arith);
    lemma_near_swapped(r, i, k);
    lemma_near_fair(i, r, b, k);
    lemma_fair_wider(i, 2 as real * b, widest());
    lemma_over(one(), a, i);
    lemma_near_chain(value(one() / a), i, r, 1, k);
}

proof fn lemma_near_sum(x: real, p: real, y: real, q: real, k: nat)
    requires
        near(x, p, k),
        near(y, q, k),
    ensures
        near(x + y, p + q, k),
{
    let s = 1 as real + (k as real) * grain();
    assert((p + q) * s == p * s + q * s) by (nonlinear_arith);
    assert((x + y) * s == x * s + y * s) by (nonlinear_arith);
}

proof fn lemma_fair_sum(p: real, q: real, b: real)
    requires
        fair(p, b),
        fair(q, b),
    ensures
        fair(p + q, 2 as real * b),
{
    let d = 2 as real * b;
    assert((p + q) * d == 2 as real * (p * b) + 2 as real * (q * b)) by (nonlinear_arith)
        requires
            d == 2 as real * b,
    ;
}

/// The variance of a fused belief; `s` is the sum of the precisions as computed.
proof fn lemma_pooled_variance(a: Number, b: Number, p: real, q: real, k: nat, c: real)
    requires
        a is Finite && value(a) > 0 as real,
        b is Finite && value(b) > 0 as real,
        near(value(a) * p, 1 as real, k),
        near(value(b) * q, 1 as real, k),
        fair(p, c),
        fair(q, c),
        c <= 0x400_0000_0000 as real,
        k <= 16,
    ensures
        ({
            let v = one() / (one() / a + one() / b);
            &&& v is Finite
            &&& value(v) > 0 as real
            &&& near(value(v) * (p + q), 1 as real, k + 6)
        }),
{
    lemma_one();
    lemma_precision(a, p, k, c);
    lemma_precision(b, q, k, c);
    let (x, y) = (one() / a, one() / b);
    lemma_near_sum(value(x), p, value(y), q, k + 2);
    lemma_fair_sum(p, q, c);
    lemma_near_fair(value(x) + value(y), p + q, 2 as real * c, k + 2);
    lemma_fair_wider(value(x) + value(y), 4 as real * c, widest());
    lemma_sum_error(x, y);
    let s = x + y;
    lemma_rounded_near(value(s), value(x) + value(y));
    lemma_near_chain(value(s), value(x) + value(y), p + q, 1, k + 2);
    let i = lemma_inverse_of(value(s));
    lemma_near_fair(value(s), p + q, 2 as real * c, k + 4);
    lemma_fair_reciprocal(value(s), i, 4 as real * c);
    lemma_fair_wider(i, 4 as real * c, widest());
    lemma_over(one(), s, i);
    let j = lemma_inverse_of(p + q);
    lemma_near_reciprocal(value(s), p + q, i, j, k + 4);
    lemma_near_chain(value(one() / s), i, j, 1, k + 4);
    lemma_near_scaled(value(one() / s), j, p + q, k + 6);
}

/// A coordinate over its variance.
proof fn lemma_quota(pos: Number, var: Number, n: real, r: real, m: real, k: nat, b: real)
    requires
        stands_for(pos, var, n, r, m, k),
        fair(r, b),
        b <= 0x400_0000_0000 as real,
        m >= 1 as real,
        m <= 0x10_0001 as real,
        k <= 16,
    ensures
        (pos / var) is Finite,
        size(value(pos / var) - n) <= (r * m) * (((k + 1) as real) * grain()),
{
    let (x, v) = (value(pos), value(var));
    let i = lemma_inverse_of(v);
    let t = x * i;
    assert(t * v == x) by {
        assert((x * i) * v == x * (i * v)) by (nonlinear_arith);
        assert(x * 1 as real == x) by (nonlinear_arith);
    }
    let kg = (k as real) * grain();
    lemma_quota_value(x, v, i, n, r, m, kg);
    lemma_floor(r, m, b);
    lemma_ceiling(r, m);
    lemma_quota_size(t, n, r * m, kg, k);
    lemma_not_nought(var);
    lemma_quotient_error(pos, var, t);
    lemma_one_more(value(pos / var), t, n, r * m, k);
}

proof fn lemma_ceiling(r: real, m: real)
    requires
        r > 0 as real,
        r <= 0x400_0000_0000 as real,
        m >= 1 as real,
        m <= 0x10_0001 as real,
    ensures
        r * m <= 0x5000_0000_0000_0000 as real,
{
    let f = r * m;
    assert(f <= 0x400_0000_0000 as real * m) by (nonlinear_arith)
        requires
            f == r * m,
            r <= 0x400_0000_0000 as real,
            m >= 1 as real,
    ;
}

proof fn lemma_quota_size(t: real, n: real, f: real, kg: real, k: nat)
    requires
        size(t - n) <= f * kg,
        size(n) <= f,
        kg == (k as real) * grain(),
        k <= 32,
        f > 0 as real,
    ensures
        size(t) <= 2 as real * f,
{
    lemma_small_share(f, kg, k);
}

proof fn lemma_quota_value(x: real, v: real, i: real, n: real, r: real, m: real, kg: real)
    requires
        i * v == 1 as real,
        i > 0 as real,
        v > 0 as real,
        size(x - v * n) <= (v * r) * (m * kg),
    ensures
        size(x * i - n) <= (r * m) * kg,
{
    let d = x - v * n;
    assert(x * i == d * i + n) by {
        let vn = v * n;
        assert((d + vn) * i == d * i + vn * i) by (nonlinear_arith);
        assert((v * n) * i == (i * v) * n) by (nonlinear_arith);
        assert(1 as real * n == n) by (nonlinear_arith);
    }
    let (di, w) = (d * i, (v * r) * (m * kg));
    assert(size(di) <= w * i) by (nonlinear_arith)
        requires
            di == d * i,
            size(d) <= w,
            i > 0 as real,
    ;
    let (mk, u) = (m * kg, (r * m) * kg);
    assert(((v * r) * mk) * i == (i * v) * (r * mk)) by (nonlinear_arith);
    assert(r * (m * kg) == (r * m) * kg) by (nonlinear_arith);
    assert(1 as real * u == u) by (nonlinear_arith);
}

/// The smallest number is nothing against `r` times `m`.
proof fn lemma_floor(r: real, m: real, b: real)
    requires
        fair(r, b),
        b <= 0x400_0000_0000 as real,
        m >= 1 as real,
    ensures
        tiny() * 100 as real <= (r * m) * eps(),
        r * m > 0 as real,
{
    lemma_tiny_fourth();
    let (e, o, f) = (eps(), tiny(), r * m);
    lemma_fair_wider(r, b, 0x400_0000_0000 as real);
    assert(f >= r) by (nonlinear_arith)
        requires
            f == r * m,
            m >= 1 as real,
            r > 0 as real,
    ;
    assert(o * 100 as real <= f * e) by (nonlinear_arith)
        requires
            f * (0x400_0000_0000 as real) >= 1 as real,
            o <= e * e * e * e,
            e == (1 as real) / (0x100_0000 as real),
    ;
}

proof fn lemma_small_share(f: real, kg: real, k: nat)
    requires
        kg == (k as real) * grain(),
        k <= 32,
        f > 0 as real,
    ensures
        f * kg <= f / (1000 as real),
        f * kg >= 0 as real,
{
    let (kr, g) = (k as real, grain());
    assert(kg <= (1 as real) / (1000 as real) && kg >= 0 as real) by (nonlinear_arith)
        requires
            kg == kr * g,
            kr >= 0 as real,
            kr <= 32 as real,
            g == (1 as real) / (0x80_0000 as real),
    ;
    assert(f * kg <= f / (1000 as real) && f * kg >= 0 as real) by (nonlinear_arith)
        requires
            kg <= (1 as real) / (1000 as real),
            kg >= 0 as real,
            f > 0 as real,
    ;
}

/// One rounding more.
proof fn lemma_one_more(y: real, t: real, n: real, f: real, k: nat)
    requires
        within(y, t, size(t) * eps() + tiny()),
        size(t - n) <= f * ((k as real) * grain()),
        size(n) <= f,
        tiny() * 100 as real <= f * eps(),
        f > 0 as real,
        k <= 32,
    ensures
        size(y - n) <= f * (((k + 1) as real) * grain()),
{
    lemma_tiny();
    let (e, o, g, kr) = (eps(), tiny(), grain(), k as real);
    let (fe, kg) = (f * e, kr * g);
    lemma_small_share(f, kg, k);
    assert((kr + 1 as real) * g == kg + g) by (nonlinear_arith)
        requires
            kg == kr * g,
    ;
    assert(f * (kg + g) == f * kg + f * g) by (nonlinear_arith);
    assert(f * g == 2 as real * fe) by (nonlinear_arith)
        requires
            g == 2 as real * e,
            fe == f * e,
    ;
    let b = size(t);
    assert(b <= f + f / (100 as real));
    assert(b * e <= fe + fe / (100 as real)) by (nonlinear_arith)
        requires
            b <= f + f / (100 as real),
            fe == f * e,
            e > 0 as real,
    ;
}

/// One coordinate of a fused belief stands for both.
proof fn lemma_pooled(
    x: Number,
    a: Number,
    y: Number,
    b: Number,
    n: real,
    p: real,
    o: real,
    q: real,
    m: real,
    k: nat,
    c: real,
)
    requires
        stands_for(x, a, n, p, m, k),
        stands_for(y, b, o, q, m, k),
        fair(p, c),
        fair(q, c),
        2 as real * c <= 0x400_0000_0000 as real,
        m >= 1 as real,
        m <= 0x10_0001 as real,
        k <= 12,
    ensures
        ({
            let v = one() / (one() / a + one() / b);
            stands_for((x / a + y / b) * v, v, n + o, p + q, m, k + 6)
        }),
{
    lemma_pooled_variance(a, b, p, q, k, c);
    lemma_quota(x, a, n, p, m, k, c);
    lemma_quota(y, b, o, q, m, k, c);
    let v = one() / (one() / a + one() / b);
    let (s, t) = (x / a, y / b);
    lemma_fair_sum(p, q, c);
    lemma_floor(p + q, m, 2 as real * c);
    lemma_ceiling(p + q, m);
    let f = (p + q) * m;
    lemma_two_quotas(value(s), value(t), n, o, p, q, m, k + 1);
    lemma_quota_size(value(s) + value(t), n + o, f, ((k + 1) as real) * grain(), k + 1);
    lemma_sum_error(s, t);
    let u = s + t;
    lemma_one_more(value(u), value(s) + value(t), n + o, f, k + 1);
    lemma_quota_size(value(u), n + o, f, ((k + 2) as real) * grain(), k + 2);
    lemma_weighted_back(u, v, n + o, p + q, m, k + 2, k + 6);
}

proof fn lemma_two_quotas(
    s: real,
    t: real,
    n: real,
    o: real,
    p: real,
    q: real,
    m: real,
    k: nat,
)
    requires
        size(s - n) <= (p * m) * ((k as real) * grain()),
        size(t - o) <= (q * m) * ((k as real) * grain()),
        size(n) <= p * m,
        size(o) <= q * m,
    ensures
        size((s + t) - (n + o)) <= ((p + q) * m) * ((k as real) * grain()),
        size(n + o) <= (p + q) * m,
{
    let g = (k as real) * grain();
    let (f, h) = (p * m, q * m);
    assert((p + q) * m == f + h) by (nonlinear_arith)
        requires
            f == p * m,
            h == q * m,
    ;
    assert((f + h) * g == f * g + h * g) by (nonlinear_arith);
}

/// The sum times the variance.
proof fn lemma_weighted_back(u: Number, v: Number, n: real, r: real, m: real, k: nat, j: nat)
    requires
        u is Finite,
        v is Finite,
        value(v) > 0 as real,
        r > 0 as real,
        near(value(v) * r, 1 as real, j),
        size(value(u) - n) <= (r * m) * ((k as real) * grain()),
        size(value(u)) <= 2 as real * (r * m),
        size(n) <= r * m,
        m >= 1 as real,
        m <= 0x10_0001 as real,
        k + 1 <= j,
        j <= 32,
    ensures
        stands_for(u * v, v, n, r, m, j),
{
    let (x, y) = (value(u), value(v));
    let vr = y * r;
    lemma_about_one(vr, j);
    let f = vr * m;
    let (kg, w) = ((k as real) * grain(), r * m);
    assert(y * (r * m) == (y * r) * m) by (nonlinear_arith);
    assert(y * ((r * m) * kg) == ((y * r) * m) * kg) by {
        let z = r * m;
        assert(y * (z * kg) == (y * z) * kg) by (nonlinear_arith);
    }
    lemma_scaled_sizes(x, n, y, w, kg);
    assert(x * y == y * x && n * y == y * n) by (nonlinear_arith);
    assert(f >= (1 as real) / (2 as real) && f <= 0x20_0002 as real) by (nonlinear_arith)
        requires
            f == vr * m,
            vr >= (1 as real) / (2 as real),
            vr <= 2 as real,
            m >= 1 as real,
            m <= 0x10_0001 as real,
    ;
    lemma_half_floor(f);
    lemma_product_error(u, v);
    lemma_one_more(value(u * v), y * x, y * n, f, k);
    lemma_more_roundings(vr, m, k + 1, j);
}

proof fn lemma_about_one(x: real, j: nat)
    requires
        near(x, 1 as real, j),
        j <= 32,
    ensures
        x >= (1 as real) / (2 as real),
        x <= 2 as real,
{
    let (jr, g) = (j as real, grain());
    let s = 1 as real + jr * g;
    assert(s <= 2 as real) by (nonlinear_arith)
        requires
            s == 1 as real + jr * g,
            jr <= 32 as real,
            g == (1 as real) / (0x80_0000 as real),
    ;
    assert(1 as real * s == s) by (nonlinear_arith);
    assert(x * s <= 2 as real * x) by (nonlinear_arith)
        requires
            s <= 2 as real,
            x > 0 as real,
    ;
}

proof fn lemma_scaled_sizes(x: real, n: real, y: real, w: real, kg: real)
    requires
        y > 0 as real,
        size(x - n) <= w * kg,
        size(x) <= 2 as real * w,
        size(n) <= w,
    ensures
        size(y * x - y * n) <= y * (w * kg),
        size(y * x) <= 2 as real * (y * w),
        size(y * n) <= y * w,
{
    let (d, wk) = (x - n, w * kg);
    assert(y * x - y * n == y * d) by (nonlinear_arith)
        requires
            d == x - n,
    ;
    lemma_scaled_size(d, y, wk);
    lemma_scaled_size(x, y, 2 as real * w);
    lemma_scaled_size(n, y, w);
    assert(y * (2 as real * w) == 2 as real * (y * w)) by (nonlinear_arith);
}

proof fn lemma_scaled_size(x: real, y: real, w: real)
    requires
        y > 0 as real,
        size(x) <= w,
    ensures
        size(y * x) <= y * w,
{
    assert(size(y * x) <= y * w) by (nonlinear_arith)
        requires
            y > 0 as real,
            size(x) <= w,
    ;
}

proof fn lemma_half_floor(f: real)
    requires
        f >= (1 as real) / (2 as real),
    ensures
        tiny() * 100 as real <= f * eps(),
{
    lemma_tiny_fourth();
    let (e, o) = (eps(), tiny());
    assert(o * 100 as real <= f * e) by (nonlinear_arith)
        requires
            f >= (1 as real) / (2 as real),
            o <= e * e * e * e,
            e == (1 as real) / (0x100_0000 as real),
    ;
}

proof fn lemma_more_roundings(vr: real, m: real, k: nat, j: nat)
    requires
        vr > 0 as real,
        m >= 1 as real,
        k <= j,
    ensures
        (vr * m) * ((k as real) * grain()) <= vr * (m * ((j as real) * grain())),
{
    let g = grain();
    let (a, b) = ((k as real) * g, (j as real) * g);
    assert(a <= b) by (nonlinear_arith)
        requires
            a == (k as real) * g,
            b == (j as real) * g,
            k as real <= j as real,
            g > 0 as real,
    ;
    let f = vr * m;
    assert(f > 0 as real) by (nonlinear_arith)
        requires
            f == vr * m,
            vr > 0 as real,
            m >= 1 as real,
    ;
    assert(f * a <= f * b) by (nonlinear_arith)
        requires
            a <= b,
            f > 0 as real,
    ;
    assert((vr * m) * b == vr * (m * b)) by (nonlinear_arith);
}

/// One coordinate of what two beliefs come to, and the variance.
spec fn pooled(x: Number, a: Number, y: Number, b: Number) -> (Number, Number) {
    let v = one() / (one() / a + one() / b);
    ((x / a + y / b) * v, v)
}

/// A belief stands for itself.
proof fn lemma_itself(x: Number, a: Number, m: real) -> (r: (real, real))
    requires
        x is Finite,
        a is Finite,
        fair(value(a), 0x100_0000_0000 as real),
        size(value(x)) <= m,
        m >= 1 as real,
    ensures
        stands_for(x, a, r.0, r.1, m, 0),
        stands_for(x, a, r.0, r.1, m, 6),
        fair(r.1, 0x100_0000_0000 as real),
        fair(r.1, 0x200_0000_0000 as real),
        r.1 * value(a) == 1 as real,
        r.0 == value(x) * r.1,
{
    let (v, xv) = (value(a), value(x));
    let p = lemma_inverse_of(v);
    let n = xv * p;
    lemma_fair_reciprocal(v, p, 0x100_0000_0000 as real);
    lemma_fair_wider(p, 0x100_0000_0000 as real, 0x200_0000_0000 as real);
    assert(v * p == 1 as real) by {
        assert(v * p == p * v) by (nonlinear_arith);
    }
    assert(v * n == xv) by {
        assert(v * (xv * p) == xv * (p * v)) by (nonlinear_arith);
        assert(xv * 1 as real == xv) by (nonlinear_arith);
    }
    assert(size(n) <= p * m) by {
        lemma_scaled_size(xv, p, m);
        assert(p * xv == xv * p) by (nonlinear_arith);
    }
    lemma_exact_is_near(m, 0);
    lemma_exact_is_near(m, 6);
    (n, p)
}

proof fn lemma_exact_is_near(m: real, k: nat)
    requires
        m >= 1 as real,
    ensures
        near(1 as real, 1 as real, k),
        1 as real * (m * ((k as real) * grain())) >= 0 as real,
{
    let (kr, g) = (k as real, grain());
    let h = kr * g;
    assert(h >= 0 as real) by (nonlinear_arith)
        requires
            h == kr * g,
            kr >= 0 as real,
            g > 0 as real,
    ;
    assert(1 as real * (1 as real + h) == 1 as real + h) by (nonlinear_arith);
    let mh = m * h;
    assert(mh >= 0 as real) by (nonlinear_arith)
        requires
            mh == m * h,
            m >= 1 as real,
            h >= 0 as real,
    ;
    assert(1 as real * mh == mh) by (nonlinear_arith);
}

/// What stands for the same is the same, but for roundings.
proof fn lemma_same(x: Number, a: Number, y: Number, b: Number, n: real, r: real, m: real)
    requires
        stands_for(x, a, n, r, m, 12),
        stands_for(y, b, n, r, m, 12),
        m >= 1 as real,
    ensures
        near(value(a), value(b), 25),
        size(value(x) - value(y)) <= m * (50 as real * grain()),
{
    let (p, q) = (value(a) * r, value(b) * r);
    lemma_near_swapped(q, 1 as real, 12);
    lemma_near_chain(p, 1 as real, q, 12, 12);
    let i = lemma_inverse_of(r);
    lemma_near_scaled(p, q, i, 25);
    lemma_unscaled(value(a), r, i);
    lemma_unscaled(value(b), r, i);
    lemma_same_place(value(x), value(a), n, r, i, m);
    lemma_same_place(value(y), value(b), n, r, i, m);
    assert(m * (50 as real * grain()) == 2 as real * (m * (25 as real * grain())))
        by (nonlinear_arith);
}

proof fn lemma_unscaled(v: real, r: real, i: real)
    requires
        i * r == 1 as real,
    ensures
        i * (v * r) == v,
{
    assert(i * (v * r) == (i * r) * v) by (nonlinear_arith);
    assert(1 as real * v == v) by (nonlinear_arith);
}

/// The coordinate is the weighted mean.
proof fn lemma_same_place(x: real, v: real, n: real, r: real, i: real, m: real)
    requires
        near(v * r, 1 as real, 12),
        size(n) <= r * m,
        size(x - v * n) <= (v * r) * (m * (12 as real * grain())),
        i * r == 1 as real,
        i > 0 as real,
        r > 0 as real,
        m >= 1 as real,
    ensures
        size(x - i * n) <= m * (25 as real * grain()),
{
    let (u, g) = (v * r, grain());
    let t = i * n;
    lemma_scaled_size(n, i, r * m);
    assert(i * (r * m) == m) by {
        assert(i * (r * m) == (i * r) * m) by (nonlinear_arith);
        assert(1 as real * m == m) by (nonlinear_arith);
    }
    assert(v * n == u * t) by {
        assert((v * r) * (i * n) == (i * r) * (v * n)) by (nonlinear_arith);
        assert(1 as real * (v * n) == v * n) by (nonlinear_arith);
    }
    let d = 12 as real * g;
    let s = 1 as real + d;
    assert(1 as real * s == s) by (nonlinear_arith);
    assert(u >= 1 as real - d) by (nonlinear_arith)
        requires
            u * s >= 1 as real,
            s == 1 as real + d,
            d >= 0 as real,
            d <= 1 as real,
            u > 0 as real,
    ;
    let w = u - 1 as real;
    assert(u * t == t + w * t) by (nonlinear_arith)
        requires
            w == u - 1 as real,
    ;
    let md = m * d;
    lemma_both_sizes(w, t, d, m);
    assert(u * md <= md + md / (24 as real)) by (nonlinear_arith)
        requires
            u <= 1 as real + (1 as real) / (24 as real),
            md >= 0 as real,
    ;
    assert(md == 12 as real * (m * g)) by (nonlinear_arith)
        requires
            md == m * d,
            d == 12 as real * g,
    ;
    assert(m * (25 as real * g) == 25 as real * (m * g)) by (nonlinear_arith);
}

proof fn lemma_both_sizes(w: real, t: real, d: real, m: real)
    requires
        size(w) <= d,
        size(t) <= m,
        m >= 1 as real,
        d >= 0 as real,
    ensures
        size(w * t) <= m * d,
        m * d >= 0 as real,
{
    lemma_product_size(w, t, d, m);
    assert(d * m == m * d && m * d >= 0 as real) by (nonlinear_arith)
        requires
            m >= 1 as real,
            d >= 0 as real,
    ;
}

proof fn lemma_three(
    x: Number,
    a: Number,
    y: Number,
    b: Number,
    z: Number,
    c: Number,
    m: real,
)
    requires
        x is Finite && y is Finite && z is Finite,
        a is Finite && b is Finite && c is Finite,
        fair(value(a), 0x100_0000_0000 as real),
        fair(value(b), 0x100_0000_0000 as real),
        fair(value(c), 0x100_0000_0000 as real),
        size(value(x)) <= m && size(value(y)) <= m && size(value(z)) <= m,
        m >= 1 as real,
        m <= 0x10_0001 as real,
    ensures
        ({
            let (s, u) = pooled(x, a, y, b);
            let (t, v) = pooled(y, b, z, c);
            let (f, g) = (pooled(s, u, z, c), pooled(x, a, t, v));
            &&& near(value(f.1), value(g.1), 25)
            &&& size(value(f.0) - value(g.0)) <= m * (50 as real * grain())
        }),
{
    let (n, p) = lemma_itself(x, a, m);
    let (o, q) = lemma_itself(y, b, m);
    let (l, r) = lemma_itself(z, c, m);
    let w = 0x100_0000_0000 as real;
    lemma_pooled(x, a, y, b, n, p, o, q, m, 0, w);
    lemma_pooled(y, b, z, c, o, q, l, r, m, 0, w);
    lemma_fair_sum(p, q, w);
    lemma_fair_sum(q, r, w);
    let (s, u) = pooled(x, a, y, b);
    let (t, v) = pooled(y, b, z, c);
    lemma_pooled(s, u, z, c, n + o, p + q, l, r, m, 6, 2 as real * w);
    lemma_pooled(x, a, t, v, n, p, o + l, q + r, m, 6, 2 as real * w);
    let (f, g) = (pooled(s, u, z, c), pooled(x, a, t, v));
    assert(n + o + l == n + (o + l) && p + q + r == p + (q + r));
    lemma_same(f.0, f.1, g.0, g.1, n + o + l, p + q + r, m);
}

/// Whether a belief has a variance between 2^-40 and 2^40 and coordinates of at
/// most `most`.
pub open spec fn is_moderate(b: Belief, most: real) -> bool {
    &&& b.var is Finite
    &&& fair(value(b.var), 0x100_0000_0000 as real)
    &&& finite(b.pos)
    &&& size(value(b.pos.x)) <= most
    &&& size(value(b.pos.y)) <= most
    &&& size(value(b.pos.z)) <= most
}

/// Three beliefs come to the same, but for roundings, in whichever order they are
/// fused.
pub proof fn law_fusing_is_associative(a: Belief, b: Belief, c: Belief, most: real)
    requires
        is_moderate(a, most),
        is_moderate(b, most),
        is_moderate(c, most),
        most >= 1 as real,
        most <= 0x10_0000 as real,
    ensures
        ({
            let (l, r) = (fused(fused(a, b), c), fused(a, fused(b, c)));
            let slack = most * (50 as real * grain());
            &&& near(value(l.var), value(r.var), 25)
            &&& size(value(l.pos.x) - value(r.pos.x)) <= slack
            &&& size(value(l.pos.y) - value(r.pos.y)) <= slack
            &&& size(value(l.pos.z) - value(r.pos.z)) <= slack
        }),
{
    lemma_three(a.pos.x, a.var, b.pos.x, b.var, c.pos.x, c.var, most);
    lemma_three(a.pos.y, a.var, b.pos.y, b.var, c.pos.y, c.var, most);
    lemma_three(a.pos.z, a.var, b.pos.z, b.var, c.pos.z, c.var, most);
}

} // verus!
