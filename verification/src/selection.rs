//! What an intersection of estimates comes to, roundings included, for any
//! covariances that are not too flat.
use crate::consistency::{lemma_one, lemma_weights};
use crate::error::{
    eps, lemma_less_value, lemma_no_value, lemma_product_error, lemma_sum_error, lemma_tiny,
    lemma_tiny_fourth, size, tiny, value,
};
use crate::forms::{grid, lemma_form_plus, Grid, Triple};
use crate::fusion::{best_weight, information, lemma_last_weight, weight};
use crate::intersection::{
    is_flat, lemma_first_weight, lemma_picked, lemma_search, lemma_weight_range, outcome,
    uncertainty,
};
use crate::inversion::{is_alike, is_close, is_within, lemma_close_forms, lemma_round_undoing};
use crate::matrix::M3;
use crate::metric::{finite, lemma_product_size};
use crate::number::{less, one, zero, Number};
use crate::preference::{determinant, lemma_not_negative};
use crate::reversal::lemma_inverse_determinant;
use crate::skew::{evened, lemma_evened, twist};
use crate::soundness::{
    bent, is_small, is_sound, lemma_inverse_is_little_bent, lemma_sound_determinant,
    lemma_sound_inverse, lemma_sound_sizes, shape,
};
use crate::spectra::{
    inverted, is_round, lemma_antitone, lemma_determinant_grows, lemma_dot_sign,
    lemma_round_is_positive, lemma_times_form, times, undoes,
};
use vstd::prelude::*;

verus! {


/// The stretches of a matrix that is alike another.
proof fn lemma_alike_round(x: Grid, y: Grid, t: real, l: real, u: real, p: real, q: real)
    requires
        is_alike(x, y, t),
        is_round(y, l, u),
        t >= 0 as real,
        p > 0 as real,
        p * (1 as real + t) <= l,
        u * (1 as real + t) <= q,
    ensures
        is_round(x, p, q),
{
    let s = 1 as real + t;
    assert forall|e: Triple|
        p * e.dot(e) <= #[trigger] x.form(e, e) && x.form(e, e) <= q * e.dot(e) by {
        lemma_dot_sign(e);
        let (d, v, w) = (e.dot(e), x.form(e, e), y.form(e, e));
        assert(l * d <= w && w <= u * d);
        lemma_alike_values(v, w, d, l, u, p, q, s);
    }
}

proof fn lemma_alike_values(
    v: real,
    w: real,
    d: real,
    l: real,
    u: real,
    p: real,
    q: real,
    s: real,
)
    requires
        v <= s * w,
        w <= s * v,
        l * d <= w,
        w <= u * d,
        p * s <= l,
        u * s <= q,
        s >= 1 as real,
        d >= 0 as real,
    ensures
        p * d <= v,
        v <= q * d,
{
    let ud = u * d;
    assert(s * w <= s * ud) by (nonlinear_arith)
        requires
            w <= ud,
            s >= 1 as real,
    ;
    assert(s * (u * d) == (u * s) * d) by (nonlinear_arith);
    let us = u * s;
    assert(us * d <= q * d) by (nonlinear_arith)
        requires
            us <= q,
            d >= 0 as real,
    ;
    let ps = p * s;
    assert(ps * d <= l * d) by (nonlinear_arith)
        requires
            ps <= l,
            d >= 0 as real,
    ;
    assert((p * s) * d == s * (p * d)) by (nonlinear_arith);
    let pd = p * d;
    assert(pd <= v) by (nonlinear_arith)
        requires
            s * pd <= s * v,
            s >= 1 as real,
    ;
}

/// The rounding of the square, for `c` times as much.
proof fn lemma_scaled_square(k: real, c: real)
    ensures
        square(k * c) == (c * c) * square(k),
{
    let (e, p, q) = (eps(), k * k, c * c);
    assert((k * c) * (k * c) == q * p) by (nonlinear_arith)
        requires
            p == k * k,
            q == c * c,
    ;
    assert((q * p) * e == q * (p * e)) by (nonlinear_arith);
}

/// The least stretch of a computed inverse.
pub open spec fn inverse_least(l: real, k: real) -> real {
    (397 as real / (400 as real)) * (1 as real / (k * l))
}

/// The ratio of its stretches.
pub open spec fn inverse_ratio(k: real) -> real {
    k * (203 as real / (200 as real))
}

/// A rounding of the square of a ratio.
pub open spec fn square(k: real) -> real {
    (k * k) * eps()
}

/// The stretches of the computed inverse of a sound matrix.
proof fn lemma_inverse_is_round(m: M3, l: real, k: real, n: real, t: real)
    requires
        is_sound(m, l, k, n, t),
        l >= (1 as real) / (0x2_0000 as real),
        k * l <= 0x2_0000 as real,
        n <= (1 as real) / (8400 as real),
    ensures
        is_round(
            shape(m.inverse()),
            inverse_least(l, k),
            inverse_ratio(k) * inverse_least(l, k),
        ),
        square(inverse_ratio(k)) <= (10303 as real / (10000 as real)) * n,
        square(inverse_ratio(k)) >= n,
        inverse_least(l, k) >= (1 as real) / (0x4_0000 as real),
        inverse_ratio(k) * inverse_least(l, k) <= 0x4_0000 as real,
        inverse_ratio(k) >= 1 as real,
        n >= eps(),
        n > 0 as real,
{
    lemma_sound_inverse(m, l, k, n, t);
    lemma_square_size(k, n);
    let (g, i, x, u) = (shape(m), inverted(shape(m)), shape(m.inverse()), k * l);
    lemma_round_undoing(g, i, l, u);
    lemma_round_is_positive(g, l, u);
    let (p, c) = (inverse_least(l, k), 203 as real / (200 as real));
    let q = inverse_ratio(k) * p;
    lemma_inverse_stretch(l, k, 60 as real * n, p, q);
    lemma_alike_round(x, i, 60 as real * n, 1 as real / u, 1 as real / l, p, q);
    lemma_scaled_square(k, c);
    let w = c * c;
    assert(w == 41209 as real / (40000 as real)) by (nonlinear_arith)
        requires
            w == c * c,
            c == 203 as real / (200 as real),
    ;
    assert(w * n <= (10303 as real / (10000 as real)) * n && w * n >= n) by (nonlinear_arith)
        requires
            w == 41209 as real / (40000 as real),
            n > 0 as real,
    ;
}

/// What makes a matrix sound.
proof fn lemma_made_sound(x: M3, p: real, q: real, o: real, t: real)
    requires
        finite(x.r0) && finite(x.r1) && finite(x.r2),
        is_round(shape(x), p, q * p),
        is_small(bent(x), t),
        18 as real * (t * t) <= o * (p * p),
        t >= 0 as real,
        p >= (1 as real) / (0x4_0000 as real),
        q * p <= 0x4_0000 as real,
        o == square(q),
        o <= (1 as real) / (8000 as real),
        q >= 1 as real,
    ensures
        is_sound(x, p, q, o, t),
{
}

/// How much symmetry the computed inverse lacks.
proof fn lemma_inverse_bend(m: M3, l: real, k: real, n: real, t: real)
    requires
        is_sound(m, l, k, n, t),
        t == 3 as real * ((k * l) * eps()),
    ensures
        is_small(
            bent(m.inverse()),
            (35 as real / (2 as real)) * (square(inverse_ratio(k)) * inverse_least(l, k)),
        ),
{
    lemma_inverse_is_little_bent(m, l, k, n, t);
    let b = bent(m.inverse());
    lemma_bend(size(b.x), l, k, t);
    lemma_bend(size(b.y), l, k, t);
    lemma_bend(size(b.z), l, k, t);
}

/// The computed inverse of a covariance that is symmetric within three roundings
/// is sound.
proof fn lemma_inverse_is_sound(m: M3, l: real, k: real, n: real, t: real)
    requires
        is_sound(m, l, k, n, t),
        t == 3 as real * ((k * l) * eps()),
        l >= (1 as real) / (0x2_0000 as real),
        k * l <= 0x2_0000 as real,
        n <= (1 as real) / (8400 as real),
    ensures
        ({
            let (p, q) = (inverse_least(l, k), inverse_ratio(k));
            is_sound(m.inverse(), p, q, square(q), (35 as real / (2 as real)) * (square(q) * p))
        }),
{
    lemma_inverse_is_round(m, l, k, n, t);
    lemma_sound_inverse(m, l, k, n, t);
    lemma_inverse_bend(m, l, k, n, t);
    lemma_sound_again(m.inverse(), inverse_least(l, k), inverse_ratio(k), square(inverse_ratio(k)));
}

proof fn lemma_sound_again(x: M3, p: real, q: real, o: real)
    requires
        finite(x.r0) && finite(x.r1) && finite(x.r2),
        is_round(shape(x), p, q * p),
        is_small(bent(x), (35 as real / (2 as real)) * (o * p)),
        p >= (1 as real) / (0x4_0000 as real),
        q * p <= 0x4_0000 as real,
        o == square(q),
        o <= (1 as real) / (8000 as real),
        q >= 1 as real,
    ensures
        is_sound(x, p, q, o, (35 as real / (2 as real)) * (o * p)),
{
    lemma_square_size(q, o);
    lemma_bend_room(35 as real / (2 as real), o, p);
    lemma_made_sound(x, p, q, o, (35 as real / (2 as real)) * (o * p));
}

/// One component of what the symmetry of the inverse lacks.
proof fn lemma_bend(b: real, l: real, k: real, t: real)
    requires
        b * (l * l) <= (31 as real / (10 as real)) * t + (83 as real / (10 as real)) * ((k * l)
            * eps()),
        t == 3 as real * ((k * l) * eps()),
        l > 0 as real,
        k >= 1 as real,
    ensures
        b <= (35 as real / (2 as real)) * (square(inverse_ratio(k)) * inverse_least(l, k)),
{
    lemma_tiny();
    let (e, u, ll) = (eps(), k * l, l * l);
    assert(u > 0 as real) by (nonlinear_arith)
        requires
            u == k * l,
            k >= 1 as real,
            l > 0 as real,
    ;
    let x = 1 as real / u;
    assert(x * u == 1 as real) by (nonlinear_arith)
        requires
            x == 1 as real / u,
            u > 0 as real,
    ;
    let c = 203 as real / (200 as real);
    lemma_scaled_square(k, c);
    let (s, p) = ((k * k) * e, (397 as real / (400 as real)) * x);
    assert(c * c == 41209 as real / (40000 as real)) by (nonlinear_arith)
        requires
            c == 203 as real / (200 as real),
    ;
    let f = (41209 as real / (40000 as real)) * (397 as real / (400 as real));
    let sx = s * x;
    lemma_scaled_pair(41209 as real / (40000 as real), s, 397 as real / (400 as real), x);
    // The square of the ratio over the largest stretch, times the square of the least.
    let ue = u * e;
    assert(sx * ll == ue) by {
        assert((k * l) * (k * l) == (k * k) * (l * l)) by (nonlinear_arith);
        let kk = k * k;
        assert(((kk * e) * x) * ll == ((kk * ll) * e) * x) by (nonlinear_arith);
        assert(((u * u) * e) * x == (u * e) * (x * u)) by (nonlinear_arith);
        assert(ue * 1 as real == ue) by (nonlinear_arith);
    }
    assert(ue > 0 as real && ll > 0 as real) by (nonlinear_arith)
        requires
            ue == u * e,
            ll == l * l,
            u > 0 as real,
            e > 0 as real,
            l > 0 as real,
    ;
    let g = (35 as real / (2 as real)) * f;
    assert(g >= 178 as real / (10 as real));
    let most = g * sx;
    assert(most * ll == g * ue) by {
        assert((g * sx) * ll == g * (sx * ll)) by (nonlinear_arith);
    }
    assert(g * ue >= (178 as real / (10 as real)) * ue) by (nonlinear_arith)
        requires
            g >= 178 as real / (10 as real),
            ue > 0 as real,
    ;
    assert(b <= most) by (nonlinear_arith)
        requires
            b * ll <= most * ll,
            ll > 0 as real,
    ;
    assert((35 as real / (2 as real)) * (f * sx) == g * sx) by (nonlinear_arith)
        requires
            g == (35 as real / (2 as real)) * f,
    ;
}

proof fn lemma_scaled_pair(c: real, s: real, d: real, x: real)
    ensures
        (c * s) * (d * x) == (c * d) * (s * x),
{
    assert((c * s) * (d * x) == (c * d) * (s * x)) by (nonlinear_arith);
}

/// A share `c` of the least stretch is little, against the rounding.
proof fn lemma_bend_room(c: real, n: real, l: real)
    requires
        c >= 0 as real,
        c <= 21 as real,
        n > 0 as real,
        n <= (1 as real) / (8000 as real),
        l > 0 as real,
    ensures
        ({
            let t = c * (n * l);
            &&& 18 as real * (t * t) <= n * (l * l)
            &&& t >= 0 as real
        }),
{
    let (t, ll) = (c * (n * l), l * l);
    let nl = n * l;
    assert(nl > 0 as real && ll > 0 as real) by (nonlinear_arith)
        requires
            nl == n * l,
            ll == l * l,
            n > 0 as real,
            l > 0 as real,
    ;
    let s = nl * nl;
    assert(s == n * (n * ll)) by (nonlinear_arith)
        requires
            s == nl * nl,
            nl == n * l,
            ll == l * l,
    ;
    let nn = n * ll;
    assert(nn > 0 as real) by (nonlinear_arith)
        requires
            nn == n * ll,
            n > 0 as real,
            ll > 0 as real,
    ;
    assert(n * nn <= nn / (8000 as real)) by (nonlinear_arith)
        requires
            n <= (1 as real) / (8000 as real),
            nn > 0 as real,
    ;
    let cc = c * c;
    assert(cc <= 441 as real) by (nonlinear_arith)
        requires
            cc == c * c,
            c >= 0 as real,
            c <= 21 as real,
    ;
    assert(t * t == cc * s) by (nonlinear_arith)
        requires
            t == c * nl,
            cc == c * c,
            s == nl * nl,
    ;
    assert(s >= 0 as real) by (nonlinear_arith)
        requires
            s == nl * nl,
    ;
    assert(cc * s <= 441 as real * s) by (nonlinear_arith)
        requires
            cc <= 441 as real,
            s >= 0 as real,
    ;
    assert(t >= 0 as real) by (nonlinear_arith)
        requires
            t == c * nl,
            c >= 0 as real,
            nl > 0 as real,
    ;
}

pub proof fn lemma_square_size(k: real, n: real)
    requires
        k >= 1 as real,
        n == (k * k) * eps(),
    ensures
        n >= eps(),
        n >= k * eps(),
        n > 0 as real,
{
    lemma_tiny();
    let (e, p) = (eps(), k * k);
    assert(p >= k && p >= 1 as real) by (nonlinear_arith)
        requires
            p == k * k,
            k >= 1 as real,
    ;
    assert(p * e >= k * e && p * e >= e && e > 0 as real) by (nonlinear_arith)
        requires
            p >= k,
            p >= 1 as real,
            e > 0 as real,
    ;
}

proof fn lemma_inverse_stretch(l: real, k: real, t: real, p: real, q: real)
    requires
        l >= (1 as real) / (0x2_0000 as real),
        k >= 1 as real,
        k * l <= 0x2_0000 as real,
        t >= 0 as real,
        t <= 60 as real / (8400 as real),
        p == (397 as real / (400 as real)) * (1 as real / (k * l)),
        q == (k * (203 as real / (200 as real))) * p,
    ensures
        p > 0 as real,
        p * (1 as real + t) <= 1 as real / (k * l),
        (1 as real / l) * (1 as real + t) <= q,
        p >= (1 as real) / (0x4_0000 as real),
        q <= 0x4_0000 as real,
        k * (203 as real / (200 as real)) >= 1 as real,
{
    let u = k * l;
    assert(u >= l) by (nonlinear_arith)
        requires
            u == k * l,
            k >= 1 as real,
            l > 0 as real,
    ;
    let (x, y) = (1 as real / u, 1 as real / l);
    assert(x * u == 1 as real && x > 0 as real && x >= (1 as real) / (0x2_0000 as real))
        by (nonlinear_arith)
        requires
            x == 1 as real / u,
            u > 0 as real,
            u <= 0x2_0000 as real,
    ;
    assert(y * l == 1 as real && y > 0 as real && y <= 0x2_0000 as real) by (nonlinear_arith)
        requires
            y == 1 as real / l,
            l >= (1 as real) / (0x2_0000 as real),
    ;
    assert(k * x == y) by {
        assert((k * x) * l == x * (k * l)) by (nonlinear_arith);
        let kx = k * x;
        assert(kx == y) by (nonlinear_arith)
            requires
                kx * l == 1 as real,
                y * l == 1 as real,
                l > 0 as real,
        ;
    }
    let s = 1 as real + t;
    assert(p * s <= x) by (nonlinear_arith)
        requires
            p == (397 as real / (400 as real)) * x,
            x > 0 as real,
            s <= 1 as real + 60 as real / (8400 as real),
            s >= 1 as real,
    ;
    let kx = k * x;
    assert(q == (203 as real / (200 as real)) * ((397 as real / (400 as real)) * kx))
        by (nonlinear_arith)
        requires
            q == (k * (203 as real / (200 as real))) * p,
            p == (397 as real / (400 as real)) * x,
            kx == k * x,
    ;
    assert(y * s <= q) by (nonlinear_arith)
        requires
            q == (203 as real / (200 as real)) * ((397 as real / (400 as real)) * y),
            y > 0 as real,
            s <= 1 as real + 60 as real / (8400 as real),
    ;
}

/// `w` of one matrix and `v` of another.
pub open spec fn blend(w: real, a: Grid, v: real, b: Grid) -> Grid {
    times(w, a).plus(v, b)
}

pub proof fn lemma_blend_form(w: real, a: Grid, v: real, b: Grid, e: Triple)
    ensures
        blend(w, a, v, b).form(e, e) == w * a.form(e, e) + v * b.form(e, e),
{
    lemma_times_form(w, a, e, e);
    lemma_form_plus(times(w, a), v, b, e, e);
}

proof fn lemma_blend_round(
    w: real,
    a: Grid,
    v: real,
    b: Grid,
    p: real,
    q: real,
    k: real,
)
    requires
        is_round(a, p, k * p),
        is_round(b, q, k * q),
        w >= 0 as real,
        v >= 0 as real,
        w + v > 0 as real,
    ensures
        is_round(blend(w, a, v, b), p * w + q * v, k * (p * w + q * v)),
{
    let g = blend(w, a, v, b);
    assert(a == a.transposed() && b == b.transposed());
    assert(g =~= g.transposed());
    let l = p * w + q * v;
    lemma_some_of_both(p, w, q, v);
    assert forall|e: Triple|
        l * e.dot(e) <= #[trigger] g.form(e, e) && g.form(e, e) <= (k * l) * e.dot(e) by {
        lemma_blend_form(w, a, v, b, e);
        let (d, x, y) = (e.dot(e), a.form(e, e), b.form(e, e));
        assert(p * d <= x && x <= (k * p) * d && q * d <= y && y <= (k * q) * d);
        lemma_blend_term(p, k, w, d, x);
        lemma_blend_term(q, k, v, d, y);
        let (pw, qv) = (p * w, q * v);
        assert((pw + qv) * d == pw * d + qv * d) by (nonlinear_arith);
        assert((k * (pw + qv)) * d == k * (pw * d) + k * (qv * d)) by (nonlinear_arith);
    }
}

proof fn lemma_some_of_both(p: real, w: real, q: real, v: real)
    requires
        p > 0 as real,
        q > 0 as real,
        w >= 0 as real,
        v >= 0 as real,
        w + v > 0 as real,
    ensures
        p * w + q * v > 0 as real,
        p * w >= 0 as real,
        q * v >= 0 as real,
{
    assert(p * w >= 0 as real && q * v >= 0 as real) by (nonlinear_arith)
        requires
            p > 0 as real,
            q > 0 as real,
            w >= 0 as real,
            v >= 0 as real,
    ;
    if w > 0 as real {
        assert(p * w > 0 as real) by (nonlinear_arith)
            requires
                p > 0 as real,
                w > 0 as real,
        ;
    } else {
        assert(q * v > 0 as real) by (nonlinear_arith)
            requires
                q > 0 as real,
                v > 0 as real,
        ;
    }
}

proof fn lemma_blend_term(p: real, k: real, w: real, d: real, x: real)
    requires
        p * d <= x,
        x <= (k * p) * d,
        w >= 0 as real,
    ensures
        (p * w) * d <= w * x,
        w * x <= k * ((p * w) * d),
{
    let (pd, kpd) = (p * d, (k * p) * d);
    assert(w * pd <= w * x && w * x <= w * kpd) by (nonlinear_arith)
        requires
            pd <= x,
            x <= kpd,
            w >= 0 as real,
    ;
    assert(w * (p * d) == (p * w) * d) by (nonlinear_arith);
    assert(w * ((k * p) * d) == k * ((p * w) * d)) by (nonlinear_arith);
}

/// One entry of the information; `f` bounds what goes into it.
proof fn lemma_blend_entry(x: Number, y: Number, w: Number, v: Number, p: real, q: real, f: real)
    requires
        x is Finite && y is Finite && w is Finite && v is Finite,
        size(value(x)) <= p,
        size(value(y)) <= q,
        value(w) >= 0 as real,
        value(v) >= 0 as real,
        f == p * value(w) + q * value(v),
        f >= (1 as real) / (0x10_0000 as real),
        f <= 0x10_0000 as real,
    ensures
        (x * w) is Finite,
        (y * v) is Finite,
        (x * w + y * v) is Finite,
        size(value(x * w + y * v) - (value(w) * value(x) + value(v) * value(y))) <= f * (3 as real
            * eps()),
{
    lemma_tiny();
    lemma_tiny_fourth();
    let (e, o) = (eps(), tiny());
    let (wv, vv) = (value(w), value(v));
    let (s, t) = (value(x) * wv, value(y) * vv);
    lemma_product_size(value(x), wv, p, wv);
    lemma_product_size(value(y), vv, q, vv);
    lemma_product_error(x, w);
    lemma_product_error(y, v);
    let fe = f * e;
    let (ss, st) = (size(s), size(t));
    assert(ss + st <= f);
    assert(ss * e + st * e <= fe && ss * e >= 0 as real && st * e >= 0 as real) by (nonlinear_arith)
        requires
            ss + st <= f,
            ss >= 0 as real,
            st >= 0 as real,
            fe == f * e,
            e > 0 as real,
    ;
    assert(o * 1000 as real <= fe && fe <= f / (1000 as real)) by (nonlinear_arith)
        requires
            fe == f * e,
            f >= (1 as real) / (0x10_0000 as real),
            o <= e * e * e * e,
            e == (1 as real) / (0x100_0000 as real),
    ;
    let (a, b) = (value(x * w), value(y * v));
    lemma_sum_error(x * w, y * v);
    let m = size(a + b);
    assert(m <= f + f / (100 as real));
    assert(m * e <= fe + fe / (100 as real)) by (nonlinear_arith)
        requires
            m <= f + f / (100 as real),
            fe == f * e,
            e > 0 as real,
    ;
    assert(f * (3 as real * e) == 3 as real * fe) by (nonlinear_arith)
        requires
            fe == f * e,
    ;
    assert(wv * value(x) == value(x) * wv && vv * value(y) == value(y) * vv) by (nonlinear_arith);
}

/// The entries of the information.
proof fn lemma_information_entries(a: M3, b: M3, i: nat, p: real, q: real, f: real)
    requires
        i < 11,
        is_within(a, p),
        is_within(b, q),
        f == p * value(weight(i)) + q * value(one() - weight(i)),
        f >= (1 as real) / (0x10_0000 as real),
        f <= 0x10_0000 as real,
    ensures
        ({
            let (w, v) = (value(weight(i)), value(one() - weight(i)));
            let m = information(a, b, weight(i));
            &&& finite(m.r0) && finite(m.r1) && finite(m.r2)
            &&& is_close(grid(m), blend(w, grid(a), v, grid(b)), f * (3 as real * eps()))
        }),
{
    let (wr, vr) = lemma_weights(i);
    let (w, v) = (weight(i), one() - weight(i));
    lemma_blend_entry(a.r0.x, b.r0.x, w, v, p, q, f);
    lemma_blend_entry(a.r0.y, b.r0.y, w, v, p, q, f);
    lemma_blend_entry(a.r0.z, b.r0.z, w, v, p, q, f);
    lemma_blend_entry(a.r1.x, b.r1.x, w, v, p, q, f);
    lemma_blend_entry(a.r1.y, b.r1.y, w, v, p, q, f);
    lemma_blend_entry(a.r1.z, b.r1.z, w, v, p, q, f);
    lemma_blend_entry(a.r2.x, b.r2.x, w, v, p, q, f);
    lemma_blend_entry(a.r2.y, b.r2.y, w, v, p, q, f);
    lemma_blend_entry(a.r2.z, b.r2.z, w, v, p, q, f);
}

/// The two parts of a blend, near what `x` holds.
proof fn lemma_blend_parts(x: Grid, w: real, a: Grid, v: real, b: Grid, t: real)
    requires
        is_close(x, blend(w, a, v, b), t),
    ensures
        is_close(evened(x), blend(w, evened(a), v, evened(b)), t),
        ({
            let (d, f, g) = (twist(x), twist(a), twist(b));
            &&& size(d.x - (w * f.x + v * g.x)) <= t
            &&& size(d.y - (w * f.y + v * g.y)) <= t
            &&& size(d.z - (w * f.z + v * g.z)) <= t
        }),
{
    lemma_blend_pair(x.r0.y, x.r1.x, w, a.r0.y, a.r1.x, v, b.r0.y, b.r1.x, t);
    lemma_blend_pair(x.r0.z, x.r2.x, w, a.r0.z, a.r2.x, v, b.r0.z, b.r2.x, t);
    lemma_blend_pair(x.r1.z, x.r2.y, w, a.r1.z, a.r2.y, v, b.r1.z, b.r2.y, t);
}

proof fn lemma_blend_pair(
    x: real,
    y: real,
    w: real,
    a: real,
    c: real,
    v: real,
    b: real,
    d: real,
    t: real,
)
    requires
        size(x - (w * a + v * b)) <= t,
        size(y - (w * c + v * d)) <= t,
    ensures
        size((x + y) / (2 as real) - (w * ((a + c) / (2 as real)) + v * ((b + d) / (2 as real)))) <= t,
        size((x - y) / (2 as real) - (w * ((a - c) / (2 as real)) + v * ((b - d) / (2 as real)))) <= t,
        size((y - x) / (2 as real) - (w * ((c - a) / (2 as real)) + v * ((d - b) / (2 as real)))) <= t,
{
    lemma_half_of(w, a, c);
    lemma_half_of(v, b, d);
}

proof fn lemma_half_of(w: real, a: real, c: real)
    ensures
        w * ((a + c) / (2 as real)) == (w * a + w * c) / (2 as real),
        w * ((a - c) / (2 as real)) == (w * a - w * c) / (2 as real),
        w * ((c - a) / (2 as real)) == (w * c - w * a) / (2 as real),
{
    assert(w * ((a + c) / (2 as real)) == (w * a + w * c) / (2 as real)) by (nonlinear_arith);
    assert(w * ((a - c) / (2 as real)) == (w * a - w * c) / (2 as real)) by (nonlinear_arith);
    assert(w * ((c - a) / (2 as real)) == (w * c - w * a) / (2 as real)) by (nonlinear_arith);
}

/// The entries of a sound inverse, its missing symmetry included.
pub proof fn lemma_inverse_within(m: M3, l: real, k: real, n: real)
    requires
        is_sound(m, l, k, n, (35 as real / (2 as real)) * (n * l)),
    ensures
        is_within(m, (1003 as real / (1000 as real)) * (k * l)),
{
    let t = (35 as real / (2 as real)) * (n * l);
    lemma_sound_sizes(m, l, k, n, t);
}

/// Whether a matrix is sound with some room to spare.
pub open spec fn is_roomy(m: M3, l: real, k: real, n: real) -> bool {
    &&& is_sound(m, l, k, n, (35 as real / (2 as real)) * (n * l))
    &&& l >= (1 as real) / (0x3_0000 as real)
    &&& k * l <= 0x3_0000 as real
}

/// The least stretch of an information.
pub open spec fn blend_least(p: real, q: real, w: real, v: real) -> real {
    (499 as real / (500 as real)) * (p * w + q * v)
}

pub open spec fn blend_ratio(k: real) -> real {
    k * (251 as real / (250 as real))
}

/// The information of sound matrices, entry by entry.
proof fn lemma_information_parts(a: M3, b: M3, i: nat, p: real, q: real, k: real, n: real)
    requires
        i < 11,
        is_roomy(a, p, k, n),
        is_roomy(b, q, k, n),
    ensures
        ({
            let (w, v) = (value(weight(i)), value(one() - weight(i)));
            let m = information(a, b, weight(i));
            let t = blend_rounding(p, q, w, v, k);
            let (d, f, g) = (bent(m), bent(a), bent(b));
            &&& finite(m.r0) && finite(m.r1) && finite(m.r2)
            &&& is_close(shape(m), blend(w, shape(a), v, shape(b)), t)
            &&& size(d.x - (w * f.x + v * g.x)) <= t
            &&& size(d.y - (w * f.y + v * g.y)) <= t
            &&& size(d.z - (w * f.z + v * g.z)) <= t
            &&& t >= 0 as real
        }),
{
    lemma_tiny();
    let (w, v) = lemma_weights(i);
    lemma_inverse_within(a, p, k, n);
    lemma_inverse_within(b, q, k, n);
    let l = p * w + q * v;
    let c = 1003 as real / (1000 as real);
    let (kp, kq) = (c * (k * p), c * (k * q));
    let f = kp * w + kq * v;
    lemma_times_both(k, p, w, q, v);
    lemma_times_both(c, k * p, w, k * q, v);
    assert(f == c * (k * l));
    lemma_blend_range(p, q, w, v, k);
    lemma_information_entries(a, b, i, kp, kq, f);
    let m = information(a, b, weight(i));
    let t = f * (3 as real * eps());
    assert(t >= 0 as real) by (nonlinear_arith)
        requires
            t == f * (3 as real * eps()),
            f > 0 as real,
            eps() > 0 as real,
    ;
    lemma_blend_parts(grid(m), w, grid(a), v, grid(b), t);
}

/// What a blend rounds off.
spec fn blend_rounding(p: real, q: real, w: real, v: real, k: real) -> real {
    ((1003 as real / (1000 as real)) * (k * (p * w + q * v))) * (3 as real * eps())
}

/// The information is alike what it is without roundings.
proof fn lemma_information_is_alike(a: M3, b: M3, i: nat, p: real, q: real, k: real, n: real)
    requires
        i < 11,
        is_roomy(a, p, k, n),
        is_roomy(b, q, k, n),
        n <= (1 as real) / (8100 as real),
    ensures
        ({
            let (w, v) = (value(weight(i)), value(one() - weight(i)));
            let m = information(a, b, weight(i));
            let l = p * w + q * v;
            &&& is_alike(shape(m), blend(w, shape(a), v, shape(b)), 10 as real * n)
            &&& is_round(blend(w, shape(a), v, shape(b)), l, k * l)
        }),
{
    let (w, v) = lemma_weights(i);
    lemma_square_size(k, n);
    lemma_information_parts(a, b, i, p, q, k, n);
    lemma_blend_round(w, shape(a), v, shape(b), p, q, k);
    let m = information(a, b, weight(i));
    let (x, y, t) = (
        shape(m),
        blend(w, shape(a), v, shape(b)),
        blend_rounding(p, q, w, v, k),
    );
    let l = p * w + q * v;
    lemma_evened(grid(m), x.r0);
    assert forall|e: Triple|
        #[trigger] x.form(e, e) <= (1 as real + 10 as real * n) * y.form(e, e) && y.form(e, e) <= (
        1 as real + 10 as real * n) * x.form(e, e) by {
        lemma_dot_sign(e);
        lemma_close_forms(x, y, t, e);
        assert(l * e.dot(e) <= y.form(e, e));
        lemma_blend_rounding(x.form(e, e), y.form(e, e), e.dot(e), l, k, n, t);
    }
}

/// How much symmetry the information lacks.
proof fn lemma_information_bend(a: M3, b: M3, i: nat, p: real, q: real, k: real, n: real)
    requires
        i < 11,
        is_roomy(a, p, k, n),
        is_roomy(b, q, k, n),
    ensures
        ({
            let (w, v) = (value(weight(i)), value(one() - weight(i)));
            is_small(
                bent(information(a, b, weight(i))),
                (2052 as real / (100 as real)) * (n * (p * w + q * v)),
            )
        }),
{
    let (w, v) = lemma_weights(i);
    lemma_square_size(k, n);
    lemma_information_parts(a, b, i, p, q, k, n);
    lemma_some_of_both(p, w, q, v);
    let t = blend_rounding(p, q, w, v, k);
    let (g, h, j) = (bent(information(a, b, weight(i))), bent(a), bent(b));
    lemma_bent_blend(g.x, h.x, j.x, w, v, p, q, k, n, t);
    lemma_bent_blend(g.y, h.y, j.y, w, v, p, q, k, n, t);
    lemma_bent_blend(g.z, h.z, j.z, w, v, p, q, k, n, t);
}

/// The information of sound matrices is sound, and alike what it is without
/// roundings.
proof fn lemma_information_is_sound(a: M3, b: M3, i: nat, p: real, q: real, k: real, n: real)
    requires
        i < 11,
        is_roomy(a, p, k, n),
        is_roomy(b, q, k, n),
        n <= (1 as real) / (8100 as real),
    ensures
        ({
            let (w, v) = (value(weight(i)), value(one() - weight(i)));
            let m = information(a, b, weight(i));
            let (l, r) = (blend_least(p, q, w, v), blend_ratio(k));
            &&& is_alike(shape(m), blend(w, shape(a), v, shape(b)), 10 as real * n)
            &&& is_sound(m, l, r, square(r), 21 as real * (square(r) * l))
            &&& square(r) <= (10081 as real / (10000 as real)) * n
        }),
{
    let (w, v) = lemma_weights(i);
    lemma_square_size(k, n);
    lemma_information_parts(a, b, i, p, q, k, n);
    lemma_information_is_alike(a, b, i, p, q, k, n);
    lemma_information_bend(a, b, i, p, q, k, n);
    lemma_blend_range(p, q, w, v, k);
    lemma_blended_is_sound(
        information(a, b, weight(i)),
        blend(w, shape(a), v, shape(b)),
        p * w + q * v,
        k,
        n,
    );
}

proof fn lemma_blended_is_sound(m: M3, y: Grid, l: real, k: real, n: real)
    requires
        finite(m.r0) && finite(m.r1) && finite(m.r2),
        is_alike(shape(m), y, 10 as real * n),
        is_round(y, l, k * l),
        is_small(bent(m), (2052 as real / (100 as real)) * (n * l)),
        l >= (1 as real) / (0x3_1000 as real),
        k * l <= 0x3_1000 as real,
        k >= 1 as real,
        n == square(k),
        n <= (1 as real) / (8100 as real),
    ensures
        ({
            let (p, r) = ((499 as real / (500 as real)) * l, blend_ratio(k));
            &&& is_sound(m, p, r, square(r), 21 as real * (square(r) * p))
            &&& square(r) <= (10081 as real / (10000 as real)) * n
        }),
{
    let (p, r) = ((499 as real / (500 as real)) * l, blend_ratio(k));
    lemma_square_size(k, n);
    lemma_blend_stretch(l, k, n);
    lemma_alike_round(shape(m), y, 10 as real * n, l, k * l, p, r * p);
    let d = 251 as real / (250 as real);
    lemma_scaled_square(k, d);
    let z = d * d;
    assert(z == 63001 as real / (62500 as real)) by (nonlinear_arith)
        requires
            z == d * d,
            d == 251 as real / (250 as real),
    ;
    assert(z * n <= (10081 as real / (10000 as real)) * n && z * n > 0 as real) by (nonlinear_arith)
        requires
            z == 63001 as real / (62500 as real),
            n > 0 as real,
    ;
    lemma_bend_room(21 as real, square(r), p);
    lemma_bent_least(l, n);
    lemma_made_sound(m, p, r, square(r), 21 as real * (square(r) * p));
}

/// What a blend lacks in symmetry, one component.
proof fn lemma_bent_blend(
    x: real,
    a: real,
    b: real,
    w: real,
    v: real,
    p: real,
    q: real,
    k: real,
    n: real,
    t: real,
)
    requires
        size(x - (w * a + v * b)) <= t,
        size(a) <= (35 as real / (2 as real)) * (n * p),
        size(b) <= (35 as real / (2 as real)) * (n * q),
        w >= 0 as real,
        v >= 0 as real,
        t == ((1003 as real / (1000 as real)) * (k * (p * w + q * v))) * (3 as real * eps()),
        n >= k * eps(),
        p * w + q * v > 0 as real,
    ensures
        size(x) <= (2052 as real / (100 as real)) * (n * (p * w + q * v)),
{
    let (l, e, h) = (p * w + q * v, eps(), 35 as real / (2 as real));
    let nl = n * l;
    lemma_product_size(w, a, w, h * (n * p));
    lemma_product_size(v, b, v, h * (n * q));
    assert(w * (h * (n * p)) == h * (n * (p * w))) by (nonlinear_arith);
    assert(v * (h * (n * q)) == h * (n * (q * v))) by (nonlinear_arith);
    let (pw, qv) = (p * w, q * v);
    assert(h * (n * pw) + h * (n * qv) == h * nl) by (nonlinear_arith)
        requires
            nl == n * (pw + qv),
    ;
    let ke = k * e;
    let c = 3009 as real / (1000 as real);
    assert(t == c * (ke * l)) by (nonlinear_arith)
        requires
            t == ((1003 as real / (1000 as real)) * (k * l)) * (3 as real * e),
            ke == k * e,
            c == 3009 as real / (1000 as real),
    ;
    assert(ke * l <= nl) by (nonlinear_arith)
        requires
            ke <= n,
            nl == n * l,
            l > 0 as real,
    ;
}

/// The same against the least stretch of the blend.
proof fn lemma_bent_least(l: real, n: real)
    requires
        l > 0 as real,
        n > 0 as real,
    ensures
        (2052 as real / (100 as real)) * (n * l) <= 21 as real * (((63001 as real / (62500 as real))
            * n) * ((499 as real / (500 as real)) * l)),
{
    let nl = n * l;
    let (c, d) = (63001 as real / (62500 as real), 499 as real / (500 as real));
    lemma_scaled_pair(c, n, d, l);
    assert(nl > 0 as real) by (nonlinear_arith)
        requires
            nl == n * l,
            n > 0 as real,
            l > 0 as real,
    ;
    let cd = c * d;
    assert(cd >= 1 as real);
    assert(cd * nl >= nl) by (nonlinear_arith)
        requires
            cd >= 1 as real,
            nl > 0 as real,
    ;
}

proof fn lemma_blend_range(p: real, q: real, w: real, v: real, k: real)
    requires
        p >= (1 as real) / (0x3_0000 as real),
        q >= (1 as real) / (0x3_0000 as real),
        k * p <= 0x3_0000 as real,
        k * q <= 0x3_0000 as real,
        k >= 1 as real,
        w >= 0 as real,
        v >= 0 as real,
        w + v <= 1 as real + 2 as real * eps(),
        w + v >= 1 as real - 2 as real * eps(),
    ensures
        ({
            let l = p * w + q * v;
            &&& l >= (1 as real) / (0x3_1000 as real)
            &&& k * l <= 0x3_1000 as real
            &&& k * l >= l
        }),
{
    let (b, c) = ((1 as real) / (0x3_0000 as real), 0x3_0000 as real);
    let s = w + v;
    assert(s >= 999 as real / (1000 as real) && s <= 1001 as real / (1000 as real));
    let l = p * w + q * v;
    lemma_share_least(p, w, b);
    lemma_share_least(q, v, b);
    lemma_shares(b, w, v);
    assert(b * s >= b * (999 as real / (1000 as real))) by (nonlinear_arith)
        requires
            s >= 999 as real / (1000 as real),
            b > 0 as real,
    ;
    assert(l >= (1 as real) / (0x3_1000 as real));
    lemma_times_both(k, p, w, q, v);
    lemma_share_least(c, w, k * p);
    lemma_share_least(c, v, k * q);
    lemma_shares(c, w, v);
    assert(c * s <= c * (1001 as real / (1000 as real))) by (nonlinear_arith)
        requires
            s <= 1001 as real / (1000 as real),
            c > 0 as real,
    ;
    assert(k * l >= l) by (nonlinear_arith)
        requires
            k >= 1 as real,
            l > 0 as real,
    ;
}

proof fn lemma_share_least(p: real, w: real, b: real)
    requires
        p >= b,
        w >= 0 as real,
    ensures
        p * w >= b * w,
{
    assert(p * w >= b * w) by (nonlinear_arith)
        requires
            p >= b,
            w >= 0 as real,
    ;
}

proof fn lemma_shares(b: real, w: real, v: real)
    ensures
        b * w + b * v == b * (w + v),
{
    assert(b * w + b * v == b * (w + v)) by (nonlinear_arith);
}

proof fn lemma_times_both(k: real, p: real, w: real, q: real, v: real)
    ensures
        k * (p * w + q * v) == (k * p) * w + (k * q) * v,
{
    let (x, y) = (p * w, q * v);
    assert(k * (x + y) == k * x + k * y) by (nonlinear_arith);
    assert(k * (p * w) == (k * p) * w && k * (q * v) == (k * q) * v) by (nonlinear_arith);
}

/// The form of what was rounded.
proof fn lemma_blend_rounding(x: real, y: real, d: real, l: real, k: real, n: real, t: real)
    requires
        size(x - y) <= 3 as real * (t * d),
        t == ((1003 as real / (1000 as real)) * (k * l)) * (3 as real * eps()),
        l * d <= y,
        d >= 0 as real,
        n >= k * eps(),
        n <= (1 as real) / (8100 as real),
        k >= 1 as real,
        l > 0 as real,
    ensures
        x <= (1 as real + 10 as real * n) * y,
        y <= (1 as real + 10 as real * n) * x,
{
    lemma_tiny();
    let (e, ke) = (eps(), k * eps());
    let ld = l * d;
    assert(t * d == (3009 as real / (1000 as real)) * (ke * ld)) by (nonlinear_arith)
        requires
            t == ((1003 as real / (1000 as real)) * (k * l)) * (3 as real * e),
            ke == k * e,
            ld == l * d,
    ;
    assert(ld >= 0 as real) by (nonlinear_arith)
        requires
            ld == l * d,
            l > 0 as real,
            d >= 0 as real,
    ;
    assert(ke * ld <= n * y) by (nonlinear_arith)
        requires
            ke <= n,
            ld <= y,
            ld >= 0 as real,
            n >= 0 as real,
            ke >= 0 as real,
    ;
    let ny = n * y;
    assert(ny >= 0 as real && ny <= y / (8100 as real)) by (nonlinear_arith)
        requires
            ny == n * y,
            n >= 0 as real,
            y >= 0 as real,
            n <= (1 as real) / (8100 as real),
    ;
    assert((1 as real + 10 as real * n) * y == y + 10 as real * ny) by (nonlinear_arith)
        requires
            ny == n * y,
    ;
    assert((1 as real + 10 as real * n) * x == x + 10 as real * (n * x)) by (nonlinear_arith);
    let most = 91 as real / (10 as real);
    assert(n * x >= ny - most * (n * ny)) by (nonlinear_arith)
        requires
            x >= y - most * ny,
            ny == n * y,
            n >= 0 as real,
    ;
    assert(n * ny <= ny / (8100 as real)) by (nonlinear_arith)
        requires
            n <= (1 as real) / (8100 as real),
            ny >= 0 as real,
    ;
}

proof fn lemma_blend_stretch(l: real, k: real, n: real)
    requires
        l >= (1 as real) / (0x3_1000 as real),
        k * l <= 0x3_1000 as real,
        k >= 1 as real,
        n >= 0 as real,
        n <= (1 as real) / (8100 as real),
    ensures
        ({
            let (p, c) = ((499 as real / (500 as real)) * l, 251 as real / (250 as real));
            let (q, s) = ((k * c) * p, 1 as real + 10 as real * n);
            &&& p > 0 as real
            &&& p * s <= l
            &&& (k * l) * s <= q
            &&& p >= (1 as real) / (0x4_0000 as real)
            &&& q <= 0x4_0000 as real
            &&& k * c >= 1 as real
        }),
        (10081 as real / (10000 as real)) * n <= (1 as real) / (8000 as real),
{
    let (p, c) = ((499 as real / (500 as real)) * l, 251 as real / (250 as real));
    let (q, s, u) = ((k * c) * p, 1 as real + 10 as real * n, k * l);
    let r = (499 as real / (500 as real)) * s;
    assert(r <= 1 as real);
    lemma_scaled_once(499 as real / (500 as real), l, s);
    assert(r * l <= l) by (nonlinear_arith)
        requires
            r <= 1 as real,
            l > 0 as real,
    ;
    lemma_scaled_ratio(k, c, 499 as real / (500 as real), l);
    assert(c * (499 as real / (500 as real)) == 125249 as real / (125000 as real));
    assert(u > 0 as real) by (nonlinear_arith)
        requires
            u == k * l,
            k >= 1 as real,
            l > 0 as real,
    ;
    let d = 125249 as real / (125000 as real);
    assert(u * s <= d * u) by (nonlinear_arith)
        requires
            s <= d,
            u > 0 as real,
    ;
}

proof fn lemma_scaled_once(c: real, l: real, s: real)
    ensures
        (c * l) * s == (c * s) * l,
{
    assert((c * l) * s == (c * s) * l) by (nonlinear_arith);
}

pub proof fn lemma_scaled_ratio(k: real, c: real, d: real, l: real)
    ensures
        (k * c) * (d * l) == (c * d) * (k * l),
{
    assert((k * c) * (d * l) == (c * d) * (k * l)) by (nonlinear_arith);
}

/// The two sides of being alike.
pub proof fn lemma_alike_at(x: Grid, y: Grid, t: real, e: Triple)
    requires
        is_alike(x, y, t),
    ensures
        x.form(e, e) <= (1 as real + t) * y.form(e, e),
        y.form(e, e) <= (1 as real + t) * x.form(e, e),
{
    let v = x.form(e, e);
}

/// What a sound information comes to.
pub proof fn lemma_uncertainty(m: M3, l: real, k: real, n: real, t: real)
    requires
        is_sound(m, l, k, n, t),
        l >= (1 as real) / (0x2_0000 as real),
        k * l <= 0x2_0000 as real,
        n <= (1 as real) / (8400 as real),
    ensures
        !m.is_singular(),
        uncertainty(m) is Finite,
        is_round(
            shape(m.inverse()),
            inverse_least(l, k),
            inverse_ratio(k) * inverse_least(l, k),
        ),
        ({
            let d = determinant(shape(m.inverse()));
            &&& d > 0 as real
            &&& size(value(uncertainty(m)) - d) <= 59 as real * (n * d)
        }),
{
    reveal(uncertainty);
    lemma_sound_determinant(m, l, k, n, t);
    lemma_inverse_is_round(m, l, k, n, t);
    let (p, q) = (inverse_least(l, k), inverse_ratio(k));
    let c = square(q);
    lemma_inverse_determinant(m, l, k, n, t, p, q, c);
    let d = determinant(shape(m.inverse()));
    assert(57 as real * (c * d) <= 59 as real * (n * d)) by (nonlinear_arith)
        requires
            c <= (10303 as real / (10000 as real)) * n,
            d > 0 as real,
            n >= 0 as real,
    ;
}

/// Of two sound informations, one that is clearly larger in every direction comes
/// to less: `c` says by how much it is larger, and `r` what is left of that.
proof fn lemma_outranks(
    m: M3,
    o: M3,
    p: real,
    q: real,
    k: real,
    n: real,
    c: real,
    r: real,
)
    requires
        is_sound(m, p, k, n, 21 as real * (n * p)),
        is_sound(o, q, k, n, 21 as real * (n * q)),
        p >= (1 as real) / (0x2_0000 as real),
        k * p <= 0x2_0000 as real,
        q >= (1 as real) / (0x2_0000 as real),
        k * q <= 0x2_0000 as real,
        n <= (1 as real) / (8400 as real),
        c > 0 as real,
        forall|e: Triple| #[trigger] shape(o).form(e, e) <= c * shape(m).form(e, e),
        ((1 as real + 60 as real * n) * (1 as real + 60 as real * n)) * c <= r,
        r <= 1 as real - 120 as real * n,
        r > 0 as real,
    ensures
        uncertainty(m) is Finite,
        uncertainty(o) is Finite,
        less(uncertainty(m), uncertainty(o)),
{
    lemma_square_size(k, n);
    lemma_uncertainty(m, p, k, n, 21 as real * (n * p));
    lemma_uncertainty(o, q, k, n, 21 as real * (n * q));
    lemma_sound_inverse(m, p, k, n, 21 as real * (n * p));
    lemma_sound_inverse(o, q, k, n, 21 as real * (n * q));
    let (gm, go) = (shape(m), shape(o));
    let (im, io) = (inverted(gm), inverted(go));
    let (xm, xo) = (shape(m.inverse()), shape(o.inverse()));
    let s = 1 as real + 60 as real * n;
    let d = 1 as real / c;
    assert(d * c == 1 as real && d > 0 as real) by (nonlinear_arith)
        requires
            d == 1 as real / c,
            c > 0 as real,
    ;
    assert forall|e: Triple| d * #[trigger] go.form(e, e) <= gm.form(e, e) by {
        lemma_undone_share(go.form(e, e), gm.form(e, e), c, d);
    }
    assert forall|e: Triple| #[trigger] xm.form(e, e) <= r * xo.form(e, e) by {
        lemma_antitone(go, io, gm, im, d, e);
        lemma_alike_at(xm, im, 60 as real * n, e);
        lemma_alike_at(xo, io, 60 as real * n, e);
        lemma_not_negative(io, e);
        lemma_not_negative(im, e);
        lemma_share_back(im.form(e, e), io.form(e, e), c, d);
        lemma_three_steps(
            xm.form(e, e),
            im.form(e, e),
            io.form(e, e),
            xo.form(e, e),
            s,
            c,
            r,
        );
    }
    lemma_round_is_positive(xm, inverse_least(p, k), inverse_ratio(k) * inverse_least(p, k));
    lemma_round_is_positive(xo, inverse_least(q, k), inverse_ratio(k) * inverse_least(q, k));
    lemma_determinant_grows(xm, xo, r);
    lemma_clear_order(
        value(uncertainty(m)),
        value(uncertainty(o)),
        determinant(xm),
        determinant(xo),
        r,
        n,
    );
    lemma_less_value(uncertainty(m), uncertainty(o));
}

pub proof fn lemma_undone_share(x: real, y: real, c: real, d: real)
    requires
        x <= c * y,
        d * c == 1 as real,
        d > 0 as real,
    ensures
        d * x <= y,
{
    let cy = c * y;
    assert(d * x <= d * cy) by (nonlinear_arith)
        requires
            x <= cy,
            d > 0 as real,
    ;
    assert(d * (c * y) == (d * c) * y) by (nonlinear_arith);
    assert(1 as real * y == y) by (nonlinear_arith);
}

pub proof fn lemma_share_back(x: real, y: real, c: real, d: real)
    requires
        d * x <= y,
        d * c == 1 as real,
        c > 0 as real,
    ensures
        x <= c * y,
{
    let dx = d * x;
    assert(c * dx <= c * y) by (nonlinear_arith)
        requires
            dx <= y,
            c > 0 as real,
    ;
    assert(c * (d * x) == (d * c) * x) by (nonlinear_arith);
    assert(1 as real * x == x) by (nonlinear_arith);
}

proof fn lemma_three_steps(a: real, b: real, c: real, d: real, s: real, k: real, r: real)
    requires
        a <= s * b,
        b <= k * c,
        c <= s * d,
        c >= 0 as real,
        (s * s) * k <= r,
        s >= 1 as real,
        k > 0 as real,
    ensures
        a <= r * d,
{
    let (kc, sd) = (k * c, s * d);
    assert(s * b <= s * kc) by (nonlinear_arith)
        requires
            b <= kc,
            s >= 1 as real,
    ;
    assert(k * c <= k * sd) by (nonlinear_arith)
        requires
            c <= sd,
            k > 0 as real,
    ;
    let ksd = k * sd;
    assert(s * kc <= s * ksd) by (nonlinear_arith)
        requires
            kc <= ksd,
            s >= 1 as real,
    ;
    assert(s * (k * (s * d)) == ((s * s) * k) * d) by (nonlinear_arith);
    assert(d >= 0 as real) by (nonlinear_arith)
        requires
            c <= s * d,
            c >= 0 as real,
            s >= 1 as real,
    ;
    let w = (s * s) * k;
    assert(w * d <= r * d) by (nonlinear_arith)
        requires
            w <= r,
            d >= 0 as real,
    ;
}

/// The computed determinants keep a clear order.
proof fn lemma_clear_order(x: real, y: real, a: real, b: real, r: real, n: real)
    requires
        size(x - a) <= 59 as real * (n * a),
        size(y - b) <= 59 as real * (n * b),
        a <= (r * (r * r)) * b,
        a > 0 as real,
        b > 0 as real,
        r > 0 as real,
        r <= 1 as real - 120 as real * n,
        n >= 0 as real,
        n > 0 as real,
        n <= (1 as real) / (8400 as real),
    ensures
        x < y,
{
    let rr = r * r;
    assert(rr <= r && rr > 0 as real) by (nonlinear_arith)
        requires
            rr == r * r,
            r > 0 as real,
            r <= 1 as real,
    ;
    let c = r * rr;
    assert(c <= r) by (nonlinear_arith)
        requires
            c == r * rr,
            rr <= 1 as real,
            r > 0 as real,
    ;
    assert(c * b <= r * b) by (nonlinear_arith)
        requires
            c <= r,
            b > 0 as real,
    ;
    let nb = n * b;
    let m = 1 as real - 120 as real * n;
    assert(r * b <= m * b) by (nonlinear_arith)
        requires
            r <= m,
            b > 0 as real,
    ;
    assert(m * b == b - 120 as real * nb) by (nonlinear_arith)
        requires
            m == 1 as real - 120 as real * n,
            nb == n * b,
    ;
    assert(n * a <= nb && nb > 0 as real) by (nonlinear_arith)
        requires
            a <= b,
            nb == n * b,
            n > 0 as real,
            b > 0 as real,
    ;
}

/// Whether the information `b` is less than `a` in every direction, by half of
/// what the margin `m` says or more.
spec fn is_beaten(b: Grid, a: Grid, m: real) -> bool {
    forall|e: Triple|
        #[trigger] b.form(e, e) <= (1 as real - (48 as real / (100 as real)) * m) * a.form(e, e)
}

/// How much larger the information is where everything is on the better estimate.
spec fn lead(m: real) -> real {
    1 as real - (273 as real / (10000 as real)) * m
}

/// The forms along one direction: `a` and `b` of the two estimates, `x` of the
/// information with everything on the better one, `y` of another.
proof fn lemma_ranked(
    a: real,
    b: real,
    x: real,
    y: real,
    w: real,
    v: real,
    n: real,
    m: real,
)
    requires
        a >= 0 as real,
        b <= (1 as real - (48 as real / (100 as real)) * m) * a,
        a <= (1 as real + 10 as real * n) * x,
        y <= (1 as real + 10 as real * n) * (w * a + v * b),
        w >= 0 as real,
        v >= (1 as real) / (16 as real),
        w + v <= 1 as real + 2 as real * eps(),
        eps() <= n,
        n >= 0 as real,
        m > 0 as real,
        m <= 1 as real,
        n <= (10303 as real / (10000 as real)) * (m / (10000 as real)),
    ensures
        y <= lead(m) * x,
{
    let s = 1 as real + 10 as real * n;
    let beta = 1 as real - (48 as real / (100 as real)) * m;
    let ba = beta * a;
    assert(v * b <= v * ba) by (nonlinear_arith)
        requires
            b <= ba,
            v >= 0 as real,
    ;
    let t = w + v * beta;
    assert(w * a + v * (beta * a) == t * a) by (nonlinear_arith)
        requires
            t == w + v * beta,
    ;
    let vm = v * m;
    assert(v * beta == v - (48 as real / (100 as real)) * vm) by (nonlinear_arith)
        requires
            beta == 1 as real - (48 as real / (100 as real)) * m,
            vm == v * m,
    ;
    assert(vm >= m / (16 as real)) by (nonlinear_arith)
        requires
            vm == v * m,
            v >= (1 as real) / (16 as real),
            m > 0 as real,
    ;
    let c = 1 as real - (297 as real / (10000 as real)) * m;
    assert(t <= c);
    assert(t * a <= c * a) by (nonlinear_arith)
        requires
            t <= c,
            a >= 0 as real,
    ;
    lemma_scaled_up(y, w * a + v * b, c * a, s);
    lemma_scaled_up(c * a, c * a, c * (s * x), s);
    let sx = s * x;
    assert(c * a <= c * sx) by (nonlinear_arith)
        requires
            a <= sx,
            c > 0 as real,
    ;
    let (csx, ca) = (c * sx, c * a);
    assert(s * ca <= s * csx) by (nonlinear_arith)
        requires
            ca <= csx,
            s >= 0 as real,
    ;
    assert(s * (c * (s * x)) == ((s * s) * c) * x) by (nonlinear_arith);
    lemma_lead(s, c, m, n);
    let z = (s * s) * c;
    assert(x >= 0 as real) by (nonlinear_arith)
        requires
            a <= s * x,
            a >= 0 as real,
            s >= 1 as real,
    ;
    let k = lead(m);
    assert(z * x <= k * x) by (nonlinear_arith)
        requires
            z <= k,
            x >= 0 as real,
    ;
}

proof fn lemma_scaled_up(y: real, a: real, b: real, s: real)
    requires
        s >= 0 as real,
    ensures
        a <= b && y <= s * a ==> y <= s * b,
{
    if a <= b && y <= s * a {
        assert(s * a <= s * b) by (nonlinear_arith)
            requires
                a <= b,
                s >= 0 as real,
        ;
    }
}

proof fn lemma_lead(s: real, c: real, m: real, n: real)
    requires
        s == 1 as real + 10 as real * n,
        c == 1 as real - (297 as real / (10000 as real)) * m,
        n >= 0 as real,
        m > 0 as real,
        m <= 1 as real,
        n <= (10303 as real / (10000 as real)) * (m / (10000 as real)),
    ensures
        (s * s) * c <= lead(m),
{
    let d = (11623 as real / (10000000 as real)) * m;
    assert(s <= 1 as real + d);
    let r = 1 as real + (2 as real * d + d / (500 as real));
    assert(s * s <= r) by {
        let z = 1 as real + d;
        assert(s * s <= z * z) by (nonlinear_arith)
            requires
                s <= z,
                s >= 0 as real,
        ;
        assert(z * z == 1 as real + 2 as real * d + d * d) by (nonlinear_arith)
            requires
                z == 1 as real + d,
        ;
        assert(d * d <= d / (500 as real)) by (nonlinear_arith)
            requires
                d >= 0 as real,
                d <= 1 as real / (500 as real),
        ;
    }
    let ss = s * s;
    assert(ss * c <= r * c) by (nonlinear_arith)
        requires
            ss <= r,
            c > 0 as real,
    ;
    let h = r - 1 as real;
    assert(r * c == c + h * c) by (nonlinear_arith)
        requires
            h == r - 1 as real,
    ;
    assert(h * c <= h) by (nonlinear_arith)
        requires
            c <= 1 as real,
            h >= 0 as real,
    ;
}

/// What is left of the lead after two inversions.
proof fn lemma_kept_lead(n: real, m: real)
    requires
        n >= 0 as real,
        m > 0 as real,
        m <= 1 as real,
        n <= (10387 as real / (10000 as real)) * (m / (10000 as real)),
    ensures
        ({
            let (s, r) = (1 as real + 60 as real * n, 1 as real - (147 as real / (10000 as real)) * m);
            &&& (s * s) * lead(m) <= r
            &&& r <= 1 as real - 120 as real * n
            &&& r > 0 as real
            &&& lead(m) > 0 as real
        }),
{
    let (s, c) = (1 as real + 60 as real * n, lead(m));
    let d = (624 as real / (100000 as real)) * m;
    assert(s <= 1 as real + d);
    let r = 1 as real + (2 as real * d + d / (100 as real));
    assert(s * s <= r) by {
        let z = 1 as real + d;
        assert(s * s <= z * z) by (nonlinear_arith)
            requires
                s <= z,
                s >= 0 as real,
        ;
        assert(z * z == 1 as real + 2 as real * d + d * d) by (nonlinear_arith)
            requires
                z == 1 as real + d,
        ;
        assert(d * d <= d / (100 as real)) by (nonlinear_arith)
            requires
                d >= 0 as real,
                d <= 1 as real / (100 as real),
        ;
    }
    let ss = s * s;
    assert(ss * c <= r * c) by (nonlinear_arith)
        requires
            ss <= r,
            c > 0 as real,
    ;
    let h = r - 1 as real;
    assert(r * c == c + h * c) by (nonlinear_arith)
        requires
            h == r - 1 as real,
    ;
    assert(h * c <= h) by (nonlinear_arith)
        requires
            c <= 1 as real,
            h >= 0 as real,
    ;
}

/// Everything about two estimates whose informations are sound.
pub open spec fn is_pair(a: M3, b: M3, p: real, q: real, k: real, n: real) -> bool {
    &&& is_sound(a, p, k, n, (35 as real / (2 as real)) * (n * p))
    &&& is_sound(b, q, k, n, (35 as real / (2 as real)) * (n * q))
    &&& p >= (1 as real) / (0x1_2000 as real)
    &&& k * p <= 0x1_2000 as real
    &&& q >= (1 as real) / (0x1_2000 as real)
    &&& k * q <= 0x1_2000 as real
    &&& n <= (1 as real) / (8600 as real)
}

/// The information with the `i`-th weight, as far as the search goes.
pub proof fn lemma_weighed_information(a: M3, b: M3, i: nat, p: real, q: real, k: real, n: real)
    requires
        i < 11,
        is_pair(a, b, p, q, k, n),
    ensures
        ({
            let (w, v) = (value(weight(i)), value(one() - weight(i)));
            let m = information(a, b, weight(i));
            let (l, r) = (blend_least(p, q, w, v), blend_ratio(k));
            &&& is_alike(shape(m), blend(w, shape(a), v, shape(b)), 10 as real * n)
            &&& is_sound(m, l, r, square(r), 21 as real * (square(r) * l))
            &&& l >= (1 as real) / (0x2_0000 as real)
            &&& r * l <= 0x2_0000 as real
            &&& square(r) <= (10081 as real / (10000 as real)) * n
            &&& square(r) <= (1 as real) / (8400 as real)
            &&& w >= 0 as real
            &&& v >= 0 as real
            &&& n >= eps()
        }),
{
    lemma_square_size(k, n);
    let (w, v) = lemma_weights(i);
    lemma_information_is_sound(a, b, i, p, q, k, n);
    let (b0, c0) = ((1 as real) / (0x1_2000 as real), 0x1_2000 as real);
    let s = w + v;
    assert(s >= 999 as real / (1000 as real) && s <= 1001 as real / (1000 as real));
    lemma_share_least(p, w, b0);
    lemma_share_least(q, v, b0);
    lemma_shares(b0, w, v);
    assert(b0 * s >= b0 * (999 as real / (1000 as real))) by (nonlinear_arith)
        requires
            s >= 999 as real / (1000 as real),
            b0 > 0 as real,
    ;
    let l = p * w + q * v;
    lemma_times_both(k, p, w, q, v);
    lemma_share_least(c0, w, k * p);
    lemma_share_least(c0, v, k * q);
    lemma_shares(c0, w, v);
    assert(c0 * s <= c0 * (1001 as real / (1000 as real))) by (nonlinear_arith)
        requires
            s <= 1001 as real / (1000 as real),
            c0 > 0 as real,
    ;
    lemma_scaled_ratio(k, 251 as real / (250 as real), 499 as real / (500 as real), l);
}

/// All the weight on the first estimate, where that is the better one.
proof fn lemma_first_leads(a: M3, b: M3, i: nat, p: real, q: real, k: real, n: real, m: real)
    requires
        i < 11,
        is_pair(a, b, p, q, k, n),
        is_beaten(shape(b), shape(a), m),
        m > 0 as real,
        m <= 1 as real,
        n <= (10303 as real / (10000 as real)) * (m / (10000 as real)),
    ensures
        outcome(a, b, i) is Finite,
        !is_flat(a, b, 10),
        i < 10 ==> less(outcome(a, b, 10), outcome(a, b, i)),
        is_alike(shape(information(a, b, weight(10))), shape(a), 10 as real * n),
{
    reveal(outcome);
    reveal(is_flat);
    lemma_weighed_information(a, b, i, p, q, k, n);
    lemma_weighed_information(a, b, 10, p, q, k, n);
    let (w, v) = lemma_weights(i);
    lemma_last_weight();
    lemma_one();
    lemma_no_value(zero());
    let (x, y) = (information(a, b, weight(10)), information(a, b, weight(i)));
    let (r, t) = (blend_ratio(k), 10 as real * n);
    let (f, g) = (blend_least(p, q, 1 as real, 0 as real), blend_least(p, q, w, v));
    lemma_uncertainty(x, f, r, square(r), 21 as real * (square(r) * f));
    lemma_uncertainty(y, g, r, square(r), 21 as real * (square(r) * g));
    let (ga, gb, gx, gy) = (shape(a), shape(b), shape(x), shape(y));
    lemma_round_is_positive(ga, p, k * p);
    assert forall|e: Triple|
        #[trigger] gx.form(e, e) <= (1 as real + t) * ga.form(e, e) && ga.form(e, e) <= (1 as real
            + t) * gx.form(e, e) by {
        lemma_alike_at(gx, blend(1 as real, ga, 0 as real, gb), t, e);
        lemma_blend_form(1 as real, ga, 0 as real, gb, e);
        lemma_all_of_one(ga.form(e, e), gb.form(e, e));
    }
    if i < 10 {
        lemma_weight_range(i);
        assert forall|e: Triple| #[trigger] gy.form(e, e) <= lead(m) * gx.form(e, e) by {
            lemma_alike_at(gy, blend(w, ga, v, gb), t, e);
            lemma_blend_form(w, ga, v, gb, e);
            lemma_not_negative(ga, e);
            let (fa, fb, fx) = (ga.form(e, e), gb.form(e, e), gx.form(e, e));
            lemma_ranked(fa, fb, fx, gy.form(e, e), w, v, n, m);
        }
        lemma_square_size(r, square(r));
        lemma_kept_lead(square(r), m);
        lemma_outranks(
            x,
            y,
            f,
            g,
            r,
            square(r),
            lead(m),
            1 as real - (147 as real / (10000 as real)) * m,
        );
    }
}

pub proof fn lemma_all_of_one(a: real, b: real)
    ensures
        1 as real * a + 0 as real * b == a,
        0 as real * b + 1 as real * a == a,
{
    assert(1 as real * a == a && 0 as real * b == 0 as real) by (nonlinear_arith);
}

/// The same from the other side.
proof fn lemma_second_leads(a: M3, b: M3, i: nat, p: real, q: real, k: real, n: real, m: real)
    requires
        i < 11,
        is_pair(b, a, q, p, k, n),
        is_beaten(shape(b), shape(a), m),
        m > 0 as real,
        m <= 1 as real,
        n <= (10303 as real / (10000 as real)) * (m / (10000 as real)),
    ensures
        outcome(b, a, i) is Finite,
        !is_flat(b, a, 0),
        i > 0 ==> less(outcome(b, a, 0), outcome(b, a, i)),
        is_alike(shape(information(b, a, weight(0))), shape(a), 10 as real * n),
{
    reveal(outcome);
    reveal(is_flat);
    lemma_weighed_information(b, a, i, q, p, k, n);
    lemma_weighed_information(b, a, 0, q, p, k, n);
    let (w, v) = lemma_weights(i);
    lemma_first_weight();
    lemma_one();
    lemma_no_value(weight(0));
    let (x, y) = (information(b, a, weight(0)), information(b, a, weight(i)));
    let (r, t) = (blend_ratio(k), 10 as real * n);
    let (f, g) = (blend_least(q, p, 0 as real, 1 as real), blend_least(q, p, w, v));
    lemma_uncertainty(x, f, r, square(r), 21 as real * (square(r) * f));
    lemma_uncertainty(y, g, r, square(r), 21 as real * (square(r) * g));
    let (ga, gb, gx, gy) = (shape(a), shape(b), shape(x), shape(y));
    lemma_round_is_positive(ga, p, k * p);
    assert forall|e: Triple|
        #[trigger] gx.form(e, e) <= (1 as real + t) * ga.form(e, e) && ga.form(e, e) <= (1 as real
            + t) * gx.form(e, e) by {
        lemma_alike_at(gx, blend(0 as real, gb, 1 as real, ga), t, e);
        lemma_blend_form(0 as real, gb, 1 as real, ga, e);
        lemma_all_of_one(ga.form(e, e), gb.form(e, e));
    }
    if i > 0 {
        lemma_weight_range(i);
        assert forall|e: Triple| #[trigger] gy.form(e, e) <= lead(m) * gx.form(e, e) by {
            lemma_alike_at(gy, blend(w, gb, v, ga), t, e);
            lemma_blend_form(w, gb, v, ga, e);
            lemma_not_negative(ga, e);
            let (fa, fb, fx) = (ga.form(e, e), gb.form(e, e), gx.form(e, e));
            lemma_ranked(fa, fb, fx, gy.form(e, e), v, w, n, m);
        }
        lemma_square_size(r, square(r));
        lemma_kept_lead(square(r), m);
        lemma_outranks(
            x,
            y,
            f,
            g,
            r,
            square(r),
            lead(m),
            1 as real - (147 as real / (10000 as real)) * m,
        );
    }
}

/// Whether the covariance `b` is larger than `a` in every direction, by at least
/// the share `m`.
pub open spec fn is_vaguer(b: M3, a: M3, m: real) -> bool {
    forall|e: Triple|
        (1 as real + m) * #[trigger] shape(a).form(e, e) <= shape(b).form(e, e)
}

/// Whether a covariance is symmetric within a few roundings of its largest stretch
/// and stretches between `l` and `k` times `l`, between 2^-16 and 2^16.
pub open spec fn is_covariance(m: M3, l: real, k: real) -> bool {
    &&& finite(m.r0) && finite(m.r1) && finite(m.r2)
    &&& is_small(bent(m), 3 as real * ((k * l) * eps()))
    &&& is_round(shape(m), l, k * l)
    &&& l >= (1 as real) / (0x1_0000 as real)
    &&& k * l <= 0x1_0000 as real
    &&& k >= 1 as real
}

/// A covariance that is not too flat is sound.
pub proof fn lemma_covariance_is_sound(m: M3, l: real, k: real)
    requires
        is_covariance(m, l, k),
        square(k) <= (1 as real) / (8000 as real),
    ensures
        is_sound(m, l, k, square(k), 3 as real * ((k * l) * eps())),
{
    let (n, e) = (square(k), eps());
    lemma_square_size(k, n);
    let (t, nl) = (3 as real * ((k * l) * e), n * l);
    let ke = k * e;
    assert((k * l) * e == ke * l && ke * l <= nl && ke * l >= 0 as real) by (nonlinear_arith)
        requires
            ke == k * e,
            nl == n * l,
            ke <= n,
            l > 0 as real,
            k >= 1 as real,
            e > 0 as real,
    ;
    lemma_bend_room(3 as real, n, l);
    let r = 3 as real * nl;
    assert(t * t <= r * r) by (nonlinear_arith)
        requires
            t <= r,
            t >= 0 as real,
    ;
}

/// The computed inverses of two covariances.
pub proof fn lemma_both_inverses(a: M3, b: M3, p: real, q: real, k: real)
    requires
        is_covariance(a, p, k),
        is_covariance(b, q, k),
        square(k) <= (1 as real) / (10000 as real),
    ensures
        ({
            let r = inverse_ratio(k);
            &&& is_pair(a.inverse(), b.inverse(), inverse_least(p, k), inverse_least(q, k), r, square(r))
            &&& is_pair(b.inverse(), a.inverse(), inverse_least(q, k), inverse_least(p, k), r, square(r))
            &&& square(r) <= (10303 as real / (10000 as real)) * square(k)
            &&& is_sound(a, p, k, square(k), 3 as real * ((k * p) * eps()))
            &&& is_sound(b, q, k, square(k), 3 as real * ((k * q) * eps()))
            &&& is_alike(shape(a.inverse()), inverted(shape(a)), 60 as real * square(k))
            &&& is_alike(shape(b.inverse()), inverted(shape(b)), 60 as real * square(k))
            &&& undoes(shape(a), inverted(shape(a)))
            &&& undoes(inverted(shape(a)), shape(a))
            &&& undoes(shape(b), inverted(shape(b)))
            &&& undoes(inverted(shape(b)), shape(b))
            &&& square(k) > 0 as real
            &&& !a.is_singular()
            &&& !b.is_singular()
        }),
{
    let n = square(k);
    lemma_square_size(k, n);
    let (s, t) = (3 as real * ((k * p) * eps()), 3 as real * ((k * q) * eps()));
    lemma_covariance_is_sound(a, p, k);
    lemma_covariance_is_sound(b, q, k);
    lemma_inverse_is_round(a, p, k, n, s);
    lemma_inverse_is_round(b, q, k, n, t);
    lemma_inverse_is_sound(a, p, k, n, s);
    lemma_inverse_is_sound(b, q, k, n, t);
    lemma_sound_inverse(a, p, k, n, s);
    lemma_sound_inverse(b, q, k, n, t);
    lemma_sound_determinant(a, p, k, n, s);
    lemma_sound_determinant(b, q, k, n, t);
    lemma_inverse_range(p, k);
    lemma_inverse_range(q, k);
}

proof fn lemma_inverse_range(l: real, k: real)
    requires
        l >= (1 as real) / (0x1_0000 as real),
        k * l <= 0x1_0000 as real,
        k >= 1 as real,
    ensures
        inverse_least(l, k) >= (1 as real) / (0x1_2000 as real),
        inverse_ratio(k) * inverse_least(l, k) <= 0x1_2000 as real,
{
    let u = k * l;
    let (x, y) = (1 as real / u, 1 as real / l);
    assert(u >= l) by (nonlinear_arith)
        requires
            u == k * l,
            k >= 1 as real,
            l > 0 as real,
    ;
    assert(x * u == 1 as real && x >= (1 as real) / (0x1_0000 as real)) by (nonlinear_arith)
        requires
            x == 1 as real / u,
            u > 0 as real,
            u <= 0x1_0000 as real,
    ;
    assert(y * l == 1 as real && y <= 0x1_0000 as real) by (nonlinear_arith)
        requires
            y == 1 as real / l,
            l >= (1 as real) / (0x1_0000 as real),
    ;
    assert(k * x == y) by {
        assert((k * x) * l == x * (k * l)) by (nonlinear_arith);
        let kx = k * x;
        assert(kx == y) by (nonlinear_arith)
            requires
                kx * l == 1 as real,
                y * l == 1 as real,
                l > 0 as real,
        ;
    }
    lemma_scaled_ratio(k, 203 as real / (200 as real), 397 as real / (400 as real), x);
    let cd = (203 as real / (200 as real)) * (397 as real / (400 as real));
    assert(cd == 80591 as real / (80000 as real));
    let z = cd * y;
    assert(z <= 0x1_2000 as real) by (nonlinear_arith)
        requires
            z == cd * y,
            cd == 80591 as real / (80000 as real),
            y <= 0x1_0000 as real,
    ;
}

/// The computed information of the vaguer estimate is the smaller one.
proof fn lemma_vaguer_is_beaten(a: M3, b: M3, p: real, q: real, k: real, m: real)
    requires
        is_covariance(a, p, k),
        is_covariance(b, q, k),
        is_vaguer(b, a, m),
        m > 0 as real,
        m <= 1 as real,
        square(k) <= m / (10000 as real),
    ensures
        is_beaten(shape(b.inverse()), shape(a.inverse()), m),
{
    lemma_both_inverses(a, b, p, q, k);
    let n = square(k);
    let (ga, gb) = (shape(a), shape(b));
    let (ia, ib) = (inverted(ga), inverted(gb));
    let (xa, xb) = (shape(a.inverse()), shape(b.inverse()));
    let c = 1 as real + m;
    assert forall|e: Triple|
        #[trigger] xb.form(e, e) <= (1 as real - (48 as real / (100 as real)) * m) * xa.form(
            e,
            e,
        ) by {
        lemma_antitone(ga, ia, gb, ib, c, e);
        lemma_alike_at(xa, ia, 60 as real * n, e);
        lemma_alike_at(xb, ib, 60 as real * n, e);
        lemma_not_negative(ib, e);
        lemma_margin(
            xb.form(e, e),
            ib.form(e, e),
            ia.form(e, e),
            xa.form(e, e),
            n,
            m,
        );
    }
}

proof fn lemma_margin(x: real, b: real, a: real, y: real, n: real, m: real)
    requires
        x <= (1 as real + 60 as real * n) * b,
        (1 as real + m) * b <= a,
        a <= (1 as real + 60 as real * n) * y,
        b >= 0 as real,
        n >= 0 as real,
        m > 0 as real,
        m <= 1 as real,
        n <= m / (10000 as real),
    ensures
        x <= (1 as real - (48 as real / (100 as real)) * m) * y,
{
    let (s, c) = (1 as real + 60 as real * n, 1 as real + m);
    let (sb, sy) = (s * b, s * y);
    // c * x <= s * s * y, and s * s is little more than one.
    assert(c * x <= c * sb) by (nonlinear_arith)
        requires
            x <= sb,
            c >= 0 as real,
    ;
    assert(c * (s * b) == s * (c * b)) by (nonlinear_arith);
    let cb = c * b;
    assert(s * cb <= s * sy) by (nonlinear_arith)
        requires
            cb <= sy,
            s >= 0 as real,
    ;
    assert(s * (s * y) == (s * s) * y) by (nonlinear_arith);
    assert(y >= 0 as real) by (nonlinear_arith)
        requires
            c * b <= s * y,
            c >= 1 as real,
            b >= 0 as real,
            s >= 1 as real,
    ;
    let d = (65 as real / (10000 as real)) * m;
    let z = 1 as real + d;
    assert(s <= z);
    assert(s * s <= z * z) by (nonlinear_arith)
        requires
            s <= z,
            s >= 0 as real,
    ;
    assert(z * z == 1 as real + 2 as real * d + d * d) by (nonlinear_arith)
        requires
            z == 1 as real + d,
    ;
    assert(d * d <= d / (100 as real)) by (nonlinear_arith)
        requires
            d >= 0 as real,
            d <= 1 as real / (100 as real),
    ;
    let r = 1 as real - (48 as real / (100 as real)) * m;
    let mm = m * m;
    assert(mm <= m && mm >= 0 as real) by (nonlinear_arith)
        requires
            mm == m * m,
            m > 0 as real,
            m <= 1 as real,
    ;
    assert(c * r == 1 as real + (52 as real / (100 as real)) * m - (48 as real / (100 as real))
        * mm) by (nonlinear_arith)
        requires
            c == 1 as real + m,
            r == 1 as real - (48 as real / (100 as real)) * m,
            mm == m * m,
    ;
    let (ss, cr) = (s * s, c * r);
    assert(ss <= cr);
    assert(ss * y <= cr * y) by (nonlinear_arith)
        requires
            ss <= cr,
            y >= 0 as real,
    ;
    assert((c * r) * y == c * (r * y)) by (nonlinear_arith);
    let ry = r * y;
    assert(x <= ry) by (nonlinear_arith)
        requires
            c * x <= c * ry,
            c >= 1 as real,
    ;
}

/// From either side, all the weight goes to the better estimate.
pub proof fn lemma_better_is_chosen(a: M3, b: M3, p: real, q: real, k: real, m: real)
    requires
        is_covariance(a, p, k),
        is_covariance(b, q, k),
        is_vaguer(b, a, m),
        m > 0 as real,
        m <= 1 as real,
        square(k) <= m / (10000 as real),
    ensures
        best_weight(a.inverse(), b.inverse(), 11).0 == weight(10),
        best_weight(b.inverse(), a.inverse(), 11).0 == weight(0),
        !is_flat(a.inverse(), b.inverse(), 10),
        !is_flat(b.inverse(), a.inverse(), 0),
        ({
            let n = 10 as real * square(inverse_ratio(k));
            let (x, y) = (a.inverse(), b.inverse());
            &&& is_alike(shape(information(x, y, weight(10))), shape(x), n)
            &&& is_alike(shape(information(y, x, weight(0))), shape(x), n)
        }),
{
    lemma_both_inverses(a, b, p, q, k);
    lemma_vaguer_is_beaten(a, b, p, q, k, m);
    let (x, y) = (a.inverse(), b.inverse());
    let (f, g, r) = (inverse_least(p, k), inverse_least(q, k), inverse_ratio(k));
    let n = square(r);
    assert(n <= (10303 as real / (10000 as real)) * (m / (10000 as real)));
    assert forall|i: nat| i < 11 implies (#[trigger] outcome(x, y, i)) is Finite && (i != 10
        ==> less(outcome(x, y, 10), outcome(x, y, i))) by {
        lemma_first_leads(x, y, i, f, g, r, n, m);
    }
    assert forall|i: nat| i < 11 implies (#[trigger] outcome(y, x, i)) is Finite && (i != 0
        ==> less(outcome(y, x, 0), outcome(y, x, i))) by {
        lemma_second_leads(x, y, i, f, g, r, n, m);
    }
    lemma_first_leads(x, y, 10, f, g, r, n, m);
    lemma_second_leads(x, y, 0, f, g, r, n, m);
    lemma_picked(x, y, 10, 11);
    lemma_picked(y, x, 0, 11);
    lemma_search(x, y, 11);
    lemma_search(y, x, 11);
}

} // verus!
