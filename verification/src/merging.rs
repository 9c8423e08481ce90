//! The guarantees of an intersection of estimates, roundings included, for any
//! covariances that are not too flat.
use crate::consistency::{lemma_one, lemma_weights};
use crate::error::{eps, lemma_less_value, lemma_no_value, lemma_tiny, size, value};
use crate::forms::{Grid, Triple};
use crate::fusion::{
    best_weight, information, intersected, law_no_larger_than_alone, lemma_last_weight, weight,
    Fix,
};
use crate::intersection::{
    lemma_choice, lemma_determinants, lemma_first_weight, lemma_intersected, uncertainty,
};
use crate::inversion::is_alike;
use crate::matrix::M3;
use crate::number::{one, zero};
use crate::preference::{determinant, is_origin, is_positive, lemma_not_negative};
use crate::selection::{
    blend, blend_least, blend_ratio, inverse_least, inverse_ratio, is_covariance, lemma_alike_at,
    lemma_all_of_one, lemma_blend_form, lemma_both_inverses, lemma_share_back, lemma_square_size,
    lemma_uncertainty, lemma_undone_share, lemma_weighed_information, square,
};
use crate::soundness::{is_sound, lemma_sound_determinant, lemma_sound_inverse, shape};
use crate::spectra::{
    inverted, is_round, lemma_antitone, lemma_determinant_grows, lemma_inverted,
    lemma_round_is_positive, undoes,
};
use vstd::prelude::*;

verus! {

/// Being alike is passed on.
pub proof fn lemma_alike_chain(x: Grid, y: Grid, z: Grid, s: real, t: real, r: real)
    requires
        is_alike(x, y, s),
        is_alike(y, z, t),
        s >= 0 as real,
        t >= 0 as real,
        (1 as real + s) * (1 as real + t) <= 1 as real + r,
        forall|e: Triple| #[trigger] z.form(e, e) >= 0 as real,
        forall|e: Triple| #[trigger] x.form(e, e) >= 0 as real,
    ensures
        is_alike(x, z, r),
{
    assert forall|e: Triple|
        #[trigger] x.form(e, e) <= (1 as real + r) * z.form(e, e) && z.form(e, e) <= (1 as real + r)
            * x.form(e, e) by {
        lemma_alike_at(x, y, s, e);
        lemma_alike_at(y, z, t, e);
        let (a, b, c) = (x.form(e, e), y.form(e, e), z.form(e, e));
        assert(c >= 0 as real);
        lemma_chain_values(a, b, c, 1 as real + s, 1 as real + t, 1 as real + r);
        let (p, q) = (1 as real + s, 1 as real + t);
        assert(q * p == p * q) by (nonlinear_arith);
        lemma_chain_values(c, b, a, q, p, 1 as real + r);
    }
}

proof fn lemma_chain_values(a: real, b: real, c: real, s: real, t: real, r: real)
    requires
        a <= s * b,
        b <= t * c,
        s * t <= r,
        s >= 1 as real,
        c >= 0 as real,
    ensures
        a <= r * c,
{
    let tc = t * c;
    assert(s * b <= s * tc) by (nonlinear_arith)
        requires
            b <= tc,
            s >= 1 as real,
    ;
    assert(s * (t * c) == (s * t) * c) by (nonlinear_arith);
    let st = s * t;
    assert(st * c <= r * c) by (nonlinear_arith)
        requires
            st <= r,
            c >= 0 as real,
    ;
}

/// What undoes matrices that are alike is alike.
pub proof fn lemma_alike_undone(p: Grid, pi: Grid, q: Grid, qi: Grid, t: real)
    requires
        is_alike(p, q, t),
        undoes(p, pi),
        undoes(q, qi),
        t >= 0 as real,
    ensures
        is_alike(pi, qi, t),
{
    let c = 1 as real + t;
    let d = 1 as real / c;
    assert(d * c == 1 as real && d > 0 as real) by (nonlinear_arith)
        requires
            d == 1 as real / c,
            c > 0 as real,
    ;
    assert forall|e: Triple| d * #[trigger] p.form(e, e) <= q.form(e, e) by {
        lemma_undone_share(p.form(e, e), q.form(e, e), c, d);
    }
    assert forall|e: Triple| d * #[trigger] q.form(e, e) <= p.form(e, e) by {
        lemma_alike_at(p, q, t, e);
        lemma_undone_share(q.form(e, e), p.form(e, e), c, d);
    }
    assert forall|e: Triple|
        #[trigger] pi.form(e, e) <= c * qi.form(e, e) && qi.form(e, e) <= c * pi.form(e, e) by {
        lemma_antitone(p, pi, q, qi, d, e);
        lemma_antitone(q, qi, p, pi, d, e);
        lemma_share_back(qi.form(e, e), pi.form(e, e), c, d);
        lemma_share_back(pi.form(e, e), qi.form(e, e), c, d);
    }
}

pub proof fn lemma_forms_not_negative(g: Grid, i: Grid)
    requires
        undoes(g, i),
    ensures
        forall|e: Triple| #[trigger] g.form(e, e) >= 0 as real,
        forall|e: Triple| #[trigger] i.form(e, e) >= 0 as real,
{
    assert forall|e: Triple| #[trigger] g.form(e, e) >= 0 as real by {
        lemma_not_negative(g, e);
    }
    assert forall|e: Triple| #[trigger] i.form(e, e) >= 0 as real by {
        lemma_not_negative(i, e);
    }
}

/// Two shares, one after the other.
pub proof fn lemma_shares_add(s: real, t: real, r: real, n: real, a: real, b: real)
    requires
        s >= 0 as real,
        t >= 0 as real,
        s <= a * n,
        t <= b * n,
        n >= 0 as real,
        n <= (1 as real) / (10000 as real),
        a >= 0 as real,
        b >= 0 as real,
        (a + b) * 10000 as real + a * b <= r * 10000 as real,
    ensures
        (1 as real + s) * (1 as real + t) <= 1 as real + r * n,
{
    let (x, y) = (a * n, b * n);
    assert((1 as real + s) * (1 as real + t) == 1 as real + s + t + s * t) by (nonlinear_arith);
    assert(s * t <= x * y) by (nonlinear_arith)
        requires
            s >= 0 as real,
            t >= 0 as real,
            s <= x,
            t <= y,
    ;
    let ab = a * b;
    assert((a * n) * (b * n) == (ab * n) * n) by (nonlinear_arith)
        requires
            ab == a * b,
    ;
    let abn = ab * n;
    assert(ab >= 0 as real) by (nonlinear_arith)
        requires
            ab == a * b,
            a >= 0 as real,
            b >= 0 as real,
    ;
    assert(abn >= 0 as real) by (nonlinear_arith)
        requires
            abn == ab * n,
            ab >= 0 as real,
            n >= 0 as real,
    ;
    assert(abn * n <= abn / (10000 as real)) by (nonlinear_arith)
        requires
            abn >= 0 as real,
            n <= (1 as real) / (10000 as real),
    ;
    let c = ab / (10000 as real);
    assert(abn / (10000 as real) == c * n) by (nonlinear_arith)
        requires
            abn == ab * n,
            c == ab / (10000 as real),
    ;
    let z = a + b + c;
    assert(a * n + b * n + c * n == z * n) by (nonlinear_arith)
        requires
            z == a + b + c,
    ;
    assert(z * n <= r * n) by (nonlinear_arith)
        requires
            z <= r,
            n >= 0 as real,
    ;
}

/// The computed inverse of an information `m` that is alike `y`, which is alike
/// `g`, is alike what `g` undoes.
proof fn lemma_back(m: M3, y: Grid, g: Grid, h: Grid, l: real, k: real)
    requires
        is_alike(shape(m), y, 10 as real * square(inverse_ratio(k))),
        is_alike(y, g, 60 as real * square(k)),
        undoes(g, h),
        is_sound(
            m,
            l,
            blend_ratio(inverse_ratio(k)),
            square(blend_ratio(inverse_ratio(k))),
            21 as real * (square(blend_ratio(inverse_ratio(k))) * l),
        ),
        square(k) <= (1 as real) / (10000 as real),
        square(k) > 0 as real,
        square(inverse_ratio(k)) <= (10303 as real / (10000 as real)) * square(k),
        square(inverse_ratio(k)) >= 0 as real,
        square(blend_ratio(inverse_ratio(k))) <= (10387 as real / (10000 as real)) * square(k),
        square(blend_ratio(inverse_ratio(k))) >= 0 as real,
    ensures
        is_alike(shape(m.inverse()), h, 134 as real * square(k)),
{
    let (r, n) = (blend_ratio(inverse_ratio(k)), square(k));
    lemma_sound_inverse(m, l, r, square(r), 21 as real * (square(r) * l));
    let gm = shape(m);
    let (im, gi) = (inverted(gm), shape(m.inverse()));
    let (s, t) = (10 as real * square(inverse_ratio(k)), 60 as real * n);
    lemma_forms_not_negative(gm, im);
    lemma_forms_not_negative(g, h);
    lemma_shares_add(s, t, 71 as real, n, 10303 as real / (1000 as real), 60 as real);
    lemma_alike_chain(gm, y, g, s, t, 71 as real * n);
    lemma_alike_undone(gm, im, g, h, 71 as real * n);
    let v = 60 as real * square(r);
    lemma_shares_add(v, 71 as real * n, 134 as real, n, 62322 as real / (1000 as real), 71 as real);
    lemma_computed_not_negative(gi, im, v);
    lemma_alike_chain(gi, im, h, v, 71 as real * n, 134 as real * n);
}

pub proof fn lemma_computed_not_negative(x: Grid, y: Grid, t: real)
    requires
        is_alike(x, y, t),
        t >= 0 as real,
        forall|e: Triple| #[trigger] y.form(e, e) >= 0 as real,
    ensures
        forall|e: Triple| #[trigger] x.form(e, e) >= 0 as real,
{
    assert forall|e: Triple| #[trigger] x.form(e, e) >= 0 as real by {
        lemma_alike_at(x, y, t, e);
        let (a, b, s) = (x.form(e, e), y.form(e, e), 1 as real + t);
        assert(b >= 0 as real);
        assert(a >= 0 as real) by (nonlinear_arith)
            requires
                b <= s * a,
                b >= 0 as real,
                s >= 1 as real,
        ;
    }
}

/// What is known of the `i`-th weight, for two covariances.
pub proof fn lemma_ith(a: M3, b: M3, i: nat, p: real, q: real, k: real)
    requires
        i < 11,
        is_covariance(a, p, k),
        is_covariance(b, q, k),
        square(k) <= (1 as real) / (10000 as real),
    ensures
        ({
            let (x, y, w, v) = (
                a.inverse(),
                b.inverse(),
                value(weight(i)),
                value(one() - weight(i)),
            );
            let (m, s, r) = (
                information(x, y, weight(i)),
                inverse_ratio(k),
                blend_ratio(inverse_ratio(k)),
            );
            let l = blend_least(inverse_least(p, k), inverse_least(q, k), w, v);
            &&& !m.is_singular()
            &&& is_sound(m, l, r, square(r), 21 as real * (square(r) * l))
            &&& is_alike(shape(m), blend(w, shape(x), v, shape(y)), 10 as real * square(s))
            &&& uncertainty(m) is Finite
            &&& determinant(shape(m.inverse())) > 0 as real
            &&& size(value(uncertainty(m)) - determinant(shape(m.inverse()))) <= 59 as real * (square(
                r,
            ) * determinant(shape(m.inverse())))
            &&& is_round(
                shape(m.inverse()),
                inverse_least(l, r),
                inverse_ratio(r) * inverse_least(l, r),
            )
            &&& square(s) <= (10303 as real / (10000 as real)) * square(k)
            &&& square(r) <= (10387 as real / (10000 as real)) * square(k)
            &&& square(s) >= 0 as real
            &&& square(r) >= 0 as real
            &&& w >= 0 as real
            &&& v >= 0 as real
            &&& w + v > 0 as real
            &&& l > 0 as real
        }),
{
    lemma_tiny();
    lemma_both_inverses(a, b, p, q, k);
    let (x, y) = (a.inverse(), b.inverse());
    let (f, g, s) = (inverse_least(p, k), inverse_least(q, k), inverse_ratio(k));
    lemma_weighed_information(x, y, i, f, g, s, square(s));
    let (w, v) = lemma_weights(i);
    let (l, r) = (blend_least(f, g, w, v), blend_ratio(s));
    lemma_uncertainty(
        information(x, y, weight(i)),
        l,
        r,
        square(r),
        21 as real * (square(r) * l),
    );
    lemma_square_size(s, square(s));
    lemma_square_size(r, square(r));
}

/// A blend of matrices that are alike.
proof fn lemma_blend_alike(
    w: real,
    a: Grid,
    v: real,
    b: Grid,
    c: Grid,
    d: Grid,
    t: real,
)
    requires
        is_alike(a, c, t),
        is_alike(b, d, t),
        w >= 0 as real,
        v >= 0 as real,
    ensures
        is_alike(blend(w, a, v, b), blend(w, c, v, d), t),
{
    let (x, y, s) = (blend(w, a, v, b), blend(w, c, v, d), 1 as real + t);
    assert(a == a.transposed() && b == b.transposed() && c == c.transposed() && d
        == d.transposed());
    assert(x =~= x.transposed());
    assert(y =~= y.transposed());
    assert forall|e: Triple|
        #[trigger] x.form(e, e) <= s * y.form(e, e) && y.form(e, e) <= s * x.form(e, e) by {
        lemma_blend_form(w, a, v, b, e);
        lemma_blend_form(w, c, v, d, e);
        lemma_alike_at(a, c, t, e);
        lemma_alike_at(b, d, t, e);
        lemma_blend_share(w, a.form(e, e), c.form(e, e), v, b.form(e, e), d.form(e, e), s);
        lemma_blend_share(w, c.form(e, e), a.form(e, e), v, d.form(e, e), b.form(e, e), s);
    }
}

proof fn lemma_blend_share(w: real, a: real, c: real, v: real, b: real, d: real, s: real)
    requires
        a <= s * c,
        b <= s * d,
        w >= 0 as real,
        v >= 0 as real,
    ensures
        w * a + v * b <= s * (w * c + v * d),
{
    let (sc, sd) = (s * c, s * d);
    assert(w * a <= w * sc) by (nonlinear_arith)
        requires
            a <= sc,
            w >= 0 as real,
    ;
    assert(v * b <= v * sd) by (nonlinear_arith)
        requires
            b <= sd,
            v >= 0 as real,
    ;
    assert(w * (s * c) == s * (w * c) && v * (s * d) == s * (v * d)) by (nonlinear_arith);
    let (x, y) = (w * c, v * d);
    assert(s * (x + y) == s * x + s * y) by (nonlinear_arith);
}

/// A blend of positive matrices is positive.
proof fn lemma_blend_positive(w: real, a: Grid, v: real, b: Grid)
    requires
        is_positive(a),
        is_positive(b),
        w >= 0 as real,
        v >= 0 as real,
        w + v > 0 as real,
    ensures
        is_positive(blend(w, a, v, b)),
{
    let g = blend(w, a, v, b);
    assert(a == a.transposed() && b == b.transposed());
    assert(g =~= g.transposed());
    assert forall|e: Triple| !is_origin(e) implies #[trigger] g.form(e, e) > 0 as real by {
        lemma_blend_form(w, a, v, b, e);
        let (x, y) = (a.form(e, e), b.form(e, e));
        assert(x > 0 as real && y > 0 as real);
        assert(w * x >= 0 as real && v * y >= 0 as real) by (nonlinear_arith)
            requires
                x > 0 as real,
                y > 0 as real,
                w >= 0 as real,
                v >= 0 as real,
        ;
        if w > 0 as real {
            assert(w * x > 0 as real) by (nonlinear_arith)
                requires
                    w > 0 as real,
                    x > 0 as real,
            ;
        } else {
            assert(v * y > 0 as real) by (nonlinear_arith)
                requires
                    v > 0 as real,
                    y > 0 as real,
            ;
        }
    }
}

/// An intersection is what the formula says, roundings included: for one of the
/// weights tried, its covariance is the inverse of the weighted inverses of the
/// two, in every direction, but for roundings. So what is said of exact
/// covariances holds of those computed. `k` bounds how much flatter a covariance
/// is in one direction than in another; the roundings go with its square.
pub proof fn law_intersection_follows_formula(a: Fix, b: Fix, p: real, q: real, k: real)
    requires
        is_covariance(a.cov, p, k),
        is_covariance(b.cov, q, k),
        square(k) <= (1 as real) / (10000 as real),
    ensures
        exists|i: nat|
            i < 11 && #[trigger] weight(i) == best_weight(a.cov.inverse(), b.cov.inverse(), 11).0
                && is_alike(
                shape(intersected(a, b).cov),
                inverted(
                    blend(
                        value(weight(i)),
                        inverted(shape(a.cov)),
                        value(one() - weight(i)),
                        inverted(shape(b.cov)),
                    ),
                ),
                134 as real * square(k),
            ),
{
    lemma_both_inverses(a.cov, b.cov, p, q, k);
    let (x, y) = (a.cov.inverse(), b.cov.inverse());
    let i = lemma_choice(x, y);
    lemma_ith(a.cov, b.cov, i, p, q, k);
    let (w, v) = (value(weight(i)), value(one() - weight(i)));
    let (ia, ib) = (inverted(shape(a.cov)), inverted(shape(b.cov)));
    let g = blend(w, ia, v, ib);
    lemma_blend_positive(w, ia, v, ib);
    lemma_inverted(g);
    lemma_blend_alike(w, shape(x), v, shape(y), ia, ib, 60 as real * square(k));
    let l = blend_least(inverse_least(p, k), inverse_least(q, k), w, v);
    let m = information(x, y, weight(i));
    lemma_back(m, blend(w, shape(x), v, shape(y)), g, inverted(g), l, k);
    lemma_intersected(a, b, weight(i));
}

/// All the weight on the first estimate.
pub proof fn lemma_alone(a: M3, b: M3, p: real, q: real, k: real)
    requires
        is_covariance(a, p, k),
        is_covariance(b, q, k),
        square(k) <= (1 as real) / (10000 as real),
    ensures
        is_alike(
            shape(information(a.inverse(), b.inverse(), one()).inverse()),
            shape(a),
            134 as real * square(k),
        ),
        is_alike(
            shape(information(b.inverse(), a.inverse(), weight(0)).inverse()),
            shape(a),
            134 as real * square(k),
        ),
{
    lemma_both_inverses(a, b, p, q, k);
    lemma_ith(a, b, 10, p, q, k);
    lemma_ith(b, a, 0, q, p, k);
    lemma_last_weight();
    lemma_first_weight();
    lemma_one();
    lemma_no_value(zero());
    lemma_no_value(weight(0));
    let (x, y) = (a.inverse(), b.inverse());
    let (ga, ia, gx, gy) = (shape(a), inverted(shape(a)), shape(x), shape(y));
    let (i, o, t) = (1 as real, 0 as real, 60 as real * square(k));
    let (f, g) = (inverse_least(p, k), inverse_least(q, k));
    assert(is_alike(blend(i, gx, o, gy), ia, t)) by {
        assert(gx == gx.transposed() && gy == gy.transposed());
        assert(blend(i, gx, o, gy) =~= blend(i, gx, o, gy).transposed());
        assert forall|e: Triple|
            #[trigger] blend(i, gx, o, gy).form(e, e) <= (1 as real + t) * ia.form(e, e)
                && ia.form(e, e) <= (1 as real + t) * blend(i, gx, o, gy).form(e, e) by {
            lemma_blend_form(i, gx, o, gy, e);
            lemma_all_of_one(gx.form(e, e), gy.form(e, e));
            lemma_alike_at(gx, ia, t, e);
        }
    }
    assert(is_alike(blend(o, gy, i, gx), ia, t)) by {
        assert(gx == gx.transposed() && gy == gy.transposed());
        assert(blend(o, gy, i, gx) =~= blend(o, gy, i, gx).transposed());
        assert forall|e: Triple|
            #[trigger] blend(o, gy, i, gx).form(e, e) <= (1 as real + t) * ia.form(e, e)
                && ia.form(e, e) <= (1 as real + t) * blend(o, gy, i, gx).form(e, e) by {
            lemma_blend_form(o, gy, i, gx, e);
            lemma_all_of_one(gx.form(e, e), gy.form(e, e));
            lemma_alike_at(gx, ia, t, e);
        }
    }
    lemma_back(
        information(x, y, weight(10)),
        blend(i, gx, o, gy),
        ia,
        ga,
        blend_least(f, g, i, o),
        k,
    );
    lemma_back(
        information(y, x, weight(0)),
        blend(o, gy, i, gx),
        ia,
        ga,
        blend_least(g, f, o, i),
        k,
    );
}

/// Three shares of a rounding.
proof fn lemma_blur(d: real, x: real, a: real, v: real, n: real)
    requires
        n > 0 as real,
        n <= (1 as real) / (10000 as real),
        ({
            let c = 1 as real + 134 as real * n;
            x <= (c * (c * c)) * a
        }),
        x > 0 as real,
        a > 0 as real,
        d <= x + 62 as real * (n * x),
        size(v - a) <= 33 as real * (n * a),
    ensures
        d <= v * (1 as real + 510 as real * n),
{
    let c = 1 as real + 134 as real * n;
    lemma_shares_add(134 as real * n, 134 as real * n, 270 as real, n, 134 as real, 134 as real);
    let cc = c * c;
    let s = 1 as real + 270 as real * n;
    assert(c * cc <= c * s) by (nonlinear_arith)
        requires
            cc <= s,
            c >= 0 as real,
    ;
    lemma_shares_add(134 as real * n, 270 as real * n, 408 as real, n, 134 as real, 270 as real);
    let t = 1 as real + 408 as real * n;
    let ccc = c * cc;
    assert(ccc * a <= t * a) by (nonlinear_arith)
        requires
            ccc <= t,
            a > 0 as real,
    ;
    let u = 1 as real + 62 as real * n;
    assert(x + 62 as real * (n * x) == u * x) by (nonlinear_arith)
        requires
            u == 1 as real + 62 as real * n,
    ;
    let na = n * a;
    assert(na > 0 as real && na <= a / (10000 as real)) by (nonlinear_arith)
        requires
            na == n * a,
            n > 0 as real,
            a > 0 as real,
            n <= (1 as real) / (10000 as real),
    ;
    let w = 1 as real + 34 as real * n;
    assert(a <= w * v) by {
        assert(w * v == v + 34 as real * (n * v)) by (nonlinear_arith)
            requires
                w == 1 as real + 34 as real * n,
        ;
        assert(n * v >= na - 33 as real * (n * na)) by (nonlinear_arith)
            requires
                v >= a - 33 as real * na,
                na == n * a,
                n > 0 as real,
        ;
        assert(n * na <= na / (10000 as real)) by (nonlinear_arith)
            requires
                na > 0 as real,
                n <= (1 as real) / (10000 as real),
        ;
    }
    lemma_shares_add(62 as real * n, 408 as real * n, 473 as real, n, 62 as real, 408 as real);
    lemma_chain_values(d, x, a, u, t, 1 as real + 473 as real * n);
    lemma_shares_add(473 as real * n, 34 as real * n, 510 as real, n, 473 as real, 34 as real);
    let z = 1 as real + 473 as real * n;
    lemma_chain_values(d, a, v, z, w, 1 as real + 510 as real * n);
    let y = 1 as real + 510 as real * n;
    assert(y * v == v * y) by (nonlinear_arith);
}

/// Fusing does not make an estimate vaguer: the determinant of the covariance is
/// at most that of the first one, but for roundings.
pub proof fn law_fusing_does_not_blur(a: Fix, b: Fix, p: real, q: real, k: real)
    requires
        is_covariance(a.cov, p, k),
        is_covariance(b.cov, q, k),
        square(k) <= (1 as real) / (10000 as real),
    ensures
        a.cov.determinant() is Finite,
        value(a.cov.determinant()) > 0 as real,
        intersected(a, b).cov.determinant() is Finite,
        value(intersected(a, b).cov.determinant()) <= value(a.cov.determinant()) * (1 as real
            + 510 as real * square(k)),
{
    let n = square(k);
    lemma_both_inverses(a.cov, b.cov, p, q, k);
    lemma_sound_determinant(a.cov, p, k, n, 3 as real * ((k * p) * eps()));
    let (x, y) = (a.cov.inverse(), b.cov.inverse());
    let i = lemma_choice(x, y);
    lemma_ith(a.cov, b.cov, i, p, q, k);
    lemma_ith(a.cov, b.cov, 10, p, q, k);
    lemma_last_weight();
    lemma_one();
    lemma_no_value(zero());
    lemma_intersected(a, b, weight(i));
    law_no_larger_than_alone(a, b);
    lemma_determinants(a, b, x, y, weight(i));
    let (alone, chosen) = (information(x, y, one()), information(x, y, weight(i)));
    lemma_less_value(uncertainty(alone), uncertainty(chosen));
    lemma_alone(a.cov, b.cov, p, q, k);
    let (gx, ga) = (shape(alone.inverse()), shape(a.cov));
    let s = blend_ratio(inverse_ratio(k));
    let l = blend_least(inverse_least(p, k), inverse_least(q, k), 1 as real, 0 as real);
    lemma_round_is_positive(gx, inverse_least(l, s), inverse_ratio(s) * inverse_least(l, s));
    lemma_round_is_positive(ga, p, k * p);
    let c = 1 as real + 134 as real * n;
    lemma_determinant_grows(gx, ga, c);
    let (d, e) = (determinant(gx), value(uncertainty(alone)));
    lemma_less_rounding(e, d, square(s), n);
    lemma_blur(value(uncertainty(chosen)), d, determinant(ga), value(a.cov.determinant()), n);
}

proof fn lemma_less_rounding(e: real, d: real, c: real, n: real)
    requires
        size(e - d) <= 59 as real * (c * d),
        c <= (10387 as real / (10000 as real)) * n,
        d > 0 as real,
        n > 0 as real,
    ensures
        e <= d + 62 as real * (n * d),
{
    assert(59 as real * (c * d) <= 62 as real * (n * d)) by (nonlinear_arith)
        requires
            c <= (10387 as real / (10000 as real)) * n,
            d > 0 as real,
            n > 0 as real,
    ;
}

} // verus!
