//! What ranges to anchors and landmarks make of an estimate, from the true place of
//! the drone: a true estimate stays, and another is pulled towards the true range.
use crate::config::{ANCHOR_RANGE, LANDMARK_OBS_RANGE, MIN_ANCHOR_RANGE, MIN_INNOVATION_VAR};
use crate::error::{
    eps, lemma_less_value, lemma_product_error, lemma_quotient_error, lemma_sum_error, lemma_tiny,
    lemma_units, size, tiny, value,
};
use crate::foresight::{block_within, row_within};
use crate::forms::{grid, triple};
use crate::metric::{finite, lemma_product_size};
use crate::noise::noise_of;
use crate::number::{count, decode, is_nought, is_single, less, product, sum, unit, zero, Number};
use crate::order::{
    is_rounded, lemma_results_are_rounded, lemma_single_is_rounded, lemma_zero_quotient,
};
use crate::relative::lemma_not_nought;
use crate::selfloc::{
    anchor_var, anchored, charted, expected_range, range_gradient, range_noise, range_var, ranged,
    Chart, Pair, Pose,
};
use crate::spectra::image;
use crate::teaching::{lemma_dot_about, lemma_exactly, lemma_looser, lemma_plus};
use crate::tolerance::{lemma_difference_near, lemma_sum_near};
use crate::vector::V3;
use vstd::arithmetic::power2::{lemma2_to64, lemma_pow2_adds, lemma_pow2_pos, pow2};
use vstd::prelude::*;

verus! {

/// Whether two numbers are the same, or both zero.
pub open spec fn same(a: Number, b: Number) -> bool {
    a == b || (is_nought(a) && is_nought(b))
}

/// Whether two places are the same.
pub open spec fn same_place(a: V3, b: V3) -> bool {
    same(a.x, b.x) && same(a.y, b.y) && same(a.z, b.z)
}

proof fn lemma_same_difference(a: Number, b: Number, c: Number, d: Number)
    requires
        same(a, b),
        same(c, d),
    ensures
        same(a - c, b - d),
{
    reveal(sum);
}

proof fn lemma_same_square(a: Number, b: Number)
    requires
        same(a, b),
    ensures
        a * a == b * b,
{
    reveal(product);
    lemma_pow2_pos(149);
    lemma_pow2_pos(277);
    lemma_zero_quotient(unit());
    assert(0 * 0 == 0);
}

/// The same places are equally far from the same place.
proof fn lemma_same_length(a: V3, b: V3, c: V3, d: V3)
    requires
        same_place(a, b),
        same_place(c, d),
    ensures
        (a - c).length() == (b - d).length(),
{
    lemma_same_difference(a.x, b.x, c.x, d.x);
    lemma_same_difference(a.y, b.y, c.y, d.y);
    lemma_same_difference(a.z, b.z, c.z, d.z);
    lemma_same_square(a.x - c.x, b.x - d.x);
    lemma_same_square(a.y - c.y, b.y - d.y);
    lemma_same_square(a.z - c.z, b.z - d.z);
}

/// Adding nothing to a rounded number.
proof fn lemma_nothing_added(a: Number, z: Number)
    requires
        is_rounded(a),
        is_nought(z),
    ensures
        same(a + z, a),
        a is Finite && !a->Finite_neg ==> a + zero() == a,
{
    reveal(sum);
    if let Number::Finite { neg, mag } = a {
        if mag > 0 {
            assert(count(neg, mag) + count(z->Finite_neg, 0) == count(neg, mag));
        }
    }
}

/// A number less itself, times what is not infinite.
proof fn lemma_no_correction(k: Number, z: Number, x: Number)
    requires
        z is Finite,
        (x + k * (z - z)) is Finite,
        is_rounded(x),
    ensures
        same(x + k * (z - z), x),
{
    assert(z - z == zero()) by {
        reveal(sum);
    }
    assert(is_nought(k * zero())) by {
        reveal(sum);
        reveal(product);
        lemma_pow2_pos(149);
        lemma_pow2_pos(277);
        lemma_zero_quotient(unit());
        if let Number::Finite { neg, mag } = k {
            assert(mag * 0 == 0);
        }
    }
    lemma_nothing_added(x, k * zero());
}

/// What was not finite does not become so.
proof fn lemma_stays_lost(x: Number, y: Number)
    requires
        (x + y) is Finite,
    ensures
        x is Finite,
{
    reveal(sum);
}

/// A range from the true place, as it is measured without noise.
proof fn lemma_quiet_range(range: Number, u: Number, v: Number)
    requires
        is_single(range),
        range is Finite,
        !range->Finite_neg,
    ensures
        range + noise_of(u, v, range_noise(false)) == range,
{
    assert(noise_of(u, v, zero()) == zero()) by {
        reveal(less);
    }
    lemma_single_is_rounded(range);
    lemma_nothing_added(range, zero());
}

/// Whether a range is one that can be measured: finite, and not next to nothing.
pub open spec fn is_range(r: Number) -> bool {
    &&& is_single(r)
    &&& r is Finite
    &&& !r->Finite_neg
    &&& !less(r, decode(MIN_ANCHOR_RANGE))
}

/// Whether the components of a place are rounded.
pub open spec fn is_rounded_place(a: V3) -> bool {
    is_rounded(a.x) && is_rounded(a.y) && is_rounded(a.z)
}

/// One range from the true place, to where the anchor truly is.
proof fn lemma_true_range(s: Pose, truth: V3, a: V3, at: V3, z: Number, r_var: Number)
    requires
        same_place(s.x, truth),
        same_place(at, a),
        is_rounded_place(s.x),
        is_range((truth - a).length()),
        z == (truth - a).length(),
        finite(ranged(s, at, z, r_var).x),
    ensures
        same_place(ranged(s, at, z, r_var).x, truth),
        is_rounded_place(ranged(s, at, z, r_var).x),
{
    reveal(ranged);
    lemma_same_length(s.x, truth, at, a);
    let (h, v) = (range_gradient(s, at), range_var(s, at, r_var));
    if !less(v, decode(MIN_INNOVATION_VAR)) {
        let k = s.p.apply(h) / v;
        lemma_no_correction(k.x, z, s.x.x);
        lemma_no_correction(k.y, z, s.x.y);
        lemma_no_correction(k.z, z, s.x.z);
        lemma_results_are_rounded(s.x.x, k.x * (z - z));
        lemma_results_are_rounded(s.x.y, k.y * (z - z));
        lemma_results_are_rounded(s.x.z, k.z * (z - z));
    }
}

proof fn lemma_lost_in_range(s: Pose, at: V3, z: Number, r_var: Number)
    requires
        finite(ranged(s, at, z, r_var).x),
    ensures
        finite(s.x),
{
    reveal(ranged);
    let (h, v) = (range_gradient(s, at), range_var(s, at, r_var));
    if !less(v, decode(MIN_INNOVATION_VAR)) {
        let k = s.p.apply(h) / v;
        let d = z - expected_range(s, at);
        lemma_stays_lost(s.x.x, k.x * d);
        lemma_stays_lost(s.x.y, k.y * d);
        lemma_stays_lost(s.x.z, k.z * d);
    }
}

/// A drone that knows its true place keeps it, however many anchors it ranges to,
/// where noise is off: nothing is corrected, as each range is what was expected. No
/// anchor may be next to it, and the estimate has to stay finite at all.
pub proof fn law_anchors_confirm_the_true_place(
    s: Pose,
    truth: V3,
    anchors: Seq<V3>,
    draws: Seq<Pair>,
    n: int,
)
    requires
        same_place(s.x, truth),
        is_rounded_place(s.x),
        0 <= n <= anchors.len(),
        forall|i: int| 0 <= i < n ==> is_range((truth - #[trigger] anchors[i]).length()),
        finite(anchored(s, truth, anchors, draws, false, n).x),
    ensures
        same_place(anchored(s, truth, anchors, draws, false, n).x, truth),
        is_rounded_place(anchored(s, truth, anchors, draws, false, n).x),
    decreases n,
{
    if n > 0 {
        let before = anchored(s, truth, anchors, draws, false, n - 1);
        let a = anchors[n - 1];
        let range = (truth - a).length();
        assert(is_range((truth - anchors[n - 1]).length()));
        let d = draws[n - 1];
        lemma_quiet_range(range, d.first@, d.second@);
        if !less(decode(ANCHOR_RANGE), range) {
            lemma_lost_in_range(before, a, range, anchor_var(false));
        }
        law_anchors_confirm_the_true_place(s, truth, anchors, draws, n - 1);
        if !less(decode(ANCHOR_RANGE), range) {
            lemma_true_range(before, truth, a, a, range, anchor_var(false));
        }
    }
}

/// The same for landmarks that are mapped where they truly are.
pub proof fn law_landmarks_confirm_the_true_place(
    s: Pose,
    truth: V3,
    landmarks: Seq<V3>,
    chart: Chart,
    draws: Seq<Pair>,
    n: int,
)
    requires
        same_place(s.x, truth),
        is_rounded_place(s.x),
        0 <= n <= landmarks.len(),
        forall|l: int|
            0 <= l < n ==> is_range((truth - #[trigger] landmarks[l]).length()) && same_place(
                chart.map[l].pos,
                landmarks[l],
            ),
        finite(charted(s, truth, landmarks, chart, draws, false, n).x),
    ensures
        same_place(charted(s, truth, landmarks, chart, draws, false, n).x, truth),
        is_rounded_place(charted(s, truth, landmarks, chart, draws, false, n).x),
    decreases n,
{
    if n > 0 {
        let before = charted(s, truth, landmarks, chart, draws, false, n - 1);
        let l = n - 1;
        let range = (truth - landmarks[l]).length();
        assert(is_range((truth - landmarks[l]).length()));
        let d = draws[l];
        lemma_quiet_range(range, d.first@, d.second@);
        let used = !(less(decode(LANDMARK_OBS_RANGE), range) || !chart.usable(l));
        let (at, v) = (chart.map[l].pos, anchor_var(false) + chart.var(l));
        if used {
            lemma_lost_in_range(before, at, range, v);
        }
        law_landmarks_confirm_the_true_place(s, truth, landmarks, chart, draws, n - 1);
        if used {
            lemma_true_range(before, truth, landmarks[l], at, range, v);
        }
    }
}

/// A drone localises by the map, not by where the landmarks truly are: of those it
/// only gets the ranges.
pub proof fn law_only_ranges_of_landmarks_count(
    s: Pose,
    truth: V3,
    here: Seq<V3>,
    there: Seq<V3>,
    chart: Chart,
    draws: Seq<Pair>,
    noise: bool,
    n: int,
)
    requires
        0 <= n <= here.len(),
        here.len() == there.len(),
        forall|l: int|
            0 <= l < n ==> (truth - #[trigger] here[l]).length() == (truth - there[l]).length(),
    ensures
        charted(s, truth, here, chart, draws, noise, n) == charted(
            s,
            truth,
            there,
            chart,
            draws,
            noise,
            n,
        ),
    decreases n,
{
    if n > 0 {
        law_only_ranges_of_landmarks_count(s, truth, here, there, chart, draws, noise, n - 1);
        assert((truth - here[n - 1]).length() == (truth - there[n - 1]).length());
    }
}

/// One coordinate pulled by a range: `p` is its covariance with the range, `v` the
/// variance of that, and `d` by how much the range was off; `g` and `off` are exact.
proof fn lemma_pull(x: Number, p: Number, v: Number, d: Number, g: real, off: real, b: real, m: real)
    requires
        x is Finite && p is Finite && v is Finite && d is Finite,
        size(value(x)) <= m,
        size(value(p) - g) <= 54 as real * (b * eps()),
        size(g) <= 6 as real * b,
        value(v) >= 1 as real / (0x10_0000 as real),
        value(v) <= 44 as real * b,
        size(value(d) - off) <= 4 as real * (m * eps()),
        size(off) <= 2 as real * m,
        b >= 1 as real,
        m >= 1 as real,
        b * m <= 0x1_0000_0000 as real,
    ensures
        (x + (p / v) * d) is Finite,
        size((value(x + (p / v) * d) - value(x)) * value(v) - g * off) <= 330 as real * ((b * m)
            * eps()),
{
    lemma_tiny();
    let (e, o) = (eps(), tiny());
    let (xv, pv, vv, dv) = (value(x), value(p), value(v), value(d));
    let (be, me, bm) = (b * e, m * e, b * m);
    let bme = bm * e;
    assert(be <= b / (100000 as real) && me <= m / (100000 as real) && be > 0 as real && me
        > 0 as real) by (nonlinear_arith)
        requires
            be == b * e,
            me == m * e,
            b >= 1 as real,
            m >= 1 as real,
            e == (1 as real) / (0x100_0000 as real),
    ;
    assert(bm >= b && bm >= m && bme >= e && bme == b * me && bme == be * m) by (nonlinear_arith)
        requires
            bm == b * m,
            bme == bm * e,
            me == m * e,
            be == b * e,
            b >= 1 as real,
            m >= 1 as real,
            e > 0 as real,
    ;
    assert(size(pv) <= 7 as real * b);
    assert(size(dv) <= 3 as real * m);
    let q = pv / vv;
    assert(q * vv == pv) by (nonlinear_arith)
        requires
            q == pv / vv,
            vv > 0 as real,
    ;
    assert(size(q) <= 0x80_0000 as real * b) by (nonlinear_arith)
        requires
            q * vv == pv,
            size(pv) <= 7 as real * b,
            vv >= 1 as real / (0x10_0000 as real),
            b >= 1 as real,
    ;
    lemma_not_nought(v);
    lemma_quotient_error(p, v, q);
    let k = p / v;
    let kv = value(k);
    let u = kv - q;
    // The gain times the variance.
    let uv = u * vv;
    assert(size(uv) <= size(pv) * e + o * vv) by (nonlinear_arith)
        requires
            uv == u * vv,
            size(u) <= size(q) * e + o,
            q * vv == pv,
            vv > 0 as real,
    ;
    assert(o * vv <= be) by (nonlinear_arith)
        requires
            vv <= 44 as real * b,
            vv > 0 as real,
            o <= e * e,
            o > 0 as real,
            be == b * e,
            b >= 1 as real,
            e == (1 as real) / (0x100_0000 as real),
    ;
    assert(size(pv) * e <= 7 as real * be) by (nonlinear_arith)
        requires
            size(pv) <= 7 as real * b,
            be == b * e,
            e > 0 as real,
    ;
    assert(size(uv) <= 8 as real * be);
    assert(kv * vv == pv + uv) by (nonlinear_arith)
        requires
            u == kv - q,
            uv == u * vv,
            q * vv == pv,
    ;
    assert(size(kv * vv) <= 8 as real * b);
    // The correction.
    let kd = kv * dv;
    assert(size(q) * e <= size(q)) by (nonlinear_arith)
        requires
            e <= 1 as real,
            e > 0 as real,
    ;
    assert(size(kv) <= 0x100_0000 as real * b + 1 as real);
    lemma_product_size(kv, dv, 0x200_0000 as real * b, 3 as real * m);
    assert((0x200_0000 as real * b) * (3 as real * m) == 0x600_0000 as real * bm) by (nonlinear_arith)
        requires
            bm == b * m,
    ;
    lemma_product_error(k, d);
    let w = value(k * d);
    let r = w - kd;
    assert(kd * vv == (kv * vv) * dv) by (nonlinear_arith)
        requires
            kd == kv * dv,
    ;
    lemma_product_size(kv * vv, dv, 8 as real * b, 3 as real * m);
    assert((8 as real * b) * (3 as real * m) == 24 as real * bm) by (nonlinear_arith)
        requires
            bm == b * m,
    ;
    let kdv = kd * vv;
    let rv = r * vv;
    assert(size(rv) <= size(kdv) * e + o * vv) by (nonlinear_arith)
        requires
            rv == r * vv,
            size(r) <= size(kd) * e + o,
            kdv == kd * vv,
            vv > 0 as real,
    ;
    assert(size(kdv) * e <= 24 as real * bme) by (nonlinear_arith)
        requires
            size(kdv) <= 24 as real * bm,
            bme == bm * e,
            e > 0 as real,
    ;
    assert(be <= bme) by (nonlinear_arith)
        requires
            be == b * e,
            bme == bm * e,
            bm >= b,
            e > 0 as real,
    ;
    assert(size(rv) <= 25 as real * bme);
    assert(size(kd) * e <= size(kd)) by (nonlinear_arith)
        requires
            e <= 1 as real,
            e > 0 as real,
    ;
    // The sum.
    lemma_sum_error(x, k * d);
    let y = value(x + k * d);
    let t = y - xv - w;
    let wv = w * vv;
    assert(wv == kdv + rv) by (nonlinear_arith)
        requires
            r == w - kd,
            wv == w * vv,
            kdv == kd * vv,
            rv == r * vv,
    ;
    assert(bme <= bm) by (nonlinear_arith)
        requires
            bme == bm * e,
            bm >= 0 as real,
            e <= 1 as real,
    ;
    assert(size(wv) <= 49 as real * bm);
    let (tv, xvv) = (t * vv, xv * vv);
    lemma_product_size(xv, vv, m, 44 as real * b);
    assert(m * (44 as real * b) == 44 as real * bm) by (nonlinear_arith)
        requires
            bm == b * m,
    ;
    assert(size(tv) <= (size(xvv) + size(wv)) * e + o * vv) by (nonlinear_arith)
        requires
            tv == t * vv,
            size(t) <= size(xv + w) * e + o,
            xvv == xv * vv,
            wv == w * vv,
            vv > 0 as real,
            e > 0 as real,
    ;
    let z = size(xvv) + size(wv);
    assert(z * e <= 93 as real * bme) by (nonlinear_arith)
        requires
            z <= 93 as real * bm,
            bme == bm * e,
            e > 0 as real,
    ;
    assert(size(tv) <= 94 as real * bme);
    // All together.
    let (f, h) = (pv - g, dv - off);
    lemma_product_size(uv, dv, 8 as real * be, 3 as real * m);
    lemma_product_size(f, dv, 54 as real * be, 3 as real * m);
    lemma_product_size(g, h, 6 as real * b, 4 as real * me);
    assert((8 as real * be) * (3 as real * m) == 24 as real * bme && (54 as real * be) * (3 as real
        * m) == 162 as real * bme && (6 as real * b) * (4 as real * me) == 24 as real * bme)
        by (nonlinear_arith)
        requires
            bme == be * m,
            bme == b * me,
    ;
    assert((y - xv) * vv == tv + wv) by (nonlinear_arith)
        requires
            t == y - xv - w,
            tv == t * vv,
            wv == w * vv,
    ;
    assert((pv + uv) * dv == pv * dv + uv * dv) by (nonlinear_arith);
    assert(pv * dv == g * off + f * dv + g * h) by (nonlinear_arith)
        requires
            f == pv - g,
            h == dv - off,
    ;
}

/// The smallest variance that a range is used with.
proof fn lemma_least_surprise()
    ensures
        decode(MIN_INNOVATION_VAR) is Finite,
        value(decode(MIN_INNOVATION_VAR)) >= 1 as real / (0x10_0000 as real),
{
    lemma2_to64();
    lemma_pow2_pos(106);
    let x = decode(MIN_INNOVATION_VAR);
    assert(x == (Number::Finite { neg: false, mag: 0x86_37bd * pow2(106) }));
    lemma_units(x, 0x86_37bd, 106, 43);
    assert(pow2(43) == 0x800_0000_0000) by {
        lemma_pow2_adds(32, 11);
        assert(pow2(32) == 0x1_0000_0000 && pow2(11) == 0x800);
    }
    assert(pow2(43) as real == 0x800_0000_0000 as real);
}

/// Whether the numbers that a range brings together are ordinary: `b` bounds the
/// covariances and the variance of the range, `m` the coordinates and the ranges.
pub open spec fn is_rangeable(s: Pose, at: V3, z: Number, r_var: Number, b: real, m: real) -> bool {
    &&& block_within(s.p, b)
    &&& row_within(s.x, m)
    &&& row_within(range_gradient(s, at), 2 as real)
    &&& r_var is Finite && value(r_var) >= 0 as real && value(r_var) <= b
    &&& z is Finite && size(value(z)) <= m
    &&& expected_range(s, at) is Finite && size(value(expected_range(s, at))) <= m
    &&& !less(range_var(s, at, r_var), decode(MIN_INNOVATION_VAR))
    &&& b >= 1 as real
    &&& m >= 1 as real
    &&& m <= 0x1_0000_0000 as real
    &&& b * m <= 0x1_0000_0000 as real
}

/// The estimate `after` is `s`, pulled along the covariance with the line of sight to
/// `at` by the share of `off` that the variances give, but for rounding: the change
/// times the variance of what was measured is that covariance times `off`.
pub open spec fn is_pulled(
    after: Pose,
    s: Pose,
    at: V3,
    off: real,
    r_var: Number,
    b: real,
    m: real,
) -> bool {
    let h = triple(range_gradient(s, at));
    let g = image(grid(s.p), h);
    let v = value(range_var(s, at, r_var));
    let tol = 330 as real * ((b * m) * eps());
    &&& finite(after.x)
    &&& v > 0 as real
    &&& size(v - (h.dot(g) + value(r_var))) <= 1000 as real * (b * eps())
    &&& size((value(after.x.x) - value(s.x.x)) * v - g.x * off) <= tol
    &&& size((value(after.x.y) - value(s.x.y)) * v - g.y * off) <= tol
    &&& size((value(after.x.z) - value(s.x.z)) * v - g.z * off) <= tol
}

proof fn lemma_ranged_is_pulled(s: Pose, at: V3, z: Number, r_var: Number, b: real, m: real)
    requires
        is_rangeable(s, at, z, r_var, b, m),
    ensures
        is_pulled(
            ranged(s, at, z, r_var),
            s,
            at,
            value(z) - value(expected_range(s, at)),
            r_var,
            b,
            m,
        ),
{
    reveal(ranged);
    lemma_tiny();
    lemma_least_surprise();
    let (e, be) = (eps(), b * eps());
    assert(be <= b / (100000 as real) && be > 0 as real) by (nonlinear_arith)
        requires
            be == b * e,
            b >= 1 as real,
            e == (1 as real) / (0x100_0000 as real),
    ;
    assert(b <= b * m && m <= b * m) by (nonlinear_arith)
        requires
            b >= 1 as real,
            m >= 1 as real,
    ;
    let h = range_gradient(s, at);
    let (th, p) = (triple(h), s.p.apply(h));
    let g = image(grid(s.p), th);
    lemma_exactly(s.p.r0, b);
    lemma_exactly(s.p.r1, b);
    lemma_exactly(s.p.r2, b);
    lemma_dot_about(s.p.r0, h, triple(s.p.r0), b, 0 as real, 2 as real);
    lemma_dot_about(s.p.r1, h, triple(s.p.r1), b, 0 as real, 2 as real);
    lemma_dot_about(s.p.r2, h, triple(s.p.r2), b, 0 as real, 2 as real);
    let c = 3 as real * (b * 2 as real);
    assert(9 as real * (c * e) == 54 as real * be) by (nonlinear_arith)
        requires
            c == 6 as real * b,
            be == b * e,
    ;
    // The variance of the range.
    lemma_exactly(h, 2 as real);
    let w = 7 as real * b;
    lemma_dot_about(h, p, th, 2 as real, 0 as real, w);
    let tp = triple(p);
    let a = 3 as real * (2 as real * w);
    assert(0 as real * (b * e) == 0 as real) by (nonlinear_arith);
    lemma_looser(r_var, value(r_var), b, 0 as real, b, 9 as real);
    lemma_plus(h.dot(p), r_var, th.dot(tp), value(r_var), a, b, 9 as real);
    let v = range_var(s, at, r_var);
    lemma_less_value(v, decode(MIN_INNOVATION_VAR));
    lemma_product_size(th.x, tp.x - g.x, 2 as real, 54 as real * be);
    lemma_product_size(th.y, tp.y - g.y, 2 as real, 54 as real * be);
    lemma_product_size(th.z, tp.z - g.z, 2 as real, 54 as real * be);
    lemma_split_product(th.x, tp.x, g.x);
    lemma_split_product(th.y, tp.y, g.y);
    lemma_split_product(th.z, tp.z, g.z);
    let f = a + b;
    assert(12 as real * (f * e) == 516 as real * be) by (nonlinear_arith)
        requires
            f == 43 as real * b,
            be == b * e,
    ;
    // The innovation.
    let rng = expected_range(s, at);
    lemma_difference_near(z, rng, 2 as real * m);
    assert(2 as real * ((2 as real * m) * e) == 4 as real * (m * e)) by (nonlinear_arith);
    let (d, off) = (z - rng, value(z) - value(rng));
    lemma_pull(s.x.x, p.x, v, d, g.x, off, b, m);
    lemma_pull(s.x.y, p.y, v, d, g.y, off, b, m);
    lemma_pull(s.x.z, p.z, v, d, g.z, off, b, m);
}

proof fn lemma_split_product(h: real, p: real, g: real)
    ensures
        h * p == h * g + h * (p - g),
{
    assert(h * p == h * g + h * (p - g)) by (nonlinear_arith);
}

/// A range to an anchor in reach pulls the estimate towards the true range: along
/// the covariance with the line of sight, by the share of what the believed range is
/// off from the true one that the variances give. It is the range from the drone's
/// true place, with what noise was drawn, to that anchor and no other. `before` says
/// what the anchors before made of the estimate.
pub proof fn law_anchor_pulls_towards_the_true_range(
    s: Pose,
    truth: V3,
    anchors: Seq<V3>,
    draws: Seq<Pair>,
    noise: bool,
    i: int,
    b: real,
    m: real,
)
    requires
        0 <= i < anchors.len(),
        !less(decode(ANCHOR_RANGE), (truth - anchors[i]).length()),
        ({
            let before = anchored(s, truth, anchors, draws, noise, i);
            let (z, e) = (
                (truth - anchors[i]).length(),
                noise_of(draws[i].first@, draws[i].second@, range_noise(noise)),
            );
            &&& is_rangeable(before, anchors[i], z + e, anchor_var(noise), b, m)
            &&& z is Finite && size(value(z)) <= m
            &&& e is Finite && size(value(e)) <= m
        }),
    ensures
        ({
            let before = anchored(s, truth, anchors, draws, noise, i);
            let after = anchored(s, truth, anchors, draws, noise, i + 1);
            let e = noise_of(draws[i].first@, draws[i].second@, range_noise(noise));
            exists|off: real|
                #[trigger] is_pulled(after, before, anchors[i], off, anchor_var(noise), b, m)
                    && size(
                    off - (value((truth - anchors[i]).length()) + value(e) - value(
                        expected_range(before, anchors[i]),
                    )),
                ) <= 4 as real * (m * eps())
        }),
{
    let before = anchored(s, truth, anchors, draws, noise, i);
    let (r, e) = (
        (truth - anchors[i]).length(),
        noise_of(draws[i].first@, draws[i].second@, range_noise(noise)),
    );
    let z = r + e;
    lemma_ranged_is_pulled(before, anchors[i], z, anchor_var(noise), b, m);
    lemma_sum_near(r, e, 2 as real * m);
    let f = eps();
    assert(2 as real * ((2 as real * m) * f) == 4 as real * (m * f)) by (nonlinear_arith);
    let off = value(z) - value(expected_range(before, anchors[i]));
    assert(is_pulled(
        anchored(s, truth, anchors, draws, noise, i + 1),
        before,
        anchors[i],
        off,
        anchor_var(noise),
        b,
        m,
    ));
}

/// A range to a usable landmark in reach does the same, as if it were to where the
/// landmark is mapped, and with the uncertainty of the map added to that of the range.
pub proof fn law_landmark_pulls_towards_the_true_range(
    s: Pose,
    truth: V3,
    landmarks: Seq<V3>,
    chart: Chart,
    draws: Seq<Pair>,
    noise: bool,
    l: int,
    b: real,
    m: real,
)
    requires
        0 <= l < landmarks.len(),
        !less(decode(LANDMARK_OBS_RANGE), (truth - landmarks[l]).length()),
        chart.usable(l),
        ({
            let before = charted(s, truth, landmarks, chart, draws, noise, l);
            let (z, e) = (
                (truth - landmarks[l]).length(),
                noise_of(draws[l].first@, draws[l].second@, range_noise(noise)),
            );
            let v = anchor_var(noise) + chart.var(l);
            &&& is_rangeable(before, chart.map[l].pos, z + e, v, b, m)
            &&& z is Finite && size(value(z)) <= m
            &&& e is Finite && size(value(e)) <= m
        }),
    ensures
        ({
            let before = charted(s, truth, landmarks, chart, draws, noise, l);
            let after = charted(s, truth, landmarks, chart, draws, noise, l + 1);
            let e = noise_of(draws[l].first@, draws[l].second@, range_noise(noise));
            let (at, v) = (chart.map[l].pos, anchor_var(noise) + chart.var(l));
            exists|off: real|
                #[trigger] is_pulled(after, before, at, off, v, b, m) && size(
                    off - (value((truth - landmarks[l]).length()) + value(e) - value(
                        expected_range(before, at),
                    )),
                ) <= 4 as real * (m * eps())
        }),
{
    let before = charted(s, truth, landmarks, chart, draws, noise, l);
    let (r, e) = (
        (truth - landmarks[l]).length(),
        noise_of(draws[l].first@, draws[l].second@, range_noise(noise)),
    );
    let (z, at, v) = (r + e, chart.map[l].pos, anchor_var(noise) + chart.var(l));
    lemma_ranged_is_pulled(before, at, z, v, b, m);
    lemma_sum_near(r, e, 2 as real * m);
    let f = eps();
    assert(2 as real * ((2 as real * m) * f) == 4 as real * (m * f)) by (nonlinear_arith);
    let off = value(z) - value(expected_range(before, at));
    assert(is_pulled(
        charted(s, truth, landmarks, chart, draws, noise, l + 1),
        before,
        at,
        off,
        v,
        b,
        m,
    ));
}

/// What is out of reach, or not usable, changes nothing.
pub proof fn law_out_of_reach_is_ignored(
    s: Pose,
    truth: V3,
    places: Seq<V3>,
    chart: Chart,
    draws: Seq<Pair>,
    noise: bool,
    i: int,
)
    requires
        0 <= i < places.len(),
    ensures
        less(decode(ANCHOR_RANGE), (truth - places[i]).length()) ==> anchored(
            s,
            truth,
            places,
            draws,
            noise,
            i + 1,
        ) == anchored(s, truth, places, draws, noise, i),
        less(decode(LANDMARK_OBS_RANGE), (truth - places[i]).length()) || !chart.usable(i) ==> charted(
            s,
            truth,
            places,
            chart,
            draws,
            noise,
            i + 1,
        ) == charted(s, truth, places, chart, draws, noise, i),
{
}

} // verus!
