//! What a measurement teaches, without rounding: the variances that it leaves.
use crate::foresight::Outlook;
use crate::forms::{lemma_form_plus, lemma_form_shift, lemma_row_plus, Grid, Triple};
use crate::preference::{is_origin, is_positive, is_symmetric, lemma_not_negative, lemma_swap};
use crate::spectra::{
    image, inverted, lemma_cauchy_form, lemma_compose_row, lemma_dot_origin, lemma_dot_swap,
    lemma_inverted, lemma_part_dot, part,
};
use vstd::prelude::*;

verus! {

/// The variance along the line of sight `h` and the noise `r` of a range.
pub open spec fn surprise_var(p: Grid, h: Triple, r: real) -> real {
    h.dot(image(p, h)) + r
}

/// The gain of a range.
pub open spec fn range_gain(p: Grid, h: Triple, r: real) -> Triple {
    part(1 as real / surprise_var(p, h, r), image(p, h))
}

/// The covariance after a range along `h` with noise `r`: the identity less the
/// gain times `h`, times the covariance before.
pub open spec fn narrowed(p: Grid, h: Triple, r: real) -> Grid {
    let (k, back) = (range_gain(p, h, r), image(p.transposed(), h));
    Grid {
        r0: p.r0.plus(-k.x, back),
        r1: p.r1.plus(-k.y, back),
        r2: p.r2.plus(-k.z, back),
    }
}

/// The form of a narrowed covariance.
proof fn lemma_narrowed(p: Grid, h: Triple, r: real, e: Triple, a: Triple)
    requires
        is_symmetric(p),
        surprise_var(p, h, r) > 0 as real,
    ensures
        ({
            let (g, v) = (image(p, h), surprise_var(p, h, r));
            narrowed(p, h, r).form(e, a) == p.form(e, a) - (e.dot(g) * g.dot(a)) * (1 as real / v)
        }),
{
    let (g, k, n) = (image(p, h), range_gain(p, h, r), narrowed(p, h, r));
    let i = 1 as real / surprise_var(p, h, r);
    assert(p.transposed() == p);
    lemma_row_plus(p.r0, -k.x, g, a);
    lemma_row_plus(p.r1, -k.y, g, a);
    lemma_row_plus(p.r2, -k.z, g, a);
    let ga = g.dot(a);
    lemma_less_row(e.x, p.r0.dot(a), k.x, ga);
    lemma_less_row(e.y, p.r1.dot(a), k.y, ga);
    lemma_less_row(e.z, p.r2.dot(a), k.z, ga);
    lemma_part_dot(i, e, g);
    let eg = e.dot(g);
    let (x, y, z) = (e.x * k.x, e.y * k.y, e.z * k.z);
    assert(x * ga + y * ga + z * ga == (x + y + z) * ga) by (nonlinear_arith);
    assert((i * eg) * ga == (eg * ga) * i) by (nonlinear_arith);
}

proof fn lemma_less_row(e: real, p: real, k: real, g: real)
    ensures
        e * (p + (-k) * g) == e * p - (e * k) * g,
{
    let m = k * g;
    assert((-k) * g == -m) by (nonlinear_arith)
        requires
            m == k * g,
    ;
    assert(e * (p - m) == e * p - e * m) by (nonlinear_arith);
    assert(e * (k * g) == (e * k) * g) by (nonlinear_arith);
}

/// A range makes no direction vaguer and leaves every variance above zero. Along
/// the line of sight the variance `v` becomes `v` times `r` over their sum, so it
/// falls below the noise `r` of the range, however vague it was: anchors pin a
/// drone down. `e` and `a` are any directions.
pub proof fn law_range_narrows(p: Grid, h: Triple, r: real, e: Triple, a: Triple)
    requires
        is_positive(p),
        !is_origin(h),
        r > 0 as real,
    ensures
        ({
            let (n, v) = (narrowed(p, h, r), p.form(h, h));
            &&& n.form(e, e) <= p.form(e, e)
            &&& !is_origin(e) ==> n.form(e, e) > 0 as real
            &&& n.form(e, a) == n.form(a, e)
            &&& n.form(h, h) == (v * r) / (v + r)
            &&& n.form(h, h) < r
            &&& n.form(h, h) < v
        }),
{
    let (g, v) = (image(p, h), p.form(h, h));
    assert(v == h.dot(g) && v > 0 as real);
    let w = v + r;
    let i = 1 as real / w;
    assert(i * w == 1 as real && i > 0 as real) by (nonlinear_arith)
        requires
            i == 1 as real / w,
            w > 0 as real,
    ;
    lemma_narrowed(p, h, r, e, e);
    lemma_narrowed(p, h, r, h, h);
    lemma_narrowed(p, h, r, e, a);
    lemma_narrowed(p, h, r, a, e);
    lemma_dot_swap(e, g);
    lemma_dot_swap(a, g);
    lemma_dot_swap(h, g);
    lemma_swap(p, e, a);
    let (eg, ag) = (e.dot(g), a.dot(g));
    assert(eg * ag == ag * eg) by (nonlinear_arith);
    // The part along the line of sight is bounded by the two variances.
    assert(p.form(e, h) == eg);
    lemma_cauchy_form(p, e, h);
    lemma_not_negative(p, e);
    let c = p.form(e, e);
    lemma_taken(c, eg, v, r, i);
    lemma_left_over(v, r, i);
}

/// What is taken off a variance `c`.
proof fn lemma_taken(c: real, s: real, v: real, r: real, i: real)
    requires
        s * s <= c * v,
        i * (v + r) == 1 as real,
        i > 0 as real,
        v > 0 as real,
        r > 0 as real,
        c >= 0 as real,
    ensures
        (s * s) * i >= 0 as real,
        c > 0 as real ==> (s * s) * i < c,
{
    let ss = s * s;
    assert(ss >= 0 as real) by (nonlinear_arith)
        requires
            ss == s * s,
    ;
    assert(ss * i >= 0 as real) by (nonlinear_arith)
        requires
            ss >= 0 as real,
            i > 0 as real,
    ;
    let cv = c * v;
    assert(ss * i <= cv * i) by (nonlinear_arith)
        requires
            ss <= cv,
            i > 0 as real,
    ;
    assert((c * v) * i == c * (v * i)) by (nonlinear_arith);
    let vi = v * i;
    assert(vi < 1 as real) by {
        assert(i * (v + r) == v * i + r * i) by (nonlinear_arith);
        assert(r * i > 0 as real) by (nonlinear_arith)
            requires
                r > 0 as real,
                i > 0 as real,
        ;
    }
    if c > 0 as real {
        assert(c * vi < c) by (nonlinear_arith)
            requires
                vi < 1 as real,
                c > 0 as real,
        ;
    }
}

/// The variance along the line of sight.
proof fn lemma_left_over(v: real, r: real, i: real)
    requires
        i * (v + r) == 1 as real,
        i > 0 as real,
        v > 0 as real,
        r > 0 as real,
    ensures
        v - (v * v) * i == (v * r) / (v + r),
        v - (v * v) * i < r,
        v - (v * v) * i < v,
{
    let w = v + r;
    let (vi, ri) = (v * i, r * i);
    assert(i * (v + r) == v * i + r * i) by (nonlinear_arith);
    assert(vi > 0 as real && ri > 0 as real) by (nonlinear_arith)
        requires
            vi == v * i,
            ri == r * i,
            v > 0 as real,
            r > 0 as real,
            i > 0 as real,
    ;
    assert((v * v) * i == v * vi) by (nonlinear_arith)
        requires
            vi == v * i,
    ;
    let x = v - v * vi;
    assert(x == v * ri) by (nonlinear_arith)
        requires
            x == v - v * vi,
            ri == 1 as real - vi,
    ;
    let vr = v * r;
    assert(v * ri == vr * i) by (nonlinear_arith)
        requires
            ri == r * i,
            vr == v * r,
    ;
    assert(vr * i == vr / w) by (nonlinear_arith)
        requires
            i * w == 1 as real,
            w > 0 as real,
    ;
    assert(v * ri == r * vi) by (nonlinear_arith)
        requires
            ri == r * i,
            vi == v * i,
    ;
    assert(r * vi < r) by (nonlinear_arith)
        requires
            vi < 1 as real,
            r > 0 as real,
    ;
    assert(v * vi > 0 as real) by (nonlinear_arith)
        requires
            v > 0 as real,
            vi > 0 as real,
    ;
}

/// A range moves the estimate along the line of sight by the share of what it was
/// off that the variances give, so that the rest is `r` over their sum.
pub proof fn law_range_corrects(p: Grid, h: Triple, r: real, off: real)
    requires
        is_positive(p),
        !is_origin(h),
        r > 0 as real,
    ensures
        ({
            let v = p.form(h, h);
            off - h.dot(part(off, range_gain(p, h, r))) == off * (r / (v + r))
        }),
{
    let (g, v, k) = (image(p, h), p.form(h, h), range_gain(p, h, r));
    assert(v > 0 as real);
    let w = v + r;
    let i = 1 as real / w;
    assert(i * w == 1 as real) by (nonlinear_arith)
        requires
            i == 1 as real / w,
            w > 0 as real,
    ;
    lemma_part_dot(i, h, g);
    lemma_part_dot(off, h, k);
    let t = r / w;
    assert(i * v == 1 as real - t) by (nonlinear_arith)
        requires
            i * w == 1 as real,
            w == v + r,
            t == r / w,
            w > 0 as real,
    ;
    assert(off * (1 as real - t) == off - off * t) by (nonlinear_arith);
}

/// The matrix product.
pub open spec fn times_grid(a: Grid, b: Grid) -> Grid {
    Grid { r0: row_times(a.r0, b), r1: row_times(a.r1, b), r2: row_times(a.r2, b) }
}

pub open spec fn row_times(r: Triple, b: Grid) -> Triple {
    Triple {
        x: r.x * b.r0.x + r.y * b.r1.x + r.z * b.r2.x,
        y: r.x * b.r0.y + r.y * b.r1.y + r.z * b.r2.y,
        z: r.x * b.r0.z + r.y * b.r1.z + r.z * b.r2.z,
    }
}

pub proof fn lemma_times_grid(a: Grid, b: Grid, e: Triple)
    ensures
        image(times_grid(a, b), e) == image(a, image(b, e)),
{
    lemma_compose_row(a.r0, b, e);
    lemma_compose_row(a.r1, b, e);
    lemma_compose_row(a.r2, b, e);
    assert(image(times_grid(a, b), e) =~= image(a, image(b, e)));
}

/// A matrix goes over to the other side of an inner product transposed.
proof fn lemma_adjoint(h: Grid, z: Triple, x: Triple)
    ensures
        image(h.transposed(), z).dot(x) == z.dot(image(h, x)),
        z.dot(image(h, x)) == h.form(z, x),
{
    let t = h.transposed();
    let (p, q) = (image(t, z), image(h, x));
    lemma_adjoint_term(h.r0.x, h.r1.x, h.r2.x, z, x.x);
    lemma_adjoint_term(h.r0.y, h.r1.y, h.r2.y, z, x.y);
    lemma_adjoint_term(h.r0.z, h.r1.z, h.r2.z, z, x.z);
    lemma_spread_out(z.x, h.r0, x);
    lemma_spread_out(z.y, h.r1, x);
    lemma_spread_out(z.z, h.r2, x);
}

proof fn lemma_adjoint_term(a: real, b: real, c: real, z: Triple, x: real)
    ensures
        (a * z.x + b * z.y + c * z.z) * x == z.x * (a * x) + z.y * (b * x) + z.z * (c * x),
{
    let (p, q, r) = (a * z.x, b * z.y, c * z.z);
    assert((p + q + r) * x == p * x + q * x + r * x) by (nonlinear_arith);
    assert((a * z.x) * x == z.x * (a * x) && (b * z.y) * x == z.y * (b * x) && (c * z.z) * x == z.z
        * (c * x)) by (nonlinear_arith);
}

proof fn lemma_spread_out(k: real, r: Triple, x: Triple)
    ensures
        k * r.dot(x) == k * (r.x * x.x) + k * (r.y * x.y) + k * (r.z * x.z),
{
    let (a, b, c) = (r.x * x.x, r.y * x.y, r.z * x.z);
    assert(k * (a + b + c) == k * a + k * b + k * c) by (nonlinear_arith);
}

/// Whether a covariance of position and velocity is symmetric and leaves no
/// direction certain.
pub open spec fn is_unsure(o: Outlook) -> bool {
    &&& o.is_symmetric()
    &&& forall|a: Triple, b: Triple|
        !is_origin(a) || !is_origin(b) ==> #[trigger] o.spread(a, b) > 0 as real
}

/// The covariance of a measurement that sees the position through `h`, with noise
/// `r`.
pub open spec fn measured(o: Outlook, h: Grid, r: Grid) -> Grid {
    times_grid(times_grid(h, o.pp), h.transposed()).plus(1 as real, r)
}

/// One block after a measurement: `k` is the gain on its rows and `p` the block of
/// its columns for the position.
pub open spec fn settled_block(m: Grid, k: Grid, h: Grid, p: Grid) -> Grid {
    m.plus(-(1 as real), times_grid(times_grid(k, h), p))
}

/// The covariance after a measurement: the identity less the gain times what the
/// measurement sees, times the covariance before.
pub open spec fn taught(o: Outlook, h: Grid, r: Grid) -> Outlook {
    let s = inverted(measured(o, h, r));
    let (kp, kv) = (
        times_grid(times_grid(o.pp, h.transposed()), s),
        times_grid(times_grid(o.vp, h.transposed()), s),
    );
    Outlook {
        pp: settled_block(o.pp, kp, h, o.pp),
        pv: settled_block(o.pv, kp, h, o.pv),
        vp: settled_block(o.vp, kv, h, o.pp),
        vv: settled_block(o.vv, kv, h, o.pv),
    }
}

proof fn lemma_measured(o: Outlook, h: Grid, r: Grid, y: Triple, z: Triple)
    ensures
        measured(o, h, r).form(y, z) == o.pp.form(
            image(h.transposed(), y),
            image(h.transposed(), z),
        ) + r.form(y, z),
{
    let t = h.transposed();
    let m = times_grid(times_grid(h, o.pp), t);
    lemma_form_plus(m, 1 as real, r, y, z);
    let f = r.form(y, z);
    assert(1 as real * f == f) by (nonlinear_arith);
    lemma_times_grid(times_grid(h, o.pp), t, z);
    lemma_times_grid(h, o.pp, image(t, z));
    lemma_adjoint(h, y, image(o.pp, image(t, z)));
}

/// The measurement's covariance is positive.
proof fn lemma_measured_positive(o: Outlook, h: Grid, r: Grid)
    requires
        is_unsure(o),
        is_positive(r),
    ensures
        is_positive(measured(o, h, r)),
{
    let s = measured(o, h, r);
    assert forall|e: Triple| !is_origin(e) implies #[trigger] s.form(e, e) > 0 as real by {
        lemma_measured(o, h, r, e, e);
        lemma_position_spread(o, image(h.transposed(), e));
    }
    lemma_symmetric_by_form(s, o, h, r);
}

/// The spread of a position alone.
proof fn lemma_position_spread(o: Outlook, y: Triple)
    requires
        is_unsure(o),
    ensures
        o.pp.form(y, y) >= 0 as real,
        !is_origin(y) ==> o.pp.form(y, y) > 0 as real,
        o.spread(y, nowhere()) == o.pp.form(y, y),
{
    let n = nowhere();
    lemma_form_nowhere(o.pv, y);
    lemma_form_nowhere(o.vp, y);
    lemma_form_nowhere(o.vv, n);
    assert(o.spread(y, n) == o.pp.form(y, y));
    if is_origin(y) {
        assert(y =~= n);
        lemma_form_nowhere(o.pp, n);
    }
}

spec fn nowhere() -> Triple {
    Triple { x: 0 as real, y: 0 as real, z: 0 as real }
}

proof fn lemma_form_nowhere(g: Grid, y: Triple)
    ensures
        g.form(y, nowhere()) == 0 as real,
        g.form(nowhere(), y) == 0 as real,
{
    let n = nowhere();
    lemma_dot_origin(g.r0, n);
    lemma_dot_origin(g.r1, n);
    lemma_dot_origin(g.r2, n);
    lemma_zero_times(y.x, y.y, y.z);
    lemma_zero_times(g.r0.dot(y), g.r1.dot(y), g.r2.dot(y));
}

proof fn lemma_zero_times(a: real, b: real, c: real)
    ensures
        a * (0 as real) == 0 as real && b * (0 as real) == 0 as real && c * (0 as real) == 0 as real,
        0 as real * a == 0 as real && 0 as real * b == 0 as real && 0 as real * c == 0 as real,
{
    assert(a * (0 as real) == 0 as real && b * (0 as real) == 0 as real && c * (0 as real)
        == 0 as real) by (nonlinear_arith);
    assert(0 as real * a == 0 as real && 0 as real * b == 0 as real && 0 as real * c == 0 as real)
        by (nonlinear_arith);
}

/// An entry as a form.
proof fn lemma_entry(g: Grid, y: Triple, z: Triple)
    requires
        y.x == 1 as real && y.y == 0 as real && y.z == 0 as real || y.x == 0 as real && y.y
            == 1 as real && y.z == 0 as real || y.x == 0 as real && y.y == 0 as real && y.z
            == 1 as real,
        z.x == 1 as real && z.y == 0 as real && z.z == 0 as real || z.x == 0 as real && z.y
            == 1 as real && z.z == 0 as real || z.x == 0 as real && z.y == 0 as real && z.z
            == 1 as real,
    ensures
        ({
            let row = if y.x == 1 as real {
                g.r0
            } else if y.y == 1 as real {
                g.r1
            } else {
                g.r2
            };
            g.form(y, z) == (if z.x == 1 as real {
                row.x
            } else if z.y == 1 as real {
                row.y
            } else {
                row.z
            })
        }),
{
    lemma_pick(g.r0, z);
    lemma_pick(g.r1, z);
    lemma_pick(g.r2, z);
    lemma_pick(Triple { x: g.r0.dot(z), y: g.r1.dot(z), z: g.r2.dot(z) }, y);
}

proof fn lemma_pick(r: Triple, z: Triple)
    ensures
        z.x == 1 as real && z.y == 0 as real && z.z == 0 as real ==> r.dot(z) == r.x && z.dot(r)
            == r.x,
        z.x == 0 as real && z.y == 1 as real && z.z == 0 as real ==> r.dot(z) == r.y && z.dot(r)
            == r.y,
        z.x == 0 as real && z.y == 0 as real && z.z == 1 as real ==> r.dot(z) == r.z && z.dot(r)
            == r.z,
{
    lemma_zero_times(r.x, r.y, r.z);
    assert(r.x * (1 as real) == r.x && r.y * (1 as real) == r.y && r.z * (1 as real) == r.z)
        by (nonlinear_arith);
    assert(1 as real * r.x == r.x && 1 as real * r.y == r.y && 1 as real * r.z == r.z)
        by (nonlinear_arith);
}

proof fn lemma_symmetric_by_form(s: Grid, o: Outlook, h: Grid, r: Grid)
    requires
        s == measured(o, h, r),
        o.is_symmetric(),
        is_symmetric(r),
    ensures
        is_symmetric(s),
{
    let (i, n) = (1 as real, 0 as real);
    let (x, y, z) = (
        Triple { x: i, y: n, z: n },
        Triple { x: n, y: i, z: n },
        Triple { x: n, y: n, z: i },
    );
    lemma_both_ways(o, h, r, x, y);
    lemma_both_ways(o, h, r, x, z);
    lemma_both_ways(o, h, r, y, z);
    lemma_entry(s, x, y);
    lemma_entry(s, y, x);
    lemma_entry(s, x, z);
    lemma_entry(s, z, x);
    lemma_entry(s, y, z);
    lemma_entry(s, z, y);
    assert(s =~= s.transposed());
}

proof fn lemma_both_ways(o: Outlook, h: Grid, r: Grid, y: Triple, z: Triple)
    requires
        o.is_symmetric(),
        is_symmetric(r),
    ensures
        measured(o, h, r).form(y, z) == measured(o, h, r).form(z, y),
{
    lemma_measured(o, h, r, y, z);
    lemma_measured(o, h, r, z, y);
    let t = h.transposed();
    lemma_swap(o.pp, image(t, y), image(t, z));
    lemma_swap(r, y, z);
}

/// What one block loses: `x` is the block times `b`, seen through `h`.
proof fn lemma_block_loss(m: Grid, base: Grid, s: Grid, h: Grid, p: Grid, a: Triple, b: Triple)
    ensures
        ({
            let k = times_grid(times_grid(base, h.transposed()), s);
            let w = image(h, image(p, b));
            settled_block(m, k, h, p).form(a, b) == m.form(a, b) - base.form(
                a,
                image(h.transposed(), image(s, w)),
            )
        }),
{
    let t = h.transposed();
    let k = times_grid(times_grid(base, t), s);
    let w = image(h, image(p, b));
    let c = times_grid(times_grid(k, h), p);
    lemma_form_plus(m, -(1 as real), c, a, b);
    lemma_times_grid(times_grid(k, h), p, b);
    lemma_times_grid(k, h, image(p, b));
    lemma_times_grid(times_grid(base, t), s, w);
    lemma_times_grid(base, t, image(s, w));
    let f = c.form(a, b);
    assert(-(1 as real) * f == -f) by (nonlinear_arith);
}

/// The mixed variance of a position `y` with `a` and `b`.
spec fn along(o: Outlook, y: Triple, a: Triple, b: Triple) -> real {
    o.pp.form(y, a) + o.pv.form(y, b)
}

/// The measurement sees the position and velocity as `w`; `z` weighs that by the
/// certainty of the measurement.
spec fn view_of(o: Outlook, h: Grid, a: Triple, b: Triple) -> Triple {
    image(h, image(o.pp, a).plus(1 as real, image(o.pv, b)))
}

/// The spread after a measurement is what it was, less what was seen.
proof fn lemma_taught(o: Outlook, h: Grid, r: Grid, a: Triple, b: Triple)
    requires
        is_unsure(o),
        is_positive(r),
    ensures
        ({
            let (s, w) = (inverted(measured(o, h, r)), view_of(o, h, a, b));
            taught(o, h, r).spread(a, b) == o.spread(a, b) - s.form(w, w)
        }),
{
    lemma_measured_positive(o, h, r);
    let g = measured(o, h, r);
    lemma_inverted(g);
    let (s, t) = (inverted(g), h.transposed());
    let (pa, vb) = (image(o.pp, a), image(o.pv, b));
    let (wa, wb, w) = (image(h, pa), image(h, vb), view_of(o, h, a, b));
    let one = 1 as real;
    lemma_image_plus(h, pa, vb);
    assert(w == wa.plus(one, wb));
    lemma_block_loss(o.pp, o.pp, s, h, o.pp, a, a);
    lemma_block_loss(o.pv, o.pp, s, h, o.pv, a, b);
    lemma_block_loss(o.vp, o.vp, s, h, o.pp, b, a);
    lemma_block_loss(o.vv, o.vp, s, h, o.pv, b, b);
    let (za, zb, z) = (image(s, wa), image(s, wb), image(s, w));
    lemma_image_plus(s, wa, wb);
    assert(z == za.plus(one, zb));
    // Each loss is an inner product with what was seen.
    lemma_position_loss(o, h, a, za);
    lemma_position_loss(o, h, a, zb);
    lemma_velocity_loss(o, h, b, za);
    lemma_velocity_loss(o, h, b, zb);
    lemma_sum_of_both(wa, wb, za, zb);
}

proof fn lemma_image_plus(h: Grid, x: Triple, y: Triple)
    ensures
        image(h, x.plus(1 as real, y)) == image(h, x).plus(1 as real, image(h, y)),
{
    lemma_row_plus(x, 1 as real, y, h.r0);
    lemma_row_plus(x, 1 as real, y, h.r1);
    lemma_row_plus(x, 1 as real, y, h.r2);
    assert(image(h, x.plus(1 as real, y)) =~= image(h, x).plus(1 as real, image(h, y)));
}

proof fn lemma_position_loss(o: Outlook, h: Grid, a: Triple, z: Triple)
    requires
        o.is_symmetric(),
    ensures
        o.pp.form(a, image(h.transposed(), z)) == z.dot(image(h, image(o.pp, a))),
{
    let y = image(h.transposed(), z);
    lemma_swap(o.pp, a, y);
    lemma_adjoint(h, z, image(o.pp, a));
}

proof fn lemma_velocity_loss(o: Outlook, h: Grid, b: Triple, z: Triple)
    requires
        o.is_symmetric(),
    ensures
        o.vp.form(b, image(h.transposed(), z)) == z.dot(image(h, image(o.pv, b))),
{
    let y = image(h.transposed(), z);
    assert(o.pv.transposed() == o.vp);
    lemma_adjoint(o.pv, y, b);
    lemma_dot_swap(image(o.vp, y), b);
    lemma_adjoint(h, z, image(o.pv, b));
}

proof fn lemma_sum_of_both(wa: Triple, wb: Triple, za: Triple, zb: Triple)
    ensures
        za.dot(wa) + zb.dot(wa) + za.dot(wb) + zb.dot(wb) == wa.plus(1 as real, wb).dot(
            za.plus(1 as real, zb),
        ),
{
    let (w, z, one) = (wa.plus(1 as real, wb), za.plus(1 as real, zb), 1 as real);
    lemma_row_plus(wa, one, wb, z);
    lemma_row_plus(za, one, zb, wa);
    lemma_row_plus(za, one, zb, wb);
    let (p, q) = (zb.dot(wa), zb.dot(wb));
    let r = wb.dot(z);
    assert(one * p == p && one * q == q && one * r == r) by (nonlinear_arith)
        requires
            one == 1 as real,
    ;
    lemma_dot_swap(wa, z);
    lemma_dot_swap(wb, z);
}

/// The square of a mixed variance is at most the product of the two.
proof fn lemma_cauchy_spread(o: Outlook, y: Triple, a: Triple, b: Triple)
    requires
        is_unsure(o),
    ensures
        along(o, y, a, b) * along(o, y, a, b) <= o.pp.form(y, y) * o.spread(a, b),
        o.spread(a, b) >= 0 as real,
{
    let (x, f, c) = (along(o, y, a, b), o.pp.form(y, y), o.spread(a, b));
    lemma_position_spread(o, y);
    lemma_spread_sign(o, a, b);
    if is_origin(y) {
        assert(y =~= nowhere());
        lemma_form_nowhere(o.pp, a);
        lemma_form_nowhere(o.pv, b);
        assert(x * x == 0 as real && f * c == 0 as real) by (nonlinear_arith)
            requires
                x == 0 as real,
                f == 0 as real,
        ;
    } else {
        let k = -(x / f);
        let u = a.plus(k, y);
        lemma_spread_sign(o, u, b);
        lemma_form_shift(o.pp, u, a, k, y);
        lemma_form_shift(o.pp, a, a, k, y);
        lemma_form_shift(o.pp, y, a, k, y);
        lemma_form_shift(o.pv, b, a, k, y);
        lemma_form_shift(o.vp, b, a, k, y);
        lemma_swap(o.pp, a, y);
        lemma_crossed(o, y, b);
        lemma_least_spread(c, x, f, k, o.pp.form(y, a), o.pv.form(y, b));
    }
}

proof fn lemma_crossed(o: Outlook, y: Triple, b: Triple)
    requires
        o.is_symmetric(),
    ensures
        o.vp.form(b, y) == o.pv.form(y, b),
{
    assert(o.pv.transposed() == o.vp);
    lemma_adjoint(o.pv, y, b);
    lemma_dot_swap(image(o.vp, y), b);
}

proof fn lemma_spread_sign(o: Outlook, a: Triple, b: Triple)
    requires
        is_unsure(o),
    ensures
        o.spread(a, b) >= 0 as real,
{
    if is_origin(a) && is_origin(b) {
        assert(a =~= nowhere() && b =~= nowhere());
        lemma_form_nowhere(o.pp, a);
        lemma_form_nowhere(o.pv, a);
        lemma_form_nowhere(o.vp, a);
        lemma_form_nowhere(o.vv, a);
    }
}

proof fn lemma_least_spread(c: real, x: real, f: real, k: real, p: real, q: real)
    requires
        f > 0 as real,
        k == -(x / f),
        x == p + q,
        c + k * p + k * (p + k * f) + k * q + k * q >= 0 as real,
    ensures
        x * x <= f * c,
{
    assert(k * f == -x) by (nonlinear_arith)
        requires
            k == -(x / f),
            f > 0 as real,
    ;
    let kf = k * f;
    assert(k * (p + kf) == k * p + k * kf) by (nonlinear_arith);
    assert(k * p + k * q == k * x) by (nonlinear_arith)
        requires
            x == p + q,
    ;
    assert(k * kf == -(k * x)) by (nonlinear_arith)
        requires
            kf == -x,
    ;
    let m = c + k * x;
    assert(m * f >= 0 as real) by (nonlinear_arith)
        requires
            m >= 0 as real,
            f > 0 as real,
    ;
    assert((c + k * x) * f == c * f + (k * f) * x) by (nonlinear_arith);
    assert((-x) * x == -(x * x) && c * f == f * c) by (nonlinear_arith);
}

/// A measurement of a neighbour makes no direction of position and velocity
/// vaguer, and none negative. `a` and `b` are any directions of the two.
pub proof fn law_measurement_narrows(o: Outlook, h: Grid, r: Grid, a: Triple, b: Triple)
    requires
        is_unsure(o),
        is_positive(r),
    ensures
        taught(o, h, r).spread(a, b) <= o.spread(a, b),
        taught(o, h, r).spread(a, b) >= 0 as real,
{
    lemma_measured_positive(o, h, r);
    let g = measured(o, h, r);
    lemma_inverted(g);
    lemma_taught(o, h, r, a, b);
    let (s, w) = (inverted(g), view_of(o, h, a, b));
    lemma_not_negative(s, w);
    let z = image(s, w);
    assert(image(g, z) == w);
    let y = image(h.transposed(), z);
    // What is lost is the mixed variance with a position that the measurement sees.
    let x = s.form(w, w);
    assert(x == w.dot(z) && g.form(z, z) == z.dot(w));
    lemma_dot_swap(w, z);
    lemma_seen(o, h, a, b, z);
    lemma_measured(o, h, r, z, z);
    lemma_not_negative(r, z);
    lemma_cauchy_spread(o, y, a, b);
    lemma_no_more(x, o.pp.form(y, y), o.spread(a, b));
}

proof fn lemma_seen(o: Outlook, h: Grid, a: Triple, b: Triple, z: Triple)
    ensures
        z.dot(view_of(o, h, a, b)) == along(o, image(h.transposed(), z), a, b),
{
    let (pa, vb, y) = (image(o.pp, a), image(o.pv, b), image(h.transposed(), z));
    let one = 1 as real;
    let u = pa.plus(one, vb);
    lemma_adjoint(h, z, u);
    lemma_row_plus(pa, one, vb, y);
    let f = y.dot(vb);
    assert(one * f == f) by (nonlinear_arith)
        requires
            one == 1 as real,
    ;
}

proof fn lemma_no_more(x: real, f: real, c: real)
    requires
        x * x <= f * c,
        f <= x,
        x >= 0 as real,
        c >= 0 as real,
    ensures
        x <= c,
{
    if x > 0 as real {
        assert(f * c <= x * c) by (nonlinear_arith)
            requires
                f <= x,
                c >= 0 as real,
        ;
        assert(x <= c) by (nonlinear_arith)
            requires
                x * x <= x * c,
                x > 0 as real,
        ;
    }
}

} // verus!
