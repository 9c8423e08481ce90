//! What a sighting teaches of a neighbour, as computed: position, velocity and
//! covariance are all corrected together.
use crate::consistency::lemma_one;
use crate::error::{
    eps, lemma_negated_value, lemma_no_value, lemma_product_error, lemma_sum_error, lemma_tiny,
    size, value,
};
use crate::foresight::{block_within, close, lemma_op, outlook, row_close, row_within};
use crate::forms::{grid, triple, Grid, Triple};
use crate::learning::{row_times, settled_block, times_grid};
use crate::matrix::{M3, M6, dot_onto};
use crate::metric::lemma_product_size;
use crate::neighbors::{lemma_place, noted, place, Entry, Sighting};
use crate::number::{zero, Number};
use crate::spectra::{image, lemma_compose_row, lemma_part_dot, part};
use crate::tolerance::{both, within_reach};
use crate::track::{corrected, innovation, innovation_cov, position_jacobian, times_tall, Estimate};
use crate::vector::V3;
use vstd::prelude::*;

verus! {

/// The row `v` is `t`, which is at most `a`, within `n` roundings of that.
pub open spec fn is_nearly(v: V3, t: Triple, a: real, n: real) -> bool {
    row_close(v, t, n * (a * eps())) && within_reach(t, a)
}

/// A number that is nearly `t`.
pub open spec fn is_about(v: Number, t: real, a: real, n: real) -> bool {
    &&& v is Finite
    &&& size(value(v) - t) <= n * (a * eps())
    &&& size(t) <= a
}

/// A few roundings of `a` are a small part of it.
pub proof fn lemma_few(a: real, n: real)
    requires
        a >= 1 as real,
        n >= 0 as real,
        n <= 1000 as real,
    ensures
        n * (a * eps()) <= a / (1000 as real),
        n * (a * eps()) >= 0 as real,
        a * eps() >= eps(),
{
    lemma_tiny();
    let e = eps();
    let ae = a * e;
    assert(ae >= e && ae <= a / (0x100_0000 as real)) by (nonlinear_arith)
        requires
            ae == a * e,
            a >= 1 as real,
            e == (1 as real) / (0x100_0000 as real),
    ;
    assert(n * ae <= 1000 as real * ae && n * ae >= 0 as real) by (nonlinear_arith)
        requires
            n >= 0 as real,
            n <= 1000 as real,
            ae >= 0 as real,
    ;
}

/// One term: a component that is nearly `t`, times an entry `w` of at most `f`.
pub proof fn lemma_term(v: Number, w: Number, t: real, a: real, n: real, f: real)
    requires
        is_about(v, t, a, n),
        w is Finite,
        size(value(w)) <= f,
        a >= 1 as real,
        f >= 1 as real,
        n >= 0 as real,
        n <= 1000 as real,
        a * f <= 0x40_0000_0000_0000 as real,
    ensures
        is_about(v * w, t * value(w), a * f, n + 3 as real),
{
    lemma_tiny();
    lemma_few(a, n);
    let (e, wv, af) = (eps(), value(w), a * f);
    let (d, ae) = (value(v) - t, a * e);
    assert(af >= 1 as real) by (nonlinear_arith)
        requires
            af == a * f,
            a >= 1 as real,
            f >= 1 as real,
    ;
    lemma_product_size(d, wv, n * ae, f);
    lemma_product_size(t, wv, a, f);
    assert((n * ae) * f == n * (af * e)) by (nonlinear_arith)
        requires
            ae == a * e,
            af == a * f,
    ;
    assert(value(v) * wv == t * wv + d * wv) by (nonlinear_arith)
        requires
            d == value(v) - t,
    ;
    lemma_few(af, n);
    lemma_product_error(v, w);
    let (x, most) = (value(v) * wv, af + af / (1000 as real));
    lemma_op(value(v * w), x, most);
    let z = af * e;
    assert(most * (2 as real * e) <= 3 as real * z) by (nonlinear_arith)
        requires
            most == af + af / (1000 as real),
            z == af * e,
            af >= 1 as real,
            e > 0 as real,
    ;
    assert((n + 3 as real) * z == n * z + 3 as real * z) by (nonlinear_arith);
}

/// One sum: of terms that are nearly `t` and `u`.
pub proof fn lemma_plus(v: Number, w: Number, t: real, u: real, a: real, b: real, n: real)
    requires
        is_about(v, t, a, n),
        is_about(w, u, b, n),
        a >= 1 as real,
        b >= 1 as real,
        n >= 0 as real,
        n <= 1000 as real,
        a + b <= 0x100_0000_0000_0000 as real,
    ensures
        is_about(v + w, t + u, a + b, n + 3 as real),
{
    lemma_tiny();
    let (e, c) = (eps(), a + b);
    assert(n * (a * e) + n * (b * e) == n * (c * e)) by (nonlinear_arith)
        requires
            c == a + b,
    ;
    lemma_few(c, n);
    lemma_sum_error(v, w);
    let (x, most) = (value(v) + value(w), c + c / (1000 as real));
    lemma_op(value(v + w), x, most);
    let z = c * e;
    assert(most * (2 as real * e) <= 3 as real * z) by (nonlinear_arith)
        requires
            most == c + c / (1000 as real),
            z == c * e,
            c >= 1 as real,
            e > 0 as real,
    ;
    assert((n + 3 as real) * z == n * z + 3 as real * z) by (nonlinear_arith);
}

/// More roundings, and a larger bound.
pub proof fn lemma_looser(v: Number, t: real, a: real, n: real, b: real, k: real)
    requires
        is_about(v, t, a, n),
        a <= b,
        n <= k,
        a >= 0 as real,
        n >= 0 as real,
    ensures
        is_about(v, t, b, k),
{
    lemma_tiny();
    let e = eps();
    let (x, y) = (a * e, b * e);
    assert(x <= y && x >= 0 as real) by (nonlinear_arith)
        requires
            x == a * e,
            y == b * e,
            a <= b,
            a >= 0 as real,
            e > 0 as real,
    ;
    assert(n * x <= k * y) by (nonlinear_arith)
        requires
            x <= y,
            x >= 0 as real,
            n <= k,
            n >= 0 as real,
    ;
}

proof fn lemma_looser_row(v: V3, t: Triple, a: real, n: real, b: real, k: real)
    requires
        is_nearly(v, t, a, n),
        a <= b,
        n <= k,
        a >= 0 as real,
        n >= 0 as real,
    ensures
        is_nearly(v, t, b, k),
{
    lemma_looser(v.x, t.x, a, n, b, k);
    lemma_looser(v.y, t.y, a, n, b, k);
    lemma_looser(v.z, t.z, a, n, b, k);
}

/// A dot product with a vector `w` whose components are at most `f`.
pub proof fn lemma_dot_about(v: V3, w: V3, t: Triple, a: real, n: real, f: real)
    requires
        is_nearly(v, t, a, n),
        row_within(w, f),
        a >= 1 as real,
        f >= 1 as real,
        n >= 0 as real,
        n <= 900 as real,
        a * f <= 0x40_0000_0000_0000 as real,
    ensures
        is_about(v.dot(w), t.dot(triple(w)), 3 as real * (a * f), n + 9 as real),
{
    let af = a * f;
    assert(af >= 1 as real) by (nonlinear_arith)
        requires
            af == a * f,
            a >= 1 as real,
            f >= 1 as real,
    ;
    lemma_term(v.x, w.x, t.x, a, n, f);
    lemma_term(v.y, w.y, t.y, a, n, f);
    lemma_term(v.z, w.z, t.z, a, n, f);
    let (x, y, z) = (t.x * value(w.x), t.y * value(w.y), t.z * value(w.z));
    lemma_plus(v.x * w.x, v.y * w.y, x, y, af, af, n + 3 as real);
    lemma_looser(v.z * w.z, z, af, n + 3 as real, af, n + 6 as real);
    lemma_plus(v.x * w.x + v.y * w.y, v.z * w.z, x + y, z, af + af, af, n + 6 as real);
}

/// A dot product added onto `acc`.
proof fn lemma_onto_about(acc: Number, s: real, v: V3, w: V3, t: Triple, b: real, a: real, n: real, f: real)
    requires
        is_about(acc, s, b, n),
        is_nearly(v, t, a, n),
        row_within(w, f),
        a >= 1 as real,
        b >= 1 as real,
        f >= 1 as real,
        n >= 0 as real,
        n <= 900 as real,
        a * f <= 0x10_0000_0000_0000 as real,
        b <= 0x40_0000_0000_0000 as real,
    ensures
        is_about(
            dot_onto(acc, v, w),
            s + t.dot(triple(w)),
            b + 3 as real * (a * f),
            n + 12 as real,
        ),
{
    let af = a * f;
    assert(af >= 1 as real) by (nonlinear_arith)
        requires
            af == a * f,
            a >= 1 as real,
            f >= 1 as real,
    ;
    lemma_term(v.x, w.x, t.x, a, n, f);
    lemma_term(v.y, w.y, t.y, a, n, f);
    lemma_term(v.z, w.z, t.z, a, n, f);
    let (x, y, z) = (t.x * value(w.x), t.y * value(w.y), t.z * value(w.z));
    let (p, q, r) = (v.x * w.x, v.y * w.y, v.z * w.z);
    lemma_looser(acc, s, b, n, b, n + 3 as real);
    lemma_plus(acc, p, s, x, b, af, n + 3 as real);
    lemma_looser(q, y, af, n + 3 as real, af, n + 6 as real);
    lemma_plus(acc + p, q, s + x, y, b + af, af, n + 6 as real);
    lemma_looser(r, z, af, n + 3 as real, af, n + 9 as real);
    lemma_plus(acc + p + q, r, s + x + y, z, b + af + af, af, n + 9 as real);
}

/// A row times a matrix.
proof fn lemma_row_product(v: V3, m: M3, t: Triple, a: real, n: real, f: real)
    requires
        is_nearly(v, t, a, n),
        block_within(m, f),
        a >= 1 as real,
        f >= 1 as real,
        n >= 0 as real,
        n <= 900 as real,
        a * f <= 0x40_0000_0000_0000 as real,
    ensures
        is_nearly(
            m.transposed().rows_on(v),
            row_times(t, grid(m)),
            3 as real * (a * f),
            n + 9 as real,
        ),
{
    let c = m.transposed();
    lemma_dot_about(v, c.r0, t, a, n, f);
    lemma_dot_about(v, c.r1, t, a, n, f);
    lemma_dot_about(v, c.r2, t, a, n, f);
}

/// A row times a matrix, added onto another row.
proof fn lemma_row_onto(
    acc: V3,
    s: Triple,
    v: V3,
    m: M3,
    t: Triple,
    b: real,
    a: real,
    n: real,
    f: real,
)
    requires
        is_nearly(acc, s, b, n),
        is_nearly(v, t, a, n),
        block_within(m, f),
        a >= 1 as real,
        b >= 1 as real,
        f >= 1 as real,
        n >= 0 as real,
        n <= 900 as real,
        a * f <= 0x10_0000_0000_0000 as real,
        b <= 0x40_0000_0000_0000 as real,
    ensures
        is_nearly(
            m.transposed().rows_on_onto(acc, v),
            both(s, row_times(t, grid(m))),
            b + 3 as real * (a * f),
            n + 12 as real,
        ),
{
    let c = m.transposed();
    lemma_onto_about(acc.x, s.x, v, c.r0, t, b, a, n, f);
    lemma_onto_about(acc.y, s.y, v, c.r1, t, b, a, n, f);
    lemma_onto_about(acc.z, s.z, v, c.r2, t, b, a, n, f);
}

pub proof fn lemma_exactly(v: V3, b: real)
    requires
        row_within(v, b),
    ensures
        is_nearly(v, triple(v), b, 0 as real),
{
    assert(0 as real * (b * eps()) == 0 as real) by (nonlinear_arith);
}

proof fn lemma_nil()
    ensures
        block_within(M3::nil(), 1 as real),
        block_within(M3::nil().transposed(), 1 as real),
        forall|t: Triple| #[trigger]
            row_times(t, grid(M3::nil())) == (Triple { x: 0 as real, y: 0 as real, z: 0 as real }),
        forall|t: Triple| #[trigger]
            row_times(t, grid(M3::nil().transposed())) == (Triple {
                x: 0 as real,
                y: 0 as real,
                z: 0 as real,
            }),
{
    lemma_no_value(zero());
    let (g, h) = (grid(M3::nil()), grid(M3::nil().transposed()));
    assert forall|t: Triple| #[trigger]
        row_times(t, g) == (Triple { x: 0 as real, y: 0 as real, z: 0 as real }) by {
        lemma_nothing_of(t);
    }
    assert forall|t: Triple| #[trigger]
        row_times(t, h) == (Triple { x: 0 as real, y: 0 as real, z: 0 as real }) by {
        lemma_nothing_of(t);
    }
}

proof fn lemma_nothing_of(t: Triple)
    ensures
        t.x * (0 as real) == 0 as real,
        t.y * (0 as real) == 0 as real,
        t.z * (0 as real) == 0 as real,
{
    assert(t.x * (0 as real) == 0 as real && t.y * (0 as real) == 0 as real && t.z * (0 as real)
        == 0 as real) by (nonlinear_arith);
}

/// The gain of one state: `p` is its row of covariances with the position, `x` that
/// with the velocity.
spec fn gain_row(p: V3, x: V3, h: M3, g: M3) -> V3 {
    let o = M3::nil().transposed();
    g.transposed().rows_on(
        o.transposed().rows_on_onto(h.transposed().transposed().rows_on(p), x),
    )
}

spec fn gain_of(p: Triple, h: Grid, g: Grid) -> Triple {
    row_times(row_times(p, h.transposed()), g)
}

proof fn lemma_gain_row(p: V3, x: V3, h: M3, g: M3, b: real, c: real, f: real)
    requires
        row_within(p, b),
        row_within(x, b),
        block_within(h, c),
        block_within(g, f),
        b >= 1 as real,
        c >= 1 as real,
        f >= 1 as real,
        (b * c) * f <= 0x1_0000_0000_0000 as real,
    ensures
        is_nearly(
            gain_row(p, x, h, g),
            gain_of(triple(p), grid(h), grid(g)),
            18 as real * ((b * c) * f),
            30 as real,
        ),
{
    let bc = b * c;
    assert(bc >= b && bc >= 1 as real) by (nonlinear_arith)
        requires
            bc == b * c,
            b >= 1 as real,
            c >= 1 as real,
    ;
    assert(bc * f >= bc) by (nonlinear_arith)
        requires
            bc >= 1 as real,
            f >= 1 as real,
    ;
    lemma_nil();
    lemma_exactly(p, b);
    lemma_exactly(x, b);
    let (ht, o) = (h.transposed(), M3::nil().transposed());
    assert(grid(ht) =~= grid(h).transposed());
    let (tp, tx) = (triple(p), triple(x));
    lemma_row_product(p, ht, tp, b, 0 as real, c);
    let y = ht.transposed().rows_on(p);
    let ty = row_times(tp, grid(ht));
    lemma_looser_row(x, tx, b, 0 as real, b, 9 as real);
    assert(b * 1 as real == b) by (nonlinear_arith);
    lemma_row_onto(y, ty, x, o, tx, 3 as real * bc, b, 9 as real, 1 as real);
    let z = o.transposed().rows_on_onto(y, x);
    assert(both(ty, row_times(tx, grid(o))) =~= ty);
    lemma_looser_row(z, ty, 3 as real * bc + 3 as real * b, 21 as real, 6 as real * bc, 21 as real);
    let d = 6 as real * bc;
    assert(d * f == 6 as real * (bc * f)) by (nonlinear_arith)
        requires
            d == 6 as real * bc,
    ;
    lemma_row_product(z, g, ty, d, 21 as real, f);
}

/// One state corrected by the innovation `y`.
proof fn lemma_corrected_state(
    x0: Number,
    p: V3,
    x: V3,
    h: M3,
    g: M3,
    y: V3,
    b: real,
    c: real,
    f: real,
    a: real,
)
    requires
        x0 is Finite,
        size(value(x0)) <= a * b,
        row_within(p, b),
        row_within(x, b),
        block_within(h, c),
        block_within(g, f),
        row_within(y, a),
        b >= 1 as real,
        c >= 1 as real,
        f >= 1 as real,
        a >= 1 as real,
        ((b * c) * f) * a <= 0x1000_0000_0000 as real,
    ensures
        ({
            let u = image(grid(h).transposed(), image(grid(g), triple(y)));
            let r = x0 + gain_row(p, x, h, g).dot(y);
            &&& r is Finite
            &&& size(value(r) - (value(x0) + triple(p).dot(u))) <= 2310 as real * ((((b * c) * f) * a)
                * eps())
        }),
{
    lemma_tiny();
    let bcf = (b * c) * f;
    let s = bcf * a;
    assert(bcf >= b && bcf >= 1 as real) by {
        let bc = b * c;
        assert(bc >= b) by (nonlinear_arith)
            requires
                bc == b * c,
                b >= 1 as real,
                c >= 1 as real,
        ;
        assert(bc * f >= bc) by (nonlinear_arith)
            requires
                bc >= 1 as real,
                f >= 1 as real,
        ;
    }
    assert(s >= bcf && s >= a * b) by (nonlinear_arith)
        requires
            s == bcf * a,
            a >= 1 as real,
            bcf >= b,
            b >= 1 as real,
    ;
    lemma_gain_row(p, x, h, g, b, c, f);
    let (k, t) = (gain_row(p, x, h, g), gain_of(triple(p), grid(h), grid(g)));
    let d = 18 as real * bcf;
    assert(d * a == 18 as real * s) by (nonlinear_arith)
        requires
            d == 18 as real * bcf,
            s == bcf * a,
    ;
    lemma_dot_about(k, y, t, d, 30 as real, a);
    let (e, w) = (eps(), 54 as real * s);
    assert(0 as real * (s * e) == 0 as real) by (nonlinear_arith);
    lemma_looser(x0, value(x0), s, 0 as real, s, 39 as real);
    lemma_plus(x0, k.dot(y), value(x0), t.dot(triple(y)), s, w, 39 as real);
    let v = s + w;
    assert(42 as real * (v * e) == 2310 as real * (s * e)) by (nonlinear_arith)
        requires
            v == 55 as real * s,
    ;
    // The gain applied is the covariance times what the measurement asks for.
    let (ht, gg, yy) = (grid(h).transposed(), grid(g), triple(y));
    let q = row_times(triple(p), ht);
    lemma_compose_row(q, gg, yy);
    lemma_compose_row(triple(p), ht, image(gg, yy));
}

/// What is known before a sighting of the drone `j`: it is tracked, its entry is
/// `e`, and the measurement can be inverted. `b` bounds the covariances, `c` how the
/// measurement changes with the position, `f` the inverse of its variance, and `a`
/// the innovation.
pub open spec fn is_teachable(
    s: Seq<Entry>,
    j: int,
    ego: V3,
    z: Sighting,
    r: M3,
    b: real,
    c: real,
    f: real,
    a: real,
) -> bool {
    let e = s[place(s, j)].est;
    let h = position_jacobian(e.pos - ego);
    let v = innovation_cov(e.cov, h, r);
    &&& place(s, j) < s.len()
    &&& !v.is_singular()
    &&& block_within(e.cov.pp, b) && block_within(e.cov.pv, b)
    &&& block_within(e.cov.vp, b) && block_within(e.cov.vv, b)
    &&& block_within(h, c)
    &&& block_within(v.inverse(), f)
    &&& row_within(innovation(z.measured@, z.expected@), a)
    &&& row_within(e.pos, a * b)
    &&& row_within(e.vel, a * b)
    &&& b >= 1 as real
    &&& c >= 1 as real
    &&& f >= 1 as real
    &&& a >= 1 as real
}

/// The position that would have to be off for the measurement to come out as it
/// did, each of its errors weighed by how uncertain it was.
pub open spec fn lesson(e: Estimate, ego: V3, z: Sighting, r: M3) -> Triple {
    let h = position_jacobian(e.pos - ego);
    let g = innovation_cov(e.cov, h, r).inverse();
    image(
        grid(h).transposed(),
        image(grid(g), triple(innovation(z.measured@, z.expected@))),
    )
}

/// A sighting of a tracked neighbour corrects both its position and its velocity:
/// each by its covariance with the position, applied to one and the same lesson. So
/// the velocity is learned though only the position is measured. All other tracks
/// stay as they are.
pub proof fn law_sighting_teaches_position_and_velocity(
    s: Seq<Entry>,
    j: int,
    ego: V3,
    z: Sighting,
    r: M3,
    now: Number,
    b: real,
    c: real,
    f: real,
    a: real,
)
    requires
        is_teachable(s, j, ego, z, r, b, c, f, a),
        ((b * c) * f) * a <= 0x1000_0000_0000 as real,
    ensures
        ({
            let t = noted(s, j, ego, z, r, now);
            let i = place(s, j);
            let (e, after) = (s[i].est, t[i].est);
            let (u, tol) = (lesson(e, ego, z, r), 2310 as real * ((((b * c) * f) * a) * eps()));
            &&& t.len() == s.len()
            &&& t[i].id == j
            &&& row_close(after.pos, both(triple(e.pos), image(grid(e.cov.pp), u)), tol)
            &&& row_close(after.vel, both(triple(e.vel), image(grid(e.cov.vp), u)), tol)
            &&& after.last_seen == now
            &&& forall|k: int| 0 <= k < s.len() && k != i ==> #[trigger] t[k] == s[k]
        }),
{
    reveal(corrected);
    lemma_place(s, j);
    let e = s[place(s, j)].est;
    let h = position_jacobian(e.pos - ego);
    let g = innovation_cov(e.cov, h, r).inverse();
    let y = innovation(z.measured@, z.expected@);
    let m = e.cov;
    let (pp, pv, vp, vv) = (m.pp, m.pv, m.vp, m.vv);
    lemma_corrected_state(e.pos.x, pp.r0, pv.r0, h, g, y, b, c, f, a);
    lemma_corrected_state(e.pos.y, pp.r1, pv.r1, h, g, y, b, c, f, a);
    lemma_corrected_state(e.pos.z, pp.r2, pv.r2, h, g, y, b, c, f, a);
    lemma_corrected_state(e.vel.x, vp.r0, vv.r0, h, g, y, b, c, f, a);
    lemma_corrected_state(e.vel.y, vp.r1, vv.r1, h, g, y, b, c, f, a);
    lemma_corrected_state(e.vel.z, vp.r2, vv.r2, h, g, y, b, c, f, a);
    let (tp, tv) = times_tall(m, h.transposed(), M3::nil().transposed());
    let (kp, kv) = (tp * g, tv * g);
    assert(kp.r0 == gain_row(pp.r0, pv.r0, h, g));
    assert(kp.r1 == gain_row(pp.r1, pv.r1, h, g));
    assert(kp.r2 == gain_row(pp.r2, pv.r2, h, g));
    assert(kv.r0 == gain_row(vp.r0, vv.r0, h, g));
    assert(kv.r1 == gain_row(vp.r1, vv.r1, h, g));
    assert(kv.r2 == gain_row(vp.r2, vv.r2, h, g));
}

/// Where the velocity's covariance with the position is `k` times that of the
/// position, as it is when a position became uncertain by flying with an uncertain
/// velocity, a sighting changes the velocity by `k` times as much as the position: a
/// neighbour that turns up farther ahead than it was expected is taken to fly faster.
pub proof fn law_velocity_follows_the_position(
    s: Seq<Entry>,
    j: int,
    ego: V3,
    z: Sighting,
    r: M3,
    now: Number,
    k: real,
    b: real,
    c: real,
    f: real,
    a: real,
)
    requires
        is_teachable(s, j, ego, z, r, b, c, f, a),
        ((b * c) * f) * a <= 0x1000_0000_0000 as real,
        ({
            let m = s[place(s, j)].est.cov;
            &&& triple(m.vp.r0) == part(k, triple(m.pp.r0))
            &&& triple(m.vp.r1) == part(k, triple(m.pp.r1))
            &&& triple(m.vp.r2) == part(k, triple(m.pp.r2))
        }),
    ensures
        ({
            let i = place(s, j);
            let (e, after) = (s[i].est, noted(s, j, ego, z, r, now)[i].est);
            let tol = (1 as real + size(k)) * (2310 as real * ((((b * c) * f) * a) * eps()));
            let moved = triple(after.pos).minus(triple(e.pos));
            row_close(after.vel, both(triple(e.vel), part(k, moved)), tol)
        }),
{
    law_sighting_teaches_position_and_velocity(s, j, ego, z, r, now, b, c, f, a);
    let i = place(s, j);
    let (e, after) = (s[i].est, noted(s, j, ego, z, r, now)[i].est);
    let (u, t) = (lesson(e, ego, z, r), 2310 as real * ((((b * c) * f) * a) * eps()));
    let m = e.cov;
    lemma_part_dot(k, triple(m.pp.r0), u);
    lemma_part_dot(k, triple(m.pp.r1), u);
    lemma_part_dot(k, triple(m.pp.r2), u);
    let w = image(grid(m.pp), u);
    lemma_followed(value(after.vel.x), value(e.vel.x), value(after.pos.x), value(e.pos.x), w.x, k, t);
    lemma_followed(value(after.vel.y), value(e.vel.y), value(after.pos.y), value(e.pos.y), w.y, k, t);
    lemma_followed(value(after.vel.z), value(e.vel.z), value(after.pos.z), value(e.pos.z), w.z, k, t);
}

proof fn lemma_followed(v: real, v0: real, x: real, x0: real, w: real, k: real, t: real)
    requires
        size(x - (x0 + w)) <= t,
        size(v - (v0 + k * w)) <= t,
    ensures
        size(v - (v0 + k * (x - x0))) <= (1 as real + size(k)) * t,
{
    let d = x - x0 - w;
    lemma_product_size(k, d, size(k), t);
    assert(k * (x - x0) == k * w + k * d) by (nonlinear_arith)
        requires
            d == x - x0 - w,
    ;
    assert((1 as real + size(k)) * t == t + size(k) * t) by (nonlinear_arith);
}

/// One difference: of terms that are nearly `t` and `u`.
proof fn lemma_minus(v: Number, w: Number, t: real, u: real, a: real, b: real, n: real)
    requires
        is_about(v, t, a, n),
        is_about(w, u, b, n),
        a >= 1 as real,
        b >= 1 as real,
        n >= 0 as real,
        n <= 1000 as real,
        a + b <= 0x100_0000_0000_0000 as real,
    ensures
        is_about(v - w, t - u, a + b, n + 3 as real),
{
    lemma_negated_value(w);
    lemma_plus(v, -w, t, -u, a, b, n);
}

proof fn lemma_minus_row(v: V3, w: V3, t: Triple, u: Triple, a: real, b: real, n: real)
    requires
        is_nearly(v, t, a, n),
        is_nearly(w, u, b, n),
        a >= 1 as real,
        b >= 1 as real,
        n >= 0 as real,
        n <= 1000 as real,
        a + b <= 0x100_0000_0000_0000 as real,
    ensures
        is_nearly(v - w, t.minus(u), a + b, n + 3 as real),
{
    lemma_minus(v.x, w.x, t.x, u.x, a, b, n);
    lemma_minus(v.y, w.y, t.y, u.y, a, b, n);
    lemma_minus(v.z, w.z, t.z, u.z, a, b, n);
}

/// One row of a covariance after a measurement: `k` is its gain, `i` and `j` its row
/// of the identity, for the position and the velocity.
spec fn settled_row(i: V3, j: V3, k: V3, h: M3, p: M3, x: M3) -> V3 {
    x.transposed().rows_on_onto(
        p.transposed().rows_on(i - h.transposed().rows_on(k)),
        j - M3::nil().transposed().rows_on(k),
    )
}

proof fn lemma_settled_row(
    i: V3,
    j: V3,
    k: V3,
    t: Triple,
    h: M3,
    p: M3,
    x: M3,
    b: real,
    c: real,
    d: real,
)
    requires
        row_within(i, 1 as real),
        row_within(j, 1 as real),
        is_nearly(k, t, 18 as real * d, 30 as real),
        block_within(h, c),
        block_within(p, b),
        block_within(x, b),
        b >= 1 as real,
        c >= 1 as real,
        d >= 1 as real,
        (d * c) * b <= 0x1000_0000_0000 as real,
    ensures
        row_close(
            settled_row(i, j, k, h, p, x),
            both(
                row_times(triple(i).minus(row_times(t, grid(h))), grid(p)),
                row_times(triple(j), grid(x)),
            ),
            20790 as real * (((d * c) * b) * eps()),
        ),
{
    lemma_tiny();
    lemma_nil();
    let (dc, w, o) = (d * c, 18 as real * d, M3::nil());
    assert(dc >= d) by (nonlinear_arith)
        requires
            dc == d * c,
            d >= 1 as real,
            c >= 1 as real,
    ;
    let s = dc * b;
    assert(s >= dc) by (nonlinear_arith)
        requires
            s == dc * b,
            dc >= 1 as real,
            b >= 1 as real,
    ;
    assert(w * c == 18 as real * dc && w * 1 as real == w) by (nonlinear_arith)
        requires
            w == 18 as real * d,
            dc == d * c,
    ;
    lemma_exactly(i, 1 as real);
    lemma_exactly(j, 1 as real);
    lemma_looser_row(i, triple(i), 1 as real, 0 as real, 1 as real, 39 as real);
    lemma_looser_row(j, triple(j), 1 as real, 0 as real, 1 as real, 39 as real);
    lemma_row_product(k, h, t, w, 30 as real, c);
    lemma_row_product(k, o, t, w, 30 as real, 1 as real);
    let (kh, ko) = (h.transposed().rows_on(k), o.transposed().rows_on(k));
    let (th, to) = (row_times(t, grid(h)), row_times(t, grid(o)));
    lemma_minus_row(i, kh, triple(i), th, 1 as real, 54 as real * dc, 39 as real);
    lemma_minus_row(j, ko, triple(j), to, 1 as real, 54 as real * d, 39 as real);
    let (m, n) = (i - kh, j - ko);
    let (tm, tn) = (triple(i).minus(th), triple(j).minus(to));
    assert(tn =~= triple(j));
    let v = 55 as real * dc;
    lemma_looser_row(m, tm, 1 as real + 54 as real * dc, 42 as real, v, 42 as real);
    lemma_looser_row(n, tn, 1 as real + 54 as real * d, 42 as real, v, 51 as real);
    assert(v * b == 55 as real * s) by (nonlinear_arith)
        requires
            v == 55 as real * dc,
            s == dc * b,
    ;
    lemma_row_product(m, p, tm, v, 42 as real, b);
    let y = p.transposed().rows_on(m);
    lemma_row_onto(y, row_times(tm, grid(p)), n, x, tn, 165 as real * s, v, 51 as real, b);
    let e = eps();
    assert(63 as real * ((330 as real * s) * e) == 20790 as real * (s * e)) by (nonlinear_arith);
}

/// A row of the identity, less something, times a matrix.
proof fn lemma_unit_row(i: Triple, w: Triple, g: Grid, r: Triple)
    requires
        row_times(i, g) == r,
    ensures
        row_times(i.minus(w), g) == r.plus(-(1 as real), row_times(w, g)),
{
    lemma_less_of(i, w, g.r0.x, g.r1.x, g.r2.x);
    lemma_less_of(i, w, g.r0.y, g.r1.y, g.r2.y);
    lemma_less_of(i, w, g.r0.z, g.r1.z, g.r2.z);
    assert(row_times(i.minus(w), g) =~= r.plus(-(1 as real), row_times(w, g)));
}

proof fn lemma_less_of(i: Triple, w: Triple, a: real, b: real, c: real)
    ensures
        (i.x - w.x) * a + (i.y - w.y) * b + (i.z - w.z) * c == (i.x * a + i.y * b + i.z * c) + -(
        1 as real) * (w.x * a + w.y * b + w.z * c),
{
    assert((i.x - w.x) * a == i.x * a - w.x * a) by (nonlinear_arith);
    assert((i.y - w.y) * b == i.y * b - w.y * b) by (nonlinear_arith);
    assert((i.z - w.z) * c == i.z * c - w.z * c) by (nonlinear_arith);
    let s = w.x * a + w.y * b + w.z * c;
    assert(-(1 as real) * s == -s) by (nonlinear_arith);
}

/// The rows of the identity and of nothing.
proof fn lemma_unit_rows(g: Grid)
    ensures
        row_within(M3::identity().r0, 1 as real),
        row_within(M3::identity().r1, 1 as real),
        row_within(M3::identity().r2, 1 as real),
        row_times(triple(M3::identity().r0), g) == g.r0,
        row_times(triple(M3::identity().r1), g) == g.r1,
        row_times(triple(M3::identity().r2), g) == g.r2,
        row_within(M3::nil().r0, 1 as real),
        M3::nil().r1 == M3::nil().r0,
        M3::nil().r2 == M3::nil().r0,
        row_times(triple(M3::nil().r0), g) == (Triple { x: 0 as real, y: 0 as real, z: 0 as real }),
{
    lemma_no_value(zero());
    lemma_one();
    lemma_none_and_one(g.r0);
    lemma_none_and_one(g.r1);
    lemma_none_and_one(g.r2);
    let i = M3::identity();
    assert(row_times(triple(i.r0), g) =~= g.r0);
    assert(row_times(triple(i.r1), g) =~= g.r1);
    assert(row_times(triple(i.r2), g) =~= g.r2);
}

proof fn lemma_none_and_one(t: Triple)
    ensures
        0 as real * t.x == 0 as real && 1 as real * t.x == t.x,
        0 as real * t.y == 0 as real && 1 as real * t.y == t.y,
        0 as real * t.z == 0 as real && 1 as real * t.z == t.z,
{
    assert(0 as real * t.x == 0 as real && 1 as real * t.x == t.x) by (nonlinear_arith);
    assert(0 as real * t.y == 0 as real && 1 as real * t.y == t.y) by (nonlinear_arith);
    assert(0 as real * t.z == 0 as real && 1 as real * t.z == t.z) by (nonlinear_arith);
}

/// A row of a position's block: `r` is that of the block and `i` that of the
/// identity.
proof fn lemma_position_row(
    i: V3,
    k: V3,
    t: Triple,
    h: M3,
    p: M3,
    x: M3,
    r: Triple,
    b: real,
    c: real,
    d: real,
)
    requires
        row_within(i, 1 as real),
        row_times(triple(i), grid(p)) == r,
        is_nearly(k, t, 18 as real * d, 30 as real),
        block_within(h, c),
        block_within(p, b),
        block_within(x, b),
        b >= 1 as real,
        c >= 1 as real,
        d >= 1 as real,
        (d * c) * b <= 0x1000_0000_0000 as real,
    ensures
        row_close(
            settled_row(i, M3::nil().r0, k, h, p, x),
            r.plus(-(1 as real), row_times(row_times(t, grid(h)), grid(p))),
            20790 as real * (((d * c) * b) * eps()),
        ),
{
    lemma_unit_rows(grid(x));
    lemma_settled_row(i, M3::nil().r0, k, t, h, p, x, b, c, d);
    lemma_unit_row(triple(i), row_times(t, grid(h)), grid(p), r);
    let y = r.plus(-(1 as real), row_times(row_times(t, grid(h)), grid(p)));
    assert(both(y, Triple { x: 0 as real, y: 0 as real, z: 0 as real }) =~= y);
}

/// A row of a velocity's block.
proof fn lemma_velocity_row(
    j: V3,
    k: V3,
    t: Triple,
    h: M3,
    p: M3,
    x: M3,
    r: Triple,
    b: real,
    c: real,
    d: real,
)
    requires
        row_within(j, 1 as real),
        row_times(triple(j), grid(x)) == r,
        is_nearly(k, t, 18 as real * d, 30 as real),
        block_within(h, c),
        block_within(p, b),
        block_within(x, b),
        b >= 1 as real,
        c >= 1 as real,
        d >= 1 as real,
        (d * c) * b <= 0x1000_0000_0000 as real,
    ensures
        row_close(
            settled_row(M3::nil().r0, j, k, h, p, x),
            r.plus(-(1 as real), row_times(row_times(t, grid(h)), grid(p))),
            20790 as real * (((d * c) * b) * eps()),
        ),
{
    lemma_unit_rows(grid(p));
    lemma_settled_row(M3::nil().r0, j, k, t, h, p, x, b, c, d);
    let o = Triple { x: 0 as real, y: 0 as real, z: 0 as real };
    lemma_unit_row(triple(M3::nil().r0), row_times(t, grid(h)), grid(p), o);
    let z = row_times(row_times(t, grid(h)), grid(p));
    let y = r.plus(-(1 as real), z);
    assert(both(o.plus(-(1 as real), z), r) =~= y);
}

/// A sighting of a tracked neighbour takes from each block of its covariance what
/// the measurement explains: the gain, times what the measurement sees of the
/// position, times the covariance with the position, but for rounding. So, as on
/// exact numbers, no direction gets vaguer.
pub proof fn law_sighting_teaches_the_covariance(
    s: Seq<Entry>,
    j: int,
    ego: V3,
    z: Sighting,
    r: M3,
    now: Number,
    b: real,
    c: real,
    f: real,
    a: real,
)
    requires
        is_teachable(s, j, ego, z, r, b, c, f, a),
        (((b * c) * f) * c) * b <= 0x1000_0000_0000 as real,
    ensures
        ({
            let i = place(s, j);
            let (e, after) = (s[i].est, noted(s, j, ego, z, r, now)[i].est);
            let jac = position_jacobian(e.pos - ego);
            let (h, g) = (grid(jac), grid(innovation_cov(e.cov, jac, r).inverse()));
            let o = outlook(e.cov);
            let (kp, kv) = (
                times_grid(times_grid(o.pp, h.transposed()), g),
                times_grid(times_grid(o.vp, h.transposed()), g),
            );
            let tol = 20790 as real * (((((b * c) * f) * c) * b) * eps());
            &&& close(after.cov.pp, settled_block(o.pp, kp, h, o.pp), tol)
            &&& close(after.cov.pv, settled_block(o.pv, kp, h, o.pv), tol)
            &&& close(after.cov.vp, settled_block(o.vp, kv, h, o.pp), tol)
            &&& close(after.cov.vv, settled_block(o.vv, kv, h, o.pv), tol)
        }),
{
    reveal(corrected);
    lemma_place(s, j);
    let e = s[place(s, j)].est;
    let h = position_jacobian(e.pos - ego);
    let g = innovation_cov(e.cov, h, r).inverse();
    let m = e.cov;
    lemma_scale_of(b, c, f);
    let (tp, tv) = times_tall(m, h.transposed(), M3::nil().transposed());
    let (kp, kv) = (tp * g, tv * g);
    lemma_taught_blocks(kp, m.pp, m.pv, h, g, m, true, b, c, f);
    lemma_taught_blocks(kv, m.vp, m.vv, h, g, m, false, b, c, f);
}

proof fn lemma_scale_of(b: real, c: real, f: real)
    requires
        b >= 1 as real,
        c >= 1 as real,
        f >= 1 as real,
    ensures
        (b * c) * f >= 1 as real,
        (((b * c) * f) * c) * b >= (b * c) * f,
{
    let bc = b * c;
    assert(bc >= 1 as real) by (nonlinear_arith)
        requires
            bc == b * c,
            b >= 1 as real,
            c >= 1 as real,
    ;
    let d = bc * f;
    assert(d >= 1 as real) by (nonlinear_arith)
        requires
            d == bc * f,
            bc >= 1 as real,
            f >= 1 as real,
    ;
    let dc = d * c;
    assert(dc >= d) by (nonlinear_arith)
        requires
            dc == d * c,
            d >= 1 as real,
            c >= 1 as real,
    ;
    assert(dc * b >= dc) by (nonlinear_arith)
        requires
            dc >= 1 as real,
            b >= 1 as real,
    ;
}

/// The two blocks of the position's rows, or of the velocity's.
proof fn lemma_taught_blocks(
    k: M3,
    p: M3,
    x: M3,
    h: M3,
    g: M3,
    m: M6,
    first: bool,
    b: real,
    c: real,
    f: real,
)
    requires
        first ==> p == m.pp && x == m.pv,
        !first ==> p == m.vp && x == m.vv,
        k.r0 == gain_row(p.r0, x.r0, h, g),
        k.r1 == gain_row(p.r1, x.r1, h, g),
        k.r2 == gain_row(p.r2, x.r2, h, g),
        block_within(m.pp, b) && block_within(m.pv, b),
        block_within(m.vp, b) && block_within(m.vv, b),
        block_within(h, c),
        block_within(g, f),
        b >= 1 as real,
        c >= 1 as real,
        f >= 1 as real,
        (b * c) * f >= 1 as real,
        (b * c) * f <= (((b * c) * f) * c) * b,
        (((b * c) * f) * c) * b <= 0x1000_0000_0000 as real,
    ensures
        ({
            let kh = k * h;
            let ko = k * M3::nil();
            let (i, o) = (M3::identity(), M3::nil());
            let (u, w) = if first {
                (i - kh, o - ko)
            } else {
                (o - kh, i - ko)
            };
            let t = times_grid(times_grid(grid(p), grid(h).transposed()), grid(g));
            let tol = 20790 as real * (((((b * c) * f) * c) * b) * eps());
            &&& close(
                w.product_onto(u * m.pp, m.vp),
                settled_block(grid(p), t, grid(h), grid(m.pp)),
                tol,
            )
            &&& close(
                w.product_onto(u * m.pv, m.vv),
                settled_block(grid(x), t, grid(h), grid(m.pv)),
                tol,
            )
        }),
{
    let d = (b * c) * f;
    lemma_gain_row(p.r0, x.r0, h, g, b, c, f);
    lemma_gain_row(p.r1, x.r1, h, g, b, c, f);
    lemma_gain_row(p.r2, x.r2, h, g, b, c, f);
    let (gh, gg) = (grid(h), grid(g));
    let (t0, t1, t2) = (
        gain_of(triple(p.r0), gh, gg),
        gain_of(triple(p.r1), gh, gg),
        gain_of(triple(p.r2), gh, gg),
    );
    let i = M3::identity();
    if first {
        lemma_unit_rows(grid(m.pp));
        lemma_unit_rows(grid(m.pv));
        lemma_position_row(i.r0, k.r0, t0, h, m.pp, m.vp, triple(p.r0), b, c, d);
        lemma_position_row(i.r1, k.r1, t1, h, m.pp, m.vp, triple(p.r1), b, c, d);
        lemma_position_row(i.r2, k.r2, t2, h, m.pp, m.vp, triple(p.r2), b, c, d);
        lemma_position_row(i.r0, k.r0, t0, h, m.pv, m.vv, triple(x.r0), b, c, d);
        lemma_position_row(i.r1, k.r1, t1, h, m.pv, m.vv, triple(x.r1), b, c, d);
        lemma_position_row(i.r2, k.r2, t2, h, m.pv, m.vv, triple(x.r2), b, c, d);
    } else {
        lemma_unit_rows(grid(m.vp));
        lemma_unit_rows(grid(m.vv));
        lemma_velocity_row(i.r0, k.r0, t0, h, m.pp, m.vp, triple(p.r0), b, c, d);
        lemma_velocity_row(i.r1, k.r1, t1, h, m.pp, m.vp, triple(p.r1), b, c, d);
        lemma_velocity_row(i.r2, k.r2, t2, h, m.pp, m.vp, triple(p.r2), b, c, d);
        lemma_velocity_row(i.r0, k.r0, t0, h, m.pv, m.vv, triple(x.r0), b, c, d);
        lemma_velocity_row(i.r1, k.r1, t1, h, m.pv, m.vv, triple(x.r1), b, c, d);
        lemma_velocity_row(i.r2, k.r2, t2, h, m.pv, m.vv, triple(x.r2), b, c, d);
    }
}

} // verus!
