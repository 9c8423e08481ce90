//! Where two estimates meet: the place of an intersection is the mean of the two,
//! weighed by what each knows.
use crate::consistency::lemma_weights;
use crate::error::{eps, lemma_tiny, size, value};
use crate::foresight::{block_within, row_close, row_within};
use crate::forms::{grid, triple, Grid, Triple};
use crate::fusion::{best_weight, information, intersected, weight, Fix};
use crate::intersection::{lemma_intersected, restored, weighed};
use crate::metric::lemma_product_size;
use crate::number::{one, Number};
use crate::selfloc::{fix_cov, fix_from, jitters, next_pose, Chart, Pose, SelfDraws, SelfLoc};
use crate::sim::{Drone, Mode};
use crate::slam::{after_looks, sighting, Landmark};
use crate::spectra::image;
use crate::surveying::{in_reach, lemma_one_look, lemma_place_seen, only_in_reach, sighted_cov};
use crate::swarm::{radio, Seen};
use crate::teaching::{lemma_dot_about, lemma_exactly, lemma_plus, lemma_term};
use crate::tolerance::{both, stretched};
use crate::vector::{V3, Vec3};
use crate::whereabouts::{hears_only, lemma_one_word};
use vstd::prelude::*;

verus! {

/// What two estimates know of a place, weighed by `w` and `v`: `a` and `b` are their
/// informations, `x` and `y` their places.
pub open spec fn known_of(a: Grid, x: Triple, w: real, b: Grid, y: Triple, v: real) -> Triple {
    both(stretched(image(a, x), w), stretched(image(b, y), v))
}

/// Whether two estimates can be fused with the `i`-th weight, and the numbers are
/// ordinary: `f` bounds what the estimates know, `c` the fused covariance and `m` the
/// coordinates.
pub open spec fn is_meeting(a: Fix, b: Fix, i: nat, f: real, c: real, m: real) -> bool {
    let (p, q) = (a.cov.inverse(), b.cov.inverse());
    &&& i < 11
    &&& weight(i) == best_weight(p, q, 11).0
    &&& !a.cov.is_singular()
    &&& !b.cov.is_singular()
    &&& !information(p, q, weight(i)).is_singular()
    &&& block_within(p, f)
    &&& block_within(q, f)
    &&& block_within(information(p, q, weight(i)).inverse(), c)
    &&& row_within(a.pos, m)
    &&& row_within(b.pos, m)
    &&& f >= 1 as real
    &&& c >= 1 as real
    &&& m >= 1 as real
    &&& (c * f) * m <= 0x1000_0000_0000 as real
}

/// One component of the weighed sum.
proof fn lemma_known_part(
    p: V3,
    x: V3,
    w: Number,
    q: V3,
    y: V3,
    v: Number,
    f: real,
    m: real,
)
    requires
        row_within(p, f),
        row_within(q, f),
        row_within(x, m),
        row_within(y, m),
        w is Finite && v is Finite,
        size(value(w)) <= 2 as real,
        size(value(v)) <= 2 as real,
        f >= 1 as real,
        m >= 1 as real,
        f * m <= 0x1000_0000_0000 as real,
    ensures
        ({
            let t = p.dot(x) * w + q.dot(y) * v;
            let exact = triple(p).dot(triple(x)) * value(w) + triple(q).dot(triple(y)) * value(v);
            &&& t is Finite
            &&& size(value(t) - exact) <= 180 as real * ((f * m) * eps())
            &&& size(value(t)) <= 13 as real * (f * m)
        }),
{
    lemma_tiny();
    let (fm, e) = (f * m, eps());
    assert(fm >= 1 as real) by (nonlinear_arith)
        requires
            fm == f * m,
            f >= 1 as real,
            m >= 1 as real,
    ;
    lemma_exactly(p, f);
    lemma_exactly(q, f);
    lemma_dot_about(p, x, triple(p), f, 0 as real, m);
    lemma_dot_about(q, y, triple(q), f, 0 as real, m);
    let a = 3 as real * fm;
    let (s, u) = (triple(p).dot(triple(x)), triple(q).dot(triple(y)));
    assert(a * 2 as real == 6 as real * fm) by (nonlinear_arith)
        requires
            a == 3 as real * fm,
    ;
    lemma_term(p.dot(x), w, s, a, 9 as real, 2 as real);
    lemma_term(q.dot(y), v, u, a, 9 as real, 2 as real);
    let d = 6 as real * fm;
    lemma_plus(p.dot(x) * w, q.dot(y) * v, s * value(w), u * value(v), d, d, 12 as real);
    let z = 12 as real * fm;
    assert(15 as real * (z * e) == 180 as real * (fm * e) && 180 as real * (fm * e) <= fm)
        by (nonlinear_arith)
        requires
            z == 12 as real * fm,
            fm >= 1 as real,
            e == (1 as real) / (0x100_0000 as real),
    ;
}

/// One component of the place.
proof fn lemma_restored_part(r: V3, t: V3, k: Triple, c: real, d: real)
    requires
        row_within(r, c),
        row_within(t, 13 as real * d),
        row_close(t, k, 180 as real * (d * eps())),
        c >= 1 as real,
        d >= 1 as real,
        c * d <= 0x1000_0000_0000 as real,
    ensures
        r.dot(t) is Finite,
        size(value(r.dot(t)) - triple(r).dot(k)) <= 900 as real * ((c * d) * eps()),
{
    lemma_tiny();
    let (e, cd, w) = (eps(), c * d, 13 as real * d);
    lemma_exactly(r, c);
    assert(c * w == 13 as real * cd) by (nonlinear_arith)
        requires
            w == 13 as real * d,
            cd == c * d,
    ;
    lemma_dot_about(r, t, triple(r), c, 0 as real, w);
    let (u, tr, de) = (triple(t), triple(r), d * e);
    lemma_product_size(tr.x, u.x - k.x, c, 180 as real * de);
    lemma_product_size(tr.y, u.y - k.y, c, 180 as real * de);
    lemma_product_size(tr.z, u.z - k.z, c, 180 as real * de);
    let ce = cd * e;
    assert(c * (180 as real * de) == 180 as real * ce) by (nonlinear_arith)
        requires
            de == d * e,
            ce == cd * e,
            cd == c * d,
    ;
    lemma_split(tr.x, u.x, k.x);
    lemma_split(tr.y, u.y, k.y);
    lemma_split(tr.z, u.z, k.z);
    let z = 3 as real * (c * w);
    assert(9 as real * (z * e) == 351 as real * ce) by (nonlinear_arith)
        requires
            z == 39 as real * cd,
            ce == cd * e,
    ;
    assert(ce > 0 as real) by (nonlinear_arith)
        requires
            ce == cd * e,
            cd == c * d,
            c >= 1 as real,
            d >= 1 as real,
            e > 0 as real,
    ;
}

proof fn lemma_split(r: real, u: real, k: real)
    ensures
        r * u == r * k + r * (u - k),
{
    assert(r * u == r * k + r * (u - k)) by (nonlinear_arith);
}

/// The place of an intersection is the mean of the two places that its covariance
/// belongs to: that covariance, times what the two estimates know of the place, each
/// weighed by its share of the weight; but for rounding.
pub proof fn law_intersection_is_the_weighed_mean(
    a: Fix,
    b: Fix,
    i: nat,
    f: real,
    c: real,
    m: real,
)
    requires
        is_meeting(a, b, i, f, c, m),
    ensures
        ({
            let r = intersected(a, b);
            row_close(
                r.pos,
                image(
                    grid(r.cov),
                    known_of(
                        grid(a.cov.inverse()),
                        triple(a.pos),
                        value(weight(i)),
                        grid(b.cov.inverse()),
                        triple(b.pos),
                        value(one() - weight(i)),
                    ),
                ),
                900 as real * (((c * f) * m) * eps()),
            )
        }),
{
    reveal(weighed);
    reveal(restored);
    let (p, q) = (a.cov.inverse(), b.cov.inverse());
    let (x, y, w, v) = (a.pos, b.pos, weight(i), one() - weight(i));
    let (wr, vr) = lemma_weights(i);
    lemma_intersected(a, b, w);
    let fm = f * m;
    assert(fm >= 1 as real && c * fm == (c * f) * m && c * fm >= fm) by (nonlinear_arith)
        requires
            fm == f * m,
            f >= 1 as real,
            m >= 1 as real,
            c >= 1 as real,
    ;
    lemma_known_part(p.r0, x, w, q.r0, y, v, f, m);
    lemma_known_part(p.r1, x, w, q.r1, y, v, f, m);
    lemma_known_part(p.r2, x, w, q.r2, y, v, f, m);
    let t = weighed(p, q, w, x, y);
    let k = known_of(grid(p), triple(x), value(w), grid(q), triple(y), value(v));
    let n = information(p, q, w).inverse();
    lemma_restored_part(n.r0, t, k, c, fm);
    lemma_restored_part(n.r1, t, k, c, fm);
    lemma_restored_part(n.r2, t, k, c, fm);
}

/// A further sighting puts a landmark at the mean of where it was mapped and where it
/// was seen that its new covariance belongs to.
pub proof fn law_look_moves_the_landmark_to_the_mean(
    l: Landmark,
    truth: V3,
    snap: Seq<Seen>,
    drones: Seq<Drone>,
    poses: Seq<SelfLoc>,
    offsets: Seq<Vec<Vec3>>,
    k: int,
    n: int,
    j: int,
    i: nat,
    f: real,
    c: real,
    m: real,
)
    requires
        l.seen,
        only_in_reach(truth, snap, drones, j, n),
        ({
            let me = snap[drones[j].id as int].pos;
            let s = sighting(poses[j]@, (truth - me).length(), offsets[j]@[k]@);
            is_meeting(Fix { pos: l.pos, cov: l.cov }, s, i, f, c, m)
        }),
        row_within(poses[j]@.x, m),
        row_within(offsets[j]@[k]@, m),
    ensures
        ({
            let after = after_looks(l, truth, snap, drones, poses, offsets, k, n);
            let me = snap[drones[j].id as int].pos;
            let s = sighting(poses[j]@, (truth - me).length(), offsets[j]@[k]@);
            &&& after.seen
            &&& s.cov == sighted_cov(poses[j]@, truth, me)
            &&& row_close(
                s.pos,
                both(triple(poses[j]@.x), triple(offsets[j]@[k]@)),
                8 as real * (m * eps()),
            )
            &&& row_close(
                after.pos,
                image(
                    grid(after.cov),
                    known_of(
                        grid(l.cov.inverse()),
                        triple(l.pos),
                        value(weight(i)),
                        grid(s.cov.inverse()),
                        triple(s.pos),
                        value(one() - weight(i)),
                    ),
                ),
                900 as real * (((c * f) * m) * eps()),
            )
        }),
{
    lemma_one_look(l, truth, snap, drones, poses, offsets, k, n, j);
    let me = snap[drones[j].id as int].pos;
    assert(in_reach(truth, snap[drones[j].id as int].pos));
    let s = sighting(poses[j]@, (truth - me).length(), offsets[j]@[k]@);
    assert(m <= 0x100_0000_0000_0000 as real) by (nonlinear_arith)
        requires
            (c * f) * m <= 0x1000_0000_0000 as real,
            c >= 1 as real,
            f >= 1 as real,
            m >= 1 as real,
    ;
    lemma_place_seen(poses[j]@, (truth - me).length(), offsets[j]@[k]@, m);
    law_intersection_is_the_weighed_mean(Fix { pos: l.pos, cov: l.cov }, s, i, f, c, m);
}

/// A word heard puts a drone at the mean of where it would be without the word and
/// where the word puts it that its new covariance belongs to.
pub proof fn law_word_moves_the_drone_to_the_mean(
    snap: Seq<Seen>,
    anchors: Seq<V3>,
    landmarks: Seq<V3>,
    chart: Chart,
    broadcast: Seq<Fix>,
    m: Mode,
    dt: Number,
    id: int,
    s: Pose,
    draws: SelfDraws,
    j: int,
    i: nat,
    f: real,
    c: real,
    w: real,
)
    requires
        snap[id].alive,
        hears_only(snap, id, m, draws, j),
        ({
            let alone = next_pose(
                snap,
                anchors,
                landmarks,
                chart,
                broadcast,
                Mode { cooperative: false, ..m },
                dt,
                id,
                s,
                draws,
            );
            let r = radio(snap, id, m, draws.packets@);
            let word = fix_from(r, broadcast[j], j, jitters(draws.fixes@)[j]);
            is_meeting(Fix { pos: alone.x, cov: alone.p }, word, i, f, c, w)
        }),
    ensures
        ({
            let alone = next_pose(
                snap,
                anchors,
                landmarks,
                chart,
                broadcast,
                Mode { cooperative: false, ..m },
                dt,
                id,
                s,
                draws,
            );
            let after = next_pose(
                snap,
                anchors,
                landmarks,
                chart,
                broadcast,
                m,
                dt,
                id,
                s,
                draws,
            );
            let r = radio(snap, id, m, draws.packets@);
            let word = fix_from(r, broadcast[j], j, jitters(draws.fixes@)[j]);
            &&& word.cov == broadcast[j].cov + fix_cov()
            &&& row_close(
                after.x,
                image(
                    grid(after.p),
                    known_of(
                        grid(alone.p.inverse()),
                        triple(alone.x),
                        value(weight(i)),
                        grid(word.cov.inverse()),
                        triple(word.pos),
                        value(one() - weight(i)),
                    ),
                ),
                900 as real * (((c * f) * w) * eps()),
            )
        }),
{
    let quiet = Mode { cooperative: false, ..m };
    let alone = next_pose(
        snap,
        anchors,
        landmarks,
        chart,
        broadcast,
        quiet,
        dt,
        id,
        s,
        draws,
    );
    let (r, d) = (radio(snap, id, m, draws.packets@), jitters(draws.fixes@));
    lemma_one_word(alone, r, broadcast, d, snap.len() as int, j);
    let word = fix_from(r, broadcast[j], j, d[j]);
    law_intersection_is_the_weighed_mean(
        Fix { pos: alone.x, cov: alone.p },
        word,
        i,
        f,
        c,
        w,
    );
}

} // verus!
