//! What self-localisation makes of what truly happens: odometry follows the
//! velocity, and a neighbour's word puts a drone where it is.
use crate::config::{ANCHOR_RANGE, COOP_REL_STD, LANDMARK_OBS_RANGE, ODOM_NOISE_STD};
use crate::error::{eps, lemma_tiny, size, value};
use crate::foresight::{is_share, row_close, row_within};
use crate::forms::{triple, Triple};
use crate::fusion::{intersected, Fix};
use crate::inversion::is_alike;
use crate::metric::{finite, lemma_product_size};
use crate::noise::{law_no_deviation_no_noise, noise_of, Draws};
use crate::number::{decode, less, zero, Number};
use crate::placement::{extent, is_place_kept, is_position, law_vaguer_estimate_is_dismissed};
use crate::ranging::{
    is_pulled, is_range, is_rangeable, is_rounded_place, law_anchor_pulls_towards_the_true_range,
    law_anchors_confirm_the_true_place, law_landmark_pulls_towards_the_true_range,
    law_landmarks_confirm_the_true_place, same_place,
};
use crate::selection::{is_covariance, is_vaguer, lemma_square_size, square};
use crate::selfloc::{
    anchor_var, anchored, assisted, charted, expected_range, fix_cov, fix_from, jitters,
    lemma_no_anchor, lemma_no_landmark, moved, next_pose, odometry, range_noise, Chart, Pose,
    SelfDraws,
};
use crate::sim::Mode;
use crate::soundness::shape;
use crate::swarm::{radio, Radio, Seen};
use crate::tolerance::{
    both, lemma_difference_close, lemma_itself, lemma_multiple_close, lemma_origin_close,
    lemma_sum_close, stretched,
};
use crate::vector::V3;
use vstd::prelude::*;

verus! {

/// The error that odometry makes: its bias and what was drawn where noise is on,
/// and none where it is off.
pub open spec fn drift(bias: V3, noise: bool, d: Draws) -> Triple {
    if noise {
        let s = decode(ODOM_NOISE_STD);
        both(triple(bias), triple(d.noise(s, s, s)))
    } else {
        Triple { x: 0 as real, y: 0 as real, z: 0 as real }
    }
}

/// Whether what goes into the error of odometry is at most `b`.
pub open spec fn is_drift_within(bias: V3, noise: bool, d: Draws, b: real) -> bool {
    noise ==> {
        let s = decode(ODOM_NOISE_STD);
        row_within(bias, b) && row_within(d.noise(s, s, s), b)
    }
}

/// Odometry reports the true velocity: exactly but for rounding where noise is
/// off, and where it is on with the bias and the noise that was drawn added.
pub proof fn law_odometry_reports_the_velocity(vel: V3, bias: V3, noise: bool, d: Draws, b: real)
    requires
        row_within(vel, b),
        is_drift_within(bias, noise, d, b),
        b >= 1 as real,
        b <= 0x100_0000_0000_0000 as real,
    ensures
        row_close(
            odometry(vel, bias, noise, d),
            both(triple(vel), drift(bias, noise, d)),
            32 as real * (b * eps()),
        ),
{
    lemma_tiny();
    let e = eps();
    let be = b * e;
    assert((2 as real * b) * e == 2 as real * be && (3 as real * b) * e == 3 as real * be && be
        <= b / (1000 as real) && be >= 0 as real) by (nonlinear_arith)
        requires
            be == b * e,
            b >= 1 as real,
            e == (1 as real) / (0x100_0000 as real),
    ;
    lemma_itself(vel);
    lemma_origin_close();
    law_no_deviation_no_noise(d);
    let o = Triple { x: 0 as real, y: 0 as real, z: 0 as real };
    let tv = triple(vel);
    if noise {
        let s = decode(ODOM_NOISE_STD);
        let n = d.noise(s, s, s);
        lemma_itself(bias);
        lemma_itself(n);
        lemma_sum_close(vel, bias, tv, triple(bias), 0 as real, 0 as real, 2 as real * b);
        let t = both(tv, triple(bias));
        lemma_sum_close(vel + bias, n, t, triple(n), 8 as real * be, 0 as real, 3 as real * b);
        assert(both(t, triple(n)) =~= both(tv, both(triple(bias), triple(n))));
    } else {
        lemma_sum_close(vel, V3::origin(), tv, o, 0 as real, 0 as real, 2 as real * b);
        let t = both(tv, o);
        lemma_sum_close(
            vel + V3::origin(),
            V3::origin(),
            t,
            o,
            8 as real * be,
            0 as real,
            3 as real * b,
        );
        assert(both(t, o) =~= both(tv, o));
    }
}

/// Whether the drone at `truth` is out of reach of every anchor, has no usable
/// landmark in reach, and hears nobody or does not cooperate.
pub open spec fn is_unaided(
    snap: Seq<Seen>,
    anchors: Seq<V3>,
    landmarks: Seq<V3>,
    chart: Chart,
    m: Mode,
    id: int,
    draws: SelfDraws,
) -> bool {
    &&& forall|i: int|
        0 <= i < anchors.len() ==> less(
            decode(ANCHOR_RANGE),
            (snap[id].pos - #[trigger] anchors[i]).length(),
        )
    &&& forall|l: int|
        0 <= l < landmarks.len() ==> less(
            decode(LANDMARK_OBS_RANGE),
            (snap[id].pos - #[trigger] landmarks[l]).length(),
        ) || !chart.usable(l)
    &&& m.cooperative ==> forall|j: int|
        0 <= j < snap.len() ==> !(#[trigger] radio(snap, id, m, draws.packets@).hears(j))
}

proof fn lemma_nobody_heard(s: Pose, r: Radio, broadcast: Seq<Fix>, fixes: Seq<Draws>, n: int)
    requires
        forall|j: int| 0 <= j < n ==> !(#[trigger] r.hears(j)),
    ensures
        assisted(s, r, broadcast, fixes, n) == s,
    decreases n,
{
    if n > 0 {
        lemma_nobody_heard(s, r, broadcast, fixes, n - 1);
    }
}

/// A drone that nothing helps moves its estimate as it truly flies: by the true
/// velocity, and the error of its odometry, times the time. `b` bounds the
/// coordinates and velocities and `t` the time.
pub proof fn law_unaided_drone_moves_as_it_flies(
    snap: Seq<Seen>,
    anchors: Seq<V3>,
    landmarks: Seq<V3>,
    chart: Chart,
    broadcast: Seq<Fix>,
    m: Mode,
    dt: Number,
    id: int,
    s: Pose,
    draws: SelfDraws,
    b: real,
    t: real,
)
    requires
        snap[id].alive,
        is_unaided(snap, anchors, landmarks, chart, m, id, draws),
        row_within(s.x, b),
        row_within(snap[id].vel, b),
        is_drift_within(s.bias, m.noise, draws.odometry@, b),
        is_share(dt, t),
        t >= 1 as real,
        b >= 1 as real,
        t * b <= 0x10_0000_0000_0000 as real,
    ensures
        row_close(
            next_pose(snap, anchors, landmarks, chart, broadcast, m, dt, id, s, draws).x,
            both(
                triple(s.x),
                stretched(
                    both(triple(snap[id].vel), drift(s.bias, m.noise, draws.odometry@)),
                    value(dt),
                ),
            ),
            80 as real * ((t * b) * eps()),
        ),
{
    lemma_tiny();
    let odom = odometry(snap[id].vel, s.bias, m.noise, draws.odometry@);
    let reckoned = moved(s, odom, dt);
    let (na, nl) = (anchors.len() as int, landmarks.len() as int);
    lemma_no_anchor(reckoned, snap[id].pos, anchors, draws.anchors@, m.noise, na);
    lemma_no_landmark(reckoned, snap[id].pos, landmarks, chart, draws.landmarks@, m.noise, nl);
    if m.cooperative {
        lemma_nobody_heard(
            reckoned,
            radio(snap, id, m, draws.packets@),
            broadcast,
            jitters(draws.fixes@),
            snap.len() as int,
        );
    }
    let (e, tb) = (eps(), t * b);
    assert(tb >= b) by (nonlinear_arith)
        requires
            tb == t * b,
            t >= 1 as real,
            b >= 1 as real,
    ;
    law_odometry_reports_the_velocity(snap[id].vel, s.bias, m.noise, draws.odometry@, b);
    let v = both(triple(snap[id].vel), drift(s.bias, m.noise, draws.odometry@));
    let (be, te, k) = (b * e, tb * e, value(dt));
    lemma_product_size(v.x, k, 3 as real * b, t);
    lemma_product_size(v.y, k, 3 as real * b, t);
    lemma_product_size(v.z, k, 3 as real * b, t);
    assert((3 as real * b) * t == 3 as real * tb && (32 as real * be) * t == 32 as real * te)
        by (nonlinear_arith)
        requires
            tb == t * b,
            be == b * e,
            te == tb * e,
    ;
    assert((4 as real * tb) * e == 4 as real * te && te <= tb / (1000 as real) && te >= 0 as real)
        by (nonlinear_arith)
        requires
            te == tb * e,
            tb >= 1 as real,
            e == (1 as real) / (0x100_0000 as real),
    ;
    lemma_multiple_close(odom, dt, v, 32 as real * be, t, 4 as real * tb);
    lemma_itself(s.x);
    let w = stretched(v, k);
    lemma_sum_close(
        s.x,
        odom * dt,
        triple(s.x),
        w,
        0 as real,
        48 as real * te,
        4 as real * tb,
    );
}

/// What a drone gets wrong of the offset to a neighbour: what was drawn where
/// noise is on, and nothing where it is off.
pub open spec fn offset_error(noise: bool, d: Draws) -> Triple {
    if noise {
        let s = decode(COOP_REL_STD);
        triple(d.noise(s, s, s))
    } else {
        Triple { x: 0 as real, y: 0 as real, z: 0 as real }
    }
}

pub open spec fn is_offset_error_within(noise: bool, d: Draws, b: real) -> bool {
    noise ==> {
        let s = decode(COOP_REL_STD);
        row_within(d.noise(s, s, s), b)
    }
}

/// Where a neighbour's word puts a drone: at its own true place, off by what the
/// neighbour is off about itself and by the error of the offset between the two, on
/// every axis. So a neighbour that knows its true place puts the drone at the
/// drone's, where noise is off. `m` bounds the coordinates.
pub proof fn law_word_puts_a_drone_where_it_is(r: Radio, word: Fix, j: int, d: Draws, m: real)
    requires
        row_within(r.others[j].pos, m),
        row_within(r.others[r.id].pos, m),
        row_within(word.pos, m),
        is_offset_error_within(r.noise, d, m),
        m >= 1 as real,
        m <= 0x100_0000_0000_0000 as real,
    ensures
        row_close(
            fix_from(r, word, j, d).pos,
            both(
                triple(r.others[r.id].pos),
                triple(word.pos).minus(triple(r.others[j].pos)).minus(offset_error(r.noise, d)),
            ),
            48 as real * (m * eps()),
        ),
{
    lemma_tiny();
    let (e, he, me) = (eps(), r.others[j].pos, r.others[r.id].pos);
    let f = m * e;
    assert((2 as real * m) * e == 2 as real * f && (3 as real * m) * e == 3 as real * f && (
    4 as real * m) * e == 4 as real * f && f <= m / (1000 as real) && f >= 0 as real)
        by (nonlinear_arith)
        requires
            f == m * e,
            m >= 1 as real,
            e == (1 as real) / (0x100_0000 as real),
    ;
    lemma_itself(he);
    lemma_itself(me);
    lemma_itself(word.pos);
    lemma_origin_close();
    law_no_deviation_no_noise(d);
    let (th, tm, tw, te) = (triple(he), triple(me), triple(word.pos), offset_error(r.noise, d));
    let s = if r.noise {
        decode(COOP_REL_STD)
    } else {
        zero()
    };
    let n = d.noise(s, s, s);
    if r.noise {
        lemma_itself(n);
    }
    lemma_difference_close(he, me, th, tm, 0 as real, 0 as real, 2 as real * m);
    let t = th.minus(tm);
    lemma_sum_close(he - me, n, t, te, 8 as real * f, 0 as real, 3 as real * m);
    let u = both(t, te);
    lemma_difference_close(
        word.pos,
        (he - me) + n,
        tw,
        u,
        0 as real,
        20 as real * f,
        4 as real * m,
    );
    assert(tw.minus(u) =~= both(tm, tw.minus(th).minus(te)));
}

/// The estimate after the one word that is heard.
pub proof fn lemma_one_word(
    s: Pose,
    r: Radio,
    broadcast: Seq<Fix>,
    fixes: Seq<Draws>,
    n: int,
    j: int,
)
    requires
        0 <= j < n,
        forall|i: int| 0 <= i < n ==> (#[trigger] r.hears(i) <==> i == j),
    ensures
        ({
            let f = intersected(
                Fix { pos: s.x, cov: s.p },
                fix_from(r, broadcast[j], j, fixes[j]),
            );
            assisted(s, r, broadcast, fixes, n) == (Pose { x: f.pos, p: f.cov, bias: s.bias })
        }),
    decreases n,
{
    assert(r.hears(n - 1) <==> n - 1 == j);
    if n - 1 == j {
        lemma_nobody_heard(s, r, broadcast, fixes, n - 1);
    } else {
        lemma_one_word(s, r, broadcast, fixes, n - 1, j);
    }
}

/// Whether the drone cooperates and hears `j` and nobody else.
pub open spec fn hears_only(snap: Seq<Seen>, id: int, m: Mode, draws: SelfDraws, j: int) -> bool {
    &&& m.cooperative
    &&& 0 <= j < snap.len()
    &&& forall|i: int|
        0 <= i < snap.len() ==> (#[trigger] radio(snap, id, m, draws.packets@).hears(i) <==> i
            == j)
}

/// A word that is surer in every direction than the estimate that the drone would
/// have without it settles where the drone is: with noise off, and a neighbour that
/// knows its own place, the estimate ends at the drone's true place, whatever it was
/// before. The covariance becomes that of the word, with that of the offset to the
/// neighbour added. `p`, `q` and `k` are the stretches of the two covariances and
/// `w` the share by which the word is surer, as for any two estimates.
pub proof fn law_sure_word_settles_the_place(
    snap: Seq<Seen>,
    anchors: Seq<V3>,
    landmarks: Seq<V3>,
    chart: Chart,
    broadcast: Seq<Fix>,
    m: Mode,
    dt: Number,
    id: int,
    s: Pose,
    draws: SelfDraws,
    j: int,
    p: real,
    q: real,
    k: real,
    w: real,
)
    requires
        snap[id].alive,
        hears_only(snap, id, m, draws, j),
        !m.noise,
        row_within(snap[id].pos, 0x3000 as real),
        is_position(snap[j].pos),
        is_position(broadcast[j].pos),
        triple(broadcast[j].pos) == triple(snap[j].pos),
        ({
            let alone = next_pose(
                snap,
                anchors,
                landmarks,
                chart,
                broadcast,
                Mode { cooperative: false, ..m },
                dt,
                id,
                s,
                draws,
            );
            let cov = broadcast[j].cov + fix_cov();
            &&& is_position(alone.x)
            &&& is_covariance(cov, p, k)
            &&& is_covariance(alone.p, q, k)
            &&& is_vaguer(alone.p, cov, w)
        }),
        w > 0 as real,
        w <= 1 as real,
        square(k) <= w / (10000 as real),
    ensures
        ({
            let after = next_pose(
                snap,
                anchors,
                landmarks,
                chart,
                broadcast,
                m,
                dt,
                id,
                s,
                draws,
            );
            let most = 560 as real * ((square(k) * k) * (extent(triple(snap[id].pos)) + 2 as real))
                + 48 as real * (0x8000 as real * eps());
            &&& row_close(after.x, triple(snap[id].pos), most)
            &&& is_alike(shape(after.p), shape(broadcast[j].cov + fix_cov()), 134 as real * square(k))
        }),
{
    lemma_tiny();
    let quiet = Mode { cooperative: false, ..m };
    let alone = next_pose(
        snap,
        anchors,
        landmarks,
        chart,
        broadcast,
        quiet,
        dt,
        id,
        s,
        draws,
    );
    let (r, d) = (radio(snap, id, m, draws.packets@), jitters(draws.fixes@));
    lemma_one_word(alone, r, broadcast, d, snap.len() as int, j);
    let (own, fix) = (Fix { pos: alone.x, cov: alone.p }, fix_from(r, broadcast[j], j, d[j]));
    let b = 0x8000 as real;
    law_word_puts_a_drone_where_it_is(r, broadcast[j], j, d[j], b);
    let me = triple(snap[id].pos);
    let o = Triple { x: 0 as real, y: 0 as real, z: 0 as real };
    assert(both(me, triple(broadcast[j].pos).minus(triple(snap[j].pos)).minus(o)) =~= me);
    let e = eps();
    assert(48 as real * (b * e) <= 1 as real / (3 as real));
    law_vaguer_estimate_is_dismissed(fix, own, p, q, k, w);
    let (n, x) = (square(k), extent(triple(fix.pos)) + 1 as real);
    let y = extent(me) + 2 as real;
    assert(x <= y);
    lemma_square_size(k, n);
    let nk = n * k;
    assert(nk >= 0 as real) by (nonlinear_arith)
        requires
            nk == n * k,
            n > 0 as real,
            k >= 1 as real,
    ;
    assert(nk * x <= nk * y) by (nonlinear_arith)
        requires
            x <= y,
            nk >= 0 as real,
    ;
}

/// A word that is vaguer in every direction than what the drone knows without it
/// changes nothing, but for roundings: no neighbour misleads a drone that knows
/// better.
pub proof fn law_vague_word_changes_nothing(
    snap: Seq<Seen>,
    anchors: Seq<V3>,
    landmarks: Seq<V3>,
    chart: Chart,
    broadcast: Seq<Fix>,
    m: Mode,
    dt: Number,
    id: int,
    s: Pose,
    draws: SelfDraws,
    j: int,
    p: real,
    q: real,
    k: real,
    w: real,
)
    requires
        snap[id].alive,
        hears_only(snap, id, m, draws, j),
        ({
            let alone = next_pose(
                snap,
                anchors,
                landmarks,
                chart,
                broadcast,
                Mode { cooperative: false, ..m },
                dt,
                id,
                s,
                draws,
            );
            let r = radio(snap, id, m, draws.packets@);
            let fix = fix_from(r, broadcast[j], j, jitters(draws.fixes@)[j]);
            let cov = broadcast[j].cov + fix_cov();
            &&& is_position(alone.x)
            &&& is_position(fix.pos)
            &&& is_covariance(cov, p, k)
            &&& is_covariance(alone.p, q, k)
            &&& is_vaguer(cov, alone.p, w)
        }),
        w > 0 as real,
        w <= 1 as real,
        square(k) <= w / (10000 as real),
    ensures
        ({
            let alone = next_pose(
                snap,
                anchors,
                landmarks,
                chart,
                broadcast,
                Mode { cooperative: false, ..m },
                dt,
                id,
                s,
                draws,
            );
            let after = next_pose(
                snap,
                anchors,
                landmarks,
                chart,
                broadcast,
                m,
                dt,
                id,
                s,
                draws,
            );
            &&& is_place_kept(after.x, alone.x, square(k), k)
            &&& is_alike(shape(after.p), shape(alone.p), 134 as real * square(k))
        }),
{
    let quiet = Mode { cooperative: false, ..m };
    let alone = next_pose(
        snap,
        anchors,
        landmarks,
        chart,
        broadcast,
        quiet,
        dt,
        id,
        s,
        draws,
    );
    let (r, d) = (radio(snap, id, m, draws.packets@), jitters(draws.fixes@));
    lemma_one_word(alone, r, broadcast, d, snap.len() as int, j);
    let (own, fix) = (Fix { pos: alone.x, cov: alone.p }, fix_from(r, broadcast[j], j, d[j]));
    law_vaguer_estimate_is_dismissed(own, fix, q, p, k, w);
}

/// What ranges make of a step: they start from the estimate that the drone would have
/// without them, and are taken from where it truly is. First those to the anchors,
/// then those to the landmarks.
proof fn lemma_ranges_of_a_step(
    snap: Seq<Seen>,
    anchors: Seq<V3>,
    landmarks: Seq<V3>,
    chart: Chart,
    broadcast: Seq<Fix>,
    m: Mode,
    dt: Number,
    id: int,
    s: Pose,
    draws: SelfDraws,
)
    requires
        snap[id].alive,
        !m.cooperative,
    ensures
        ({
            let none = Seq::<V3>::empty();
            let alone = next_pose(snap, none, none, chart, broadcast, m, dt, id, s, draws);
            let near = next_pose(snap, anchors, none, chart, broadcast, m, dt, id, s, draws);
            let truth = snap[id].pos;
            &&& near == anchored(
                alone,
                truth,
                anchors,
                draws.anchors@,
                m.noise,
                anchors.len() as int,
            )
            &&& next_pose(snap, anchors, landmarks, chart, broadcast, m, dt, id, s, draws)
                == charted(
                near,
                truth,
                landmarks,
                chart,
                draws.landmarks@,
                m.noise,
                landmarks.len() as int,
            )
        }),
{
}

/// In a step, an anchor in reach pulls the estimate towards the true range: the
/// estimate with the anchor is the one without it, moved along the covariance with
/// the line of sight by the share that the variances give of what the believed range
/// to the anchor is off from the true one, noise included.
pub proof fn law_step_is_pulled_by_an_anchor(
    snap: Seq<Seen>,
    anchor: V3,
    chart: Chart,
    broadcast: Seq<Fix>,
    m: Mode,
    dt: Number,
    id: int,
    s: Pose,
    draws: SelfDraws,
    b: real,
    w: real,
)
    requires
        snap[id].alive,
        !m.cooperative,
        !less(decode(ANCHOR_RANGE), (snap[id].pos - anchor).length()),
        ({
            let none = Seq::<V3>::empty();
            let alone = next_pose(snap, none, none, chart, broadcast, m, dt, id, s, draws);
            let (z, d) = ((snap[id].pos - anchor).length(), draws.anchors@[0]);
            let e = noise_of(d.first@, d.second@, range_noise(m.noise));
            &&& is_rangeable(alone, anchor, z + e, anchor_var(m.noise), b, w)
            &&& z is Finite && size(value(z)) <= w
            &&& e is Finite && size(value(e)) <= w
        }),
    ensures
        ({
            let none = Seq::<V3>::empty();
            let alone = next_pose(snap, none, none, chart, broadcast, m, dt, id, s, draws);
            let after = next_pose(snap, seq![anchor], none, chart, broadcast, m, dt, id, s, draws);
            let d = draws.anchors@[0];
            let e = noise_of(d.first@, d.second@, range_noise(m.noise));
            exists|off: real|
                #[trigger] is_pulled(after, alone, anchor, off, anchor_var(m.noise), b, w) && size(
                    off - (value((snap[id].pos - anchor).length()) + value(e) - value(
                        expected_range(alone, anchor),
                    )),
                ) <= 4 as real * (w * eps())
        }),
{
    let none = Seq::<V3>::empty();
    let one = seq![anchor];
    lemma_ranges_of_a_step(snap, one, none, chart, broadcast, m, dt, id, s, draws);
    let alone = next_pose(snap, none, none, chart, broadcast, m, dt, id, s, draws);
    let truth = snap[id].pos;
    assert(anchored(alone, truth, one, draws.anchors@, m.noise, 0) == alone);
    law_anchor_pulls_towards_the_true_range(
        alone,
        truth,
        one,
        draws.anchors@,
        m.noise,
        0,
        b,
        w,
    );
}

/// A usable landmark in reach does the same, as if it were where it is mapped and
/// with the uncertainty of the map added to that of the range.
pub proof fn law_step_is_pulled_by_a_landmark(
    snap: Seq<Seen>,
    landmark: V3,
    chart: Chart,
    broadcast: Seq<Fix>,
    m: Mode,
    dt: Number,
    id: int,
    s: Pose,
    draws: SelfDraws,
    b: real,
    w: real,
)
    requires
        snap[id].alive,
        !m.cooperative,
        !less(decode(LANDMARK_OBS_RANGE), (snap[id].pos - landmark).length()),
        chart.usable(0),
        ({
            let none = Seq::<V3>::empty();
            let alone = next_pose(snap, none, none, chart, broadcast, m, dt, id, s, draws);
            let (z, d) = ((snap[id].pos - landmark).length(), draws.landmarks@[0]);
            let e = noise_of(d.first@, d.second@, range_noise(m.noise));
            let v = anchor_var(m.noise) + chart.var(0);
            &&& is_rangeable(alone, chart.map[0].pos, z + e, v, b, w)
            &&& z is Finite && size(value(z)) <= w
            &&& e is Finite && size(value(e)) <= w
        }),
    ensures
        ({
            let none = Seq::<V3>::empty();
            let alone = next_pose(snap, none, none, chart, broadcast, m, dt, id, s, draws);
            let after = next_pose(
                snap,
                none,
                seq![landmark],
                chart,
                broadcast,
                m,
                dt,
                id,
                s,
                draws,
            );
            let (d, at) = (draws.landmarks@[0], chart.map[0].pos);
            let e = noise_of(d.first@, d.second@, range_noise(m.noise));
            let v = anchor_var(m.noise) + chart.var(0);
            exists|off: real|
                #[trigger] is_pulled(after, alone, at, off, v, b, w) && size(
                    off - (value((snap[id].pos - landmark).length()) + value(e) - value(
                        expected_range(alone, at),
                    )),
                ) <= 4 as real * (w * eps())
        }),
{
    let none = Seq::<V3>::empty();
    let one = seq![landmark];
    lemma_ranges_of_a_step(snap, none, one, chart, broadcast, m, dt, id, s, draws);
    let alone = next_pose(snap, none, none, chart, broadcast, m, dt, id, s, draws);
    let truth = snap[id].pos;
    assert(anchored(alone, truth, none, draws.anchors@, m.noise, 0) == alone);
    assert(charted(alone, truth, one, chart, draws.landmarks@, m.noise, 0) == alone);
    law_landmark_pulls_towards_the_true_range(
        alone,
        truth,
        one,
        chart,
        draws.landmarks@,
        m.noise,
        0,
        b,
        w,
    );
}

/// A drone whose dead reckoning is right keeps its true place over a whole step, with
/// all anchors and all landmarks, where noise is off and the map is true.
pub proof fn law_step_confirms_the_true_place(
    snap: Seq<Seen>,
    anchors: Seq<V3>,
    landmarks: Seq<V3>,
    chart: Chart,
    broadcast: Seq<Fix>,
    m: Mode,
    dt: Number,
    id: int,
    s: Pose,
    draws: SelfDraws,
)
    requires
        snap[id].alive,
        !m.cooperative,
        !m.noise,
        ({
            let none = Seq::<V3>::empty();
            let alone = next_pose(snap, none, none, chart, broadcast, m, dt, id, s, draws);
            let near = next_pose(snap, anchors, none, chart, broadcast, m, dt, id, s, draws);
            &&& same_place(alone.x, snap[id].pos)
            &&& is_rounded_place(alone.x)
            &&& finite(near.x)
        }),
        finite(
            next_pose(snap, anchors, landmarks, chart, broadcast, m, dt, id, s, draws).x,
        ),
        forall|i: int|
            0 <= i < anchors.len() ==> is_range((snap[id].pos - #[trigger] anchors[i]).length()),
        forall|l: int|
            0 <= l < landmarks.len() ==> is_range((snap[id].pos - #[trigger] landmarks[l]).length())
                && same_place(chart.map[l].pos, landmarks[l]),
    ensures
        same_place(
            next_pose(snap, anchors, landmarks, chart, broadcast, m, dt, id, s, draws).x,
            snap[id].pos,
        ),
{
    let none = Seq::<V3>::empty();
    lemma_ranges_of_a_step(snap, anchors, landmarks, chart, broadcast, m, dt, id, s, draws);
    let alone = next_pose(snap, none, none, chart, broadcast, m, dt, id, s, draws);
    let near = next_pose(snap, anchors, none, chart, broadcast, m, dt, id, s, draws);
    let truth = snap[id].pos;
    law_anchors_confirm_the_true_place(
        alone,
        truth,
        anchors,
        draws.anchors@,
        anchors.len() as int,
    );
    law_landmarks_confirm_the_true_place(
        near,
        truth,
        landmarks,
        chart,
        draws.landmarks@,
        landmarks.len() as int,
    );
}

} // verus!
