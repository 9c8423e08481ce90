//! What a whole step teaches of each neighbour: those that are heard are corrected
//! or begun, once each and by their own sighting; the others coast.
use crate::config::{KF_INIT_POS_VAR, KF_INIT_VEL_VAR};
use crate::error::{eps, value};
use crate::foresight::{
    block_within, close, foreseen, is_share, law_prediction_is_nearly_exact,
    law_prediction_moves_the_position, outlook, row_close, row_near, row_within,
};
use crate::forms::{grid, triple};
use crate::matrix::M3;
use crate::neighbors::{
    after_sightings, carried_all, fresh, is_fresh, law_fresh_tracks_are_kept, lemma_place, noted,
    noted_all, place, Entry, Sighting,
};
use crate::number::{decode, less, sum, zero, Number};
use crate::scalar::Scalar;
use crate::sim::SimState;
use crate::spectra::image;
use crate::swarm::{radio, Radio, Seen};
use crate::teaching::{is_teachable, law_sighting_teaches_position_and_velocity, lesson};
use crate::tolerance::{both, lemma_itself, lemma_sum_close};
use crate::track::{diagonal3, first_estimate, sensor_cov, Estimate};
use crate::tracking::{lemma_tracked_before_or_heard, tracks};
use crate::vector::V3;
use vstd::prelude::*;

verus! {

/// The first entry of a drone is its place.
proof fn lemma_first_is_place(s: Seq<Entry>, j: int, i: int)
    requires
        0 <= i < s.len(),
        s[i].id == j,
        forall|k: int| 0 <= k < i ==> (#[trigger] s[k]).id != j,
    ensures
        place(s, j) == i,
{
    lemma_place(s, j);
    let p = place(s, j);
    if p < i {
        assert(s[p].id != j);
    } else if p > i {
        assert(s[i].id != j);
    }
}

/// The entries after the sightings of the first `n` drones: those there before keep
/// their places, and the one of `j` was corrected by its own sighting, once, if it
/// was heard.
proof fn lemma_entry_after(
    s: Seq<Entry>,
    hearing: Radio,
    ego: V3,
    zs: Seq<Sighting>,
    r: M3,
    now: Number,
    n: int,
    j: int,
)
    requires
        place(s, j) < s.len(),
    ensures
        ({
            let (t, i) = (noted_all(s, hearing, ego, zs, r, now, n), place(s, j));
            &&& t.len() >= s.len()
            &&& forall|k: int| 0 <= k < s.len() ==> (#[trigger] t[k]).id == s[k].id
            &&& t[i] == (if 0 <= j < n && hearing.hears(j) {
                noted(s, j, ego, zs[j], r, now)[i]
            } else {
                s[i]
            })
        }),
    decreases n,
{
    lemma_place(s, j);
    if n > 0 {
        let k = n - 1;
        let before = noted_all(s, hearing, ego, zs, r, now, k);
        lemma_entry_after(s, hearing, ego, zs, r, now, k, j);
        if hearing.hears(k) {
            lemma_place(before, k);
            let i = place(s, j);
            assert(before[i].id == s[i].id);
            if j == k {
                assert forall|m: int| 0 <= m < i implies (#[trigger] before[m]).id != j by {
                    assert(before[m].id == s[m].id);
                }
                lemma_first_is_place(before, j, i);
            }
        }
    }
}

/// The entry of a drone that was heard and not tracked.
proof fn lemma_entry_begun(
    s: Seq<Entry>,
    hearing: Radio,
    ego: V3,
    zs: Seq<Sighting>,
    r: M3,
    now: Number,
    n: int,
    j: int,
) -> (i: int)
    requires
        !tracks(s, j),
        0 <= j < n,
        hearing.hears(j),
    ensures
        0 <= i < noted_all(s, hearing, ego, zs, r, now, n).len(),
        noted_all(s, hearing, ego, zs, r, now, n)[i] == (Entry {
            id: j,
            est: first_estimate(ego, zs[j].offset@, now),
        }),
    decreases n,
{
    let k = n - 1;
    let before = noted_all(s, hearing, ego, zs, r, now, k);
    lemma_place(before, k);
    if k == j {
        let p = place(before, j);
        if p < before.len() {
            lemma_tracked_before_or_heard(s, hearing, ego, zs, r, now, k, p);
        }
        before.len() as int
    } else {
        lemma_entry_begun(s, hearing, ego, zs, r, now, k, j)
    }
}

/// A fresh entry is still there after the step.
proof fn lemma_kept(
    snap: Seq<Seen>,
    sim: SimState,
    now: Number,
    id: int,
    ego: V3,
    s: Seq<Entry>,
    zs: Seq<Sighting>,
    packets: Seq<Scalar>,
    i: int,
) -> (k: int)
    requires
        ({
            let r = radio(snap, id, sim@, packets);
            let all = noted_all(s, r, ego, zs, sensor_cov(sim.noise), now, snap.len() as int);
            0 <= i < all.len() && is_fresh(all[i].est, now)
        }),
    ensures
        ({
            let r = radio(snap, id, sim@, packets);
            let all = noted_all(s, r, ego, zs, sensor_cov(sim.noise), now, snap.len() as int);
            let t = after_sightings(snap, sim, now, id, ego, s, zs, packets);
            0 <= k < t.len() && t[k] == all[i]
        }),
{
    let r = radio(snap, id, sim@, packets);
    let all = noted_all(s, r, ego, zs, sensor_cov(sim.noise), now, snap.len() as int);
    law_fresh_tracks_are_kept(all, now, i);
    let t = fresh(all, now);
    choose|k: int| 0 <= k < t.len() && t[k] == all[i]
}

proof fn lemma_now_is_fresh(e: Estimate, now: Number)
    requires
        e.last_seen == now,
        now is Finite,
    ensures
        is_fresh(e, now),
{
    assert(now - now == zero() || (now - now) is Finite && (now - now)->mag == 0) by {
        reveal(sum);
    }
    reveal(less);
}

/// In a step, a tracked neighbour that is heard is taught by its own sighting, from
/// where the drone believes to be: its position and its velocity are corrected, each
/// by its covariance with the position, by one and the same lesson. Yields where its
/// entry is then.
pub proof fn law_heard_neighbour_is_taught(
    snap: Seq<Seen>,
    sim: SimState,
    now: Number,
    id: int,
    ego: V3,
    s: Seq<Entry>,
    zs: Seq<Sighting>,
    packets: Seq<Scalar>,
    j: int,
    b: real,
    c: real,
    f: real,
    a: real,
) -> (k: int)
    requires
        0 <= j < snap.len(),
        radio(snap, id, sim@, packets).hears(j),
        is_teachable(s, j, ego, zs[j], sensor_cov(sim.noise), b, c, f, a),
        ((b * c) * f) * a <= 0x1000_0000_0000 as real,
        now is Finite,
    ensures
        ({
            let t = after_sightings(snap, sim, now, id, ego, s, zs, packets);
            let e = s[place(s, j)].est;
            let u = lesson(e, ego, zs[j], sensor_cov(sim.noise));
            let tol = 2310 as real * ((((b * c) * f) * a) * eps());
            &&& 0 <= k < t.len()
            &&& t[k].id == j
            &&& t[k].est.last_seen == now
            &&& row_close(t[k].est.pos, both(triple(e.pos), image(grid(e.cov.pp), u)), tol)
            &&& row_close(t[k].est.vel, both(triple(e.vel), image(grid(e.cov.vp), u)), tol)
        }),
{
    let (r, v) = (radio(snap, id, sim@, packets), sensor_cov(sim.noise));
    let n = snap.len() as int;
    lemma_entry_after(s, r, ego, zs, v, now, n, j);
    law_sighting_teaches_position_and_velocity(s, j, ego, zs[j], v, now, b, c, f, a);
    let i = place(s, j);
    lemma_place(s, j);
    let all = noted_all(s, r, ego, zs, v, now, n);
    lemma_now_is_fresh(all[i].est, now);
    lemma_kept(snap, sim, now, id, ego, s, zs, packets, i)
}

/// A tracked neighbour that is not heard is left as it was, as long as it is fresh:
/// a lost packet loses no track.
pub proof fn law_unheard_neighbour_is_kept(
    snap: Seq<Seen>,
    sim: SimState,
    now: Number,
    id: int,
    ego: V3,
    s: Seq<Entry>,
    zs: Seq<Sighting>,
    packets: Seq<Scalar>,
    j: int,
) -> (k: int)
    requires
        place(s, j) < s.len(),
        !radio(snap, id, sim@, packets).hears(j),
        is_fresh(s[place(s, j)].est, now),
    ensures
        0 <= k < after_sightings(snap, sim, now, id, ego, s, zs, packets).len(),
        after_sightings(snap, sim, now, id, ego, s, zs, packets)[k] == s[place(s, j)],
{
    let (r, v) = (radio(snap, id, sim@, packets), sensor_cov(sim.noise));
    lemma_entry_after(s, r, ego, zs, v, now, snap.len() as int, j);
    lemma_place(s, j);
    lemma_kept(snap, sim, now, id, ego, s, zs, packets, place(s, j))
}

/// A neighbour that is heard and was not tracked gets a track where it was seen, at
/// the offset seen from where the drone believes to be, at rest, and with the
/// variances of a first guess. `m` bounds the coordinates. Yields where its entry is.
pub proof fn law_new_neighbour_is_put_where_seen(
    snap: Seq<Seen>,
    sim: SimState,
    now: Number,
    id: int,
    ego: V3,
    s: Seq<Entry>,
    zs: Seq<Sighting>,
    packets: Seq<Scalar>,
    j: int,
    m: real,
) -> (k: int)
    requires
        0 <= j < snap.len(),
        radio(snap, id, sim@, packets).hears(j),
        !tracks(s, j),
        now is Finite,
        row_within(ego, m),
        row_within(zs[j].offset@, m),
        m >= 1 as real,
        m <= 0x100_0000_0000_0000 as real,
    ensures
        ({
            let t = after_sightings(snap, sim, now, id, ego, s, zs, packets);
            let e = t[k].est;
            &&& 0 <= k < t.len()
            &&& t[k].id == j
            &&& e.last_seen == now
            &&& row_close(
                e.pos,
                both(triple(ego), triple(zs[j].offset@)),
                8 as real * (m * eps()),
            )
            &&& e.vel == V3::origin()
            &&& e.cov.pp == diagonal3(decode(KF_INIT_POS_VAR))
            &&& e.cov.vv == diagonal3(decode(KF_INIT_VEL_VAR))
            &&& e.cov.pv == M3::nil() && e.cov.vp == M3::nil()
        }),
{
    let (r, v) = (radio(snap, id, sim@, packets), sensor_cov(sim.noise));
    let n = snap.len() as int;
    let i = lemma_entry_begun(s, r, ego, zs, v, now, n, j);
    let o = zs[j].offset@;
    lemma_itself(ego);
    lemma_itself(o);
    lemma_sum_close(ego, o, triple(ego), triple(o), 0 as real, 0 as real, 2 as real * m);
    let e = eps();
    assert((2 as real * m) * e == 2 as real * (m * e)) by (nonlinear_arith);
    let all = noted_all(s, r, ego, zs, v, now, n);
    lemma_now_is_fresh(all[i].est, now);
    lemma_kept(snap, sim, now, id, ego, s, zs, packets, i)
}

/// Between sightings every track coasts: each position moves on by the believed
/// velocity times the time, the velocity stays, and the covariance spreads as on
/// exact numbers, but for rounding. `b` bounds the numbers before and `t` the time.
pub proof fn law_tracks_coast(s: Seq<Entry>, dt: Number, i: int, b: real, t: real)
    requires
        0 <= i < s.len(),
        is_share(dt, t),
        row_within(s[i].est.pos, b),
        row_within(s[i].est.vel, b),
        block_within(s[i].est.cov.pp, b) && block_within(s[i].est.cov.pv, b),
        block_within(s[i].est.cov.vp, b) && block_within(s[i].est.cov.vv, b),
        t >= 1 as real,
        b >= t * t,
        t * (t * b) <= 0x40_0000_0000_0000 as real,
    ensures
        ({
            let (e, after) = (s[i].est, carried_all(s, dt)[i]);
            let (p, f) = (after.est.cov, foreseen(outlook(e.cov), value(dt)));
            let tol = 640 as real * ((t * (t * b)) * eps());
            &&& carried_all(s, dt).len() == s.len()
            &&& after.id == s[i].id
            &&& after.est.last_seen == e.last_seen
            &&& row_near(
                after.est.pos,
                1 as real,
                e.pos,
                value(dt),
                e.vel,
                (t * b) * (96 as real * eps()),
            )
            &&& row_near(
                after.est.vel,
                0 as real,
                e.pos,
                1 as real,
                e.vel,
                (t * b) * (96 as real * eps()),
            )
            &&& close(p.pp, f.pp, tol) && close(p.pv, f.pv, tol)
            &&& close(p.vp, f.vp, tol) && close(p.vv, f.vv, tol)
        }),
{
    let tb = t * b;
    assert(b >= 1 as real && t * tb >= tb) by (nonlinear_arith)
        requires
            b >= t * t,
            t >= 1 as real,
            tb == t * b,
    ;
    law_prediction_is_nearly_exact(s[i].est, dt, b, t);
    law_prediction_moves_the_position(s[i].est, dt, b, t);
}

} // verus!
