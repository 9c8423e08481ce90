//! What a whole step makes of the tracks that a drone keeps.
use crate::matrix::M3;
use crate::neighbors::{
    after_sightings, carried_all, fresh, is_fresh, law_fresh_tracks_are_kept,
    law_kept_tracks_are_fresh, lemma_place, noted_all, place, Entry, Sighting,
};
use crate::number::{less, sum, zero, Number};
use crate::scalar::Scalar;
use crate::sim::SimState;
use crate::swarm::{audible, radio, Radio, Seen};
use crate::track::{innovation_cov, law_update_stamps, position_jacobian, sensor_cov};
use crate::vector::V3;
use vstd::prelude::*;

verus! {

/// Whether one of the entries is of the drone `j`.
pub open spec fn tracks(s: Seq<Entry>, j: int) -> bool {
    exists|i: int| 0 <= i < s.len() && (#[trigger] s[i]).id == j
}

/// Whether one of the entries is of the drone `j` and was confirmed just now.
pub open spec fn tracks_now(s: Seq<Entry>, j: int, now: Number) -> bool {
    exists|i: int| 0 <= i < s.len() && (#[trigger] s[i]).id == j && s[i].est.last_seen == now
}

/// Nobody is tracked but those that were and those heard.
pub proof fn lemma_tracked_before_or_heard(
    s: Seq<Entry>,
    hearing: Radio,
    ego: V3,
    zs: Seq<Sighting>,
    r: M3,
    now: Number,
    k: int,
    i: int,
)
    requires
        0 <= i < noted_all(s, hearing, ego, zs, r, now, k).len(),
    ensures
        ({
            let j = noted_all(s, hearing, ego, zs, r, now, k)[i].id;
            tracks(s, j) || (0 <= j < k && hearing.hears(j))
        }),
    decreases k,
{
    let t = noted_all(s, hearing, ego, zs, r, now, k);
    if k <= 0 {
        assert(s[i].id == t[i].id);
    } else {
        let before = noted_all(s, hearing, ego, zs, r, now, k - 1);
        if hearing.hears(k - 1) {
            lemma_place(before, k - 1);
            if i < before.len() && place(before, k - 1) != i {
                assert(t[i] == before[i]);
                lemma_tracked_before_or_heard(s, hearing, ego, zs, r, now, k - 1, i);
            }
        } else {
            lemma_tracked_before_or_heard(s, hearing, ego, zs, r, now, k - 1, i);
        }
    }
}

/// A track that was confirmed just now stays so while others are heard.
proof fn lemma_stays_confirmed(
    s: Seq<Entry>,
    hearing: Radio,
    ego: V3,
    zs: Seq<Sighting>,
    r: M3,
    now: Number,
    j: int,
    k: int,
)
    requires
        0 <= j < k,
        tracks_now(noted_all(s, hearing, ego, zs, r, now, j + 1), j, now),
    ensures
        tracks_now(noted_all(s, hearing, ego, zs, r, now, k), j, now),
    decreases k,
{
    if k > j + 1 {
        lemma_stays_confirmed(s, hearing, ego, zs, r, now, j, k - 1);
        let before = noted_all(s, hearing, ego, zs, r, now, k - 1);
        let t = noted_all(s, hearing, ego, zs, r, now, k);
        let i = choose|i: int|
            0 <= i < before.len() && (#[trigger] before[i]).id == j && before[i].est.last_seen
                == now;
        lemma_place(before, k - 1);
        assert(t[i] == before[i]);
    }
}

/// A drone that is heard is tracked: by a new track, or by one whose
/// correction can be computed.
proof fn lemma_confirmed(
    s: Seq<Entry>,
    hearing: Radio,
    ego: V3,
    zs: Seq<Sighting>,
    r: M3,
    now: Number,
    j: int,
)
    requires
        j >= 0,
        hearing.hears(j),
        forall|i: int|
            0 <= i < s.len() && (#[trigger] s[i]).id == j ==> !innovation_cov(
                s[i].est.cov,
                position_jacobian(s[i].est.pos - ego),
                r,
            ).is_singular(),
    ensures
        tracks_now(noted_all(s, hearing, ego, zs, r, now, j + 1), j, now),
{
    let before = noted_all(s, hearing, ego, zs, r, now, j);
    let t = noted_all(s, hearing, ego, zs, r, now, j + 1);
    let p = place(before, j);
    lemma_place(before, j);
    if p < before.len() {
        lemma_old_place(s, hearing, ego, zs, r, now, j, p);
        let e = before[p].est;
        law_update_stamps(
            e,
            e.pos - ego,
            zs[j].measured@,
            zs[j].expected@,
            r,
            now,
        );
        assert(t[p].id == j && t[p].est.last_seen == now);
    } else {
        assert(t[before.len() as int].id == j);
    }
}

/// Before a drone is heard, its entries are among the first ones, as they were.
proof fn lemma_old_place(
    s: Seq<Entry>,
    hearing: Radio,
    ego: V3,
    zs: Seq<Sighting>,
    r: M3,
    now: Number,
    k: int,
    p: int,
)
    requires
        0 <= p < noted_all(s, hearing, ego, zs, r, now, k).len(),
        noted_all(s, hearing, ego, zs, r, now, k)[p].id >= k,
    ensures
        p < s.len(),
        noted_all(s, hearing, ego, zs, r, now, k)[p] == s[p],
    decreases k,
{
    if k > 0 {
        let before = noted_all(s, hearing, ego, zs, r, now, k - 1);
        lemma_place(before, k - 1);
        lemma_old_place(s, hearing, ego, zs, r, now, k - 1, p);
    }
}

/// Prediction keeps whom a drone tracks.
proof fn lemma_prediction_keeps_numbers(s: Seq<Entry>, dt: Number)
    ensures
        carried_all(s, dt).len() == s.len(),
        forall|i: int| 0 <= i < s.len() ==> (#[trigger] carried_all(s, dt)[i]).id == s[i].id,
        forall|j: int| tracks(carried_all(s, dt), j) ==> #[trigger] tracks(s, j),
{
    let t = carried_all(s, dt);
    assert forall|j: int| tracks(t, j) implies #[trigger] tracks(s, j) by {
        let i = choose|i: int| 0 <= i < t.len() && (#[trigger] t[i]).id == j;
        assert(s[i].id == j);
    }
}

/// After a step every track is fresh; a drone never tracks itself, unless it
/// did before; and a drone that was not tracked before is one that lives, is
/// within the perception radius of where this one truly is, and was heard.
pub proof fn law_tracks_are_of_those_heard(
    snap: Seq<Seen>,
    sim: SimState,
    now: Number,
    dt: Number,
    id: int,
    ego: V3,
    s: Seq<Entry>,
    zs: Seq<Sighting>,
    packets: Seq<Scalar>,
    i: int,
)
    requires
        0 <= i < after_sightings(snap, sim, now, id, ego, carried_all(s, dt), zs, packets).len(),
    ensures
        ({
            let e = after_sightings(snap, sim, now, id, ego, carried_all(s, dt), zs, packets)[i];
            &&& is_fresh(e.est, now)
            &&& !tracks(s, id) ==> e.id != id
            &&& tracks(s, e.id) || (0 <= e.id < snap.len() && radio(snap, id, sim@, packets).hears(
                e.id,
            ) && audible(snap, id, snap[id].pos, e.id, sim.perception@))
        }),
{
    let before = carried_all(s, dt);
    let hearing = radio(snap, id, sim@, packets);
    let r = sensor_cov(sim.noise);
    let n = snap.len() as int;
    let all = noted_all(before, hearing, ego, zs, r, now, n);
    law_kept_tracks_are_fresh(all, now, i);
    let e = fresh(all, now)[i];
    let k = choose|k: int| 0 <= k < all.len() && all[k] == e;
    lemma_tracked_before_or_heard(before, hearing, ego, zs, r, now, n, k);
    lemma_prediction_keeps_numbers(s, dt);
}

/// A drone that is heard in a step is tracked after it, and confirmed just now,
/// unless it was tracked already and the correction cannot be computed. With
/// uncertainty switched off every living drone within the radius is heard.
pub proof fn law_those_heard_are_tracked(
    snap: Seq<Seen>,
    sim: SimState,
    now: Number,
    dt: Number,
    id: int,
    ego: V3,
    s: Seq<Entry>,
    zs: Seq<Sighting>,
    packets: Seq<Scalar>,
    j: int,
)
    requires
        0 <= j < snap.len(),
        now is Finite,
        radio(snap, id, sim@, packets).hears(j) || (!sim.noise && audible(
            snap,
            id,
            snap[id].pos,
            j,
            sim.perception@,
        )),
        forall|i: int|
            0 <= i < s.len() && (#[trigger] s[i]).id == j ==> {
                let e = carried_all(s, dt)[i].est;
                !innovation_cov(
                    e.cov,
                    position_jacobian(e.pos - ego),
                    sensor_cov(sim.noise),
                ).is_singular()
            },
    ensures
        tracks_now(
            after_sightings(snap, sim, now, id, ego, carried_all(s, dt), zs, packets),
            j,
            now,
        ),
{
    let before = carried_all(s, dt);
    let hearing = radio(snap, id, sim@, packets);
    let r = sensor_cov(sim.noise);
    let n = snap.len() as int;
    assert forall|i: int| 0 <= i < before.len() && (#[trigger] before[i]).id == j implies
        !innovation_cov(before[i].est.cov, position_jacobian(before[i].est.pos - ego), r).is_singular() by {
        assert(s[i].id == j);
    }
    lemma_confirmed(before, hearing, ego, zs, r, now, j);
    lemma_stays_confirmed(before, hearing, ego, zs, r, now, j, n);
    let all = noted_all(before, hearing, ego, zs, r, now, n);
    let i = choose|i: int|
        0 <= i < all.len() && (#[trigger] all[i]).id == j && all[i].est.last_seen == now;
    assert(is_fresh(all[i].est, now)) by {
        assert(now - now == zero() || (now - now) is Finite && (now - now)->mag == 0) by {
            reveal(sum);
        }
        reveal(less);
    }
    law_fresh_tracks_are_kept(all, now, i);
    let kept = fresh(all, now);
    let k = choose|k: int| 0 <= k < kept.len() && kept[k] == all[i];
    assert(kept[k].id == j);
}

} // verus!
