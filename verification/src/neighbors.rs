//! Each drone's world model: what it believes of the neighbours it tracks.
use crate::angle::can_wrap;
use crate::config::{MIN_STEP, ONE_TENTH, TRACK_TIMEOUT};
use crate::matrix::{Mat3, M3};
use crate::metrics::{ease, eased, Metrics};
use crate::number::{at_most, decode, larger, less, one, square_root, zero, Number};
use crate::scalar::Scalar;
use crate::selfloc::SelfLoc;
use crate::sim::{Drone, SimState};
use crate::swarm::{radio, Radio, Seen, Snapshot};
use crate::track::{carried, corrected, first_estimate, measurement_cov, sensor_cov, Estimate, Track};
use crate::vector::{Vec3, V3};
use vstd::prelude::*;

verus! {

/// The estimate of the drone with this number.
#[verifier::ext_equal]
pub struct Entry {
    pub id: int,
    pub est: Estimate,
}

/// The track of the drone with this number.
#[derive(Clone, Copy, Debug)]
pub struct Neighbor {
    pub id: usize,
    pub track: Track,
}

impl View for Neighbor {
    type V = Entry;

    open spec fn view(&self) -> Entry {
        Entry { id: self.id as int, est: self.track@ }
    }
}

/// The neighbours that a drone tracks, each of them once, in the order in which
/// they were first seen.
pub struct Beliefs(pub Vec<Neighbor>);

impl View for Beliefs {
    type V = Seq<Entry>;

    open spec fn view(&self) -> Seq<Entry> {
        self.0@.map_values(|t: Neighbor| t@)
    }
}

/// Whether the entries are of drones below `n`, and each of another one.
pub open spec fn distinct_below(s: Seq<Entry>, n: int) -> bool {
    &&& forall|i: int| 0 <= i < s.len() ==> 0 <= (#[trigger] s[i]).id < n
    &&& forall|i: int, j: int|
        0 <= i < j < s.len() ==> (#[trigger] s[i]).id != (#[trigger] s[j]).id
}

/// Where the drone `j` stands among the entries; their number if it does not.
pub open spec fn place(s: Seq<Entry>, j: int) -> int
    decreases s.len(),
{
    if s.len() == 0 {
        0
    } else if s[0].id == j {
        0
    } else {
        1 + place(s.drop_first(), j)
    }
}

pub proof fn lemma_place(s: Seq<Entry>, j: int)
    ensures
        0 <= place(s, j) <= s.len(),
        place(s, j) < s.len() ==> s[place(s, j)].id == j,
        forall|i: int| 0 <= i < place(s, j) ==> (#[trigger] s[i]).id != j,
    decreases s.len(),
{
    if s.len() > 0 && s[0].id != j {
        let rest = s.drop_first();
        lemma_place(rest, j);
        assert forall|i: int| 0 <= i < place(s, j) implies (#[trigger] s[i]).id != j by {
            if i > 0 {
                assert(rest[i - 1] == s[i]);
            }
        }
    }
}

/// What a drone makes of a neighbour in one step: the range, azimuth and
/// elevation that its sensor reports, what it expected of the neighbour it
/// tracks, and the offset that the report gives.
#[derive(Clone, Copy, Debug)]
pub struct Sighting {
    pub measured: Vec3,
    pub expected: Vec3,
    pub offset: Vec3,
}

/// All entries carried forward by `dt`.
pub open spec fn carried_all(s: Seq<Entry>, dt: Number) -> Seq<Entry> {
    s.map_values(|e: Entry| Entry { id: e.id, est: carried(e.est, dt) })
}

/// The entries after a sighting of the drone `j`: a track is corrected, or a
/// new one begins.
pub open spec fn noted(s: Seq<Entry>, j: int, ego: V3, z: Sighting, r: M3, now: Number) -> Seq<
    Entry,
> {
    let i = place(s, j);
    if i < s.len() {
        let e = s[i].est;
        s.update(
            i,
            Entry { id: j, est: corrected(e, e.pos - ego, z.measured@, z.expected@, r, now) },
        )
    } else {
        s.push(Entry { id: j, est: first_estimate(ego, z.offset@, now) })
    }
}

/// The entries after the sightings of those of the first `n` drones that are
/// heard.
pub open spec fn noted_all(
    s: Seq<Entry>,
    hearing: Radio,
    ego: V3,
    zs: Seq<Sighting>,
    r: M3,
    now: Number,
    n: int,
) -> Seq<Entry>
    decreases n,
{
    if n <= 0 {
        s
    } else {
        let before = noted_all(s, hearing, ego, zs, r, now, n - 1);
        if hearing.hears(n - 1) {
            noted(before, n - 1, ego, zs[n - 1], r, now)
        } else {
            before
        }
    }
}

/// Whether a track was confirmed recently enough to be kept.
pub open spec fn is_fresh(e: Estimate, now: Number) -> bool {
    at_most(now - e.last_seen, decode(TRACK_TIMEOUT))
}

/// The fresh entries.
pub open spec fn fresh(s: Seq<Entry>, now: Number) -> Seq<Entry>
    decreases s.len(),
{
    if s.len() == 0 {
        s
    } else {
        let before = fresh(s.drop_last(), now);
        if is_fresh(s.last().est, now) {
            before.push(s.last())
        } else {
            before
        }
    }
}

/// Every drone's number stays where it was, and new ones are added at the end:
/// the entries stay distinct.
pub proof fn lemma_noted_distinct(
    s: Seq<Entry>,
    j: int,
    ego: V3,
    z: Sighting,
    r: M3,
    now: Number,
    n: int,
)
    requires
        distinct_below(s, n),
        0 <= j < n,
    ensures
        distinct_below(noted(s, j, ego, z, r, now), n),
{
    lemma_place(s, j);
    let t = noted(s, j, ego, z, r, now);
    assert forall|i: int| 0 <= i < t.len() implies 0 <= (#[trigger] t[i]).id < n by {
        if i < s.len() {
            assert(t[i].id == s[i].id);
        }
    }
    assert forall|i: int, k: int| 0 <= i < k < t.len() implies (#[trigger] t[i]).id != (
    #[trigger] t[k]).id by {
        assert(t[i].id == s[i].id);
        if k < s.len() {
            assert(t[k].id == s[k].id);
        }
    }
}

proof fn lemma_noted_all_distinct(
    s: Seq<Entry>,
    hearing: Radio,
    ego: V3,
    zs: Seq<Sighting>,
    r: M3,
    now: Number,
    k: int,
    n: int,
)
    requires
        distinct_below(s, n),
        k <= n,
    ensures
        distinct_below(noted_all(s, hearing, ego, zs, r, now, k), n),
    decreases k,
{
    if k > 0 {
        lemma_noted_all_distinct(s, hearing, ego, zs, r, now, k - 1, n);
        lemma_noted_distinct(
            noted_all(s, hearing, ego, zs, r, now, k - 1),
            k - 1,
            ego,
            zs[k - 1],
            r,
            now,
            n,
        );
    }
}

/// Whether `e` is an entry after the one at `k`.
spec fn follows(s: Seq<Entry>, k: int, e: Entry) -> bool {
    exists|m: int| k < m < s.len() && s[m] == e
}

/// Each entry that is kept was there, in the same order.
proof fn lemma_fresh_from(s: Seq<Entry>, now: Number, i: int) -> (k: int)
    requires
        0 <= i < fresh(s, now).len(),
    ensures
        0 <= k < s.len(),
        fresh(s, now)[i] == s[k],
        is_fresh(s[k].est, now),
        forall|j: int|
            i < j < fresh(s, now).len() ==> follows(s, k, #[trigger] fresh(s, now)[j]),
    decreases s.len(),
{
    let before = fresh(s.drop_last(), now);
    let last = s.len() - 1;
    if i < before.len() {
        let k = lemma_fresh_from(s.drop_last(), now, i);
        assert forall|j: int| i < j < fresh(s, now).len() implies follows(
            s,
            k,
            #[trigger] fresh(s, now)[j],
        ) by {
            if j < before.len() {
                assert(follows(s.drop_last(), k, before[j]));
                let m = choose|m: int| k < m < last && s.drop_last()[m] == before[j];
                assert(s[m] == fresh(s, now)[j]);
            } else {
                assert(s[last] == fresh(s, now)[j]);
            }
        }
        k
    } else {
        last
    }
}

proof fn lemma_fresh_distinct(s: Seq<Entry>, now: Number, n: int)
    requires
        distinct_below(s, n),
    ensures
        distinct_below(fresh(s, now), n),
{
    let t = fresh(s, now);
    assert forall|i: int| 0 <= i < t.len() implies 0 <= (#[trigger] t[i]).id < n by {
        let k = lemma_fresh_from(s, now, i);
    }
    assert forall|i: int, j: int| 0 <= i < j < t.len() implies (#[trigger] t[i]).id != (
    #[trigger] t[j]).id by {
        let k = lemma_fresh_from(s, now, i);
        assert(follows(s, k, t[j]));
        let m = choose|m: int| k < m < s.len() && s[m] == t[j];
        assert(s[k].id != s[m].id);
    }
}

/// Every track that is kept is fresh and was there before.
pub proof fn law_kept_tracks_are_fresh(s: Seq<Entry>, now: Number, i: int)
    requires
        0 <= i < fresh(s, now).len(),
    ensures
        is_fresh(fresh(s, now)[i].est, now),
        s.contains(fresh(s, now)[i]),
{
    let k = lemma_fresh_from(s, now, i);
    assert(s[k] == fresh(s, now)[i]);
}

/// Every fresh track is kept.
pub proof fn law_fresh_tracks_are_kept(s: Seq<Entry>, now: Number, k: int)
    requires
        0 <= k < s.len(),
        is_fresh(s[k].est, now),
    ensures
        fresh(s, now).contains(s[k]),
    decreases s.len(),
{
    let before = fresh(s.drop_last(), now);
    let t = fresh(s, now);
    if k == s.len() - 1 {
        assert(t[t.len() - 1] == s[k]);
    } else {
        law_fresh_tracks_are_kept(s.drop_last(), now, k);
        assert(s.drop_last()[k] == s[k]);
        let i = choose|i: int| 0 <= i < before.len() && before[i] == s[k];
        assert(t[i] == s[k]);
    }
}

impl Beliefs {
    /// A drone that tracks nobody.
    pub fn new() -> (r: Beliefs)
        ensures
            r@ == Seq::<Entry>::empty(),
    {
        let r = Beliefs(Vec::new());
        assert(r@ =~= Seq::<Entry>::empty());
        r
    }

    fn place_of(&self, j: usize) -> (i: usize)
        ensures
            i == place(self@, j as int),
            i <= self@.len(),
    {
        let mut i: usize = 0;
        assert(self@.skip(0) =~= self@);
        while i < self.0.len()
            invariant_except_break
                i <= self@.len(),
                place(self@, j as int) == i + place(self@.skip(i as int), j as int),
            ensures
                i <= self@.len(),
                i == place(self@, j as int),
            decreases self@.len() - i,
        {
            assert(self@.skip(i as int)[0] == self@[i as int]);
            assert(self@.skip(i as int).drop_first() =~= self@.skip(i + 1));
            if self.0[i].id == j {
                break;
            }
            i = i + 1;
        }
        i
    }

    /// The estimate of the drone `j`, where it is tracked.
    pub fn track_of(&self, j: usize) -> (r: Option<Track>)
        ensures
            match r {
                Some(t) => place(self@, j as int) < self@.len() && t@ == self@[place(
                    self@,
                    j as int,
                )].est,
                None => place(self@, j as int) == self@.len(),
            },
    {
        let i = self.place_of(j);
        if i < self.0.len() {
            Some(self.0[i].track)
        } else {
            None
        }
    }

    /// Carries every track forward by `dt`.
    pub fn predict(&mut self, dt: Scalar)
        ensures
            final(self)@ == carried_all(old(self)@, dt@),
    {
        let ghost before = self@;
        let mut i: usize = 0;
        while i < self.0.len()
            invariant
                i <= self@.len(),
                self@.len() == before.len(),
                forall|k: int|
                    0 <= k < self@.len() ==> #[trigger] self@[k] == (if k < i {
                        carried_all(before, dt@)[k]
                    } else {
                        before[k]
                    }),
            decreases self@.len() - i,
        {
            let mut t = self.0[i];
            assert(self@[i as int] == before[i as int]);
            t.track.predict(dt);
            let ghost prior = self@;
            self.0.set(i, t);
            assert(self@ =~= prior.update(i as int, t@));
            i = i + 1;
        }
        assert(self@ =~= carried_all(before, dt@));
    }

    /// Takes in a sighting of the drone `j` from where this drone believes to
    /// be.
    pub fn note(&mut self, j: usize, ego: Vec3, z: &Sighting, r: &Mat3, now: Scalar)
        requires
            can_wrap((z.measured@ - z.expected@).y),
        ensures
            final(self)@ == noted(old(self)@, j as int, ego@, *z, r@, now@),
    {
        let ghost before = self@;
        proof {
            lemma_place(before, j as int);
        }
        let i = self.place_of(j);
        if i < self.0.len() {
            let mut t = self.0[i];
            assert(t@ == before[i as int]);
            t.track.update(ego, z.measured, z.expected, r, now);
            self.0.set(i, t);
            assert(self@ =~= before.update(i as int, t@));
        } else {
            let t = Neighbor { id: j, track: Track::new(ego, z.offset, now) };
            self.0.push(t);
            assert(self@ =~= before.push(t@));
        }
    }

    /// Drops the tracks that were not confirmed for too long.
    pub fn prune(&mut self, now: Scalar)
        ensures
            final(self)@ == fresh(old(self)@, now@),
    {
        let ghost before = self@;
        let mut kept: Vec<Neighbor> = Vec::new();
        let ghost view = |t: Neighbor| t@;
        let mut i: usize = 0;
        assert(before.take(0) =~= Seq::<Entry>::empty());
        assert(kept@.map_values(view) =~= Seq::<Entry>::empty());
        while i < self.0.len()
            invariant
                i <= self@.len(),
                self@ == before,
                view == (|t: Neighbor| t@),
                kept@.map_values(view) == fresh(before.take(i as int), now@),
            decreases self@.len() - i,
        {
            let t = self.0[i];
            assert(before.take(i + 1).drop_last() =~= before.take(i as int));
            assert(before.take(i + 1).last() == t@);
            let ghost prior = kept@;
            if (now - t.track.last_seen).le(Scalar::from_bits(TRACK_TIMEOUT)) {
                kept.push(t);
                assert(kept@.map_values(view) =~= prior.map_values(view).push(t@));
            }
            i = i + 1;
        }
        assert(before.take(i as int) =~= before);
        self.0 = kept;
    }
}

/// The squared errors of the first `n` tracks of drones that live, added to
/// `acc`.
pub open spec fn errors_onto(acc: Number, s: Seq<Entry>, snap: Seq<Seen>, n: int) -> Number
    decreases n,
{
    if n <= 0 {
        acc
    } else {
        let before = errors_onto(acc, s, snap, n - 1);
        let e = s[n - 1];
        if snap[e.id].alive {
            before + e.est.pos.distance_squared(snap[e.id].pos)
        } else {
            before
        }
    }
}

/// One for each of the first `n` tracks of drones that live, added to `acc`.
pub open spec fn tracks_onto(acc: Number, s: Seq<Entry>, snap: Seq<Seen>, n: int) -> Number
    decreases n,
{
    if n <= 0 {
        acc
    } else {
        let before = tracks_onto(acc, s, snap, n - 1);
        if snap[s[n - 1].id].alive {
            before + one()
        } else {
            before
        }
    }
}

/// The squared errors of all tracks of the first `n` drones.
pub open spec fn swarm_errors(all: Seq<Beliefs>, snap: Seq<Seen>, n: int) -> Number
    decreases n,
{
    if n <= 0 {
        zero()
    } else {
        let s = all[n - 1]@;
        errors_onto(swarm_errors(all, snap, n - 1), s, snap, s.len() as int)
    }
}

/// How many tracks those are.
pub open spec fn swarm_tracks(all: Seq<Beliefs>, snap: Seq<Seen>, n: int) -> Number
    decreases n,
{
    if n <= 0 {
        zero()
    } else {
        let s = all[n - 1]@;
        tracks_onto(swarm_tracks(all, snap, n - 1), s, snap, s.len() as int)
    }
}

/// What the step does to the measure of the neighbour estimates' errors.
pub open spec fn next_est_error(before: Number, errors: Number, tracks: Number) -> Number {
    if less(zero(), tracks) {
        eased(before, square_root(errors / tracks), decode(ONE_TENTH))
    } else {
        before
    }
}

/// The first half of a step: every drone carries its tracks forward, measured
/// or not, so beliefs outlast a loss of packets.
pub fn predict_neighbors(sim: &SimState, delta: Scalar, beliefs: &mut Vec<Beliefs>)
    ensures
        final(beliefs)@.len() == old(beliefs)@.len(),
        sim.paused ==> final(beliefs)@ == old(beliefs)@,
        !sim.paused ==> forall|i: int|
            0 <= i < final(beliefs)@.len() ==> (#[trigger] final(beliefs)@[i])@ == carried_all(
                old(beliefs)@[i]@,
                larger(delta@, decode(MIN_STEP)),
            ),
{
    if sim.paused {
        return ;
    }
    let dt = delta.max(Scalar::from_bits(MIN_STEP));
    let ghost before = beliefs@;
    let mut i: usize = 0;
    while i < beliefs.len()
        invariant
            i <= beliefs@.len(),
            beliefs@.len() == before.len(),
            forall|k: int| i <= k < before.len() ==> #[trigger] beliefs@[k] == before[k],
            forall|k: int|
                0 <= k < i ==> (#[trigger] beliefs@[k])@ == carried_all(before[k]@, dt@),
        decreases beliefs@.len() - i,
    {
        let ghost prior = beliefs@;
        assert(prior[i as int] == before[i as int]);
        beliefs[i].predict(dt);
        assert(beliefs@[i as int]@ == carried_all(before[i as int]@, dt@));
        i = i + 1;
    }
}

/// One drone's entries after the second half of a step.
pub open spec fn after_sightings(
    snap: Seq<Seen>,
    sim: SimState,
    now: Number,
    id: int,
    ego: V3,
    s: Seq<Entry>,
    zs: Seq<Sighting>,
    packets: Seq<Scalar>,
) -> Seq<Entry> {
    fresh(
        noted_all(
            s,
            radio(snap, id, sim@, packets),
            ego,
            zs,
            sensor_cov(sim.noise),
            now,
            snap.len() as int,
        ),
        now,
    )
}

fn see_neighbors(
    snap: &Snapshot,
    sim: &SimState,
    now: Scalar,
    id: usize,
    ego: Vec3,
    beliefs: &mut Beliefs,
    zs: &Vec<Sighting>,
    packets: &Vec<Scalar>,
)
    requires
        id < snap@.len(),
        zs@.len() >= snap@.len(),
        packets@.len() >= snap@.len(),
        distinct_below(old(beliefs)@, snap@.len() as int),
        forall|j: int|
            0 <= j < zs@.len() ==> can_wrap(
                ((#[trigger] zs@[j]).measured@ - zs@[j].expected@).y,
            ),
    ensures
        final(beliefs)@ == after_sightings(
            snap@,
            *sim,
            now@,
            id as int,
            ego@,
            old(beliefs)@,
            zs@,
            packets@,
        ),
        distinct_below(final(beliefs)@, snap@.len() as int),
{
    let ghost start = beliefs@;
    let ghost hearing = radio(snap@, id as int, sim@, packets@);
    let me = snap.0[id].pos;
    let r = measurement_cov(sim.noise);
    let mut j: usize = 0;
    while j < snap.0.len()
        invariant
            j <= snap@.len(),
            id < snap@.len(),
            zs@.len() >= snap@.len(),
            packets@.len() >= snap@.len(),
            me@ == snap@[id as int].pos,
            r@ == sensor_cov(sim.noise),
            hearing == radio(snap@, id as int, sim@, packets@),
            forall|j: int|
                0 <= j < zs@.len() ==> can_wrap(
                    ((#[trigger] zs@[j]).measured@ - zs@[j].expected@).y,
                ),
            beliefs@ == noted_all(start, hearing, ego@, zs@, r@, now@, j as int),
        decreases snap@.len() - j,
    {
        assert(hearing.draws[j as int] == packets@[j as int]@);
        if snap.hears(id, me, j, sim.perception, sim.noise, packets[j]) {
            beliefs.note(j, ego, &zs[j], &r, now);
        }
        j = j + 1;
    }
    proof {
        let n = snap@.len() as int;
        lemma_noted_all_distinct(start, hearing, ego@, zs@, r@, now@, n, n);
        lemma_fresh_distinct(beliefs@, now@, n);
    }
    beliefs.prune(now);
}

fn measure_tracks(beliefs: &Beliefs, snap: &Snapshot, errors: Scalar, tracks: Scalar) -> (r: (
    Scalar,
    Scalar,
))
    requires
        distinct_below(beliefs@, snap@.len() as int),
    ensures
        r.0@ == errors_onto(errors@, beliefs@, snap@, beliefs@.len() as int),
        r.1@ == tracks_onto(tracks@, beliefs@, snap@, beliefs@.len() as int),
{
    let mut e = errors;
    let mut c = tracks;
    let mut i: usize = 0;
    while i < beliefs.0.len()
        invariant
            i <= beliefs@.len(),
            distinct_below(beliefs@, snap@.len() as int),
            e@ == errors_onto(errors@, beliefs@, snap@, i as int),
            c@ == tracks_onto(tracks@, beliefs@, snap@, i as int),
        decreases beliefs@.len() - i,
    {
        let t = beliefs.0[i];
        assert(beliefs@[i as int] == t@);
        let other = snap.0[t.id];
        if other.alive {
            e = e + t.track.pos.distance_squared(other.pos);
            c = c + Scalar::one();
        }
        i = i + 1;
    }
    (e, c)
}

/// The second half of a step: every drone takes in its sightings of the
/// neighbours it hears and drops stale tracks. `drones`, `poses`, `beliefs`,
/// `sightings` and `packets` go together; a drone's sightings and packets go by
/// the neighbour's number.
pub fn estimate_neighbors(
    snap: &Snapshot,
    sim: &SimState,
    now: Scalar,
    metrics: &mut Metrics,
    drones: &Vec<Drone>,
    poses: &Vec<SelfLoc>,
    beliefs: &mut Vec<Beliefs>,
    sightings: &Vec<Vec<Sighting>>,
    packets: &Vec<Vec<Scalar>>,
)
    requires
        drones@.len() == poses@.len(),
        drones@.len() == old(beliefs)@.len(),
        drones@.len() == sightings@.len(),
        drones@.len() == packets@.len(),
        forall|i: int| 0 <= i < drones@.len() ==> (#[trigger] drones@[i]).id < snap@.len(),
        forall|i: int|
            0 <= i < drones@.len() ==> distinct_below(
                (#[trigger] old(beliefs)@[i])@,
                snap@.len() as int,
            ),
        forall|i: int| 0 <= i < drones@.len() ==> (#[trigger] sightings@[i])@.len() >= snap@.len(),
        forall|i: int| 0 <= i < drones@.len() ==> (#[trigger] packets@[i])@.len() >= snap@.len(),
        forall|i: int, j: int|
            0 <= i < drones@.len() && 0 <= j < sightings@[i]@.len() ==> can_wrap(
                ((#[trigger] sightings@[i]@[j]).measured@ - sightings@[i]@[j].expected@).y,
            ),
    ensures
        sim.paused ==> final(beliefs)@ == old(beliefs)@ && *final(metrics) == *old(metrics),
        !sim.paused ==> {
            let n = drones@.len() as int;
            &&& final(beliefs)@.len() == n
            &&& forall|i: int|
                0 <= i < n ==> {
                    &&& (#[trigger] final(beliefs)@[i])@ == after_sightings(
                        snap@,
                        *sim,
                        now@,
                        drones@[i].id as int,
                        poses@[i]@.x,
                        old(beliefs)@[i]@,
                        sightings@[i]@,
                        packets@[i]@,
                    )
                    &&& distinct_below(final(beliefs)@[i]@, snap@.len() as int)
                }
            &&& *final(metrics) == (Metrics {
                est_error: final(metrics).est_error,
                ..*old(metrics)
            })
            &&& final(metrics).est_error@ == next_est_error(
                old(metrics).est_error@,
                swarm_errors(final(beliefs)@, snap@, n),
                swarm_tracks(final(beliefs)@, snap@, n),
            )
        },
{
    if sim.paused {
        return ;
    }
    let ghost before = beliefs@;
    let mut errors = Scalar::zero();
    let mut tracks = Scalar::zero();
    let mut i: usize = 0;
    while i < drones.len()
        invariant
            i <= drones@.len(),
            drones@.len() == poses@.len(),
            drones@.len() == before.len(),
            drones@.len() == beliefs@.len(),
            drones@.len() == sightings@.len(),
            drones@.len() == packets@.len(),
            forall|i: int| 0 <= i < drones@.len() ==> (#[trigger] drones@[i]).id < snap@.len(),
            forall|i: int|
                0 <= i < drones@.len() ==> distinct_below(
                    (#[trigger] before[i])@,
                    snap@.len() as int,
                ),
            forall|i: int|
                0 <= i < drones@.len() ==> (#[trigger] sightings@[i])@.len() >= snap@.len(),
            forall|i: int|
                0 <= i < drones@.len() ==> (#[trigger] packets@[i])@.len() >= snap@.len(),
            forall|i: int, j: int|
                0 <= i < drones@.len() && 0 <= j < sightings@[i]@.len() ==> can_wrap(
                    ((#[trigger] sightings@[i]@[j]).measured@ - sightings@[i]@[j].expected@).y,
                ),
            forall|k: int| i <= k < drones@.len() ==> #[trigger] beliefs@[k] == before[k],
            forall|k: int|
                0 <= k < i ==> {
                    &&& (#[trigger] beliefs@[k])@ == after_sightings(
                        snap@,
                        *sim,
                        now@,
                        drones@[k].id as int,
                        poses@[k]@.x,
                        before[k]@,
                        sightings@[k]@,
                        packets@[k]@,
                    )
                    &&& distinct_below(beliefs@[k]@, snap@.len() as int)
                },
            errors@ == swarm_errors(beliefs@, snap@, i as int),
            tracks@ == swarm_tracks(beliefs@, snap@, i as int),
        decreases drones@.len() - i,
    {
        let ghost prior = beliefs@;
        assert(prior[i as int] == before[i as int]);
        see_neighbors(
            snap,
            sim,
            now,
            drones[i].id,
            poses[i].x,
            &mut beliefs[i],
            &sightings[i],
            &packets[i],
        );
        proof {
            lemma_swarm_same(prior, beliefs@, snap@, i as int);
        }
        let (e, c) = measure_tracks(&beliefs[i], snap, errors, tracks);
        errors = e;
        tracks = c;
        i = i + 1;
    }
    if tracks.gt(Scalar::zero()) {
        let rms = (errors / tracks).sqrt();
        metrics.est_error = ease(metrics.est_error, rms, Scalar::from_bits(ONE_TENTH));
    }
}

proof fn lemma_swarm_same(a: Seq<Beliefs>, b: Seq<Beliefs>, snap: Seq<Seen>, n: int)
    requires
        n <= a.len(),
        a.len() == b.len(),
        forall|i: int| 0 <= i < n ==> #[trigger] a[i] == b[i],
    ensures
        swarm_errors(a, snap, n) == swarm_errors(b, snap, n),
        swarm_tracks(a, snap, n) == swarm_tracks(b, snap, n),
    decreases n,
{
    if n > 0 {
        assert(a[n - 1] == b[n - 1]);
        lemma_swarm_same(a, b, snap, n - 1);
    }
}

} // verus!
