//! The swarm as its sensors find it.
use crate::noise::{is_lost, packet_lost};
use crate::number::{at_most, less, Number};
use crate::scalar::Scalar;
use crate::sim::Mode;
use crate::vector::{Vec3, V3};
use vstd::prelude::*;

verus! {

/// One drone's observable state.
#[verifier::ext_equal]
pub struct Seen {
    pub pos: V3,
    pub vel: V3,
    pub alive: bool,
}

/// One drone's observable state in a time step.
#[derive(Clone, Copy, Debug)]
pub struct AgentObs {
    pub pos: Vec3,
    pub vel: Vec3,
    pub alive: bool,
}

impl View for AgentObs {
    type V = Seen;

    open spec fn view(&self) -> Seen {
        Seen { pos: self.pos@, vel: self.vel@, alive: self.alive }
    }
}

/// The true state of the whole swarm, by drone. Measurements are made of it;
/// the control law does not read it.
pub struct Snapshot(pub Vec<AgentObs>);

impl View for Snapshot {
    type V = Seq<Seen>;

    open spec fn view(&self) -> Seq<Seen> {
        self.0@.map_values(|o: AgentObs| o@)
    }
}

/// A drone's number, position and velocity.
#[derive(Clone, Copy, Debug)]
pub struct Reading {
    pub id: usize,
    pub pos: Vec3,
    pub vel: Vec3,
}

/// The snapshot in which nobody is alive.
pub open spec fn silenced(s: Seq<Seen>) -> Seq<Seen> {
    s.map_values(|o: Seen| Seen { alive: false, ..o })
}

/// The snapshot after the readings, each put in its drone's place.
pub open spec fn with_readings(s: Seq<Seen>, rs: Seq<Reading>) -> Seq<Seen>
    decreases rs.len(),
{
    if rs.len() == 0 {
        s
    } else {
        let r = rs.last();
        with_readings(s, rs.drop_last()).update(
            r.id as int,
            Seen { pos: r.pos@, vel: r.vel@, alive: true },
        )
    }
}

impl Snapshot {
    /// `n` places, nobody alive.
    pub fn new(n: usize) -> (r: Snapshot)
        ensures
            r@ == Seq::new(
                n as nat,
                |i: int| Seen { pos: V3::origin(), vel: V3::origin(), alive: false },
            ),
    {
        let mut v: Vec<AgentObs> = Vec::new();
        let mut i: usize = 0;
        while i < n
            invariant
                i <= n,
                v@.len() == i,
                forall|k: int|
                    0 <= k < i ==> (#[trigger] v@[k])@ == (Seen {
                        pos: V3::origin(),
                        vel: V3::origin(),
                        alive: false,
                    }),
            decreases n - i,
        {
            v.push(AgentObs { pos: Vec3::origin(), vel: Vec3::origin(), alive: false });
            i = i + 1;
        }
        let r = Snapshot(v);
        assert(r@ =~= Seq::new(
            n as nat,
            |i: int| Seen { pos: V3::origin(), vel: V3::origin(), alive: false },
        ));
        r
    }

    /// Takes in a reading of each drone that can be sensed; the others are not
    /// alive.
    pub fn sense(&mut self, readings: &Vec<Reading>)
        requires
            forall|i: int| 0 <= i < readings@.len() ==> (#[trigger] readings@[i]).id < old(self)@.len(),
        ensures
            final(self)@ == with_readings(silenced(old(self)@), readings@),
    {
        let ghost before = self@;
        let mut i: usize = 0;
        while i < self.0.len()
            invariant
                i <= self.0@.len(),
                self@.len() == before.len(),
                forall|k: int|
                    0 <= k < self@.len() ==> #[trigger] self@[k] == (if k < i {
                        Seen { alive: false, ..before[k] }
                    } else {
                        before[k]
                    }),
            decreases self.0@.len() - i,
        {
            let mut o = self.0[i];
            o.alive = false;
            let ghost prev = self@;
            assert(prev[i as int] == before[i as int]);
            self.0.set(i, o);
            assert(self@ =~= prev.update(i as int, o@));
            i = i + 1;
        }
        assert(self@ =~= silenced(before));
        let ghost quiet = self@;
        let mut j: usize = 0;
        assert(readings@.take(0) =~= Seq::empty());
        while j < readings.len()
            invariant
                j <= readings@.len(),
                self@.len() == before.len(),
                forall|i: int| 0 <= i < readings@.len() ==> (#[trigger] readings@[i]).id < before.len(),
                self@ == with_readings(quiet, readings@.take(j as int)),
            decreases readings@.len() - j,
        {
            let r = readings[j];
            let ghost prev = self@;
            assert(r.id < self.0@.len());
            self.0.set(r.id, AgentObs { pos: r.pos, vel: r.vel, alive: true });
            assert(readings@.take(j + 1).drop_last() =~= readings@.take(j as int));
            assert(self@ =~= prev.update(
                r.id as int,
                Seen { pos: r.pos@, vel: r.vel@, alive: true },
            ));
            j = j + 1;
        }
        assert(readings@.take(j as int) =~= readings@);
    }
}

/// A drone is alive in the snapshot exactly where there was a reading of it.
pub proof fn law_alive_iff_sensed(s: Seq<Seen>, rs: Seq<Reading>, k: int)
    requires
        0 <= k < s.len(),
        forall|i: int| 0 <= i < rs.len() ==> (#[trigger] rs[i]).id < s.len(),
    ensures
        with_readings(silenced(s), rs).len() == s.len(),
        with_readings(silenced(s), rs)[k].alive <==> exists|i: int|
            0 <= i < rs.len() && (#[trigger] rs[i]).id == k,
    decreases rs.len(),
{
    if rs.len() > 0 {
        let before = rs.drop_last();
        assert forall|i: int| 0 <= i < before.len() implies (#[trigger] before[i]).id < s.len() by {
            assert(before[i] == rs[i]);
        }
        law_alive_iff_sensed(s, before, k);
        let last = rs.len() - 1;
        assert(rs[last] == rs.last());
        let now = with_readings(silenced(s), rs);
        let was = with_readings(silenced(s), before);
        if rs.last().id == k {
            assert(now[k].alive);
        } else {
            assert(now[k] == was[k]);
            if was[k].alive {
                let i = choose|i: int| 0 <= i < before.len() && (#[trigger] before[i]).id == k;
                assert(rs[i].id == k);
            }
            if exists|i: int| 0 <= i < rs.len() && (#[trigger] rs[i]).id == k {
                let i = choose|i: int| 0 <= i < rs.len() && (#[trigger] rs[i]).id == k;
                assert(before[i].id == k);
            }
        }
    }
}

/// The snapshot holds the position and the velocity that a drone was last sensed with.
pub proof fn law_last_reading_stands(s: Seq<Seen>, rs: Seq<Reading>, i: int)
    requires
        0 <= i < rs.len(),
        forall|j: int| 0 <= j < rs.len() ==> (#[trigger] rs[j]).id < s.len(),
        forall|j: int| i < j < rs.len() ==> (#[trigger] rs[j]).id != rs[i].id,
    ensures
        ({
            let now = with_readings(s, rs)[rs[i].id as int];
            now.pos == rs[i].pos@ && now.vel == rs[i].vel@
        }),
    decreases rs.len(),
{
    let before = rs.drop_last();
    assert forall|j: int| 0 <= j < before.len() implies (#[trigger] before[j]).id < s.len() by {
        assert(before[j] == rs[j]);
    }
    lemma_as_many(s, before);
    if i < rs.len() - 1 {
        assert forall|j: int| i < j < before.len() implies (#[trigger] before[j]).id
            != before[i].id by {
            assert(before[j] == rs[j]);
        }
        law_last_reading_stands(s, before, i);
        assert(rs[rs.len() - 1].id != rs[i].id);
    }
}

proof fn lemma_as_many(s: Seq<Seen>, rs: Seq<Reading>)
    requires
        forall|j: int| 0 <= j < rs.len() ==> (#[trigger] rs[j]).id < s.len(),
    ensures
        with_readings(s, rs).len() == s.len(),
    decreases rs.len(),
{
    if rs.len() > 0 {
        let before = rs.drop_last();
        assert forall|j: int| 0 <= j < before.len() implies (#[trigger] before[j]).id < s.len() by {
            assert(before[j] == rs[j]);
        }
        lemma_as_many(s, before);
        assert(rs[rs.len() - 1] == rs.last());
    }
}

/// Whether the drone `id` at `me` has the drone `j` within its perception
/// radius.
pub open spec fn audible(s: Seq<Seen>, id: int, me: V3, j: int, perception: Number) -> bool {
    s[j].alive && j != id && !less(perception * perception, me.distance_squared(s[j].pos))
}

/// Whether a packet from the drone `j` reaches it.
pub open spec fn heard(
    s: Seq<Seen>,
    id: int,
    me: V3,
    j: int,
    perception: Number,
    noise: bool,
    draw: Number,
) -> bool {
    audible(s, id, me, j, perception) && !is_lost(noise, draw)
}

impl Snapshot {
    /// Whether a packet from the drone `j` reaches the drone `id` at `me`.
    pub fn hears(
        &self,
        id: usize,
        me: Vec3,
        j: usize,
        perception: Scalar,
        noise: bool,
        draw: Scalar,
    ) -> (r: bool)
        requires
            j < self@.len(),
        ensures
            r == heard(self@, id as int, me@, j as int, perception@, noise, draw@),
    {
        let other = self.0[j];
        if !other.alive || j == id {
            return false;
        }
        if me.distance_squared(other.pos).gt(perception * perception) {
            return false;
        }
        !packet_lost(noise, draw)
    }
}

/// What a drone can hear: the others, where it is itself, and for each of the
/// others a draw that decides whether its packet arrives.
#[verifier::ext_equal]
pub struct Radio {
    pub others: Seq<Seen>,
    pub id: int,
    pub perception: Number,
    pub noise: bool,
    pub draws: Seq<Number>,
}

impl Radio {
    /// Whether a packet from `j` arrives.
    pub open spec fn hears(self, j: int) -> bool {
        heard(
            self.others,
            self.id,
            self.others[self.id].pos,
            j,
            self.perception,
            self.noise,
            self.draws[j],
        )
    }
}

/// The views of the elements.
pub open spec fn numbers(s: Seq<Scalar>) -> Seq<Number> {
    s.map_values(|x: Scalar| x@)
}

/// What the drone hears in this step.
pub open spec fn radio(snap: Seq<Seen>, id: int, m: Mode, packets: Seq<Scalar>) -> Radio {
    Radio {
        others: snap,
        id,
        perception: m.perception,
        noise: m.noise,
        draws: numbers(packets),
    }
}

/// The pairs of living drones within each other's perception radius.
pub open spec fn linked(s: Seq<Seen>, i: int, j: int, perception: Number) -> bool {
    s[i].alive && s[j].alive && at_most(
        s[i].pos.distance_squared(s[j].pos),
        perception * perception,
    )
}

/// The links of the drone `i` with those from `i + 1` to before `j`.
pub open spec fn links_of(s: Seq<Seen>, i: int, j: int, perception: Number) -> Seq<(int, int)>
    decreases j - i,
{
    if j <= i + 1 {
        Seq::empty()
    } else {
        let before = links_of(s, i, j - 1, perception);
        if linked(s, i, j - 1, perception) {
            before.push((i, j - 1))
        } else {
            before
        }
    }
}

/// The links of the drones before `i`.
pub open spec fn links_before(s: Seq<Seen>, i: int, perception: Number) -> Seq<(int, int)>
    decreases i,
{
    if i <= 0 {
        Seq::empty()
    } else {
        links_before(s, i - 1, perception) + links_of(s, i - 1, s.len() as int, perception)
    }
}

pub open spec fn as_pairs(v: Seq<(usize, usize)>) -> Seq<(int, int)> {
    v.map_values(|p: (usize, usize)| (p.0 as int, p.1 as int))
}

impl Snapshot {
    /// The communication graph: every pair of living drones within the
    /// perception radius, the smaller number first.
    pub fn links(&self, perception: Scalar) -> (r: Vec<(usize, usize)>)
        ensures
            as_pairs(r@) == links_before(self@, self@.len() as int, perception@),
    {
        let mut r: Vec<(usize, usize)> = Vec::new();
        let n = self.0.len();
        let pr_sq = perception * perception;
        let mut i: usize = 0;
        assert(as_pairs(r@) =~= Seq::empty());
        while i < n
            invariant
                i <= n,
                n == self@.len(),
                pr_sq@ == perception@ * perception@,
                as_pairs(r@) == links_before(self@, i as int, perception@),
            decreases n - i,
        {
            let a = self.0[i];
            let ghost base = as_pairs(r@);
            let mut j: usize = i + 1;
            assert(base =~= base + Seq::empty());
            while j < n
                invariant
                    i < j <= n,
                    n == self@.len(),
                    a@ == self@[i as int],
                    pr_sq@ == perception@ * perception@,
                    as_pairs(r@) == base + links_of(self@, i as int, j as int, perception@),
                decreases n - j,
            {
                let b = self.0[j];
                let ghost before = r@;
                if a.alive && b.alive && a.pos.distance_squared(b.pos).le(pr_sq) {
                    r.push((i, j));
                    assert(as_pairs(r@) =~= as_pairs(before).push((i as int, j as int)));
                    assert(as_pairs(r@) =~= base + links_of(
                        self@,
                        i as int,
                        j as int,
                        perception@,
                    ).push((i as int, j as int)));
                }
                j = j + 1;
            }
            i = i + 1;
        }
        r
    }
}

/// A pair is drawn exactly where both drones live and are within the radius.
pub proof fn law_links_are_the_linked_pairs(s: Seq<Seen>, perception: Number, a: int, b: int)
    requires
        0 <= a < b < s.len(),
    ensures
        links_before(s, s.len() as int, perception).contains((a, b)) <==> linked(s, a, b, perception),
{
    lemma_links_before(s, s.len() as int, perception, a, b);
}

/// No pair is drawn twice, and none with its drones the other way round.
pub proof fn law_links_are_drawn_once(s: Seq<Seen>, perception: Number, k: int, l: int)
    requires
        0 <= k < l < links_before(s, s.len() as int, perception).len(),
    ensures
        ({
            let links = links_before(s, s.len() as int, perception);
            &&& links[k] != links[l]
            &&& 0 <= links[k].0 < links[k].1 < s.len()
            &&& 0 <= links[l].0 < links[l].1 < s.len()
        }),
{
    lemma_ordered_links(s, s.len() as int, perception);
    let links = links_before(s, s.len() as int, perception);
    assert(comes_before(links[k], links[l]));
    assert(is_pair(links[k], s.len() as int) && is_pair(links[l], s.len() as int));
}

spec fn comes_before(a: (int, int), b: (int, int)) -> bool {
    a.0 < b.0 || (a.0 == b.0 && a.1 < b.1)
}

spec fn is_pair(a: (int, int), n: int) -> bool {
    0 <= a.0 < a.1 < n
}

proof fn lemma_ordered_links_of(s: Seq<Seen>, i: int, j: int, perception: Number)
    requires
        0 <= i,
        j <= s.len(),
    ensures
        ({
            let r = links_of(s, i, j, perception);
            &&& forall|k: int| 0 <= k < r.len() ==> (#[trigger] r[k]).0 == i && i < r[k].1 < j
            &&& forall|k: int, l: int|
                0 <= k < l < r.len() ==> comes_before(#[trigger] r[k], #[trigger] r[l])
        }),
    decreases j - i,
{
    if j > i + 1 {
        lemma_ordered_links_of(s, i, j - 1, perception);
        let (before, r) = (links_of(s, i, j - 1, perception), links_of(s, i, j, perception));
        assert forall|k: int| 0 <= k < r.len() implies (#[trigger] r[k]).0 == i && i < r[k].1 < j by {
            if k < before.len() {
                assert(r[k] == before[k]);
            }
        }
        assert forall|k: int, l: int| 0 <= k < l < r.len() implies comes_before(
            #[trigger] r[k],
            #[trigger] r[l],
        ) by {
            assert(r[k] == before[k]);
            if l < before.len() {
                assert(r[l] == before[l]);
            }
        }
    }
}

proof fn lemma_ordered_links(s: Seq<Seen>, i: int, perception: Number)
    requires
        i <= s.len(),
    ensures
        ({
            let r = links_before(s, i, perception);
            &&& forall|k: int|
                0 <= k < r.len() ==> is_pair(#[trigger] r[k], s.len() as int) && r[k].0 < i
            &&& forall|k: int, l: int|
                0 <= k < l < r.len() ==> comes_before(#[trigger] r[k], #[trigger] r[l])
        }),
    decreases i,
{
    if i > 0 {
        lemma_ordered_links(s, i - 1, perception);
        lemma_ordered_links_of(s, i - 1, s.len() as int, perception);
        let (before, more) = (
            links_before(s, i - 1, perception),
            links_of(s, i - 1, s.len() as int, perception),
        );
        let r = links_before(s, i, perception);
        let n = before.len() as int;
        assert forall|k: int| 0 <= k < r.len() implies is_pair(#[trigger] r[k], s.len() as int)
            && r[k].0 < i by {
            if k < n {
                assert(r[k] == before[k]);
            } else {
                assert(r[k] == more[k - n]);
            }
        }
        assert forall|k: int, l: int| 0 <= k < l < r.len() implies comes_before(
            #[trigger] r[k],
            #[trigger] r[l],
        ) by {
            if l < n {
                assert(r[k] == before[k] && r[l] == before[l]);
            } else if k < n {
                assert(r[k] == before[k] && r[l] == more[l - n]);
            } else {
                assert(r[k] == more[k - n] && r[l] == more[l - n]);
            }
        }
    }
}

proof fn lemma_links_of(s: Seq<Seen>, i: int, j: int, perception: Number, a: int, b: int)
    ensures
        links_of(s, i, j, perception).contains((a, b)) <==> a == i && i < b < j && linked(
            s,
            i,
            b,
            perception,
        ),
    decreases j - i,
{
    if j > i + 1 {
        lemma_links_of(s, i, j - 1, perception, a, b);
        let before = links_of(s, i, j - 1, perception);
        if linked(s, i, j - 1, perception) {
            let now = before.push((i, j - 1));
            assert(now[now.len() - 1] == (i, j - 1));
            if before.contains((a, b)) {
                let k = choose|k: int| 0 <= k < before.len() && before[k] == (a, b);
                assert(now[k] == (a, b));
            }
        }
    }
}

proof fn lemma_links_before(s: Seq<Seen>, i: int, perception: Number, a: int, b: int)
    requires
        0 <= a < b < s.len(),
        i <= s.len(),
    ensures
        links_before(s, i, perception).contains((a, b)) <==> a < i && linked(s, a, b, perception),
    decreases i,
{
    if i > 0 {
        lemma_links_before(s, i - 1, perception, a, b);
        lemma_links_of(s, i - 1, s.len() as int, perception, a, b);
        let x = links_before(s, i - 1, perception);
        let y = links_of(s, i - 1, s.len() as int, perception);
        if x.contains((a, b)) {
            let k = choose|k: int| 0 <= k < x.len() && x[k] == (a, b);
            assert((x + y)[k] == (a, b));
        }
        if y.contains((a, b)) {
            let k = choose|k: int| 0 <= k < y.len() && y[k] == (a, b);
            assert((x + y)[x.len() + k] == (a, b));
        }
    }
}

/// Every link is between two drones of the swarm, the smaller number first.
pub proof fn lemma_links_in_range(s: Seq<Seen>, i: int, perception: Number)
    requires
        i <= s.len(),
    ensures
        forall|k: int|
            0 <= k < links_before(s, i, perception).len() ==> {
                let p = #[trigger] links_before(s, i, perception)[k];
                0 <= p.0 < p.1 < s.len()
            },
    decreases i,
{
    if i > 0 {
        lemma_links_in_range(s, i - 1, perception);
        lemma_links_of_in_range(s, i - 1, s.len() as int, perception);
        let a = links_before(s, i - 1, perception);
        let b = links_of(s, i - 1, s.len() as int, perception);
        let all = links_before(s, i, perception);
        assert forall|k: int| 0 <= k < all.len() implies 0 <= (#[trigger] all[k]).0 < all[k].1
            < s.len() by {
            if k < a.len() {
                assert(all[k] == a[k]);
            } else {
                assert(all[k] == b[k - a.len()]);
            }
        }
    }
}

proof fn lemma_links_of_in_range(s: Seq<Seen>, i: int, j: int, perception: Number)
    ensures
        forall|k: int|
            0 <= k < links_of(s, i, j, perception).len() ==> {
                let p = #[trigger] links_of(s, i, j, perception)[k];
                p.0 == i < p.1 < j
            },
    decreases j - i,
{
    if j > i + 1 {
        lemma_links_of_in_range(s, i, j - 1, perception);
        let before = links_of(s, i, j - 1, perception);
        let all = links_of(s, i, j, perception);
        assert forall|k: int| 0 <= k < all.len() implies (#[trigger] all[k]).0 == i && i < all[k].1
            && all[k].1 < j by {
            if k < before.len() {
                assert(all[k] == before[k]);
            }
        }
    }
}

} // verus!
