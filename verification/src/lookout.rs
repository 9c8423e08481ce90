//! What a drone makes of what it believes around it: the velocity that it sets out
//! to fly clears its neighbours, the pillars and the moving obstacle.
use crate::avoid::{
    limit_on_closing, limits_on_closing, projected, safe_velocity, seen, settled, Body, HalfSpace,
};
use crate::clearance::{apart, law_lone_body_is_not_hit, law_overlap_is_left, lemma_cap};
use crate::config::{MAX_SPEED, VO_TIME_HORIZON};
use crate::crowd::{law_no_body_is_hit_in_retreat, lemma_listed};
use crate::error::{lemma_tiny, value};
use crate::metric::{finite, inner};
use crate::neighbors::Entry;
use crate::number::{decode, Number};
use crate::quad::{
    flock, in_view, neighbor_bodies, pillar_bodies, planned, preferred, safety_radius,
    surroundings, Obstacles, Situation,
};
use crate::safety::law_lone_body_is_not_rushed;
use crate::sim::Mode;
use crate::vector::V3;
use vstd::prelude::*;

verus! {

/// A neighbour as a threat: where it is believed to be, seen from `p`, flying as it
/// is believed to fly, and to be kept clear of by what its uncertainty asks for.
pub open spec fn threat(s: Situation, i: int) -> Body {
    let e = s.tracks[i].est;
    Body { rel: e.pos - s.p, vel: e.vel, radius: safety_radius(s.worst[i]), planar: false }
}

/// A pillar as a threat: it stands still, and its height does not matter.
pub open spec fn standing_threat(s: Situation, o: Obstacles, i: int) -> Body {
    let c = o.pillars@[i];
    Body { rel: c.pos@ - s.p, vel: V3::origin(), radius: c.radius@, planar: true }
}

/// The moving obstacle as a threat.
pub open spec fn moving_threat(s: Situation, o: Obstacles) -> Body {
    Body {
        rel: o.moving@ - s.p,
        vel: o.moving_vel@,
        radius: o.moving_radius@,
        planar: false,
    }
}

/// All that the drone has to avoid.
spec fn around(s: Situation, o: Obstacles, m: Mode) -> Seq<Body> {
    surroundings(s.tracks, s.worst, o, s.p, m.perception)
}

/// A neighbour in view is among what has to be avoided.
proof fn lemma_neighbor_listed(
    s: Seq<Entry>,
    worst: Seq<Number>,
    p: V3,
    perception: Number,
    n: int,
    i: int,
) -> (j: int)
    requires
        0 <= i < n,
        in_view(s[i], p, perception),
    ensures
        0 <= j < neighbor_bodies(s, worst, p, perception, n).len(),
        neighbor_bodies(s, worst, p, perception, n)[j] == (Body {
            rel: s[i].est.pos - p,
            vel: s[i].est.vel,
            radius: safety_radius(worst[i]),
            planar: false,
        }),
    decreases n,
{
    if i == n - 1 {
        neighbor_bodies(s, worst, p, perception, n).len() - 1
    } else {
        lemma_neighbor_listed(s, worst, p, perception, n - 1, i)
    }
}

proof fn lemma_threat_listed(s: Situation, o: Obstacles, m: Mode, i: int) -> (j: int)
    requires
        0 <= i < s.tracks.len(),
        in_view(s.tracks[i], s.p, m.perception),
    ensures
        0 <= j < around(s, o, m).len(),
        around(s, o, m)[j] == threat(s, i),
{
    let n = s.tracks.len() as int;
    let j = lemma_neighbor_listed(s.tracks, s.worst, s.p, m.perception, n, i);
    let own = neighbor_bodies(s.tracks, s.worst, s.p, m.perception, n);
    let all = own + pillar_bodies(o.pillars@, s.p);
    assert(all[j] == own[j]);
    j
}

proof fn lemma_pillar_listed(s: Situation, o: Obstacles, m: Mode, i: int) -> (j: int)
    requires
        0 <= i < o.pillars@.len(),
    ensures
        0 <= j < around(s, o, m).len(),
        around(s, o, m)[j] == standing_threat(s, o, i),
{
    let n = s.tracks.len() as int;
    let own = neighbor_bodies(s.tracks, s.worst, s.p, m.perception, n);
    let pillars = pillar_bodies(o.pillars@, s.p);
    let all = own + pillars;
    assert(all[own.len() + i] == pillars[i]);
    own.len() + i
}

proof fn lemma_mover_listed(s: Situation, o: Obstacles, m: Mode) -> (j: int)
    ensures
        0 <= j < around(s, o, m).len(),
        around(s, o, m)[j] == moving_threat(s, o),
{
    around(s, o, m).len() - 1
}

/// Whether the cap `h` of the threat `c` is the only one: nothing else is on a
/// collision course.
pub open spec fn is_alone(s: Situation, o: Obstacles, m: Mode, c: Body, h: HalfSpace) -> bool {
    &&& m.avoidance
    &&& limit_on_closing(c, s.v_cur) == Some(h)
    &&& limits_on_closing(surroundings(s.tracks, s.worst, o, s.p, m.perception), s.v_cur).len() == 1
}

/// Whether a threat is at most 128 m away, flies at most 8 m/s and has a radius that
/// is not below three centimetres; no faster retreat than 5.5 m/s is asked for.
pub open spec fn is_ordinary(c: Body, h: HalfSpace) -> bool {
    &&& finite(seen(c).rel)
    &&& finite(seen(c).vel)
    &&& seen(c).rel.length() is Finite
    &&& value(seen(c).rel.length()) <= 128 as real
    &&& inner(seen(c).vel, seen(c).vel) <= 64 as real
    &&& c.radius is Finite
    &&& value(c.radius) >= 3 as real / (100 as real)
    &&& value(c.radius) <= 128 as real
    &&& value(h.b) >= -(11 as real / (2 as real))
}

/// With one cap, the planned velocity is what that one body alone makes of it.
proof fn lemma_planned_alone(s: Situation, o: Obstacles, m: Mode, c: Body, h: HalfSpace, j: int)
    requires
        is_alone(s, o, m, c, h),
        0 <= j < around(s, o, m).len(),
        around(s, o, m)[j] == c,
    ensures
        ({
            let f = flock(s.tracks, s.p, m.perception, s.tracks.len() as int);
            planned(s, o, m) == safe_velocity(
                preferred(f, m.goal_seek, s.goal, s.p),
                s.v_cur,
                seq![c],
            )
        }),
{
    let cs = around(s, o, m);
    let i = lemma_listed(cs, s.v_cur, j, h);
    let hs = limits_on_closing(cs, s.v_cur);
    assert(hs =~= seq![h]);
    let one = seq![c];
    assert(one.drop_last() =~= Seq::<Body>::empty());
    assert(limits_on_closing(one.drop_last(), s.v_cur) =~= Seq::<HalfSpace>::empty());
    assert(limits_on_closing(one, s.v_cur) =~= seq![h]);
}

/// The planned velocity closes in on the threat `c` no faster than the distance
/// allows, seen from a frame that moves with it, and clears it for the horizon.
pub open spec fn is_cleared(c: Body, h: HalfSpace, v: V3, t: real) -> bool {
    let (y, r) = (value(seen(c).rel.length()), value(c.radius));
    &&& inner(v, h.n) - inner(seen(c).vel, h.n) <= (y - r) * (2 as real / (5 as real)) + 11 as real / (
    1000 as real)
    &&& r <= y ==> {
        let rho = r - t / (100 as real) - 1 as real / (500 as real);
        rho >= 0 as real && apart(c, v, t) >= rho * rho
    }
    &&& r >= y ==> {
        let rho = y + (r - y) * ((2 as real * t) / (5 as real)) - t / (100 as real) - 1 as real / (
        500 as real);
        rho >= 0 as real ==> apart(c, v, t) >= rho * rho
    }
}

proof fn lemma_cleared(s: Situation, o: Obstacles, m: Mode, c: Body, h: HalfSpace, j: int, t: real)
    requires
        is_alone(s, o, m, c, h),
        is_ordinary(c, h),
        0 <= j < around(s, o, m).len(),
        around(s, o, m)[j] == c,
        finite(planned(s, o, m)),
        t >= 0 as real,
        t <= value(decode(VO_TIME_HORIZON)),
    ensures
        is_cleared(c, h, planned(s, o, m), t),
{
    lemma_tiny();
    lemma_planned_alone(s, o, m, c, h, j);
    let f = flock(s.tracks, s.p, m.perception, s.tracks.len() as int);
    let v_pref = preferred(f, m.goal_seek, s.goal, s.p);
    lemma_cap(c, s.v_cur, h);
    law_lone_body_is_not_rushed(v_pref, s.v_cur, c, h);
    if value(c.radius) <= value(seen(c).rel.length()) {
        law_lone_body_is_not_hit(v_pref, s.v_cur, c, h, t);
    }
    if value(c.radius) >= value(seen(c).rel.length()) {
        law_overlap_is_left(v_pref, s.v_cur, c, h, t);
    }
}

/// A drone keeps clear of a neighbour that flies as it is believed to fly: where the
/// neighbour in view is the only thing on a collision course, the velocity that the
/// drone sets out to fly closes in on it, as seen by the neighbour, no faster than
/// the gap over the horizon. So after any time `t` up to the horizon the two are the
/// safety radius apart, the neighbour having moved with its believed velocity and the
/// drone with the planned one; from inside the radius they come apart evenly. `h` is
/// the cap on closing in.
pub proof fn law_neighbour_is_kept_clear_of(
    s: Situation,
    o: Obstacles,
    m: Mode,
    i: int,
    h: HalfSpace,
    t: real,
)
    requires
        0 <= i < s.tracks.len(),
        in_view(s.tracks[i], s.p, m.perception),
        is_alone(s, o, m, threat(s, i), h),
        is_ordinary(threat(s, i), h),
        finite(planned(s, o, m)),
        t >= 0 as real,
        t <= value(decode(VO_TIME_HORIZON)),
    ensures
        is_cleared(threat(s, i), h, planned(s, o, m), t),
{
    let j = lemma_threat_listed(s, o, m, i);
    lemma_cleared(s, o, m, threat(s, i), h, j, t);
}

/// The same for a pillar, at whatever height the drone flies.
pub proof fn law_pillar_is_kept_clear_of(
    s: Situation,
    o: Obstacles,
    m: Mode,
    i: int,
    h: HalfSpace,
    t: real,
)
    requires
        0 <= i < o.pillars@.len(),
        is_alone(s, o, m, standing_threat(s, o, i), h),
        is_ordinary(standing_threat(s, o, i), h),
        finite(planned(s, o, m)),
        t >= 0 as real,
        t <= value(decode(VO_TIME_HORIZON)),
    ensures
        is_cleared(standing_threat(s, o, i), h, planned(s, o, m), t),
{
    let j = lemma_pillar_listed(s, o, m, i);
    lemma_cleared(s, o, m, standing_threat(s, o, i), h, j, t);
}

/// The same for the moving obstacle, which moves on with its velocity.
pub proof fn law_mover_is_kept_clear_of(
    s: Situation,
    o: Obstacles,
    m: Mode,
    h: HalfSpace,
    t: real,
)
    requires
        is_alone(s, o, m, moving_threat(s, o), h),
        is_ordinary(moving_threat(s, o), h),
        finite(planned(s, o, m)),
        t >= 0 as real,
        t <= value(decode(VO_TIME_HORIZON)),
    ensures
        is_cleared(moving_threat(s, o), h, planned(s, o, m), t),
{
    let j = lemma_mover_listed(s, o, m);
    lemma_cleared(s, o, m, moving_threat(s, o), h, j, t);
}

/// Whether several caps can be kept together: none asks to back away faster than the
/// speed limit, and no normal points away from another. `d` bounds by how much the
/// square of the speed that the last pushes ask for is above that of the limit.
pub open spec fn is_crowd(s: Situation, o: Obstacles, m: Mode, d: real) -> bool {
    let cs = surroundings(s.tracks, s.worst, o, s.p, m.perception);
    let hs = limits_on_closing(cs, s.v_cur);
    let f = flock(s.tracks, s.p, m.perception, s.tracks.len() as int);
    let u = projected(settled(preferred(f, m.goal_seek, s.goal, s.p), hs, 15), hs);
    &&& m.avoidance
    &&& d >= 0 as real
    &&& inner(u, u) <= 49 as real + d
    &&& hs.len() <= 64
    &&& forall|k: int|
        0 <= k < cs.len() ==> finite(seen(#[trigger] cs[k]).rel) && seen(cs[k]).rel.length() is Finite
    &&& forall|k: int|
        0 <= k < hs.len() ==> (#[trigger] hs[k]).b is Finite && value(hs[k].b) >= -(7 as real)
    &&& forall|i: int, k: int|
        0 <= i < k < hs.len() ==> inner((#[trigger] hs[k]).n, (#[trigger] hs[i]).n) >= 0 as real
}

/// What the caps of several threats leave of the safety radius after the time `t`.
pub open spec fn is_cleared_in_crowd(
    s: Situation,
    o: Obstacles,
    m: Mode,
    c: Body,
    d: real,
    t: real,
) -> bool {
    let hs = limits_on_closing(surroundings(s.tracks, s.worst, o, s.p, m.perception), s.v_cur);
    let breach = (3 as real) / (500 as real) + (hs.len() as real) / (2000 as real) + d / (7 as real);
    let rho = value(c.radius) - t * breach - 1 as real / (500 as real);
    rho >= 0 as real ==> apart(c, planned(s, o, m), t) >= rho * rho
}

proof fn lemma_cleared_in_crowd(
    s: Situation,
    o: Obstacles,
    m: Mode,
    c: Body,
    h: HalfSpace,
    j: int,
    d: real,
    t: real,
)
    requires
        is_crowd(s, o, m, d),
        limit_on_closing(c, s.v_cur) == Some(h),
        is_ordinary(c, h),
        value(c.radius) <= value(seen(c).rel.length()),
        0 <= j < around(s, o, m).len(),
        around(s, o, m)[j] == c,
        finite(planned(s, o, m)),
        t >= 0 as real,
        t <= value(decode(VO_TIME_HORIZON)),
    ensures
        is_cleared_in_crowd(s, o, m, c, d, t),
{
    let f = flock(s.tracks, s.p, m.perception, s.tracks.len() as int);
    let v_pref = preferred(f, m.goal_seek, s.goal, s.p);
    law_no_body_is_hit_in_retreat(v_pref, s.v_cur, around(s, o, m), j, h, d, t);
}

/// Of several neighbours, pillars and the moving obstacle, each neighbour in view on
/// a collision course is kept clear of, flying as it is believed to fly.
pub proof fn law_neighbour_in_crowd_is_kept_clear_of(
    s: Situation,
    o: Obstacles,
    m: Mode,
    i: int,
    h: HalfSpace,
    d: real,
    t: real,
)
    requires
        0 <= i < s.tracks.len(),
        in_view(s.tracks[i], s.p, m.perception),
        is_crowd(s, o, m, d),
        limit_on_closing(threat(s, i), s.v_cur) == Some(h),
        is_ordinary(threat(s, i), h),
        value(safety_radius(s.worst[i])) <= value((s.tracks[i].est.pos - s.p).length()),
        finite(planned(s, o, m)),
        t >= 0 as real,
        t <= value(decode(VO_TIME_HORIZON)),
    ensures
        is_cleared_in_crowd(s, o, m, threat(s, i), d, t),
{
    let j = lemma_threat_listed(s, o, m, i);
    lemma_cleared_in_crowd(s, o, m, threat(s, i), h, j, d, t);
}

/// The same for each pillar and for the moving obstacle.
pub proof fn law_obstacle_in_crowd_is_kept_clear_of(
    s: Situation,
    o: Obstacles,
    m: Mode,
    i: int,
    h: HalfSpace,
    d: real,
    t: real,
)
    requires
        is_crowd(s, o, m, d),
        ({
            let c = if 0 <= i < o.pillars@.len() {
                standing_threat(s, o, i)
            } else {
                moving_threat(s, o)
            };
            &&& limit_on_closing(c, s.v_cur) == Some(h)
            &&& is_ordinary(c, h)
            &&& value(c.radius) <= value(seen(c).rel.length())
        }),
        finite(planned(s, o, m)),
        t >= 0 as real,
        t <= value(decode(VO_TIME_HORIZON)),
    ensures
        0 <= i < o.pillars@.len() ==> is_cleared_in_crowd(s, o, m, standing_threat(s, o, i), d, t),
        !(0 <= i < o.pillars@.len()) ==> is_cleared_in_crowd(s, o, m, moving_threat(s, o), d, t),
{
    if 0 <= i < o.pillars@.len() {
        let j = lemma_pillar_listed(s, o, m, i);
        lemma_cleared_in_crowd(s, o, m, standing_threat(s, o, i), h, j, d, t);
    } else {
        let j = lemma_mover_listed(s, o, m);
        lemma_cleared_in_crowd(s, o, m, moving_threat(s, o), h, j, d, t);
    }
}

/// A drone that nothing is on a collision course with flies as it prefers.
pub proof fn law_free_drone_flies_as_it_prefers(s: Situation, o: Obstacles, m: Mode)
    requires
        m.avoidance,
        forall|i: int|
            0 <= i < s.tracks.len() ==> limit_on_closing(#[trigger] threat(s, i), s.v_cur) is None,
        forall|i: int|
            0 <= i < o.pillars@.len() ==> limit_on_closing(
                #[trigger] standing_threat(s, o, i),
                s.v_cur,
            ) is None,
        limit_on_closing(moving_threat(s, o), s.v_cur) is None,
    ensures
        planned(s, o, m) == planned(s, o, Mode { avoidance: false, ..m }).clamp_length_max(
            decode(MAX_SPEED),
        ),
{
    let cs = around(s, o, m);
    assert forall|j: int| 0 <= j < cs.len() implies limit_on_closing(
        #[trigger] cs[j],
        s.v_cur,
    ) is None by {
        lemma_origin_of(s, o, m, j);
    }
    lemma_no_limit(cs, s.v_cur);
}

proof fn lemma_no_limit(cs: Seq<Body>, v_cur: V3)
    requires
        forall|j: int| 0 <= j < cs.len() ==> limit_on_closing(#[trigger] cs[j], v_cur) is None,
    ensures
        limits_on_closing(cs, v_cur).len() == 0,
    decreases cs.len(),
{
    if cs.len() > 0 {
        let before = cs.drop_last();
        assert forall|j: int| 0 <= j < before.len() implies limit_on_closing(
            #[trigger] before[j],
            v_cur,
        ) is None by {
            assert(before[j] == cs[j]);
        }
        lemma_no_limit(before, v_cur);
        assert(cs.last() == cs[cs.len() - 1]);
    }
}

/// Each thing to avoid is a neighbour, a pillar or the moving obstacle.
proof fn lemma_origin_of(s: Situation, o: Obstacles, m: Mode, j: int)
    requires
        0 <= j < around(s, o, m).len(),
    ensures
        ({
            let c = around(s, o, m)[j];
            ||| exists|i: int| 0 <= i < s.tracks.len() && c == #[trigger] threat(s, i)
            ||| exists|i: int|
                0 <= i < o.pillars@.len() && c == #[trigger] standing_threat(s, o, i)
            ||| c == moving_threat(s, o)
        }),
{
    let n = s.tracks.len() as int;
    let own = neighbor_bodies(s.tracks, s.worst, s.p, m.perception, n);
    let pillars = pillar_bodies(o.pillars@, s.p);
    let all = own + pillars;
    if j < own.len() {
        assert(all[j] == own[j]);
        let i = lemma_neighbor_from(s, m.perception, n, j);
        assert(threat(s, i) == own[j]);
    } else if j < all.len() {
        assert(all[j] == pillars[j - own.len()]);
        assert(standing_threat(s, o, j - own.len()) == pillars[j - own.len()]);
    }
}

proof fn lemma_neighbor_from(s: Situation, perception: Number, n: int, j: int) -> (i: int)
    requires
        n <= s.tracks.len(),
        0 <= j < neighbor_bodies(s.tracks, s.worst, s.p, perception, n).len(),
    ensures
        0 <= i < n,
        neighbor_bodies(s.tracks, s.worst, s.p, perception, n)[j] == threat(s, i),
    decreases n,
{
    let before = neighbor_bodies(s.tracks, s.worst, s.p, perception, n - 1);
    if j < before.len() {
        lemma_neighbor_from(s, perception, n - 1, j)
    } else {
        n - 1
    }
}

} // verus!
