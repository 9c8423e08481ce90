//! What is drawn over the scene: the room, the goal, the links, and what the
//! drones believe.
use crate::config::{ANCHOR_RANGE, CEIL_Y, EGO_DRONE, FLOOR_Y, GOAL_ARRIVE_RADIUS, ROOM_HALF};
use crate::neighbors::{distinct_below, Beliefs, Entry};
use crate::number::{at_most, clamped, decode, Number};
use crate::scalar::Scalar;
use crate::selfloc::{chart_of, places, Chart, SelfLoc};
use crate::sim::{Drone, Mode, SimState};
use crate::slam::LandmarkEst;
use crate::swarm::{as_pairs, links_before, Seen, Snapshot};
use crate::track::{sigma, spread};
use crate::vector::{Vec3, V3};
use vstd::prelude::*;

verus! {

/// What a shape stands for, which decides its colour.
#[derive(Clone, Copy, Debug, PartialEq, Eq, Structural)]
pub enum Ink {
    Room,
    Goal,
    Link,
    MapSpot,
    MapError,
    Drift,
    TruePose,
    BelievedPose,
    Reach,
    AnchorRay,
    Axis,
    BeliefError,
}

/// A shape to draw.
pub enum Form {
    Line { from: V3, to: V3, ink: Ink },
    Ball { center: V3, radius: Number, ink: Ink },
}

/// A shape to draw.
#[derive(Clone, Copy, Debug)]
pub enum Shape {
    Line { from: Vec3, to: Vec3, ink: Ink },
    Ball { center: Vec3, radius: Scalar, ink: Ink },
}

impl View for Shape {
    type V = Form;

    open spec fn view(&self) -> Form {
        match *self {
            Shape::Line { from, to, ink } => Form::Line { from: from@, to: to@, ink },
            Shape::Ball { center, radius, ink } => Form::Ball {
                center: center@,
                radius: radius@,
                ink,
            },
        }
    }
}

/// The views of the elements.
pub open spec fn forms(s: Seq<Shape>) -> Seq<Form> {
    s.map_values(|x: Shape| x@)
}

fn draw(out: &mut Vec<Shape>, s: Shape)
    ensures
        forms(final(out)@) == forms(old(out)@).push(s@),
{
    let ghost before = out@;
    out.push(s);
    assert(forms(out@) =~= forms(before).push(s@));
}

/// A corner of the room's floor.
pub open spec fn corner(i: int) -> V3 {
    let (h, y) = (decode(ROOM_HALF), decode(FLOOR_Y));
    if i % 4 == 0 {
        V3 { x: -h, y, z: -h }
    } else if i % 4 == 1 {
        V3 { x: h, y, z: -h }
    } else if i % 4 == 2 {
        V3 { x: h, y, z: h }
    } else {
        V3 { x: -h, y, z: h }
    }
}

/// The point of the ceiling above one of the floor.
pub open spec fn above(v: V3) -> V3 {
    v + V3::up() * (decode(CEIL_Y) - decode(FLOOR_Y))
}

/// The edges at the first `n` corners: below, above and upright.
pub open spec fn room_edges(n: int) -> Seq<Form>
    decreases n,
{
    if n <= 0 {
        Seq::empty()
    } else {
        let (a, b) = (corner(n - 1), corner(n));
        room_edges(n - 1).push(Form::Line { from: a, to: b, ink: Ink::Room }).push(
            Form::Line { from: above(a), to: above(b), ink: Ink::Room },
        ).push(Form::Line { from: a, to: above(a), ink: Ink::Room })
    }
}

fn corner_at(i: u32) -> (r: Vec3)
    ensures
        r@ == corner(i as int),
{
    let h = Scalar::from_bits(ROOM_HALF);
    let y = Scalar::from_bits(FLOOR_Y);
    let k = i % 4;
    if k == 0 {
        Vec3::new(h.negate(), y, h.negate())
    } else if k == 1 {
        Vec3::new(h, y, h.negate())
    } else if k == 2 {
        Vec3::new(h, y, h)
    } else {
        Vec3::new(h.negate(), y, h)
    }
}

fn draw_room(out: &mut Vec<Shape>)
    ensures
        forms(final(out)@) == forms(old(out)@) + room_edges(4),
{
    let ghost before = forms(out@);
    let rise = Vec3::up() * (Scalar::from_bits(CEIL_Y) - Scalar::from_bits(FLOOR_Y));
    let mut i: u32 = 0;
    assert(before =~= before + room_edges(0));
    while i < 4
        invariant
            i <= 4,
            rise@ == V3::up() * (decode(CEIL_Y) - decode(FLOOR_Y)),
            forms(out@) == before + room_edges(i as int),
        decreases 4 - i,
    {
        let (a, b) = (corner_at(i), corner_at(i + 1));
        draw(out, Shape::Line { from: a, to: b, ink: Ink::Room });
        draw(out, Shape::Line { from: a + rise, to: b + rise, ink: Ink::Room });
        draw(out, Shape::Line { from: a, to: a + rise, ink: Ink::Room });
        assert(forms(out@) =~= before + room_edges(i + 1));
        i = i + 1;
    }
}

/// A line for each link.
pub open spec fn link_lines(s: Seq<Seen>, pairs: Seq<(int, int)>) -> Seq<Form> {
    pairs.map_values(
        |p: (int, int)| Form::Line { from: s[p.0].pos, to: s[p.1].pos, ink: Ink::Link },
    )
}

/// The room, the goal's surroundings and, where they are wanted, the links.
pub open spec fn backdrop(m: Mode, s: Seq<Seen>, goal: V3) -> Seq<Form> {
    let base = room_edges(4).push(
        Form::Ball { center: goal, radius: decode(GOAL_ARRIVE_RADIUS), ink: Ink::Goal },
    );
    if m.show_links {
        base + link_lines(s, links_before(s, s.len() as int, m.perception))
    } else {
        base
    }
}

/// The room, the goal's surroundings and, where they are wanted, the links.
pub fn draw_gizmos(sim: &SimState, snap: &Snapshot, goal: Vec3) -> (out: Vec<Shape>)
    ensures
        forms(out@) == backdrop(sim@, snap@, goal@),
{
    let mut out: Vec<Shape> = Vec::new();
    draw_room(&mut out);
    let ball = Shape::Ball {
        center: goal,
        radius: Scalar::from_bits(GOAL_ARRIVE_RADIUS),
        ink: Ink::Goal,
    };
    draw(&mut out, ball);
    let ghost base = room_edges(4).push(ball@);
    assert(forms(out@) =~= base);
    if sim.show_links {
        let pairs = snap.links(sim.perception);
        let ghost lines = link_lines(snap@, as_pairs(pairs@));
        proof {
            crate::swarm::lemma_links_in_range(snap@, snap@.len() as int, sim.perception@);
        }
        let mut k: usize = 0;
        assert(base =~= base + lines.take(0));
        while k < pairs.len()
            invariant
                k <= pairs@.len(),
                lines == link_lines(snap@, as_pairs(pairs@)),
                as_pairs(pairs@) == links_before(snap@, snap@.len() as int, sim.perception@),
                forall|i: int|
                    0 <= i < links_before(snap@, snap@.len() as int, sim.perception@).len() ==> {
                        let p = #[trigger] links_before(
                            snap@,
                            snap@.len() as int,
                            sim.perception@,
                        )[i];
                        0 <= p.0 < p.1 < snap@.len()
                    },
                forms(out@) == base + lines.take(k as int),
            decreases pairs@.len() - k,
        {
            let (i, j) = pairs[k];
            assert(as_pairs(pairs@)[k as int] == (i as int, j as int));
            let line = Shape::Line { from: snap.0[i].pos, to: snap.0[j].pos, ink: Ink::Link };
            draw(&mut out, line);
            assert(lines[k as int] == line@);
            assert(base + lines.take(k + 1) =~= (base + lines.take(k as int)).push(line@));
            k = k + 1;
        }
        assert(lines.take(k as int) =~= lines);
    }
    out
}

/// Smallest drawn uncertainty of a landmark (0.1 m).
pub const SPOT_LEAST: u32 = 0x3dcc_cccd;

/// Largest drawn uncertainty of a landmark (3 m).
pub const SPOT_MOST: u32 = 0x4040_0000;

/// Drawn size of the true position (0.6 m).
pub const TRUE_SIZE: u32 = 0x3f19_999a;

/// Drawn size of the believed position (0.4 m).
pub const BELIEVED_SIZE: u32 = 0x3ecc_cccd;

/// Smallest drawn half axis (0.05 m).
pub const AXIS_LEAST: u32 = 0x3d4c_cccd;

/// Largest drawn half axis (5 m).
pub const AXIS_MOST: u32 = 0x40a0_0000;

/// The map as it is drawn: each of the first `n` landmarks that was seen, and
/// the way to where it truly is.
pub open spec fn map_shapes(landmarks: Seq<V3>, chart: Chart, n: int) -> Seq<Form>
    decreases n,
{
    if n <= 0 {
        Seq::empty()
    } else {
        let before = map_shapes(landmarks, chart, n - 1);
        let l = chart.map[n - 1];
        if l.seen {
            before.push(
                Form::Ball {
                    center: l.pos,
                    radius: clamped(
                        spread(chart.worst[n - 1]),
                        decode(SPOT_LEAST),
                        decode(SPOT_MOST),
                    ),
                    ink: Ink::MapSpot,
                },
            ).push(Form::Line { from: l.pos, to: landmarks[n - 1], ink: Ink::MapError })
        } else {
            before
        }
    }
}

fn draw_map(out: &mut Vec<Shape>, landmarks: &Vec<Vec3>, map: &Vec<LandmarkEst>, worst: &Vec<Scalar>)
    requires
        map@.len() >= landmarks@.len(),
        worst@.len() >= landmarks@.len(),
    ensures
        forms(final(out)@) == forms(old(out)@) + map_shapes(
            places(landmarks@),
            chart_of(map@, worst@),
            landmarks@.len() as int,
        ),
{
    let ghost before = forms(out@);
    let ghost chart = chart_of(map@, worst@);
    let ghost at = places(landmarks@);
    let mut k: usize = 0;
    assert(before =~= before + map_shapes(at, chart, 0));
    while k < landmarks.len()
        invariant
            k <= landmarks@.len(),
            map@.len() >= landmarks@.len(),
            worst@.len() >= landmarks@.len(),
            chart == chart_of(map@, worst@),
            at == places(landmarks@),
            forms(out@) == before + map_shapes(at, chart, k as int),
        decreases landmarks@.len() - k,
    {
        let est = map[k];
        assert(chart.map[k as int] == est@);
        assert(chart.worst[k as int] == worst@[k as int]@);
        assert(at[k as int] == landmarks@[k as int]@);
        if est.seen {
            let radius = sigma(worst[k]).clamp(
                Scalar::from_bits(SPOT_LEAST),
                Scalar::from_bits(SPOT_MOST),
            );
            draw(out, Shape::Ball { center: est.pos, radius, ink: Ink::MapSpot });
            draw(out, Shape::Line { from: est.pos, to: landmarks[k], ink: Ink::MapError });
        }
        assert(forms(out@) =~= before + map_shapes(at, chart, k + 1));
        k = k + 1;
    }
}

/// The lines from where a drone believes to be to those of the first `n`
/// anchors that reach it.
pub open spec fn anchor_rays(truth: V3, x: V3, anchors: Seq<V3>, n: int) -> Seq<Form>
    decreases n,
{
    if n <= 0 {
        Seq::empty()
    } else {
        let before = anchor_rays(truth, x, anchors, n - 1);
        let a = anchors[n - 1];
        if at_most(truth.distance(a), decode(ANCHOR_RANGE)) {
            before.push(Form::Line { from: x, to: a, ink: Ink::AnchorRay })
        } else {
            before
        }
    }
}

fn draw_anchor_rays(out: &mut Vec<Shape>, truth: Vec3, x: Vec3, anchors: &Vec<Vec3>)
    ensures
        forms(final(out)@) == forms(old(out)@) + anchor_rays(
            truth@,
            x@,
            places(anchors@),
            anchors@.len() as int,
        ),
{
    let ghost before = forms(out@);
    let ghost at = places(anchors@);
    let mut k: usize = 0;
    assert(before =~= before + anchor_rays(truth@, x@, at, 0));
    while k < anchors.len()
        invariant
            k <= anchors@.len(),
            at == places(anchors@),
            forms(out@) == before + anchor_rays(truth@, x@, at, k as int),
        decreases anchors@.len() - k,
    {
        let a = anchors[k];
        assert(at[k as int] == a@);
        if truth.distance(a).le(Scalar::from_bits(ANCHOR_RANGE)) {
            draw(out, Shape::Line { from: x, to: a, ink: Ink::AnchorRay });
        }
        assert(forms(out@) =~= before + anchor_rays(truth@, x@, at, k + 1));
        k = k + 1;
    }
}

/// The eigenvalues of a covariance and the directions that go with them.
#[derive(Clone, Copy, Debug)]
pub struct Axes {
    pub values: Vec3,
    pub first: Vec3,
    pub second: Vec3,
    pub third: Vec3,
}

/// A principal axis, one standard deviation to either side.
pub open spec fn axis_line(center: V3, value: Number, direction: V3) -> Form {
    let half = direction * clamped(spread(value), decode(AXIS_LEAST), decode(AXIS_MOST));
    Form::Line { from: center - half, to: center + half, ink: Ink::Axis }
}

/// The three principal axes of an uncertainty.
pub open spec fn ellipsoid(center: V3, a: Axes) -> Seq<Form> {
    seq![
        axis_line(center, a.values@.x, a.first@),
        axis_line(center, a.values@.y, a.second@),
        axis_line(center, a.values@.z, a.third@),
    ]
}

fn draw_axis(out: &mut Vec<Shape>, center: Vec3, value: Scalar, direction: Vec3)
    ensures
        forms(final(out)@) == forms(old(out)@).push(axis_line(center@, value@, direction@)),
{
    let half = direction * sigma(value).clamp(
        Scalar::from_bits(AXIS_LEAST),
        Scalar::from_bits(AXIS_MOST),
    );
    draw(out, Shape::Line { from: center - half, to: center + half, ink: Ink::Axis });
}

fn draw_covariance(out: &mut Vec<Shape>, center: Vec3, a: &Axes)
    ensures
        forms(final(out)@) == forms(old(out)@) + ellipsoid(center@, *a),
{
    let ghost before = forms(out@);
    draw_axis(out, center, a.values.x, a.first);
    draw_axis(out, center, a.values.y, a.second);
    draw_axis(out, center, a.values.z, a.third);
    assert(forms(out@) =~= before + ellipsoid(center@, *a));
}

/// The first `n` neighbours as they are believed to be, and the way to where
/// they truly are.
pub open spec fn belief_shapes(s: Seq<Entry>, snap: Seq<Seen>, axes: Seq<Axes>, n: int) -> Seq<Form>
    decreases n,
{
    if n <= 0 {
        Seq::empty()
    } else {
        let e = s[n - 1];
        let drawn = belief_shapes(s, snap, axes, n - 1) + ellipsoid(e.est.pos, axes[n - 1]);
        if snap[e.id].alive {
            drawn.push(
                Form::Line { from: e.est.pos, to: snap[e.id].pos, ink: Ink::BeliefError },
            )
        } else {
            drawn
        }
    }
}

fn draw_beliefs(out: &mut Vec<Shape>, beliefs: &Beliefs, snap: &Snapshot, axes: &Vec<Axes>)
    requires
        distinct_below(beliefs@, snap@.len() as int),
        axes@.len() >= beliefs@.len(),
    ensures
        forms(final(out)@) == forms(old(out)@) + belief_shapes(
            beliefs@,
            snap@,
            axes@,
            beliefs@.len() as int,
        ),
{
    let ghost before = forms(out@);
    let mut k: usize = 0;
    assert(before =~= before + belief_shapes(beliefs@, snap@, axes@, 0));
    while k < beliefs.0.len()
        invariant
            k <= beliefs@.len(),
            distinct_below(beliefs@, snap@.len() as int),
            axes@.len() >= beliefs@.len(),
            forms(out@) == before + belief_shapes(beliefs@, snap@, axes@, k as int),
        decreases beliefs@.len() - k,
    {
        let t = beliefs.0[k];
        assert(beliefs@[k as int] == t@);
        draw_covariance(out, t.track.pos, &axes[k]);
        let other = snap.0[t.id];
        if other.alive {
            draw(
                out,
                Shape::Line { from: t.track.pos, to: other.pos, ink: Ink::BeliefError },
            );
        }
        assert(forms(out@) =~= before + belief_shapes(beliefs@, snap@, axes@, k + 1));
        k = k + 1;
    }
}

/// What one drone adds: how far it is from where it believes to be and, for the
/// drone in focus, what it believes.
pub open spec fn drone_shapes(
    m: Mode,
    snap: Seq<Seen>,
    anchors: Seq<V3>,
    id: int,
    x: V3,
    tracks: Seq<Entry>,
    axes: Seq<Axes>,
) -> Seq<Form> {
    let truth = snap[id];
    if !truth.alive {
        Seq::empty()
    } else {
        let drift = seq![Form::Line { from: truth.pos, to: x, ink: Ink::Drift }];
        if id != EGO_DRONE {
            drift
        } else {
            drift.push(
                Form::Ball { center: truth.pos, radius: decode(TRUE_SIZE), ink: Ink::TruePose },
            ).push(
                Form::Ball { center: x, radius: decode(BELIEVED_SIZE), ink: Ink::BelievedPose },
            ).push(Form::Ball { center: truth.pos, radius: m.perception, ink: Ink::Reach })
                + anchor_rays(truth.pos, x, anchors, anchors.len() as int) + belief_shapes(
                tracks,
                snap,
                axes,
                tracks.len() as int,
            )
        }
    }
}

/// What the first `n` drones add.
pub open spec fn swarm_shapes(
    m: Mode,
    snap: Seq<Seen>,
    anchors: Seq<V3>,
    drones: Seq<Drone>,
    poses: Seq<SelfLoc>,
    beliefs: Seq<Beliefs>,
    axes: Seq<Axes>,
    n: int,
) -> Seq<Form>
    decreases n,
{
    if n <= 0 {
        Seq::empty()
    } else {
        swarm_shapes(m, snap, anchors, drones, poses, beliefs, axes, n - 1) + drone_shapes(
            m,
            snap,
            anchors,
            drones[n - 1].id as int,
            poses[n - 1]@.x,
            beliefs[n - 1]@,
            axes,
        )
    }
}

fn draw_drone(
    out: &mut Vec<Shape>,
    sim: &SimState,
    snap: &Snapshot,
    anchors: &Vec<Vec3>,
    id: usize,
    x: Vec3,
    beliefs: &Beliefs,
    axes: &Vec<Axes>,
)
    requires
        id < snap@.len(),
        id == EGO_DRONE ==> distinct_below(beliefs@, snap@.len() as int) && axes@.len()
            >= beliefs@.len(),
    ensures
        forms(final(out)@) == forms(old(out)@) + drone_shapes(
            sim@,
            snap@,
            places(anchors@),
            id as int,
            x@,
            beliefs@,
            axes@,
        ),
{
    let ghost before = forms(out@);
    let truth = snap.0[id];
    if truth.alive {
        draw(out, Shape::Line { from: truth.pos, to: x, ink: Ink::Drift });
        if id == EGO_DRONE {
            draw(
                out,
                Shape::Ball {
                    center: truth.pos,
                    radius: Scalar::from_bits(TRUE_SIZE),
                    ink: Ink::TruePose,
                },
            );
            draw(
                out,
                Shape::Ball {
                    center: x,
                    radius: Scalar::from_bits(BELIEVED_SIZE),
                    ink: Ink::BelievedPose,
                },
            );
            draw(out, Shape::Ball { center: truth.pos, radius: sim.perception, ink: Ink::Reach });
            draw_anchor_rays(out, truth.pos, x, anchors);
            draw_beliefs(out, beliefs, snap, axes);
        }
    }
    assert(forms(out@) =~= before + drone_shapes(
        sim@,
        snap@,
        places(anchors@),
        id as int,
        x@,
        beliefs@,
        axes@,
    ));
}

/// The estimators' view: the shared map, every drone's error about itself, and
/// what the drone in focus believes. `worst` holds the largest eigenvalue of
/// each covariance in the map, and `axes` the principal axes of each track of
/// the drone in focus. `drones`, `poses` and `beliefs` go together.
pub fn draw_estimator(
    sim: &SimState,
    snap: &Snapshot,
    anchors: &Vec<Vec3>,
    landmarks: &Vec<Vec3>,
    map: &Vec<LandmarkEst>,
    worst: &Vec<Scalar>,
    drones: &Vec<Drone>,
    poses: &Vec<SelfLoc>,
    beliefs: &Vec<Beliefs>,
    axes: &Vec<Axes>,
) -> (out: Vec<Shape>)
    requires
        map@.len() >= landmarks@.len(),
        worst@.len() >= landmarks@.len(),
        drones@.len() == poses@.len(),
        drones@.len() == beliefs@.len(),
        forall|i: int|
            0 <= i < drones@.len() ==> {
                let d = #[trigger] drones@[i];
                &&& d.id < snap@.len()
                &&& d.id == EGO_DRONE ==> distinct_below(beliefs@[i]@, snap@.len() as int)
                    && axes@.len() >= beliefs@[i]@.len()
            },
    ensures
        !sim.show_estimator ==> out@.len() == 0,
        sim.show_estimator ==> forms(out@) == map_shapes(
            places(landmarks@),
            chart_of(map@, worst@),
            landmarks@.len() as int,
        ) + swarm_shapes(
            sim@,
            snap@,
            places(anchors@),
            drones@,
            poses@,
            beliefs@,
            axes@,
            drones@.len() as int,
        ),
{
    let mut out: Vec<Shape> = Vec::new();
    if !sim.show_estimator {
        return out;
    }
    draw_map(&mut out, landmarks, map, worst);
    let ghost base = forms(out@);
    assert(base =~= map_shapes(
        places(landmarks@),
        chart_of(map@, worst@),
        landmarks@.len() as int,
    ));
    let ghost at = places(anchors@);
    let mut i: usize = 0;
    assert(base =~= base + swarm_shapes(sim@, snap@, at, drones@, poses@, beliefs@, axes@, 0));
    while i < drones.len()
        invariant
            i <= drones@.len(),
            drones@.len() == poses@.len(),
            drones@.len() == beliefs@.len(),
            forall|i: int|
                0 <= i < drones@.len() ==> {
                    let d = #[trigger] drones@[i];
                    &&& d.id < snap@.len()
                    &&& d.id == EGO_DRONE ==> distinct_below(beliefs@[i]@, snap@.len() as int)
                        && axes@.len() >= beliefs@[i]@.len()
                },
            at == places(anchors@),
            forms(out@) == base + swarm_shapes(
                sim@,
                snap@,
                at,
                drones@,
                poses@,
                beliefs@,
                axes@,
                i as int,
            ),
        decreases drones@.len() - i,
    {
        draw_drone(&mut out, sim, snap, anchors, drones[i].id, poses[i].x, &beliefs[i], axes);
        assert(forms(out@) =~= base + swarm_shapes(
            sim@,
            snap@,
            at,
            drones@,
            poses@,
            beliefs@,
            axes@,
            i + 1,
        ));
        i = i + 1;
    }
    out
}

} // verus!
