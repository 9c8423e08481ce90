//! What is shown: the text, the measures, the colours, the camera and the
//! overlays.
use drone_swarm::config::{N_DRONES, N_LANDMARKS};
use drone_swarm::goal::GoalBelief;
use drone_swarm::hud::{decimal_text, hud_text, measure_swarm, percent, HudNumbers};
use drone_swarm::matrix::Mat3;
use drone_swarm::metrics::Metrics;
use drone_swarm::neighbors::{Beliefs, Sighting};
use drone_swarm::overlay::{draw_estimator, draw_gizmos, Axes, Ink, Shape};
use drone_swarm::quad::Obstacles;
use drone_swarm::scalar::Scalar;
use drone_swarm::scene::{
    anchors, angles, drone_color, drone_emissive, move_goal, move_obstacle, speed_share,
    spin_rotors, target, OrbitCam, GOAL_RATE_X, GOAL_RATE_Y, GOAL_RATE_Z,
};
use drone_swarm::selfloc::SelfLoc;
use drone_swarm::sim::{Drone, SimState};
use drone_swarm::slam::LandmarkEst;
use drone_swarm::swarm::{Reading, Snapshot};
use drone_swarm::track::Bearing;
use drone_swarm::vector::Vec3;

fn s(x: f32) -> Scalar {
    Scalar::from_bits(x.to_bits())
}

fn f(x: Scalar) -> f32 {
    f32::from_bits(x.to_bits())
}

fn v(x: f32, y: f32, z: f32) -> Vec3 {
    Vec3::new(s(x), s(y), s(z))
}

fn arr(a: Vec3) -> [f32; 3] {
    [f(a.x), f(a.y), f(a.z)]
}

fn bearing(a: f32) -> Bearing {
    Bearing { sin: s(a.sin()), cos: s(a.cos()) }
}

fn snapshot(places: &[Vec3], vel: Vec3) -> Snapshot {
    let mut snap = Snapshot::new(places.len());
    let readings = places
        .iter()
        .enumerate()
        .map(|(id, &pos)| Reading { id, pos, vel })
        .collect();
    snap.sense(&readings);
    snap
}

#[test]
fn text_is_laid_out_line_by_line() {
    let sim = SimState { show_links: true, noise: false, ..SimState::default() };
    let (pr, nb, sp, fg, np) = (5.0f32, 3.25f32, 2.5f32, 12.0f32, 0.875f32);
    let (se, ee, gc, bt, me) = (0.25f32, 0.5f32, 100.0f32, 93.0f32, 0.125f32);
    let x = HudNumbers {
        perception: format!("{pr:.1}"),
        neighbors: format!("{nb:.1}"),
        speed: format!("{sp:.2}"),
        at_goal: format!("{fg:3.0}"),
        nearest: format!("{np:.2}"),
        self_error: format!("{se:.2}"),
        est_error: format!("{ee:.2}"),
        coverage: format!("{gc:3.0}"),
        battery: format!("{bt:3.0}"),
        map_error: format!("{me:.2}"),
    };
    let onoff = |b: bool| if b { "ON " } else { "OFF" };
    let expected = format!(
        "DECENTRALIZED DRONE SWARM  ·  Avian3D + Bevy\n\
         ------------------------------------------------\n\
         drones: {n}   informed (know goal): {inf}\n\
         perception radius: {pr:.1} m\n\
         \n\
         avg neighbors / drone : {nb:.1}\n\
         avg speed             : {sp:.2} m/s\n\
         swarm at goal         : {fg:3.0} %\n\
         nearest pair gap      : {np:.2} m\n\
         self-loc error        : {se:.2} m (odometry + anchors + coop)\n\
         neighbor est. error   : {ee:.2} m (per-drone EKF, range+bearing)\n\
         goal info coverage    : {gc:3.0} % (gossip consensus)\n\
         mean battery          : {bt:3.0} %\n\
         SLAM map built        : {mb}/{ml} landmarks  (err {me:.2} m)\n\
         \n\
         [Space] {pause}   [G] goal-seek {gs}   [L] links {lk}\n\
         [N] noise {ns}   [E] estimator {es}   [O] avoidance {av}\n\
         [C] cooperative {co}   [P] perception   [R] re-scatter   [Esc] quit",
        n = N_DRONES,
        inf = (N_DRONES as f32 * 0.18).round() as usize,
        mb = 7,
        ml = N_LANDMARKS,
        pause = "PAUSE ",
        gs = onoff(sim.goal_seek),
        lk = onoff(sim.show_links),
        ns = onoff(sim.noise),
        es = onoff(sim.show_estimator),
        av = onoff(sim.avoidance),
        co = onoff(sim.cooperative),
    );
    assert_eq!(hud_text(&sim, 7, &x), expected);
    let paused = SimState { paused: true, ..sim };
    assert_eq!(hud_text(&paused, 7, &x), expected.replace("PAUSE ", "RESUME"));
}

#[test]
fn numbers_are_written_in_decimal() {
    for n in [0, 7, 9, 10, 48, 100, 1234567890, u64::MAX] {
        assert_eq!(decimal_text(n), n.to_string());
    }
    assert_eq!(f(percent(s(0.25))), 25.0);
}

#[test]
fn the_swarm_is_measured() {
    let snap = snapshot(
        &[v(0.0, 8.0, 0.0), v(3.0, 8.0, 0.0), v(0.0, 8.0, 4.0), v(0.0, 8.0, 20.0)],
        v(0.0, 2.0, 0.0),
    );
    let sim = SimState::default();
    let mut m = Metrics::default();
    measure_swarm(&snap, &sim, v(0.0, 8.0, 0.0), &mut m);
    // Three pairs are within 5 m, one of them at exactly that.
    assert_eq!(f(m.avg_neighbors), 0.1 * (6.0 / 4.0));
    assert_eq!(f(m.avg_speed), 0.1 * 2.0);
    assert_eq!(f(m.frac_at_goal), 0.1 * (3.0 / 4.0));
    assert_eq!(f(m.nearest_pair), 0.1 * 3.0);
    // With nobody there, the gap keeps its last value.
    measure_swarm(&Snapshot::new(2), &sim, Vec3::origin(), &mut m);
    assert_eq!(f(m.nearest_pair), 0.1 * 3.0);
    assert_eq!(f(m.avg_speed), 0.2 + 0.1 * (0.0 - 0.2));
}

#[test]
fn colours_tell_what_a_drone_knows() {
    let rgb = |t: drone_swarm::scene::Tint| [f(t.red), f(t.green), f(t.blue)];
    let t = 0.5f32;
    assert_eq!(rgb(drone_color(true, false, s(t))), [1.0, 0.55 + 0.3 * t, 0.1]);
    assert_eq!(rgb(drone_color(true, true, s(t))), [1.0, 0.55 + 0.3 * t, 0.1]);
    assert_eq!(rgb(drone_color(false, true, s(t))), [0.1, 0.9, 0.3 + 0.3 * t]);
    assert_eq!(rgb(drone_color(false, false, s(t))), [0.1 + 0.4 * t, 0.5, 1.0]);
    let g = 0.4 + 1.6 * t;
    assert_eq!(rgb(drone_emissive(true, true, s(t))), [1.4 + t, 0.5 * g, 0.05]);
    assert_eq!(rgb(drone_emissive(false, true, s(t))), [0.05, 1.0 + t, 0.3 * g]);
    assert_eq!(rgb(drone_emissive(false, false, s(t))), [0.05, 0.4 * g, 1.2 + t]);
    assert_eq!(f(speed_share(v(3.5, 0.0, 0.0))), 0.5);
    assert_eq!(f(speed_share(v(0.0, 30.0, 0.0))), 1.0);
    // Faster is brighter.
    let (slow, fast) = (rgb(drone_emissive(false, true, s(0.1))), rgb(drone_emissive(false, true, s(0.9))));
    assert!(slow.iter().zip(fast).all(|(a, b)| *a <= b));
}

#[test]
fn things_move_on_their_courses() {
    let sim = SimState::default();
    let t = 7.25f32;
    let (a, b, c) = angles(s(t), GOAL_RATE_X, GOAL_RATE_Y, GOAL_RATE_Z);
    assert_eq!((f(a), f(b), f(c)), (t * 0.27, t * 0.19, t * 0.33));
    let mut goal = v(0.0, 8.0, 0.0);
    let paused = SimState { paused: true, ..sim };
    move_goal(&mut goal, &paused, s(1.0), s(1.0), s(1.0));
    assert_eq!(arr(goal), [0.0, 8.0, 0.0]);
    let (x, y, z) = (f(a).sin(), f(b).sin(), f(c).cos());
    move_goal(&mut goal, &sim, s(x), s(y), s(z));
    assert_eq!(arr(goal), [x * (14.0 - 3.0), 8.0 + y * 3.5, z * (14.0 - 3.0)]);

    let mut o = Obstacles::new();
    assert_eq!(o.pillars.len(), 4);
    assert_eq!(arr(o.pillars[0].pos), [-7.0, 0.0, -6.0]);
    assert_eq!(arr(o.pillars[1].pos), [6.5, 0.0, 4.0]);
    assert_eq!(arr(o.pillars[2].pos), [-5.0, 0.0, 7.5]);
    assert_eq!(arr(o.pillars[3].pos), [8.0, 0.0, -8.0]);
    assert!(o.pillars.iter().all(|p| f(p.radius) == 1.2 + 1.6));
    assert_eq!(f(o.moving_radius), 1.4 + 1.8);
    let (a, b, c) = (t * 0.5, t * 0.7, t * 0.4);
    move_obstacle(&mut o, &paused, bearing(a), bearing(b), bearing(c));
    assert_eq!(arr(o.moving), [0.0, 8.0, 0.0]);
    move_obstacle(&mut o, &sim, bearing(a), bearing(b), bearing(c));
    assert_eq!(arr(o.moving), [a.sin() * 9.0, 8.0 + b.cos() * 3.0, c.cos() * 9.0]);
    assert_eq!(
        arr(o.moving_vel),
        [0.5 * 9.0 * a.cos(), -0.7 * 3.0 * b.sin(), -0.4 * 9.0 * c.sin()]
    );
    let beacons: Vec<[f32; 3]> = anchors().into_iter().map(arr).collect();
    assert_eq!(beacons, vec![[11.0, 3.0, -10.0], [12.0, 13.0, 9.0], [2.0, 8.0, 12.0]]);
    assert_eq!(spin_rotors(&sim, s(0.5)).map(f), Some(20.0));
    assert!(spin_rotors(&paused, s(0.5)).is_none());
}

#[test]
fn the_camera_orbits_within_its_bounds() {
    let mut c = OrbitCam::default();
    assert_eq!((f(c.yaw), f(c.pitch), f(c.radius)), (0.0, 0.38, 20.0));
    c.orbit(false, s(100.0), s(100.0), s(0.0), s(0.5));
    assert_eq!((f(c.yaw), f(c.pitch), f(c.radius)), (0.5 * 0.1, 0.38, 20.0));
    c.orbit(true, s(10.0), s(-20.0), s(2.0), s(0.5));
    assert_eq!(f(c.yaw), 0.5 * 0.1 - 10.0 * 0.006);
    assert_eq!(f(c.pitch), 0.38 + 20.0 * 0.006);
    assert_eq!(f(c.radius), 17.0);
    c.orbit(true, s(0.0), s(-9000.0), s(-900.0), s(0.5));
    assert_eq!((f(c.pitch), f(c.radius)), (1.45, 45.0));
    c.orbit(true, s(0.0), s(9000.0), s(900.0), s(0.5));
    assert_eq!((f(c.pitch), f(c.radius)), (-1.45, 6.0));
    let (yaw, pitch) = (0.75f32, 0.25f32);
    let place = c.place(bearing(yaw), bearing(pitch));
    let cp = pitch.cos();
    assert_eq!(
        arr(place),
        [
            0.0 + yaw.sin() * cp * 6.0,
            8.5 + pitch.sin() * 6.0,
            0.0 + yaw.cos() * cp * 6.0
        ]
    );
    assert_eq!(arr(target()), [0.0, 8.5, 0.0]);
}

fn lines(shapes: &[Shape], want: Ink) -> Vec<([f32; 3], [f32; 3])> {
    shapes
        .iter()
        .filter_map(|x| match x {
            Shape::Line { from, to, ink } if *ink == want => Some((arr(*from), arr(*to))),
            _ => None,
        })
        .collect()
}

fn balls(shapes: &[Shape], want: Ink) -> Vec<([f32; 3], f32)> {
    shapes
        .iter()
        .filter_map(|x| match x {
            Shape::Ball { center, radius, ink } if *ink == want => Some((arr(*center), f(*radius))),
            _ => None,
        })
        .collect()
}

#[test]
fn the_room_and_the_links_are_drawn() {
    let snap = snapshot(&[v(0.0, 8.0, 0.0), v(3.0, 8.0, 0.0), v(9.0, 8.0, 0.0)], Vec3::origin());
    let goal = GoalBelief::default().pos;
    let mut sim = SimState::default();
    let shapes = draw_gizmos(&sim, &snap, goal);
    let room = lines(&shapes, Ink::Room);
    assert_eq!(room.len(), 12);
    assert_eq!(room[0], ([-14.0, 1.0, -14.0], [14.0, 1.0, -14.0]));
    assert_eq!(room[1], ([-14.0, 16.0, -14.0], [14.0, 16.0, -14.0]));
    assert_eq!(room[2], ([-14.0, 1.0, -14.0], [-14.0, 16.0, -14.0]));
    assert_eq!(room[9], ([-14.0, 1.0, 14.0], [-14.0, 1.0, -14.0]));
    assert_eq!(balls(&shapes, Ink::Goal), vec![([0.0, 8.0, 0.0], 4.0)]);
    assert!(lines(&shapes, Ink::Link).is_empty());
    sim.show_links = true;
    let shapes = draw_gizmos(&sim, &snap, goal);
    assert_eq!(
        lines(&shapes, Ink::Link),
        vec![([0.0, 8.0, 0.0], [3.0, 8.0, 0.0])]
    );
}

#[test]
fn beliefs_are_drawn_over_the_truth() {
    let places = [v(0.0, 8.0, 0.0), v(3.0, 8.0, 0.0)];
    let snap = snapshot(&places, Vec3::origin());
    let drones = vec![Drone::new(0, 1, 0), Drone::new(1, 1, 0)];
    let poses = vec![
        SelfLoc::new(v(0.5, 8.0, 0.0), Vec3::origin()),
        SelfLoc::new(v(3.0, 8.5, 0.0), Vec3::origin()),
    ];
    let mut ego = Beliefs::new();
    let z = Sighting { measured: Vec3::origin(), expected: Vec3::origin(), offset: v(2.0, 0.0, 0.0) };
    ego.note(1, poses[0].x, &z, &Mat3::identity(), s(0.0));
    let beliefs = vec![ego, Beliefs::new()];
    let spots = vec![v(5.0, 5.0, 5.0), v(6.0, 6.0, 6.0)];
    let map = vec![
        LandmarkEst { pos: v(5.0, 5.0, 5.5), cov: Mat3::identity(), seen: true },
        LandmarkEst::unseen(),
    ];
    let worst = vec![s(100.0), s(100.0)];
    let axes = vec![Axes {
        values: v(4.0, -1.0, 100.0),
        first: v(1.0, 0.0, 0.0),
        second: v(0.0, 1.0, 0.0),
        third: v(0.0, 0.0, 1.0),
    }];
    let beacons = vec![v(0.0, 8.0, 20.0), v(0.0, 8.0, 23.0)];
    let mut sim = SimState::default();
    let draw = |sim: &SimState| {
        draw_estimator(sim, &snap, &beacons, &spots, &map, &worst, &drones, &poses, &beliefs, &axes)
    };
    assert!(draw(&sim).is_empty());
    sim.show_estimator = true;
    let shapes = draw(&sim);
    assert_eq!(balls(&shapes, Ink::MapSpot), vec![([5.0, 5.0, 5.5], 3.0)]);
    assert_eq!(lines(&shapes, Ink::MapError), vec![([5.0, 5.0, 5.5], [5.0, 5.0, 5.0])]);
    assert_eq!(
        lines(&shapes, Ink::Drift),
        vec![([0.0, 8.0, 0.0], [0.5, 8.0, 0.0]), ([3.0, 8.0, 0.0], [3.0, 8.5, 0.0])]
    );
    assert_eq!(balls(&shapes, Ink::TruePose), vec![([0.0, 8.0, 0.0], 0.6)]);
    assert_eq!(balls(&shapes, Ink::BelievedPose), vec![([0.5, 8.0, 0.0], 0.4)]);
    assert_eq!(balls(&shapes, Ink::Reach), vec![([0.0, 8.0, 0.0], 5.0)]);
    assert_eq!(lines(&shapes, Ink::AnchorRay), vec![([0.5, 8.0, 0.0], [0.0, 8.0, 20.0])]);
    // Half axes of 2 m, of the least that is drawn, and of the most.
    assert_eq!(
        lines(&shapes, Ink::Axis),
        vec![
            ([0.5, 8.0, 0.0], [4.5, 8.0, 0.0]),
            ([2.5, 8.0 - 0.05, 0.0], [2.5, 8.0 + 0.05, 0.0]),
            ([2.5, 8.0, -5.0], [2.5, 8.0, 5.0]),
        ]
    );
    assert_eq!(lines(&shapes, Ink::BeliefError), vec![([2.5, 8.0, 0.0], [3.0, 8.0, 0.0])]);
}
