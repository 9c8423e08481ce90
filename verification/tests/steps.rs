//! Steps of the whole swarm, on small swarms with known draws.
use drone_swarm::broadcast::Broadcast;
use drone_swarm::config::{BATTERY_MIN, GRAVITY_ACCEL, N_DRONES, N_INFORMED};
use drone_swarm::goal::{goal_consensus, GoalBelief, GoalDraws};
use drone_swarm::matrix::Mat3;
use drone_swarm::metrics::{ease, Metrics};
use drone_swarm::neighbors::{estimate_neighbors, predict_neighbors, Beliefs, Sighting};
use drone_swarm::noise::{gauss, packet_lost, Jitter};
use drone_swarm::quad::{actuate_swarm, Obstacles, Quad};
use drone_swarm::scalar::Scalar;
use drone_swarm::selfloc::{self_localize, Pair, PoseFix, SelfDraws, SelfLoc};
use drone_swarm::sim::{advance_tick, launch, Drone, Effects, Keys, SimState, Tick};
use drone_swarm::slam::{measure_map, slam_mapping, LandmarkEst};
use drone_swarm::swarm::{Reading, Snapshot};
use drone_swarm::track::{
    measurement_cov, range_and_rise, relative_from_bearing, report, sensor_stds, sigma, Bearing,
};
use drone_swarm::vector::Vec3;

fn s(x: f32) -> Scalar {
    Scalar::from_bits(x.to_bits())
}

fn f(x: Scalar) -> f32 {
    f32::from_bits(x.to_bits())
}

fn v(x: f32, y: f32, z: f32) -> Vec3 {
    Vec3::new(s(x), s(y), s(z))
}

fn arr(a: Vec3) -> [f32; 3] {
    [f(a.x), f(a.y), f(a.z)]
}

fn calm() -> SimState {
    SimState { noise: false, ..SimState::default() }
}

fn still() -> Jitter {
    Jitter { first: Vec3::origin(), second: Vec3::origin() }
}

fn snapshot(places: &[Vec3]) -> Snapshot {
    let mut snap = Snapshot::new(places.len());
    let readings = places
        .iter()
        .enumerate()
        .map(|(id, &pos)| Reading { id, pos, vel: Vec3::origin() })
        .collect();
    snap.sense(&readings);
    snap
}

fn drones(n: usize) -> Vec<Drone> {
    (0..n).map(|id| Drone { id, informed: id == 0, period: 1, phase: 0 }).collect()
}

fn no_keys() -> Keys {
    Keys {
        escape: false,
        space: false,
        g: false,
        l: false,
        n: false,
        e: false,
        o: false,
        c: false,
        p: false,
        r: false,
    }
}

#[test]
fn keys_toggle_their_switches() {
    let start = SimState::default();
    assert!(!start.paused && start.goal_seek && !start.show_links && start.noise);
    assert!(!start.show_estimator && start.avoidance && start.cooperative);
    let all = Keys { space: true, g: true, l: true, n: true, e: true, o: true, c: true, ..no_keys() };
    let mut sim = start;
    assert_eq!(sim.handle_input(&all), Effects { quit: false, scatter: false });
    assert!(sim.paused && !sim.goal_seek && sim.show_links && !sim.noise);
    assert!(sim.show_estimator && !sim.avoidance && !sim.cooperative);
    // Pressing them again restores everything.
    sim.handle_input(&all);
    assert!(!sim.paused && sim.goal_seek && !sim.show_links && sim.noise);
    assert!(!sim.show_estimator && sim.avoidance && sim.cooperative);
    let ends = Keys { escape: true, r: true, ..no_keys() };
    assert_eq!(sim.handle_input(&ends), Effects { quit: true, scatter: true });
    assert_eq!(f(sim.perception), 5.0);
}

#[test]
fn perception_goes_round() {
    let mut sim = SimState::default();
    let p = Keys { p: true, ..no_keys() };
    let mut seen = Vec::new();
    for _ in 0..5 {
        sim.handle_input(&p);
        seen.push(f(sim.perception));
    }
    assert_eq!(seen, vec![6.5, 8.0, 3.5, 5.0, 6.5]);
}

#[test]
fn ticks_advance_unless_paused() {
    let mut tick = Tick(7);
    advance_tick(&mut tick, &calm());
    assert_eq!(tick, Tick(8));
    advance_tick(&mut tick, &SimState { paused: true, ..calm() });
    assert_eq!(tick, Tick(8));
    let mut last = Tick(u64::MAX);
    advance_tick(&mut last, &calm());
    assert_eq!(last, Tick(0));
}

#[test]
fn launched_drones_plan_at_their_own_rates() {
    let all = launch(400);
    assert_eq!(all.len(), 400);
    for (i, d) in all.iter().enumerate() {
        assert_eq!(d.id, i);
        assert_eq!(d.informed, i < N_INFORMED);
        assert!((1..=4).contains(&d.period));
        assert!(d.phase < 4);
    }
    // The rates are drawn: every one of them comes up.
    for period in 1..=4 {
        assert!(all.iter().any(|d| d.period == period));
    }
    for phase in 0..4 {
        assert!(all.iter().any(|d| d.phase == phase));
    }
}

#[test]
fn a_drone_plans_once_per_period() {
    let d = Drone::new(3, 4, 1);
    let plans: Vec<bool> = (0..8).map(|t| d.replans(Tick(t))).collect();
    assert_eq!(plans, vec![false, false, false, true, false, false, false, true]);
    assert!(Drone::new(0, 1, 3).replans(Tick(5)));
    assert!(Drone::new(8, 1, 0).informed && !Drone::new(9, 1, 0).informed);
}

#[test]
fn noise_is_two_draws_scaled() {
    assert_eq!(f(gauss(s(0.5), s(0.25), s(2.0))), 1.5);
    assert_eq!(f(gauss(s(0.5), s(0.25), s(0.0))), 0.0);
    assert_eq!(f(gauss(s(0.5), s(0.25), s(-1.0))), 0.0);
    let j = Jitter { first: v(0.5, -0.5, 1.0), second: v(0.5, 0.25, -0.5) };
    assert_eq!(arr(j.noise(s(1.0), s(2.0), s(4.0))), [1.0, -0.5, 2.0]);
    assert!(packet_lost(true, s(0.07)));
    assert!(!packet_lost(true, s(0.08)));
    assert!(!packet_lost(false, s(0.0)));
}

#[test]
fn snapshot_holds_what_was_sensed() {
    let mut snap = Snapshot::new(3);
    assert!(snap.0.iter().all(|o| !o.alive));
    snap.sense(&vec![Reading { id: 2, pos: v(1.0, 2.0, 3.0), vel: v(0.0, 1.0, 0.0) }]);
    assert!(!snap.0[0].alive && !snap.0[1].alive && snap.0[2].alive);
    assert_eq!(arr(snap.0[2].pos), [1.0, 2.0, 3.0]);
    snap.sense(&vec![Reading { id: 0, pos: v(4.0, 5.0, 6.0), vel: Vec3::origin() }]);
    assert!(snap.0[0].alive && !snap.0[2].alive);
}

#[test]
fn drones_hear_each_other_within_the_radius() {
    let snap = snapshot(&[v(0.0, 5.0, 0.0), v(3.0, 5.0, 0.0), v(9.0, 5.0, 0.0)]);
    let me = snap.0[0].pos;
    let hears = |j: usize, noise: bool, draw: f32| snap.hears(0, me, j, s(3.0), noise, s(draw));
    assert!(!hears(0, false, 1.0));
    assert!(hears(1, false, 1.0));
    assert!(!hears(2, false, 1.0));
    assert!(!hears(1, true, 0.01));
    assert!(hears(1, true, 0.5));
    assert_eq!(snap.links(s(3.0)), vec![(0, 1)]);
    assert_eq!(snap.links(s(20.0)), vec![(0, 1), (0, 2), (1, 2)]);
    // Each pair is drawn once.
    let crowd: Vec<Vec3> = (0..12).map(|i| v(i as f32 * 0.5, 5.0, (i % 3) as f32)).collect();
    let links = snapshot(&crowd).links(s(2.0));
    for (i, &(a, b)) in links.iter().enumerate() {
        assert!(a < b && b < 12);
        assert!(!links[..i].contains(&(a, b)));
    }
    assert!(links.len() > 20);
}

#[test]
fn what_is_broadcast_is_found_by_number() {
    let mut b = Broadcast::new();
    assert_eq!(b.poses.len(), N_DRONES);
    assert_eq!(arr(b.poses[5].pos), [0.0, 0.0, 0.0]);
    assert_eq!(arr(b.goals[5].pos), [0.0, 8.0, 0.0]);
    assert_eq!(f(b.goals[5].var), 400.0);
    let all = vec![Drone::new(5, 1, 0), Drone::new(2, 1, 0)];
    let poses = vec![
        SelfLoc::new(v(1.0, 1.0, 1.0), Vec3::origin()),
        SelfLoc::new(v(2.0, 2.0, 2.0), Vec3::origin()),
    ];
    let goals = vec![
        GoalBelief { pos: v(3.0, 3.0, 3.0), var: s(0.5) },
        GoalBelief { pos: v(4.0, 4.0, 4.0), var: s(0.25) },
    ];
    b.broadcast_estimates(&all, &poses, &goals);
    assert_eq!(arr(b.poses[5].pos), [1.0, 1.0, 1.0]);
    assert_eq!(arr(b.poses[2].pos), [2.0, 2.0, 2.0]);
    assert_eq!(f(b.poses[2].cov.r0.x), 0.1);
    assert_eq!(f(b.goals[5].var), 0.5);
    assert_eq!(arr(b.goals[2].pos), [4.0, 4.0, 4.0]);
    assert_eq!(arr(b.poses[0].pos), [0.0, 0.0, 0.0]);
}

fn quiet_goal_draws(n: usize) -> Vec<GoalDraws> {
    (0..n).map(|_| GoalDraws { observation: still(), packets: vec![s(1.0); n] }).collect()
}

#[test]
fn the_goal_is_passed_on_one_hop_per_step() {
    // Three drones in a row; only the first sees the goal.
    let places = [v(0.0, 5.0, 0.0), v(4.0, 5.0, 0.0), v(8.0, 5.0, 0.0)];
    let snap = snapshot(&places);
    let goal = v(10.0, 8.0, -4.0);
    let mut belief = vec![GoalBelief::default(); 3];
    let mut metrics = Metrics::default();
    let dt = s(1.0 / 64.0);
    for step in 0..3 {
        let gossip = belief.clone();
        goal_consensus(
            &snap,
            &gossip,
            goal,
            &calm(),
            dt,
            &mut metrics,
            &drones(3),
            &mut belief,
            &quiet_goal_draws(3),
        );
        for (i, b) in belief.iter().enumerate() {
            assert_eq!(b.known(), i <= step, "drone {i} after step {step}");
        }
    }
    assert!(f(belief[0].var) < f(belief[1].var) && f(belief[1].var) < f(belief[2].var));
    assert!(f(belief[2].pos.distance(goal)) < 1.0);
    assert!(f(metrics.goal_coverage) > 0.0 && f(metrics.goal_coverage) < 1.0);
}

#[test]
fn one_step_of_consensus_has_exact_values() {
    let snap = snapshot(&[v(0.0, 5.0, 0.0), v(1.0, 5.0, 0.0)]);
    let gossip = vec![
        GoalBelief { pos: v(2.0, 0.0, 0.0), var: s(0.25) },
        GoalBelief { pos: v(9.0, 0.0, 0.0), var: s(9.0) },
    ];
    let mut belief = gossip.clone();
    let mut metrics = Metrics::default();
    let dt = 0.5f32;
    goal_consensus(
        &snap,
        &gossip,
        v(4.0, 0.0, 0.0),
        &calm(),
        s(dt),
        &mut metrics,
        &drones(2),
        &mut belief,
        &quiet_goal_draws(2),
    );
    let fuse = |(pa, va): (f32, f32), (pb, vb): (f32, f32)| {
        let var = 1.0 / (1.0 / va + 1.0 / vb);
        ((pa / va + pb / vb) * var, var)
    };
    // The first is informed and has nobody surer to hear.
    let (x, var) = fuse((2.0, 0.25 + 0.6 * dt), (4.0, 0.25));
    assert_eq!((f(belief[0].pos.x), f(belief[0].var)), (x, var));
    // The second takes over what the first said, one hop less certain.
    let (x, var) = fuse((9.0, 9.0 + 0.6 * dt), (2.0, 0.25 + 0.3));
    assert_eq!((f(belief[1].pos.x), f(belief[1].var)), (x, var));
    assert_eq!(f(metrics.goal_coverage), 0.1 * (2.0 / 2.0));
}

#[test]
fn gossip_that_is_no_surer_is_ignored() {
    let snap = snapshot(&[v(0.0, 5.0, 0.0), v(1.0, 5.0, 0.0)]);
    let said = GoalBelief { pos: v(1.0, 1.0, 1.0), var: s(5.0) };
    let mut belief = vec![GoalBelief { pos: v(2.0, 2.0, 2.0), var: s(5.0) }; 2];
    let all = vec![Drone::new(40, 1, 0), Drone::new(41, 1, 0)];
    let all: Vec<Drone> = all
        .iter()
        .enumerate()
        .map(|(id, d)| Drone { id, ..*d })
        .collect();
    let mut metrics = Metrics::default();
    goal_consensus(
        &snap,
        &vec![said; 2],
        Vec3::origin(),
        &calm(),
        s(0.25),
        &mut metrics,
        &all,
        &mut belief,
        &quiet_goal_draws(2),
    );
    for b in &belief {
        assert_eq!(arr(b.pos), [2.0, 2.0, 2.0]);
        assert_eq!(f(b.var), 5.0 + 0.6 * 0.25);
    }
}

#[test]
fn nothing_changes_while_paused() {
    let sim = SimState { paused: true, ..calm() };
    let snap = snapshot(&[v(0.0, 5.0, 0.0)]);
    let mut metrics = Metrics::default();
    let mut belief = vec![GoalBelief::default()];
    goal_consensus(
        &snap,
        &belief.clone(),
        Vec3::origin(),
        &sim,
        s(1.0),
        &mut metrics,
        &drones(1),
        &mut belief,
        &quiet_goal_draws(1),
    );
    assert_eq!(f(belief[0].var), 400.0);
    let mut poses = vec![SelfLoc::new(v(1.0, 5.0, 0.0), Vec3::origin())];
    self_localize(
        &snap,
        &Vec::new(),
        &Vec::new(),
        &Vec::new(),
        &Vec::new(),
        &vec![PoseFix { pos: Vec3::origin(), cov: Mat3::identity() }],
        &sim,
        s(1.0),
        &mut metrics,
        &drones(1),
        &mut poses,
        &vec![self_draws(0, 0, 1)],
    );
    assert_eq!(arr(poses[0].x), [1.0, 5.0, 0.0]);
    let mut map = vec![LandmarkEst::unseen()];
    let spots = vec![v(1.0, 5.0, 1.0)];
    slam_mapping(&snap, &spots, &sim, &mut map, &drones(1), &poses, &vec![vec![Vec3::origin()]]);
    assert!(!map[0].seen);
    measure_map(&spots, &map, &vec![s(0.5)], &sim, &mut metrics);
    assert_eq!(metrics.map_built, 0);
    let mut quads = vec![Quad::new()];
    let pushes = actuate_swarm(
        &snap,
        &sim,
        &Obstacles::new(),
        s(1.0),
        Tick(0),
        &mut metrics,
        &drones(1),
        &vec![Beliefs::new()],
        &vec![Vec::new()],
        &poses,
        &belief,
        &mut quads,
        &vec![still()],
    );
    assert_eq!(pushes.len(), 0);
    assert_eq!(f(quads[0].battery), 1.0);
}

fn self_draws(anchors: usize, landmarks: usize, n: usize) -> SelfDraws {
    let none = Pair { first: Scalar::zero(), second: Scalar::zero() };
    SelfDraws {
        odometry: still(),
        anchors: vec![none; anchors],
        landmarks: vec![none; landmarks],
        packets: vec![s(1.0); n],
        fixes: vec![still(); n],
    }
}

fn localize(
    places: &[Vec3],
    anchors: &Vec<Vec3>,
    landmarks: &Vec<Vec3>,
    map: &Vec<LandmarkEst>,
    worst: &Vec<Scalar>,
    broadcast: &Vec<PoseFix>,
    sim: &SimState,
    poses: &mut Vec<SelfLoc>,
) -> Metrics {
    let n = places.len();
    let mut metrics = Metrics::default();
    self_localize(
        &snapshot(places),
        anchors,
        landmarks,
        map,
        worst,
        broadcast,
        sim,
        s(1.0 / 64.0),
        &mut metrics,
        &drones(n),
        poses,
        &(0..n).map(|_| self_draws(anchors.len(), landmarks.len(), n)).collect(),
    );
    metrics
}

fn sure(pos: Vec3) -> PoseFix {
    PoseFix { pos, cov: Mat3::identity().scale(s(0.01)) }
}

#[test]
fn anchors_in_reach_correct_a_drone() {
    let truth = v(0.0, 8.0, 0.0);
    let off = v(1.0, 8.0, 0.0);
    let run = |anchor: Vec3| {
        let mut poses = vec![SelfLoc::new(off, Vec3::origin())];
        let m = localize(
            &[truth],
            &vec![anchor],
            &Vec::new(),
            &Vec::new(),
            &Vec::new(),
            &vec![sure(off)],
            &calm(),
            &mut poses,
        );
        (f(poses[0].x.distance(truth)), f(m.self_error))
    };
    let (near, near_metric) = run(v(-5.0, 8.0, 0.0));
    assert!(near < 0.1, "{near}");
    assert_eq!(near_metric, 0.1 * near);
    // One beyond 22 m is of no use.
    let (far, _) = run(v(-23.0, 8.0, 0.0));
    assert_eq!(far, 1.0);
}

#[test]
fn the_own_error_is_a_root_mean_square() {
    let truth = v(0.0, 8.0, 0.0);
    let (first, second) = (v(3.0, 8.0, 0.0), v(1.0, 8.0, 0.0));
    let mut poses =
        vec![SelfLoc::new(first, Vec3::origin()), SelfLoc::new(second, Vec3::origin())];
    let m = localize(
        &[truth, truth],
        &Vec::new(),
        &Vec::new(),
        &Vec::new(),
        &Vec::new(),
        &vec![sure(first), sure(second)],
        &SimState { cooperative: false, ..calm() },
        &mut poses,
    );
    assert!((f(m.self_error) - 0.1 * 5.0f32.sqrt()).abs() < 1e-6, "{}", f(m.self_error));
}

#[test]
fn landmarks_help_only_once_they_are_mapped_well() {
    let truth = v(0.0, 8.0, 0.0);
    let off = v(1.0, 8.0, 0.0);
    let spot = v(-5.0, 8.0, 0.0);
    let run = |seen: bool, worst: f32, spot: Vec3| {
        let mut poses = vec![SelfLoc::new(off, Vec3::origin())];
        let est = LandmarkEst { pos: spot, cov: Mat3::identity(), seen };
        localize(
            &[truth],
            &Vec::new(),
            &vec![spot],
            &vec![est],
            &vec![s(worst)],
            &vec![sure(off)],
            &calm(),
            &mut poses,
        );
        f(poses[0].x.distance(truth))
    };
    assert!(run(true, 0.01, spot) < 0.9);
    assert_eq!(run(false, 0.01, spot), 1.0);
    assert_eq!(run(true, 1.5, spot), 1.0);
    assert_eq!(run(true, 0.01, v(-9.0, 8.0, 0.0)), 1.0);
    // A vaguer map corrects less.
    assert!(run(true, 0.01, spot) < run(true, 0.9, spot));
}

#[test]
fn neighbours_help_where_cooperation_is_on() {
    let places = [v(0.0, 8.0, 0.0), v(2.0, 8.0, 0.0)];
    let run = |cooperative: bool| {
        let mut poses = vec![
            SelfLoc::new(v(1.0, 8.0, 0.0), Vec3::origin()),
            SelfLoc::new(places[1], Vec3::origin()),
        ];
        poses[0].p = Mat3::identity().scale(s(4.0));
        localize(
            &places,
            &Vec::new(),
            &Vec::new(),
            &Vec::new(),
            &Vec::new(),
            &vec![sure(v(1.0, 8.0, 0.0)), sure(places[1])],
            &SimState { cooperative, ..calm() },
            &mut poses,
        );
        f(poses[0].x.distance(places[0]))
    };
    assert_eq!(run(false), 1.0);
    assert!(run(true) < 0.2);
}

#[test]
fn odometry_drifts_by_its_bias() {
    let place = v(0.0, 8.0, 0.0);
    let run = |noise: bool| {
        let mut poses = vec![SelfLoc::new(place, v(0.5, 0.0, 0.0))];
        localize(
            &[place],
            &Vec::new(),
            &Vec::new(),
            &Vec::new(),
            &Vec::new(),
            &vec![sure(place)],
            &SimState { noise, cooperative: false, ..calm() },
            &mut poses,
        );
        assert_eq!(arr(poses[0].bias), [0.5, 0.0, 0.0]);
        f(poses[0].x.x)
    };
    assert_eq!(run(true), 0.5 / 64.0);
    assert_eq!(run(false), 0.0);
}

#[test]
fn landmarks_are_mapped_and_measured() {
    let places = [v(0.0, 5.0, 0.0), v(2.0, 5.0, 0.0)];
    let snap = snapshot(&places);
    let spots = vec![v(1.0, 5.0, 3.0), v(30.0, 5.0, 0.0)];
    let poses: Vec<SelfLoc> = places.iter().map(|&p| SelfLoc::new(p, Vec3::origin())).collect();
    let mut map = vec![LandmarkEst::unseen(); 2];
    assert_eq!(f(map[0].cov.r1.y), 100.0);
    // Each drone sees the first landmark where it is, but for a little error.
    let offsets = vec![
        vec![v(1.1, 0.0, 3.0), Vec3::origin()],
        vec![v(-1.1, 0.0, 3.0), Vec3::origin()],
    ];
    let sim = calm();
    let first: Vec<Drone> = drones(2).into_iter().take(1).collect();
    slam_mapping(
        &snap,
        &spots,
        &sim,
        &mut map,
        &first,
        &poses[..1].to_vec(),
        &offsets[..1].to_vec(),
    );
    assert!(map[0].seen && !map[1].seen);
    assert_eq!(arr(map[0].pos), [1.1, 5.0, 3.0]);
    let range = 10.0f32.sqrt();
    let spread = 0.12f32.max(range * 0.07);
    assert_eq!(f(map[0].cov.r0.x), 0.1 + (spread * spread).max(1e-4));
    slam_mapping(&snap, &spots, &sim, &mut map, &drones(2), &poses, &offsets);
    assert!(map[0].seen && !map[1].seen);
    assert!((f(map[0].pos.x) - 1.0).abs() < 0.11);

    let mut metrics = Metrics::default();
    measure_map(&spots, &map, &vec![s(0.5), s(0.5)], &sim, &mut metrics);
    assert_eq!(metrics.map_built, 1);
    assert_eq!(f(metrics.map_error), f(map[0].pos.distance_squared(spots[0])).sqrt());
    // A map that has grown too vague counts for nothing; the error stays.
    let before = f(metrics.map_error);
    measure_map(&spots, &map, &vec![s(1.5), s(0.5)], &sim, &mut metrics);
    assert_eq!(metrics.map_built, 0);
    assert_eq!(f(metrics.map_error), before);
}

#[test]
fn a_map_only_grows_surer() {
    let places = [v(0.0, 5.0, 0.0), v(2.0, 5.0, 0.0), v(-1.0, 6.0, 1.0)];
    let snap = snapshot(&places);
    let spots = vec![v(1.0, 5.0, 3.0), v(30.0, 5.0, 0.0)];
    let poses: Vec<SelfLoc> = places.iter().map(|&p| SelfLoc::new(p, Vec3::origin())).collect();
    let far = LandmarkEst { pos: v(29.0, 5.0, 1.0), seen: true, ..LandmarkEst::unseen() };
    let mut map = vec![LandmarkEst::unseen(), far];
    let offsets: Vec<Vec<Vec3>> =
        places.iter().map(|&p| spots.iter().map(|&spot| spot - p).collect()).collect();
    slam_mapping(&snap, &spots, &calm(), &mut map, &drones(3), &poses, &offsets);
    for _ in 0..5 {
        let before = f(map[0].cov.determinant());
        slam_mapping(&snap, &spots, &calm(), &mut map, &drones(3), &poses, &offsets);
        assert!(map[0].seen);
        assert!(f(map[0].cov.determinant()) <= before * (1.0 + 1e-5));
        // Nobody is near the other one.
        assert!(map[1].seen);
        assert_eq!(arr(map[1].pos), [29.0, 5.0, 1.0]);
        assert_eq!(f(map[1].cov.r0.x), 100.0);
    }
}

#[test]
fn a_belief_is_never_vaguer_than_by_decay() {
    let snap = snapshot(&[v(0.0, 5.0, 0.0), v(1.0, 5.0, 0.0), v(2.0, 5.0, 0.0)]);
    let mut belief = vec![
        GoalBelief { pos: v(2.0, 0.0, 0.0), var: s(0.05) },
        GoalBelief { pos: v(9.0, 0.0, 0.0), var: s(9.0) },
        GoalBelief { pos: v(5.0, 0.0, 0.0), var: s(400.0) },
    ];
    let mut metrics = Metrics::default();
    for _ in 0..30 {
        let before = belief.clone();
        goal_consensus(
            &snap,
            &before,
            v(4.0, 0.0, 0.0),
            &calm(),
            s(0.125),
            &mut metrics,
            &drones(3),
            &mut belief,
            &quiet_goal_draws(3),
        );
        for (now, was) in belief.iter().zip(&before) {
            assert!(f(now.var) > 0.0 && f(now.var) <= f(was.var) + 0.6 * 0.125);
        }
    }
}

fn measure(d: Vec3) -> Vec3 {
    let (r, rise) = range_and_rise(d);
    Vec3::new(r, s(f(d.x).atan2(f(d.z))), s(f(rise).asin()))
}

fn offset(z: Vec3) -> Vec3 {
    let turn = |a: Scalar| Bearing { sin: s(f(a).sin()), cos: s(f(a).cos()) };
    relative_from_bearing(z.x, turn(z.y), turn(z.z))
}

fn look(snap: &Snapshot, poses: &[SelfLoc], beliefs: &[Beliefs]) -> Vec<Vec<Sighting>> {
    poses
        .iter()
        .enumerate()
        .map(|(i, sl)| {
            (0..snap.0.len())
                .map(|j| {
                    let measured = measure(snap.0[j].pos - snap.0[i].pos);
                    let expected = match beliefs[i].track_of(j) {
                        Some(t) => measure(t.pos - sl.x),
                        None => measured,
                    };
                    Sighting { measured, expected, offset: offset(measured) }
                })
                .collect()
        })
        .collect()
}

#[test]
fn neighbours_are_tracked_and_forgotten() {
    let places = [v(0.0, 5.0, 0.0), v(3.0, 6.0, 1.0), v(20.0, 5.0, 0.0)];
    let poses: Vec<SelfLoc> = places.iter().map(|&p| SelfLoc::new(p, Vec3::origin())).collect();
    let mut beliefs: Vec<Beliefs> = (0..3).map(|_| Beliefs::new()).collect();
    let mut metrics = Metrics::default();
    let sim = calm();
    let mut step = |snap: &Snapshot, now: f32, beliefs: &mut Vec<Beliefs>, m: &mut Metrics| {
        predict_neighbors(&sim, s(1.0 / 64.0), beliefs);
        let seen = look(snap, &poses, beliefs);
        estimate_neighbors(
            snap,
            &sim,
            s(now),
            m,
            &drones(3),
            &poses,
            beliefs,
            &seen,
            &vec![vec![s(1.0); 3]; 3],
        );
    };
    let snap = snapshot(&places);
    for i in 0..20 {
        step(&snap, i as f32 / 64.0, &mut beliefs, &mut metrics);
    }
    // The two near ones track each other; the far one tracks nobody.
    assert_eq!(beliefs[0].0.len(), 1);
    assert_eq!(beliefs[0].0[0].id, 1);
    assert!(beliefs[2].0.is_empty());
    assert!(beliefs[0].track_of(2).is_none());
    assert!((0..3).all(|i| beliefs[i].track_of(i).is_none()));
    let t = beliefs[0].track_of(1).unwrap();
    assert!(f(t.pos.distance(places[1])) < 0.1);
    assert!(f(metrics.est_error) < 0.1);
    assert_eq!(f(t.last_seen), 19.0 / 64.0);
    // Out of sight it is remembered for two seconds, then dropped.
    let apart = snapshot(&[places[0], v(-20.0, 5.0, 0.0), places[2]]);
    step(&apart, 19.0 / 64.0 + 2.0, &mut beliefs, &mut metrics);
    assert_eq!(beliefs[0].0.len(), 1);
    step(&apart, 19.0 / 64.0 + 2.1, &mut beliefs, &mut metrics);
    assert!(beliefs[0].0.is_empty());
}

#[test]
fn sensors_report_with_their_noise() {
    let j = Jitter { first: v(1.0, 1.0, -1.0), second: v(0.0, 0.0, 0.0) };
    let z = v(4.0, 0.5, 0.25);
    assert_eq!(arr(report(z, true, &j)), [4.0 + 0.12, 0.5 + 0.07, 0.25 - 0.07]);
    assert_eq!(arr(report(z, false, &j)), [4.0, 0.5, 0.25]);
    let (range, bearing) = sensor_stds(true);
    assert_eq!((f(range), f(bearing)), (0.12, 0.07));
    let c = measurement_cov(true);
    assert_eq!((f(c.r0.x), f(c.r1.y), f(c.r2.z)), (0.12 * 0.12, 0.07 * 0.07, 0.07 * 0.07));
    let quiet = measurement_cov(false);
    assert_eq!((f(quiet.r0.x), f(quiet.r1.y), f(quiet.r0.y)), (1e-6, 1e-6, 0.0));
    assert_eq!(f(sigma(s(4.0))), 2.0);
    assert_eq!(f(sigma(s(-1e-7))), 0.0);
    // Straight up and at no distance at all, a bearing is still defined.
    let (r, rise) = range_and_rise(v(0.0, 3.0, 0.0));
    assert_eq!((f(r), f(rise)), (3.0, 1.0));
    let (r, rise) = range_and_rise(Vec3::origin());
    assert_eq!((f(r), f(rise)), (1e-4, 0.0));
}

struct Cockpit {
    sim: SimState,
    obstacles: Obstacles,
    goal: GoalBelief,
    place: Vec3,
    vel: Vec3,
    tick: Tick,
    drone: Drone,
}

impl Cockpit {
    fn new() -> Cockpit {
        Cockpit {
            sim: calm(),
            obstacles: Obstacles {
                pillars: Vec::new(),
                moving: v(100.0, 8.0, 0.0),
                moving_radius: s(1.0),
                moving_vel: Vec3::origin(),
            },
            goal: GoalBelief::default(),
            place: v(0.0, 8.0, 0.0),
            vel: Vec3::origin(),
            tick: Tick(0),
            drone: Drone { id: 0, informed: false, period: 1, phase: 0 },
        }
    }

    fn fly(&self, quad: &mut Quad, metrics: &mut Metrics) -> Option<Vec3> {
        let mut snap = Snapshot::new(1);
        snap.sense(&vec![Reading { id: 0, pos: self.place, vel: self.vel }]);
        let mut quads = vec![*quad];
        let pushes = actuate_swarm(
            &snap,
            &self.sim,
            &self.obstacles,
            s(1.0 / 64.0),
            self.tick,
            metrics,
            &vec![self.drone],
            &vec![Beliefs::new()],
            &vec![Vec::new()],
            &vec![SelfLoc::new(self.place, Vec3::origin())],
            &vec![self.goal],
            &mut quads,
            &vec![still()],
        );
        *quad = quads[0];
        pushes[0]
    }
}

#[test]
fn a_drone_at_rest_hovers() {
    let mut quad = Quad::new();
    let mut metrics = Metrics::default();
    let push = Cockpit::new().fly(&mut quad, &mut metrics).unwrap();
    assert_eq!(arr(push), [0.0, f32::from_bits(GRAVITY_ACCEL), 0.0]);
    let g = 9.81f32;
    let dt = 1.0 / 64.0f32;
    assert_eq!(f(quad.battery), 1.0f32 - 0.0016 * g * dt + 0.012 * dt);
    assert_eq!(f(metrics.battery), 0.05 * f(quad.battery));
}

#[test]
fn a_known_goal_draws_the_drone() {
    let mut c = Cockpit::new();
    c.goal = GoalBelief { pos: v(10.0, 8.0, 0.0), var: s(1.0) };
    let mut quad = Quad::new();
    let push = c.fly(&mut quad, &mut Metrics::default()).unwrap();
    // Tilting is limited to 45 m/s^3.
    assert_eq!(f(push.x), 45.0 / 64.0);
    // A belief too vague to navigate by, or goal seeking switched off, does not.
    c.goal.var = s(9.0);
    let push = c.fly(&mut Quad::new(), &mut Metrics::default()).unwrap();
    assert_eq!(f(push.x), 0.0);
    c.goal.var = s(1.0);
    c.sim.goal_seek = false;
    let push = c.fly(&mut Quad::new(), &mut Metrics::default()).unwrap();
    assert_eq!(f(push.x), 0.0);
}

#[test]
fn thrust_is_held_between_plans() {
    let mut c = Cockpit::new();
    c.drone.period = 2;
    c.tick = Tick(1);
    c.vel = v(3.0, 0.0, 0.0);
    let mut quad = Quad::new();
    quad.last_thrust = v(1.0, 12.0, 0.0);
    let push = c.fly(&mut quad, &mut Metrics::default()).unwrap();
    assert_eq!(arr(push), [1.0, 12.0, 0.0]);
    assert_eq!(arr(quad.horiz), [0.0, 0.0, 0.0]);
    assert!(f(quad.battery) < 1.0);
    c.tick = Tick(2);
    let push = c.fly(&mut quad, &mut Metrics::default()).unwrap();
    assert!(f(push.x) < 0.0);
}

#[test]
fn a_drone_that_is_not_alive_does_nothing() {
    let mut quads = vec![Quad::new()];
    let mut metrics = Metrics::default();
    let pushes = actuate_swarm(
        &Snapshot::new(1),
        &calm(),
        &Obstacles::new(),
        s(1.0 / 64.0),
        Tick(0),
        &mut metrics,
        &drones(1),
        &vec![Beliefs::new()],
        &vec![Vec::new()],
        &vec![SelfLoc::new(Vec3::origin(), Vec3::origin())],
        &vec![GoalBelief::default()],
        &mut quads,
        &vec![still()],
    );
    assert!(pushes.len() == 1 && pushes[0].is_none());
    assert_eq!(f(quads[0].battery), 1.0);
    assert_eq!(f(metrics.battery), 0.0);
}

#[test]
fn an_obstacle_ahead_slows_the_drone() {
    let mut c = Cockpit::new();
    c.goal = GoalBelief { pos: v(10.0, 8.0, 0.0), var: s(1.0) };
    c.vel = v(6.0, 0.0, 0.0);
    c.obstacles.moving = v(4.0, 8.0, 0.0);
    let with = f(c.fly(&mut Quad::new(), &mut Metrics::default()).unwrap().x);
    c.sim.avoidance = false;
    let without = f(c.fly(&mut Quad::new(), &mut Metrics::default()).unwrap().x);
    assert!(with < 0.0 && without > 0.0, "{with} {without}");
}

#[test]
fn the_battery_never_dies_and_altitude_comes_first() {
    let mut quad = Quad::new();
    let dt = s(1.0 / 64.0);
    for _ in 0..4000 {
        quad.thrust(v(14.0, 14.0, 0.0), dt);
        let b = f(quad.battery);
        assert!(b >= f32::from_bits(BATTERY_MIN) && b <= 1.0);
        assert_eq!(f(quad.horiz.y), 0.0);
        let budget = 26.0 * (0.6 + 0.4 * b) + 0.1;
        assert!(f(quad.last_thrust.length()) <= budget);
    }
    assert_eq!(f(quad.battery), f32::from_bits(BATTERY_MIN));
    // The lift is there in full; the tilt is what gives way.
    assert_eq!(f(quad.last_thrust.y), f32::min(14.0 + 9.81, 26.0 * (0.6 + 0.4 * 0.55)));
    assert!(f(quad.last_thrust.x) < 1.0);
}

#[test]
fn a_share_of_the_way_is_eased() {
    assert_eq!(f(ease(s(2.0), s(4.0), s(0.5))), 3.0);
}
