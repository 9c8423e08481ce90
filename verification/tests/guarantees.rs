//! What the proved guarantees say, on concrete values.
use drone_swarm::avoid::{boundary_push, select_safe_velocity, time_to_collision, VoConstraint};
use drone_swarm::config::{MAX_SPEED, VO_TIME_HORIZON};
use drone_swarm::fusion::covariance_intersection;
use drone_swarm::goal::{fuse_belief, GoalBelief};
use drone_swarm::matrix::Mat3;
use drone_swarm::metrics::Metrics;
use drone_swarm::neighbors::{Beliefs, Neighbor};
use drone_swarm::noise::Jitter;
use drone_swarm::quad::{actuate_swarm, plan, Obstacles, Quad};
use drone_swarm::scalar::Scalar;
use drone_swarm::selfloc::SelfLoc;
use drone_swarm::sim::{Drone, SimState, Tick};
use drone_swarm::swarm::{Reading, Snapshot};
use drone_swarm::track::{measurement_cov, Track};
use drone_swarm::vector::Vec3;

fn s(x: f32) -> Scalar {
    Scalar::from_bits(x.to_bits())
}

fn f(x: Scalar) -> f32 {
    f32::from_bits(x.to_bits())
}

fn k(bits: u32) -> f32 {
    f32::from_bits(bits)
}

fn v(x: f32, y: f32, z: f32) -> Vec3 {
    Vec3::new(s(x), s(y), s(z))
}

fn arr(a: Vec3) -> [f32; 3] {
    [f(a.x), f(a.y), f(a.z)]
}

fn body(rel: Vec3, vel: Vec3, radius: f32, planar: bool) -> VoConstraint {
    VoConstraint { rel, vel, radius: s(radius), planar }
}

fn obstacles_far_away() -> Obstacles {
    Obstacles {
        pillars: Vec::new(),
        moving: v(100.0, 8.0, 0.0),
        moving_radius: s(1.0),
        moving_vel: Vec3::origin(),
    }
}

#[test]
fn the_speed_limit_holds_whatever_has_to_be_avoided() {
    let bodies = vec![
        body(v(2.0, 0.0, 1.0), v(-7.0, 0.0, -7.0), 1.5, false),
        body(v(1.0, 0.5, -1.0), v(0.0, -7.0, 7.0), 1.0, false),
        body(v(3.0, 9.0, 0.0), v(-5.0, 0.0, 0.0), 2.0, true),
    ];
    let mut n = 0;
    for x in [-7.0f32, -3.0, 0.0, 4.0, 70.0] {
        for z in [-7.0f32, 0.5, 6.0] {
            let wish = v(x, -x, z);
            let flown = select_safe_velocity(wish, wish, &bodies);
            let square: f64 = arr(flown).iter().map(|&c| f64::from(c) * f64::from(c)).sum();
            assert!(square <= 49.001, "{square}");
            n += 1;
        }
    }
    assert_eq!(n, 15);
    // A wish within the limit, with nothing in the way, is flown as it is.
    let free = select_safe_velocity(v(6.0, 0.0, 3.0), v(6.0, 0.0, 3.0), &Vec::new());
    assert_eq!(arr(free), [6.0, 0.0, 3.0]);
}

#[test]
fn a_lone_body_is_not_hit_within_the_horizon() {
    let limit = k(MAX_SPEED);
    let mut bound = 0;
    for &(rel, vel, radius, planar) in &[
        ([5.0f32, 0.0, 0.0], [0.0f32, 0.0, 0.0], 1.0f32, false),
        ([3.0, 1.0, 2.0], [-1.0, 0.0, 0.5], 1.2, false),
        ([-4.0, 6.0, 1.0], [0.5, 0.0, 0.0], 1.5, true),
        ([1.5, 0.1, 0.0], [0.0, 0.0, 0.0], 1.4, false),
    ] {
        let c = body(v(rel[0], rel[1], rel[2]), v(vel[0], vel[1], vel[2]), radius, planar);
        // Straight at the body, as fast as is allowed.
        let far = f32::sqrt(rel.iter().map(|x| x * x).sum());
        let wish = v(rel[0] / far * limit, rel[1] / far * limit, rel[2] / far * limit);
        let flown = arr(select_safe_velocity(wish, wish, &vec![c]));
        if flown != arr(wish) {
            bound += 1;
        }
        for step in 0..=100 {
            let t = f64::from(k(VO_TIME_HORIZON)) * f64::from(step) / 100.0;
            let gap = |i: usize| {
                f64::from(rel[i]) + (f64::from(vel[i]) - f64::from(flown[i])) * t
            };
            let height = if planar { 0.0 } else { gap(1) };
            let apart = f64::sqrt(gap(0) * gap(0) + height * height + gap(2) * gap(2));
            let rho = f64::from(radius) - t / 100.0 - 0.002;
            assert!(apart >= rho, "{apart} at {t}, safety radius {radius}");
        }
    }
    // The cap was at work each time.
    assert_eq!(bound, 4);
}

#[test]
fn a_climbing_drone_is_held_back_from_a_pillar() {
    for height in [8.0f32, -3.0, 0.0] {
        let pillar = body(v(5.0, height, 0.0), Vec3::origin(), 1.0, true);
        let wish = v(6.0, 2.0, 0.0);
        let flown = arr(select_safe_velocity(wish, wish, &vec![pillar]));
        // (5 - 1) / 2.5
        assert!((flown[0] - 1.6).abs() < 1e-4, "{flown:?}");
        assert_eq!(flown[1..], [2.0, 0.0]);
    }
}

#[test]
fn a_receding_body_is_not_hit() {
    for x in [-3.0f32, -0.5, 2.0, 9.0] {
        for y in [-4.0f32, 0.25, 5.0] {
            let rel = v(x, y, 1.0);
            for w in [v(-x, -y, -1.0), v(-y, x, 0.0), v(-3.0 * x, -y, 0.0)] {
                let t = time_to_collision(rel, w, s(0.5), s(10.0));
                assert!(f(t).is_infinite(), "{:?} {:?}", arr(rel), arr(w));
            }
            // Turned round, the first of them is a collision course.
            let t = time_to_collision(rel, v(x, y, 1.0), s(0.5), s(10.0));
            assert!(f(t) > 0.0 && f(t) <= 1.0);
        }
    }
}

#[test]
fn the_tilt_changes_no_faster_than_its_rate() {
    let dt = 1.0f32 / 64.0;
    let mut quad = Quad::new();
    for step in 0..200 {
        let turn = step as f32 * 0.3;
        let before = arr(quad.horiz);
        quad.thrust(v(14.0 * turn.cos(), 2.0 * turn.sin(), 14.0 * turn.sin()), s(dt));
        let after = arr(quad.horiz);
        let change: f32 = (0..3).map(|i| (after[i] - before[i]) * (after[i] - before[i])).sum();
        assert!(change.sqrt() <= 45.0 * dt + 1e-4, "{}", change.sqrt());
    }
}

#[test]
fn the_thrust_keeps_within_the_battery() {
    let mut quad = Quad::new();
    for step in 0..4000 {
        let accel = if step % 300 < 150 { v(14.0, 14.0, -14.0) } else { v(-14.0, -9.0, 3.0) };
        let most = 26.0 * (0.6 + 0.4 * f(quad.battery));
        quad.thrust(accel, s(1.0 / 64.0));
        let thrust: f32 = arr(quad.last_thrust).iter().map(|c| c * c).sum();
        assert!(thrust.sqrt() <= most + 5e-4, "{} of {most}", thrust.sqrt());
    }
}

fn believed(pos: Vec3, vel: Vec3) -> Beliefs {
    let mut track = Track::new(pos, Vec3::origin(), s(0.0));
    track.vel = vel;
    Beliefs(vec![Neighbor { id: 1, track }])
}

#[test]
fn an_uncertain_neighbour_gets_a_wider_berth() {
    let sim = SimState { noise: false, ..SimState::default() };
    let goal = GoalBelief { pos: v(9.0, 8.0, 0.0), var: s(0.5) };
    let tracks = believed(v(4.0, 8.0, 0.0), v(0.0, 0.0, 0.0));
    let closing = |variance: f32| {
        let flown = plan(
            v(0.0, 8.0, 0.0),
            v(5.0, 0.0, 0.0),
            &tracks,
            &vec![s(variance)],
            &goal,
            &obstacles_far_away(),
            &sim,
        );
        f(flown.x)
    };
    let speeds = [closing(0.0), closing(0.05), closing(0.2), closing(0.5)];
    for i in 1..4 {
        assert!(speeds[i] < speeds[i - 1], "{speeds:?}");
    }
    // The distance less twice the drones' radius, the margin and two deviations.
    assert!((speeds[0] - (4.0 - 1.46) / 2.5).abs() < 1e-3, "{speeds:?}");
    assert!((speeds[0] - speeds[3] - 2.0 * 0.5f32.sqrt() / 2.5).abs() < 1e-3, "{speeds:?}");
}

#[test]
fn control_does_not_see_where_a_drone_truly_is() {
    let fly = |truth: Vec3| {
        let mut snap = Snapshot::new(2);
        snap.sense(&vec![
            Reading { id: 0, pos: truth, vel: v(1.0, 0.0, 2.0) },
            Reading { id: 1, pos: v(5.0, 5.0, 5.0), vel: Vec3::origin() },
        ]);
        let mut quads = vec![Quad::new()];
        let pushes = actuate_swarm(
            &snap,
            &SimState::default(),
            &Obstacles::new(),
            s(1.0 / 64.0),
            Tick(0),
            &mut Metrics::default(),
            &vec![Drone { id: 0, informed: false, period: 1, phase: 0 }],
            &vec![believed(v(2.0, 8.0, 1.0), v(-1.0, 0.0, 0.0))],
            &vec![vec![s(0.1)]],
            &vec![SelfLoc::new(v(0.0, 8.0, 0.0), Vec3::origin())],
            &vec![GoalBelief { pos: v(-6.0, 8.0, 3.0), var: s(0.5) }],
            &mut quads,
            &vec![Jitter { first: v(0.1, 0.2, 0.3), second: v(0.3, -0.2, 0.1) }],
        );
        arr(pushes[0].unwrap())
    };
    assert_eq!(fly(v(0.0, 8.0, 0.0)), fly(v(11.0, 2.0, -9.0)));
}

#[test]
fn nothing_is_gained_from_fusing_an_estimate_with_itself() {
    let cov = Mat3 {
        r0: v(0.5, 0.1, -0.2),
        r1: v(0.1, 0.8, 0.05),
        r2: v(-0.2, 0.05, 1.5),
    };
    let x = v(1.0, -2.0, 3.0);
    let (pos, fused) = covariance_intersection(x, cov, x, cov);
    let rows = |m: Mat3| [arr(m.r0), arr(m.r1), arr(m.r2)];
    for i in 0..3 {
        assert!((arr(pos)[i] - arr(x)[i]).abs() < 1e-5);
        for j in 0..3 {
            assert!((rows(fused)[i][j] - rows(cov)[i][j]).abs() < 1e-5);
        }
    }
}

#[test]
fn a_fused_error_is_within_what_the_two_claim() {
    // The truth is the origin, so the estimates are their own errors.
    let diagonal = |a: f32, b: f32, c: f32| Mat3::diagonal(s(a), s(b), s(c));
    for &(a, b) in &[
        ([0.1f32, 0.4, 0.3], [0.5f32, -0.2, 0.1]),
        ([-0.3, 0.2, 0.0], [-0.3, 0.2, 0.0]),
        ([0.2, 0.2, 0.2], [-0.2, -0.2, -0.2]),
    ] {
        let (va, vb) = ([0.04f32, 0.5, 0.3], [0.6f32, 0.09, 0.3]);
        let (x, p) = covariance_intersection(
            v(a[0], a[1], a[2]),
            diagonal(va[0], va[1], va[2]),
            v(b[0], b[1], b[2]),
            diagonal(vb[0], vb[1], vb[2]),
        );
        let claims = |e: [f32; 3], var: [f32; 3]| -> f32 {
            (0..3).map(|i| e[i] * e[i] / var[i]).sum()
        };
        let var = [f(p.r0.x), f(p.r1.y), f(p.r2.z)];
        let fused = claims(arr(x), var);
        let most = f32::max(claims(a, va), claims(b, vb));
        assert!(fused <= most + 1e-4, "{fused} of {most}");
    }
}

#[test]
fn dead_reckoning_grows_less_certain() {
    let mut pose = SelfLoc::new(v(0.0, 8.0, 0.0), Vec3::origin());
    for _ in 0..100 {
        let before = [f(pose.p.r0.x), f(pose.p.r1.y), f(pose.p.r2.z)];
        pose.predict(v(1.0, 0.0, -1.0), s(1.0 / 64.0));
        let after = [f(pose.p.r0.x), f(pose.p.r1.y), f(pose.p.r2.z)];
        for i in 0..3 {
            assert!(after[i] > before[i]);
        }
    }
    assert!((f(pose.x.x) - 100.0 / 64.0).abs() < 1e-5);
}

#[test]
fn a_worse_estimate_is_ignored() {
    let good = Mat3::diagonal(s(0.125), s(0.25), s(0.5));
    let bad = Mat3::diagonal(s(1.0), s(2.0), s(2.0));
    let (x, y) = (v(1.0, 2.0, 3.0), v(-4.0, 5.0, -6.0));
    for (pos, cov) in [
        covariance_intersection(x, good, y, bad),
        covariance_intersection(y, bad, x, good),
    ] {
        assert_eq!(arr(pos), [1.0, 2.0, 3.0]);
        assert_eq!([f(cov.r0.x), f(cov.r1.y), f(cov.r2.z)], [0.125, 0.25, 0.5]);
    }
}

#[test]
fn the_push_back_is_linear_and_one_at_the_wall() {
    for (wall, push) in [
        ([14.0, 8.0, -14.0], [-1.0, 0.0, 1.0]),
        ([-14.0, 1.0, 14.0], [1.0, 1.0, -1.0]),
        ([11.5, 16.0, -11.5], [0.0, -1.0, 0.0]),
        ([0.0, 3.5, 0.0], [0.0, 0.0, 0.0]),
        ([0.0, 13.5, 0.0], [0.0, 0.0, 0.0]),
    ] {
        assert_eq!(arr(boundary_push(v(wall[0], wall[1], wall[2]))), push);
    }
    for step in 1..40 {
        let depth = step as f32 / 8.0;
        let push = arr(boundary_push(v(11.5 + depth, 3.5 - depth, 2.0)));
        assert!((push[0] + depth / 2.5).abs() < 1e-6 * depth);
        assert!((push[1] - depth / 2.5).abs() < 1e-6 * depth);
        assert_eq!(push[2], 0.0);
    }
    // However little it is outside, something pushes.
    assert!(f(boundary_push(v(k(11.5f32.to_bits() + 1), 8.0, 0.0)).x) < 0.0);
}

#[test]
fn fused_beliefs_lie_between_and_are_surer() {
    let belief = |x: f32, var: f32| GoalBelief { pos: v(x, -x, 1.0), var: s(var) };
    for (a, b) in [
        (belief(1.0, 0.25), belief(5.0, 0.75)),
        (belief(-3.0, 40.0), belief(7.0, 0.3)),
        (belief(2.0, 1.0), belief(2.0, 9.0)),
    ] {
        let r = fuse_belief(a, b);
        let swapped = fuse_belief(b, a);
        assert_eq!((arr(r.pos), f(r.var)), (arr(swapped.pos), f(swapped.var)));
        let (va, vb, var) = (f(a.var), f(b.var), f(r.var));
        assert!(var > 0.0 && var < va && var < vb);
        assert!((1.0 / var - (1.0 / va + 1.0 / vb)).abs() <= 1e-5 / var);
        let (xa, xb, x) = (f(a.pos.x), f(b.pos.x), f(r.pos.x));
        assert!(x >= xa.min(xb) - 1e-5 && x <= xa.max(xb) + 1e-5);
        assert!(((x - xa).abs() * vb - (x - xb).abs() * va).abs() < 1e-4 * (va + vb));
    }
    let (a, b, c) = (belief(1.0, 0.5), belief(3.0, 2.0), belief(-6.0, 4.0));
    let left = fuse_belief(fuse_belief(a, b), c);
    let right = fuse_belief(a, fuse_belief(b, c));
    assert!((f(left.var) - f(right.var)).abs() < 1e-6);
    assert!((f(left.pos.x) - f(right.pos.x)).abs() < 1e-5);
}

#[test]
fn a_prediction_moves_on_and_spreads() {
    let mut track = Track::new(v(1.0, 5.0, 0.0), v(2.0, 0.5, -1.0), s(3.0));
    track.vel = v(1.0, -2.0, 0.5);
    let before = track;
    track.predict(s(0.0));
    assert_eq!(arr(track.pos), arr(before.pos));
    assert_eq!(f(track.cov.pp.r0.x), f(before.cov.pp.r0.x));
    assert_eq!(f(track.cov.vv.r2.z), f(before.cov.vv.r2.z));
    track.predict(s(0.5));
    assert_eq!(arr(track.pos), [3.5, 4.5, -0.75]);
    assert_eq!(arr(track.vel), [1.0, -2.0, 0.5]);
    assert_eq!(f(track.last_seen), 3.0);
    for (after, before) in [
        (track.cov.vv.r0.x, before.cov.vv.r0.x),
        (track.cov.vv.r1.y, before.cov.vv.r1.y),
        (track.cov.vv.r2.z, before.cov.vv.r2.z),
    ] {
        assert_eq!(f(after), f(before) + 9.0 * 0.25);
    }
    let (pp, vv) = (f(before.cov.pp.r1.y), f(before.cov.vv.r1.y));
    // A quarter of the spread of the velocity, and that of the acceleration.
    assert_eq!(f(track.cov.pp.r1.y), pp + 0.25 * vv + 0.125 * 0.125 * 9.0);
    assert_eq!(f(track.cov.pv.r0.x), f(track.cov.vp.r0.x));
    // A long step.
    let mut far = before;
    far.predict(s(4.0));
    assert_eq!(arr(far.pos), [7.0, -2.5, 1.0]);
    assert_eq!(f(far.cov.vv.r0.x), f(before.cov.vv.r0.x) + 9.0 * 16.0);
    // Where the neighbour is believed to be does not matter to the spread.
    let mut elsewhere = Track { pos: v(-9.0, 1.0, 4.0), vel: Vec3::origin(), ..before };
    elsewhere.predict(s(0.5));
    assert_eq!(f(elsewhere.cov.pp.r1.y), f(track.cov.pp.r1.y));
}

#[test]
fn a_full_turn_leaves_the_same_track() {
    let ego = v(0.0, 5.0, 0.0);
    let start = Track::new(ego, v(0.1, 0.2, -3.0), s(0.0));
    let predicted = v(3.008, 3.108, 0.0665);
    let turn = 2.0 * std::f32::consts::PI;
    let mut places = Vec::new();
    for azimuth in [-3.1, -3.1 + turn, -3.1 - turn, -3.1 + 9.0 * turn] {
        let mut track = start;
        track.update(ego, v(3.1, azimuth, 0.1), predicted, &measurement_cov(true), s(0.5));
        places.push((arr(track.pos), arr(track.vel), f(track.cov.pp.r0.x)));
    }
    for (pos, vel, spread) in &places[1..] {
        for i in 0..3 {
            assert!((pos[i] - places[0].0[i]).abs() < 1e-5);
            assert!((vel[i] - places[0].1[i]).abs() < 1e-5);
        }
        assert_eq!(*spread, places[0].2);
    }
    // The seam is crossed the short way.
    assert!((places[0].0[2] + 3.0).abs() < 0.2);
}

#[test]
fn a_slightly_worse_estimate_is_ignored_too() {
    let good = [0.3f32, 0.02, 7.0];
    let (x, y) = (v(1.1, -2.3, 30.7), v(900.0, 5.0, -6.0));
    let a = Mat3::diagonal(s(good[0]), s(good[1]), s(good[2]));
    let b = Mat3::diagonal(s(good[0] * 1.002), s(good[1] * 1.002), s(good[2] * 1.002));
    for (pos, cov) in [covariance_intersection(x, a, y, b), covariance_intersection(y, b, x, a)] {
        for (got, want) in arr(pos).iter().zip(arr(x)) {
            assert!((got - want).abs() <= (want.abs() + 1.0) * 4e-6, "{got} for {want}");
        }
        for (got, want) in [f(cov.r0.x), f(cov.r1.y), f(cov.r2.z)].iter().zip(good) {
            assert!((got / want - 1.0).abs() < 4e-6, "{got} for {want}");
        }
        assert_eq!([f(cov.r0.y), f(cov.r1.z), f(cov.r2.x)], [0.0; 3]);
    }
}

#[test]
fn an_intersection_follows_its_formula() {
    let (p, q) = ([0.3f32, 2.0, 0.7], [1.0f32, 0.4, 0.6]);
    let a = Mat3::diagonal(s(p[0]), s(p[1]), s(p[2]));
    let b = Mat3::diagonal(s(q[0]), s(q[1]), s(q[2]));
    let (_, cov) = covariance_intersection(v(0.0, 1.0, 2.0), a, v(1.0, 1.0, 1.0), b);
    let got = [f(cov.r0.x), f(cov.r1.y), f(cov.r2.z)];
    let fits = (0..11).filter(|&i| {
        let w = i as f32 / 10.0;
        (0..3).all(|k| (got[k] * (w / p[k] + (1.0 - w) / q[k]) - 1.0).abs() < 1e-5)
    });
    assert_eq!(fits.count(), 1);
    assert!(got.iter().product::<f32>() <= p.iter().product::<f32>());
}

#[test]
fn the_time_to_a_collision_is_the_first() {
    let horizon = s(2.5);
    let bodies = [[5.0f32, 1.0, -2.0], [3.0, 0.0, 0.0], [-2.0, 4.0, 1.0], [0.5, -6.0, 3.0]];
    let ways = [[4.0f32, 0.5, -1.0], [1.5, 0.1, 0.0], [-3.0, 5.0, 1.0], [0.0, 0.0, 0.1]];
    for rel in bodies {
        for w in ways {
            let radius = 1.25f32;
            let gap = |t: f64| -> f64 {
                (0..3).map(|i| (rel[i] as f64 - w[i] as f64 * t).powi(2)).sum()
            };
            let (r, u) = (v(rel[0], rel[1], rel[2]), v(w[0], w[1], w[2]));
            let t = time_to_collision(r, u, s(radius), horizon);
            let (rr, slack) = ((radius * radius) as f64, 1e-5 * (gap(0.0) + 1.0));
            let until = if t.is_finite() { f(t) as f64 } else { 2.5 };
            if t.is_finite() {
                assert!(until <= 2.5 && gap(until) <= rr + slack, "{rel:?} {w:?}");
            }
            for k in 0..1000 {
                assert!(gap(until * k as f64 / 1000.0) >= rr - slack, "{rel:?} {w:?}");
            }
        }
    }
    // A body that is there already.
    assert_eq!(f(time_to_collision(v(0.5, 0.0, 0.0), v(1.0, 0.0, 0.0), s(1.0), horizon)), 0.0);
}

#[test]
fn several_bodies_are_not_hit_within_the_horizon() {
    let cs = vec![
        body(v(6.0, 2.0, 1.0), v(0.0, 0.0, 0.0), 1.5, false),
        body(v(7.0, 1.0, 2.0), v(-0.5, 0.0, 0.0), 1.75, false),
        body(v(8.0, 2.5, 0.5), v(-1.0, 0.25, 0.0), 1.5, false),
        body(v(5.0, -0.5, 1.5), v(0.0, 0.0, 0.0), 1.25, true),
    ];
    let mut held = 0;
    for wanted in [v(6.0, 1.5, 1.0), v(5.5, 1.0, 1.5), v(6.0, 2.0, 0.5)] {
        let safe = arr(select_safe_velocity(wanted, wanted, &cs));
        for c in &cs {
            let (rel, vel) = (arr(c.rel), arr(c.vel));
            let level = |a: Vec3| if c.planar { a.level() } else { a };
            let way = level(wanted) - level(c.vel);
            if time_to_collision(level(c.rel), way, c.radius, s(2.5)).is_infinite() {
                continue;
            }
            held += 1;
            for k in 0..=100 {
                let t = 2.5 * k as f32 / 100.0;
                let apart: f32 = (0..3)
                    .filter(|&i| i != 1 || !c.planar)
                    .map(|i| (rel[i] + (vel[i] - safe[i]) * t).powi(2))
                    .sum();
                assert!(apart.sqrt() >= f(c.radius) - 0.01, "{rel:?} after {t}");
            }
        }
    }
    assert!(held > 5);
}

fn symmetric(d: [f32; 3], o: [f32; 3], k: f32) -> Mat3 {
    Mat3 {
        r0: v(d[0] * k, o[0] * k, o[1] * k),
        r1: v(o[0] * k, d[1] * k, o[2] * k),
        r2: v(o[1] * k, o[2] * k, d[2] * k),
    }
}

#[test]
fn a_vaguer_estimate_is_ignored_whatever_its_shape() {
    let (d, o) = ([2.0, 1.5, 1.0], [0.5, 0.25, -0.125]);
    let a = symmetric(d, o, 0.3);
    // Larger in every direction, and of another shape.
    let mut b = symmetric(d, o, 0.45);
    b.r0.y = b.r0.y + s(0.05);
    b.r1.x = b.r1.x + s(0.05);
    b.r0.x = b.r0.x + s(0.2);
    b.r1.y = b.r1.y + s(0.2);
    let (x, y) = (v(1.5, -2.0, 30.0), v(-4.0, 9.0, 0.5));
    for (pos, cov) in [covariance_intersection(x, a, y, b), covariance_intersection(y, b, x, a)] {
        for (got, want) in arr(pos).iter().zip(arr(x)) {
            assert!((got - want).abs() < 1e-4, "{got} for {want}");
        }
        for (got, want) in [(cov.r0, a.r0), (cov.r1, a.r1), (cov.r2, a.r2)] {
            for i in 0..3 {
                assert!((arr(got)[i] - arr(want)[i]).abs() < 1e-6);
            }
        }
    }
    // Fusing leaves no vaguer estimate than the first one.
    let c = symmetric([0.5, 3.0, 2.0], [0.1, -0.2, 0.3], 0.4);
    let (_, fused) = covariance_intersection(x, a, y, c);
    assert!(f(fused.determinant()) <= f(a.determinant()) * 1.00001);
}

#[test]
fn a_body_that_comes_on_is_backed_away_from() {
    let horizon = f64::from(k(VO_TIME_HORIZON));
    // Offset, velocity and radius of the body, and the wish.
    for &(rel, vel, radius, wish) in &[
        // The moving obstacle: the cap is -3 + (6 - 3.2) / 2.5.
        ([6.0f32, 0.0, 0.0], [-3.0f32, 0.0, 0.0], 3.2f32, [7.0f32, 0.0, 0.0]),
        ([6.0, 0.0, 0.0], [-3.0, 0.0, 0.0], 3.2, [3.0, 2.0, -1.0]),
        // Two drones head-on.
        ([3.0, 0.5, 4.0], [-3.0, 0.0, -4.0], 1.5, [3.0, 0.5, 4.0]),
        // Far too near already.
        ([0.5, 0.0, 1.0], [0.0, 0.0, 0.0], 2.0, [1.0, 0.0, 2.0]),
        ([0.0, 1.0, 1.0], [0.0, -1.0, -2.0], 3.0, [0.0, 0.0, 7.0]),
    ] {
        let rel_v = v(rel[0], rel[1], rel[2]);
        let c = body(rel_v, v(vel[0], vel[1], vel[2]), radius, false);
        let wish = v(wish[0], wish[1], wish[2]);
        let flown = arr(select_safe_velocity(wish, wish, &vec![c])).map(f64::from);
        let far = f64::sqrt(rel.iter().map(|x| f64::from(x * x)).sum());
        let along = |a: [f64; 3]| {
            (0..3).map(|i| a[i] * f64::from(rel[i])).sum::<f64>() / far
        };
        let cap = along(vel.map(f64::from)) + (far - f64::from(radius)) / horizon;
        assert!(cap < 0.0 && cap > -5.5, "{cap}");
        assert!(along(flown) <= cap + 0.01, "{} for {cap}", along(flown));
        for step in 0..=100 {
            let t = horizon * f64::from(step) / 100.0;
            let apart = (0..3)
                .map(|i| (f64::from(rel[i]) + (f64::from(vel[i]) - flown[i]) * t).powi(2))
                .sum::<f64>()
                .sqrt();
            // Outside it stays out; inside it leaves evenly.
            let evenly = far + (f64::from(radius) - far) * t / horizon;
            let owed = evenly.min(f64::from(radius)) - t / 100.0 - 0.002;
            assert!(apart >= owed, "{apart} after {t}");
        }
    }
}

#[test]
fn no_drone_backs_away_faster_than_it_can_fly() {
    // The cap is -9, and the speed limit seven.
    let c = body(v(2.5, 0.0, 0.0), v(-8.0, 0.0, 0.0), 5.0, false);
    let flown = arr(select_safe_velocity(v(7.0, 0.0, 0.0), Vec3::origin(), &vec![c]));
    assert!((flown[0] + 7.0).abs() < 0.01, "{flown:?}");
    // At -6.9 nearly all of the speed is spent on the retreat.
    let c = body(v(5.0, 0.0, 0.0), v(-6.9, 0.0, 0.0), 5.0, false);
    let flown = arr(select_safe_velocity(v(0.0, 0.0, 7.0), Vec3::origin(), &vec![c]));
    assert!(flown[0] < -6.7, "{flown:?}");
}

#[test]
fn several_bodies_that_come_on_are_backed_away_from() {
    let cs = vec![
        body(v(6.0, 0.0, 0.0), v(-3.0, 0.0, 0.0), 3.2, false),
        body(v(6.0, 0.0, 3.0), v(-2.5, 0.0, -1.0), 2.5, false),
        body(v(5.0, 2.0, 0.0), v(-2.0, 0.0, 0.0), 3.0, false),
    ];
    for wish in [v(7.0, 0.0, 0.0), v(4.0, 1.0, 3.0), v(0.0, 0.0, 0.0)] {
        let flown = arr(select_safe_velocity(wish, wish, &cs));
        for c in &cs {
            let (rel, vel) = (arr(c.rel), arr(c.vel));
            let far = rel.iter().map(|x| x * x).sum::<f32>().sqrt();
            let along = |a: [f32; 3]| (0..3).map(|i| a[i] * rel[i]).sum::<f32>() / far;
            let cap = along(vel) + (far - f(c.radius)) / 2.5;
            assert!(along(flown) <= cap + 0.1, "{} for {cap}", along(flown));
        }
    }
}

#[test]
fn a_range_narrows_the_line_of_sight() {
    let anchor = v(3.0, 4.0, 0.0);
    for r in [0.01f32, 0.25, 4.0] {
        let mut pose = SelfLoc::new(Vec3::origin(), Vec3::origin());
        pose.p = symmetric([2.0, 1.0, 3.0], [0.5, 0.25, -0.5], 1.0);
        let before = pose.p;
        let spread = |m: Mat3, e: [f32; 3]| {
            let rows = [arr(m.r0), arr(m.r1), arr(m.r2)];
            (0..3).map(|i| (0..3).map(|j| e[i] * rows[i][j] * e[j]).sum::<f32>()).sum::<f32>()
        };
        pose.update_range(anchor, s(5.5), s(r));
        let sight = [0.6, 0.8, 0.0];
        let was = spread(before, sight);
        assert!((spread(pose.p, sight) - was * r / (was + r)).abs() < 1e-5);
        for e in [[1.0, 0.0, 0.0], [0.0, 1.0, 0.0], [0.0, 0.0, 1.0], [0.5, -0.5, 0.7]] {
            let (now, was) = (spread(pose.p, e), spread(before, e));
            assert!(now > 0.0 && now <= was + 1e-5, "{now} after {was}");
        }
        // What was half a metre off is off by its share.
        let moved = arr(pose.x);
        let left = 0.5 + (moved[0] * 0.6 + moved[1] * 0.8);
        assert!((left - 0.5 * r / (was + r)).abs() < 1e-4, "{left}");
    }
}

#[test]
fn a_sighting_narrows_a_track() {
    let ego = v(0.0, 5.0, 0.0);
    let mut track = Track::new(ego, v(3.0, 1.0, -2.0), s(0.0));
    track.predict(s(0.1));
    let before = track.cov;
    let d = track.pos - ego;
    let (x, y, z) = (f(d.x), f(d.y), f(d.z));
    let flat = (x * x + z * z).sqrt();
    let seen = v((flat * flat + y * y).sqrt(), z.atan2(x), y.atan2(flat));
    track.update(ego, seen, seen, &measurement_cov(true), s(0.1));
    for (after, before) in [
        (track.cov.pp.r0.x, before.pp.r0.x),
        (track.cov.pp.r1.y, before.pp.r1.y),
        (track.cov.pp.r2.z, before.pp.r2.z),
        (track.cov.vv.r0.x, before.vv.r0.x),
        (track.cov.vv.r1.y, before.vv.r1.y),
        (track.cov.vv.r2.z, before.vv.r2.z),
    ] {
        assert!(f(after) > 0.0 && f(after) <= f(before) + 1e-5);
    }
    assert!(f(track.cov.pp.r0.x) < 0.9 * f(before.pp.r0.x));
}

#[test]
fn a_vaguer_estimate_is_ignored_though_the_covariances_are_flat_and_uneven() {
    let uneven = |m: Mat3| {
        // A few units in the last place across the diagonal.
        let up = |x: Scalar, n: u32| Scalar::from_bits(x.to_bits() + n);
        Mat3 {
            r0: v(f(m.r0.x), f(up(m.r0.y, 3)), f(m.r0.z)),
            r1: m.r1,
            r2: v(f(up(m.r2.x, 2)), f(up(m.r2.y, 1)), f(m.r2.z)),
        }
    };
    let (d, o) = ([9.0, 3.0, 0.4], [0.5, 0.1, 0.05]);
    let (a, b) = (uneven(symmetric(d, o, 0.2)), uneven(symmetric(d, o, 0.5)));
    assert_ne!(f(a.r0.y), f(a.r1.x));
    let (x, y) = (v(1.5, -2.0, 30.0), v(-4.0, 9.0, 0.5));
    for (pos, cov) in [covariance_intersection(x, a, y, b), covariance_intersection(y, b, x, a)] {
        for (got, want) in arr(pos).iter().zip(arr(x)) {
            assert!((got - want).abs() < 1e-3, "{got} for {want}");
        }
        for (got, want) in [(cov.r0, a.r0), (cov.r1, a.r1), (cov.r2, a.r2)] {
            for i in 0..3 {
                assert!((arr(got)[i] - arr(want)[i]).abs() < 1e-4);
            }
        }
        assert!(f(cov.determinant()) <= f(a.determinant()) * 1.001);
    }
}
