//! Localisation, fusion, tracking, consensus and avoidance at work.
use drone_swarm::avoid::{select_safe_velocity, time_to_collision, VoConstraint};
use drone_swarm::config::{
    ANCHOR_RANGE, ANCHOR_RANGE_STD, BEARING_STD, COOP_REL_STD, GOAL_DECAY_VAR, GOAL_INIT_VAR,
    GOAL_MEAS_STD, GOAL_RELAY_PENALTY, GOAL_USABLE_VAR, LANDMARK_USABLE_VAR, MAX_SPEED, RANGE_STD,
    VO_TIME_HORIZON,
};
use drone_swarm::fusion::covariance_intersection;
use drone_swarm::goal::{fuse_belief, GoalBelief};
use drone_swarm::matrix::Mat3;
use drone_swarm::scalar::Scalar;
use drone_swarm::selfloc::SelfLoc;
use drone_swarm::track::{range_and_rise, relative_from_bearing, Bearing, Track};
use drone_swarm::vector::Vec3;

fn s(x: f32) -> Scalar {
    Scalar::from_bits(x.to_bits())
}

fn f(x: Scalar) -> f32 {
    f32::from_bits(x.to_bits())
}

fn k(bits: u32) -> f32 {
    f32::from_bits(bits)
}

fn v(x: f32, y: f32, z: f32) -> Vec3 {
    Vec3::new(s(x), s(y), s(z))
}

fn splat(x: f32) -> Vec3 {
    v(x, x, x)
}

fn diagonal(x: f32, y: f32, z: f32) -> Mat3 {
    Mat3::diagonal(s(x), s(y), s(z))
}

fn rows(m: Mat3) -> [[f32; 3]; 3] {
    [
        [f(m.r0.x), f(m.r0.y), f(m.r0.z)],
        [f(m.r1.x), f(m.r1.y), f(m.r1.z)],
        [f(m.r2.x), f(m.r2.y), f(m.r2.z)],
    ]
}

fn largest_eigenvalue(m: Mat3) -> f32 {
    let r = rows(m);
    nalgebra::SMatrix::<f32, 3, 3>::from_fn(|i, j| r[i][j])
        .symmetric_eigenvalues()
        .max()
}

fn meas_from_relative(d: Vec3) -> Vec3 {
    let (r, rise) = range_and_rise(d);
    Vec3::new(r, s(f(d.x).atan2(f(d.z))), s(f(rise).asin()))
}

fn bearing(a: Scalar) -> Bearing {
    Bearing { sin: s(f(a).sin()), cos: s(f(a).cos()) }
}

fn relative_from_meas(z: Vec3) -> Vec3 {
    relative_from_bearing(z.x, bearing(z.y), bearing(z.z))
}

fn anchor_ring() -> Vec<Vec3> {
    vec![
        v(-12.0, 14.5, -12.0),
        v(12.0, 14.5, -12.0),
        v(12.0, 14.5, 12.0),
        v(-12.0, 14.5, 12.0),
        v(0.0, 2.5, 0.0),
    ]
}

#[test]
fn self_loc_drifts_without_anchors() {
    // Dead reckoning with a biased odometer must accumulate error.
    let mut sl = SelfLoc::new(v(0.0, 8.0, 0.0), splat(0.1));
    let dt = s(1.0 / 64.0);
    for _ in 0..640 {
        sl.predict(splat(0.1), dt);
    }
    let truth = v(0.0, 8.0, 0.0);
    let off = f(sl.x.distance(truth));
    assert!(off > 0.8, "expected drift, got {}", off);
}

#[test]
fn self_loc_bounded_with_anchors() {
    // The same biased odometer, corrected by anchor ranges, stays tight.
    let anchors = anchor_ring();
    let truth = v(0.0, 8.0, 0.0);
    let mut sl = SelfLoc::new(truth, splat(0.1));
    let dt = s(1.0 / 64.0);
    let r_var = Scalar::from_bits(ANCHOR_RANGE_STD) * Scalar::from_bits(ANCHOR_RANGE_STD);
    for _ in 0..640 {
        sl.predict(splat(0.1), dt);
        for a in &anchors {
            let r = truth.distance(*a);
            if r.le(Scalar::from_bits(ANCHOR_RANGE)) {
                sl.update_range(*a, r, r_var);
            }
        }
    }
    let off = f(sl.x.distance(truth));
    assert!(off < 0.3, "self-loc diverged: {}", off);
}

fn drift_of_blind_drone(coop: bool) -> f32 {
    let dt = s(1.0 / 64.0);
    let anchors = [v(0.0, 5.0, 0.0), v(3.0, 4.0, 1.0), v(-2.0, 7.0, -1.0)];
    let a_truth = v(1.0, 6.0, 0.0);
    let b_truth = v(3.0, 6.0, 0.0);
    let mut a = SelfLoc::new(a_truth, splat(0.05));
    let mut b = SelfLoc::new(b_truth, splat(0.15));
    let std = Scalar::from_bits(ANCHOR_RANGE_STD);
    let rel = Scalar::from_bits(COOP_REL_STD);
    for _ in 0..1280 {
        // One drone dead-reckons and is corrected by its anchors.
        a.predict(splat(0.05), dt);
        for anchor in anchors {
            a.update_range(anchor, a_truth.distance(anchor), std * std);
        }
        // The other has no anchor in range.
        b.predict(splat(0.15), dt);
        if coop {
            let d = a_truth - b_truth;
            let z_self = a.x - d;
            let meas_cov = Mat3::identity().scale(rel * rel);
            let (x, p) = covariance_intersection(b.x, b.p, z_self, a.p.plus(meas_cov));
            b.x = x;
            b.p = p;
        }
    }
    f(b.x.distance(b_truth))
}

#[test]
fn cooperative_localization_rescues_anchor_blind_drone() {
    let without = drift_of_blind_drone(false);
    let with = drift_of_blind_drone(true);
    assert!(without > 2.0, "B should drift badly without coop, got {without}");
    assert!(with < 0.8, "coop should keep B bounded, got {with}");
    assert!(with < without * 0.3, "coop must help a lot: {with} vs {without}");
}

#[test]
fn covariance_intersection_is_consistent_and_complementary() {
    // Two estimates of the origin: one is tight in x, the other in y.
    let xa = v(0.05, 1.0, 0.0);
    let pa = diagonal(0.01, 4.0, 4.0);
    let xb = v(1.0, 0.05, 0.0);
    let pb = diagonal(4.0, 0.01, 4.0);

    let (x, p) = covariance_intersection(xa, pa, xb, pb);
    let p = rows(p);

    assert!(
        f(x.x).abs() < 0.6 && f(x.y).abs() < 0.6,
        "fused estimate {:?}",
        (f(x.x), f(x.y))
    );
    assert!(p[0][0] < 0.5, "X variance not tightened: {}", p[0][0]);
    assert!(p[1][1] < 0.5, "Y variance not tightened: {}", p[1][1]);

    // Fusing an estimate with itself must not shrink the covariance.
    let (_, p_self) = covariance_intersection(xa, pa, xa, pa);
    assert!(
        f(p_self.determinant()) >= f(pa.determinant()) - 1e-6,
        "CI got overconfident fusing with itself: {} < {}",
        f(p_self.determinant()),
        f(pa.determinant())
    );
}

#[test]
fn neighbor_ekf_converges() {
    // Repeated clean measurements of a static neighbour pull the estimate onto
    // the true position.
    let ego = Vec3::origin();
    let target = v(3.0, 1.0, 2.0);
    let (range, angle) = (Scalar::from_bits(RANGE_STD), Scalar::from_bits(BEARING_STD));
    let r = Mat3::diagonal(range * range, angle * angle, angle * angle);
    let z = meas_from_relative(target - ego);
    let mut t = Track::new(ego, relative_from_meas(z), Scalar::zero());
    for _ in 0..500 {
        t.predict(s(1.0 / 64.0));
        let predicted = meas_from_relative(t.pos - ego);
        t.update(ego, z, predicted, &r, Scalar::zero());
    }
    let off = f(t.pos.distance(target));
    assert!(off < 0.2, "track off by {}", off);
}

#[test]
fn goal_consensus_propagates_along_a_chain() {
    // A line of 6 drones; only the first observes the goal. Gossip carries the
    // belief down the chain.
    let n = 6;
    let goal = v(10.0, 8.0, -4.0);
    let start = GoalBelief { pos: Vec3::origin(), var: Scalar::from_bits(GOAL_INIT_VAR) };
    let mut belief = vec![start; n];
    let dt = s(1.0 / 64.0);
    let std = Scalar::from_bits(GOAL_MEAS_STD);

    for _ in 0..600 {
        let prev = belief.clone();
        for i in 0..n {
            belief[i].var = belief[i].var + Scalar::from_bits(GOAL_DECAY_VAR) * dt;
            if i == 0 {
                belief[i] = fuse_belief(belief[i], GoalBelief { pos: goal, var: std * std });
            }
            let mut best = GoalBelief { pos: Vec3::origin(), var: Scalar::infinity() };
            for &j in [i.wrapping_sub(1), i + 1].iter() {
                if j < n {
                    let cand = GoalBelief {
                        pos: prev[j].pos,
                        var: prev[j].var + Scalar::from_bits(GOAL_RELAY_PENALTY),
                    };
                    if cand.var.lt(best.var) {
                        best = cand;
                    }
                }
            }
            if best.var.lt(belief[i].var) {
                belief[i] = fuse_belief(belief[i], best);
            }
        }
    }

    for i in 0..n {
        assert!(
            f(belief[i].var) < k(GOAL_USABLE_VAR),
            "drone {i} never learned the goal"
        );
        assert!(
            f(belief[i].pos.distance(goal)) < 1.5,
            "drone {i} goal estimate off by {}",
            f(belief[i].pos.distance(goal))
        );
    }
    assert!(
        f(belief[n - 1].var) > f(belief[0].var),
        "far drone should be less certain"
    );
}

#[test]
fn orca_caps_closing_speed() {
    // Obstacle 5 m straight ahead, radius 1, static; the drone wants to fly into
    // it at full speed.
    let c = VoConstraint {
        rel: v(5.0, 0.0, 0.0),
        vel: Vec3::origin(),
        radius: s(1.0),
        planar: false,
    };
    let v_pref = v(k(MAX_SPEED), 0.0, 0.0);
    let flown = select_safe_velocity(v_pref, v_pref, &vec![c]);
    let s_max = (5.0 - 1.0) / k(VO_TIME_HORIZON);
    let closing = f(flown.dot(v(1.0, 0.0, 0.0)));
    assert!(
        closing <= s_max + 0.05,
        "closing speed {} exceeds safe {s_max}",
        closing
    );
}

#[test]
fn slam_map_estimate_is_accurate_and_usable() {
    // Two drones observe a landmark from different viewpoints; the fused
    // estimate is accurate and confident enough to use.
    let ltrue = v(5.0, 6.0, -3.0);
    let self_p = Mat3::identity().scale(s(0.05));
    let observe = |ego: Vec3| {
        let d = ltrue - ego;
        let world = ego + relative_from_meas(meas_from_relative(d));
        let spread = Scalar::from_bits(RANGE_STD).max(d.length() * Scalar::from_bits(BEARING_STD));
        (world, self_p.plus(Mat3::identity().scale(spread * spread)))
    };
    let (w1, c1) = observe(v(1.0, 5.0, 0.0));
    let (w2, c2) = observe(v(8.0, 7.0, -1.0));
    let (pos, cov) = covariance_intersection(w1, c1, w2, c2);
    let off = f(pos.distance(ltrue));
    assert!(off < 0.3, "map estimate off by {}", off);
    assert!(
        largest_eigenvalue(cov) <= k(LANDMARK_USABLE_VAR),
        "map landmark not usable: {}",
        largest_eigenvalue(cov)
    );
}

#[test]
fn meas_roundtrip() {
    // A measurement of an offset gives the offset back.
    let d = v(2.0, -1.5, 3.0);
    let back = relative_from_meas(meas_from_relative(d));
    let off = f(d.distance(back));
    assert!(off < 1e-3, "roundtrip off by {}", off);
}

#[test]
fn ttc_head_on_and_diverging() {
    // Approaching head-on: gap 5, radius 1, closing at 1 m/s: hit after 4 s.
    let ttc = f(time_to_collision(v(5.0, 0.0, 0.0), v(1.0, 0.0, 0.0), s(1.0), s(10.0)));
    assert!((ttc - 4.0).abs() < 1e-3, "ttc was {ttc}");
    // Receding: never collides.
    let away = f(time_to_collision(v(5.0, 0.0, 0.0), v(-1.0, 0.0, 0.0), s(1.0), s(10.0)));
    assert!(away.is_infinite());
    // Already overlapping: immediate.
    let now = f(time_to_collision(v(0.5, 0.0, 0.0), Vec3::origin(), s(1.0), s(10.0)));
    assert_eq!(now, 0.0);
}
