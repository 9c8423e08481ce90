//! The parameters, written as the numbers they stand for.
use drone_swarm::{config, overlay, scene};

fn b(x: f32) -> u32 {
    x.to_bits()
}

#[test]
fn parameters_have_their_values() {
    assert_eq!(config::ROOM_HALF, b(14.0));
    assert_eq!(config::FLOOR_Y, b(1.0));
    assert_eq!(config::CEIL_Y, b(16.0));
    assert_eq!(config::WALL_MARGIN, b(2.5));
    assert_eq!(config::DRONE_RADIUS, b(0.28));
    assert_eq!(config::MAX_SPEED, b(7.0));
    assert_eq!(config::ROTOR_SPEED, b(40.0));
    assert_eq!(config::GRAVITY_ACCEL, b(9.81));
    assert_eq!(config::THRUST_MAX, b(26.0));
    assert_eq!(config::TILT_ACCEL_RATE, b(45.0));
    assert_eq!(config::VEL_KP, b(4.0));
    assert_eq!(config::MAX_LATERAL_ACCEL, b(14.0));
    assert_eq!(config::BATTERY_DRAIN, b(0.0016));
    assert_eq!(config::BATTERY_RECHARGE, b(0.012));
    assert_eq!(config::BATTERY_MIN, b(0.55));
    assert_eq!(config::BATTERY_FLAT_SHARE, b(0.6));
    assert_eq!(config::BATTERY_CHARGE_SHARE, b(0.4));
    assert_eq!(config::MIN_CONTROL_STEP, b(0.001));
    assert_eq!(config::W_ALIGNMENT, b(0.9));
    assert_eq!(config::W_COHESION, b(0.7));
    assert_eq!(config::W_GOAL, b(1.7));
    assert_eq!(config::W_BOUNDARY, b(10.0));
    assert_eq!(config::GOAL_ARRIVE_RADIUS, b(4.0));
    assert_eq!(config::GOAL_NEAR, b(0.01));
    assert_eq!(config::CRUISE_SPEED, b(5.5));
    assert_eq!(config::VO_TIME_HORIZON, b(2.5));
    assert_eq!(config::VO_SIGMA_INFLATE, b(2.0));
    assert_eq!(config::VO_BASE_MARGIN, b(0.9));
    assert_eq!(config::MIN_SEPARATION, b(0.001));
    assert_eq!(config::MIN_CLOSING, b(1e-6));
    assert_eq!(config::PACKET_LOSS, b(0.08));
    assert_eq!(config::ACTUATION_NOISE_STD, b(2.0));
    assert_eq!(config::RANGE_STD, b(0.12));
    assert_eq!(config::BEARING_STD, b(0.07));
    assert_eq!(config::KF_ACCEL_VAR, b(9.0));
    assert_eq!(config::KF_INIT_POS_VAR, b(4.0));
    assert_eq!(config::KF_INIT_VEL_VAR, b(49.0));
    assert_eq!(config::TRACK_TIMEOUT, b(2.0));
    assert_eq!(config::MIN_RANGE, b(0.0001));
    assert_eq!(config::MIN_LEVEL_RANGE, b(1e-6));
    assert_eq!(config::MIN_MEAS_VAR, b(1e-6));
    assert_eq!(config::MIN_STEP, b(0.0001));
    assert_eq!(config::PI, b(3.1415927410125732));
    assert_eq!(config::TAU, b(6.2831854820251465));
    assert_eq!(config::ANCHOR_RANGE, b(22.0));
    assert_eq!(config::ANCHOR_RANGE_STD, b(0.1));
    assert_eq!(config::ODOM_BIAS_MAX, b(0.1));
    assert_eq!(config::ODOM_NOISE_STD, b(0.15));
    assert_eq!(config::SELF_PROCESS_VAR, b(0.08));
    assert_eq!(config::SELF_INIT_VAR, b(0.1));
    assert_eq!(config::COOP_REL_STD, b(0.3));
    assert_eq!(config::MIN_ANCHOR_RANGE, b(0.001));
    assert_eq!(config::MIN_INNOVATION_VAR, b(1e-6));
    assert_eq!(config::MIN_FIX_VAR, b(0.0001));
    assert_eq!(config::LANDMARK_OBS_RANGE, b(8.0));
    assert_eq!(config::LANDMARK_USABLE_VAR, b(1.0));
    assert_eq!(config::LANDMARK_INIT_VAR, b(100.0));
    assert_eq!(config::GOAL_MEAS_STD, b(0.5));
    assert_eq!(config::GOAL_DECAY_VAR, b(0.6));
    assert_eq!(config::GOAL_RELAY_PENALTY, b(0.3));
    assert_eq!(config::GOAL_USABLE_VAR, b(9.0));
    assert_eq!(config::GOAL_INIT_VAR, b(400.0));
    assert_eq!(config::PERCEPTION_START, b(5.0));
    assert_eq!(config::PERCEPTION_LARGE, b(6.5));
    assert_eq!(config::PERCEPTION_LEAST, b(3.5));
    assert_eq!(config::PERCEPTION_STEP, b(1.5));
    assert_eq!(config::ONE_TENTH, b(0.1));
    assert_eq!(config::ONE_TWENTIETH, b(0.05));
    assert_eq!(config::TWO, b(2.0));
    assert_eq!(config::FOUR, b(4.0));
    assert_eq!(config::TEN, b(10.0));
    assert_eq!(config::HUNDRED, b(100.0));
    assert_eq!(config::MINUS_ONE, b(-1.0));
    assert_eq!(config::MINUS_TWO, b(-2.0));
    assert_eq!(config::GOAL_Y, b(8.0));
    assert_eq!(config::KF_INIT_VEL_VAR, b(7.0 * 7.0));
}

#[test]
fn informed_minority_is_rounded() {
    assert_eq!(config::N_DRONES, 48);
    assert_eq!(config::N_INFORMED, (48.0f32 * 0.18).round() as usize);
    assert_eq!(config::N_LANDMARKS, 9);
    assert_eq!(config::EGO_DRONE, 0);
}

#[test]
fn scene_has_its_sizes() {
    assert_eq!(scene::PILLAR_RADIUS, b(1.2));
    assert_eq!(scene::PILLAR_CLEARANCE, b(1.6));
    assert_eq!(scene::MOVER_HALF_WIDTH, b(1.4));
    assert_eq!(scene::MOVER_CLEARANCE, b(1.8));
    assert_eq!(scene::GOAL_INSET, b(3.0));
    assert_eq!(scene::GOAL_SWING, b(3.5));
    assert_eq!(scene::GOAL_RATE_X, b(0.27));
    assert_eq!(scene::GOAL_RATE_Y, b(0.19));
    assert_eq!(scene::GOAL_RATE_Z, b(0.33));
    assert_eq!(scene::MOVER_REACH, b(9.0));
    assert_eq!(scene::MOVER_SWING, b(3.0));
    assert_eq!(scene::MOVER_RATE_X, b(0.5));
    assert_eq!(scene::MOVER_RATE_Y, b(0.7));
    assert_eq!(scene::MOVER_RATE_Z, b(0.4));
    assert_eq!(scene::CAM_PITCH, b(0.38));
    assert_eq!(scene::CAM_RADIUS, b(20.0));
    assert_eq!(scene::CAM_DRAG, b(0.006));
    assert_eq!(scene::CAM_SWEEP, b(0.1));
    assert_eq!(scene::CAM_PITCH_MAX, b(1.45));
    assert_eq!(scene::CAM_ZOOM, b(1.5));
    assert_eq!(scene::CAM_NEAR, b(6.0));
    assert_eq!(scene::CAM_FAR, b(45.0));
    assert_eq!(scene::CAM_TARGET_Y, b(8.5));
    assert_eq!(overlay::SPOT_LEAST, b(0.1));
    assert_eq!(overlay::SPOT_MOST, b(3.0));
    assert_eq!(overlay::TRUE_SIZE, b(0.6));
    assert_eq!(overlay::BELIEVED_SIZE, b(0.4));
    assert_eq!(overlay::AXIS_LEAST, b(0.05));
    assert_eq!(overlay::AXIS_MOST, b(5.0));
}
