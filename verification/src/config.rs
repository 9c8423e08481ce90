//! Parameters of the swarm, as single-precision bit patterns.
use vstd::prelude::*;

verus! {

/// How many drones fly.
pub const N_DRONES: usize = 48;

/// How many of them observe the goal: 18 of a hundred.
pub const N_INFORMED: usize = 9;

/// How many landmarks there are to map.
pub const N_LANDMARKS: usize = 9;

/// The drone whose estimates are drawn in detail.
pub const EGO_DRONE: usize = 0;

// Arena and bodies

/// Half the side of the room, in x and z (14 m).
pub const ROOM_HALF: u32 = 0x4160_0000;

/// Height of the floor (1 m).
pub const FLOOR_Y: u32 = 0x3f80_0000;

/// Height of the ceiling (16 m).
pub const CEIL_Y: u32 = 0x4180_0000;

/// Distance from a wall, the floor or the ceiling at which the inward push begins (2.5 m).
pub const WALL_MARGIN: u32 = 0x4020_0000;

/// Radius of a drone's body (0.28 m).
pub const DRONE_RADIUS: u32 = 0x3e8f_5c29;

/// Speed limit (7 m/s).
pub const MAX_SPEED: u32 = 0x40e0_0000;

/// How fast the rotor blades are drawn to spin (40 rad/s).
pub const ROTOR_SPEED: u32 = 0x4220_0000;

// Quadrotor

/// Gravity (9.81 m/s^2).
pub const GRAVITY_ACCEL: u32 = 0x411c_f5c3;

/// Thrust at full battery (26 m/s^2).
pub const THRUST_MAX: u32 = 0x41d0_0000;

/// How fast horizontal thrust can change (45 m/s^3).
pub const TILT_ACCEL_RATE: u32 = 0x4234_0000;

/// Gain of the velocity controller (4 per second).
pub const VEL_KP: u32 = 0x4080_0000;

/// Cap on the commanded acceleration (14 m/s^2).
pub const MAX_LATERAL_ACCEL: u32 = 0x4160_0000;

/// Charge spent per m/s^2 of thrust and second (0.0016).
pub const BATTERY_DRAIN: u32 = 0x3ad1_b717;

/// Charge gained per second (0.012).
pub const BATTERY_RECHARGE: u32 = 0x3c44_9ba6;

/// The charge never falls below this (0.55).
pub const BATTERY_MIN: u32 = 0x3f0c_cccd;

/// Share of the thrust that does not depend on the battery (0.6).
pub const BATTERY_FLAT_SHARE: u32 = 0x3f19_999a;

/// Share of the thrust that the battery's charge scales (0.4).
pub const BATTERY_CHARGE_SHARE: u32 = 0x3ecc_cccd;

/// Shortest time step of the controller (1e-3 s).
pub const MIN_CONTROL_STEP: u32 = 0x3a83_126f;

// Preferred velocity

/// Weight of the flock's mean velocity (0.9).
pub const W_ALIGNMENT: u32 = 0x3f66_6666;

/// Weight of the way to the flock's centre (0.7).
pub const W_COHESION: u32 = 0x3f33_3333;

/// Weight of the way to the goal (1.7).
pub const W_GOAL: u32 = 0x3fd9_999a;

/// Weight of the push away from the walls (10).
pub const W_BOUNDARY: u32 = 0x4120_0000;

/// Distance from the goal at which a drone slows down (4 m).
pub const GOAL_ARRIVE_RADIUS: u32 = 0x4080_0000;

/// Distance at which the goal counts as reached (0.01 m).
pub const GOAL_NEAR: u32 = 0x3c23_d70a;

/// Speed towards the goal (5.5 m/s).
pub const CRUISE_SPEED: u32 = 0x40b0_0000;

// Collision avoidance

/// How far ahead collisions are anticipated (2.5 s).
pub const VO_TIME_HORIZON: u32 = 0x4020_0000;

/// Safety radius added per standard deviation of a position (2).
pub const VO_SIGMA_INFLATE: u32 = 0x4000_0000;

/// Clearance beyond the two bodies (0.9 m).
pub const VO_BASE_MARGIN: u32 = 0x3f66_6666;

/// Bodies closer than this have no direction to avoid (1e-3 m).
pub const MIN_SEPARATION: u32 = 0x3a83_126f;

/// Squared relative speed below which nothing moves (1e-6).
pub const MIN_CLOSING: u32 = 0x3586_37bd;

// Uncertainty

/// Probability that a neighbour's packet is lost (0.08).
pub const PACKET_LOSS: u32 = 0x3da3_d70a;

/// Noise on the thrust (2 m/s^2).
pub const ACTUATION_NOISE_STD: u32 = 0x4000_0000;

/// Noise on a range to a neighbour (0.12 m).
pub const RANGE_STD: u32 = 0x3df5_c28f;

/// Noise on azimuth and elevation (0.07 rad).
pub const BEARING_STD: u32 = 0x3d8f_5c29;

// Neighbour estimation

/// Variance of a neighbour's acceleration (9).
pub const KF_ACCEL_VAR: u32 = 0x4110_0000;

/// Variance of a new track's position (4).
pub const KF_INIT_POS_VAR: u32 = 0x4080_0000;

/// Variance of a new track's velocity (49).
pub const KF_INIT_VEL_VAR: u32 = 0x4244_0000;

/// Time without a measurement after which a track is dropped (2 s).
pub const TRACK_TIMEOUT: u32 = 0x4000_0000;

/// Shortest range that a measurement reports (1e-4 m).
pub const MIN_RANGE: u32 = 0x38d1_b717;

/// Shortest squared horizontal range of the measurement model (1e-6).
pub const MIN_LEVEL_RANGE: u32 = 0x3586_37bd;

/// Least variance of a range or bearing (1e-6).
pub const MIN_MEAS_VAR: u32 = 0x3586_37bd;

/// Shortest time step of the estimators (1e-4 s).
pub const MIN_STEP: u32 = 0x38d1_b717;

/// Half a turn.
pub const PI: u32 = 0x4049_0fdb;

/// A turn.
pub const TAU: u32 = 0x40c9_0fdb;

// Self-localisation

/// Longest range to an anchor (22 m).
pub const ANCHOR_RANGE: u32 = 0x41b0_0000;

/// Noise on a range to an anchor (0.1 m).
pub const ANCHOR_RANGE_STD: u32 = 0x3dcc_cccd;

/// Largest odometry bias on an axis (0.1 m/s).
pub const ODOM_BIAS_MAX: u32 = 0x3dcc_cccd;

/// Noise on odometry (0.15 m/s).
pub const ODOM_NOISE_STD: u32 = 0x3e19_999a;

/// Growth of the variance per second (0.08).
pub const SELF_PROCESS_VAR: u32 = 0x3da3_d70a;

/// Variance of the launch position (0.1).
pub const SELF_INIT_VAR: u32 = 0x3dcc_cccd;

/// Noise of a fix relative to a neighbour (0.3 m).
pub const COOP_REL_STD: u32 = 0x3e99_999a;

/// Shortest range of the range model (1e-3 m).
pub const MIN_ANCHOR_RANGE: u32 = 0x3a83_126f;

/// Innovation variance below which an update is skipped (1e-6).
pub const MIN_INNOVATION_VAR: u32 = 0x3586_37bd;

/// Least variance of a fix (1e-4).
pub const MIN_FIX_VAR: u32 = 0x38d1_b717;

// Mapping

/// Longest range at which a landmark is seen (8 m).
pub const LANDMARK_OBS_RANGE: u32 = 0x4100_0000;

/// Largest variance of a landmark to localise against (1).
pub const LANDMARK_USABLE_VAR: u32 = 0x3f80_0000;

/// Variance of a landmark not seen yet (100).
pub const LANDMARK_INIT_VAR: u32 = 0x42c8_0000;

// Goal consensus

/// Noise of a direct observation of the goal (0.5 m).
pub const GOAL_MEAS_STD: u32 = 0x3f00_0000;

/// Growth of a belief's variance per second (0.6).
pub const GOAL_DECAY_VAR: u32 = 0x3f19_999a;

/// Variance added by a relay (0.3).
pub const GOAL_RELAY_PENALTY: u32 = 0x3e99_999a;

/// A belief below this variance is good enough to navigate by (9).
pub const GOAL_USABLE_VAR: u32 = 0x4110_0000;

/// Variance of a belief about a goal never heard of (400).
pub const GOAL_INIT_VAR: u32 = 0x43c8_0000;

/// Height at which the goal starts and around which it moves (8 m).
pub const GOAL_Y: u32 = 0x4100_0000;

// Perception radius

/// The radius at start (5 m).
pub const PERCEPTION_START: u32 = 0x40a0_0000;

/// Above this the radius starts over (6.5 m).
pub const PERCEPTION_LARGE: u32 = 0x40d0_0000;

/// The smallest radius (3.5 m).
pub const PERCEPTION_LEAST: u32 = 0x4060_0000;

/// Step to the next radius (1.5 m).
pub const PERCEPTION_STEP: u32 = 0x3fc0_0000;

// Numbers

/// 0.1
pub const ONE_TENTH: u32 = 0x3dcc_cccd;

/// 0.05
pub const ONE_TWENTIETH: u32 = 0x3d4c_cccd;

/// 2
pub const TWO: u32 = 0x4000_0000;

/// 4
pub const FOUR: u32 = 0x4080_0000;

/// 10
pub const TEN: u32 = 0x4120_0000;

/// 100
pub const HUNDRED: u32 = 0x42c8_0000;

/// -1
pub const MINUS_ONE: u32 = 0xbf80_0000;

/// -2
pub const MINUS_TWO: u32 = 0xc000_0000;

} // verus!
