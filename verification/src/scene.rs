//! The scene: where things stand, how they move, and how they are shown.
use crate::config::{CEIL_Y, FLOOR_Y, GOAL_Y, MAX_SPEED, ROOM_HALF, ROTOR_SPEED};
use crate::number::{at_most, clamped, decode, less, one, product, sum, zero, Number};
use crate::order::{
    halves, lemma_at_most_transitive, lemma_clamped, lemma_halves, lemma_negated,
    lemma_product_monotone, lemma_product_within, lemma_sum_commutes, lemma_sum_monotone,
};
use crate::quad::{Obstacles, Pillar};
use crate::scalar::Scalar;
use crate::sim::SimState;
use crate::track::Bearing;
use crate::vector::{literal, Vec3, V3};
use vstd::arithmetic::power2::{lemma2_to64, lemma_pow2_adds, lemma_pow2_pos, lemma_pow2_unfold, pow2};
use vstd::prelude::*;

verus! {

/// Radius of a pillar (1.2 m).
pub const PILLAR_RADIUS: u32 = 0x3f99_999a;

/// Clearance kept from a pillar (1.6 m).
pub const PILLAR_CLEARANCE: u32 = 0x3fcc_cccd;

/// Half the width of the moving obstacle (1.4 m).
pub const MOVER_HALF_WIDTH: u32 = 0x3fb3_3333;

/// Clearance kept from the moving obstacle (1.8 m).
pub const MOVER_CLEARANCE: u32 = 0x3fe6_6666;

/// How far from the walls the goal turns back (3 m).
pub const GOAL_INSET: u32 = 0x4040_0000;

/// How far the goal moves up and down (3.5 m).
pub const GOAL_SWING: u32 = 0x4060_0000;

/// How fast the goal goes round in x (0.27 rad/s).
pub const GOAL_RATE_X: u32 = 0x3e8a_3d71;

/// How fast the goal goes up and down (0.19 rad/s).
pub const GOAL_RATE_Y: u32 = 0x3e42_8f5c;

/// How fast the goal goes round in z (0.33 rad/s).
pub const GOAL_RATE_Z: u32 = 0x3ea8_f5c3;

/// How far the moving obstacle goes in x and z (9 m).
pub const MOVER_REACH: u32 = 0x4110_0000;

/// How far the moving obstacle goes up and down (3 m).
pub const MOVER_SWING: u32 = 0x4040_0000;

/// How fast the moving obstacle goes round in x (0.5 rad/s).
pub const MOVER_RATE_X: u32 = 0x3f00_0000;

/// How fast the moving obstacle goes up and down (0.7 rad/s).
pub const MOVER_RATE_Y: u32 = 0x3f33_3333;

/// How fast the moving obstacle goes round in z (0.4 rad/s).
pub const MOVER_RATE_Z: u32 = 0x3ecc_cccd;

/// The pillars' places, in x and z.
pub open spec fn pillar_places() -> Seq<V3> {
    seq![
        literal(0xc0e0_0000, 0, 0xc0c0_0000),
        literal(0x40d0_0000, 0, 0x4080_0000),
        literal(0xc0a0_0000, 0, 0x40f0_0000),
        literal(0x4100_0000, 0, 0xc100_0000),
    ]
}

/// The places of the anchors: at varied heights and towards one side, so that
/// the far side has to rely on others.
pub open spec fn anchor_places() -> Seq<V3> {
    seq![
        literal(0x4130_0000, 0x4040_0000, 0xc120_0000),
        literal(0x4140_0000, 0x4150_0000, 0x4110_0000),
        literal(0x4000_0000, 0x4100_0000, 0x4140_0000),
    ]
}

impl Obstacles {
    /// The obstacles at the start.
    pub fn new() -> (r: Obstacles)
        ensures
            r.pillars@.len() == 4,
            forall|i: int|
                0 <= i < 4 ==> {
                    let p = #[trigger] r.pillars@[i];
                    &&& p.pos@ == pillar_places()[i]
                    &&& p.radius@ == decode(PILLAR_RADIUS) + decode(PILLAR_CLEARANCE)
                },
            r.moving@ == crate::goal::goal_start(),
            r.moving_radius@ == decode(MOVER_HALF_WIDTH) + decode(MOVER_CLEARANCE),
            r.moving_vel@ == V3::origin(),
    {
        let radius = Scalar::from_bits(PILLAR_RADIUS) + Scalar::from_bits(PILLAR_CLEARANCE);
        let mut pillars: Vec<Pillar> = Vec::new();
        pillars.push(Pillar { pos: Vec3::from_bits(0xc0e0_0000, 0, 0xc0c0_0000), radius });
        pillars.push(Pillar { pos: Vec3::from_bits(0x40d0_0000, 0, 0x4080_0000), radius });
        pillars.push(Pillar { pos: Vec3::from_bits(0xc0a0_0000, 0, 0x40f0_0000), radius });
        pillars.push(Pillar { pos: Vec3::from_bits(0x4100_0000, 0, 0xc100_0000), radius });
        Obstacles {
            pillars,
            moving: Vec3::new(Scalar::zero(), Scalar::from_bits(GOAL_Y), Scalar::zero()),
            moving_radius: Scalar::from_bits(MOVER_HALF_WIDTH) + Scalar::from_bits(MOVER_CLEARANCE),
            moving_vel: Vec3::origin(),
        }
    }
}

/// The anchors: beacons at known places.
pub fn anchors() -> (r: Vec<Vec3>)
    ensures
        crate::selfloc::places(r@) == anchor_places(),
{
    let mut r: Vec<Vec3> = Vec::new();
    r.push(Vec3::from_bits(0x4130_0000, 0x4040_0000, 0xc120_0000));
    r.push(Vec3::from_bits(0x4140_0000, 0x4150_0000, 0x4110_0000));
    r.push(Vec3::from_bits(0x4000_0000, 0x4100_0000, 0x4140_0000));
    assert(crate::selfloc::places(r@) =~= anchor_places());
    r
}

/// The angles whose sines and cosines place something that goes round, at the
/// time `t` and these rates.
pub fn angles(t: Scalar, x: u32, y: u32, z: u32) -> (r: (Scalar, Scalar, Scalar))
    ensures
        r.0@ == t@ * decode(x),
        r.1@ == t@ * decode(y),
        r.2@ == t@ * decode(z),
{
    (t * Scalar::from_bits(x), t * Scalar::from_bits(y), t * Scalar::from_bits(z))
}

/// Where the goal is, from the sine of its first angle, the sine of its second
/// and the cosine of its third.
pub open spec fn goal_place(x: Number, y: Number, z: Number) -> V3 {
    let reach = decode(ROOM_HALF) - decode(GOAL_INSET);
    V3 { x: x * reach, y: decode(GOAL_Y) + y * decode(GOAL_SWING), z: z * reach }
}

/// Moves the goal on its tour of the arena.
pub fn move_goal(goal: &mut Vec3, sim: &SimState, x: Scalar, y: Scalar, z: Scalar)
    ensures
        final(goal)@ == (if sim.paused {
            old(goal)@
        } else {
            goal_place(x@, y@, z@)
        }),
{
    if !sim.paused {
        let reach = Scalar::from_bits(ROOM_HALF) - Scalar::from_bits(GOAL_INSET);
        *goal =
        Vec3::new(
            x * reach,
            Scalar::from_bits(GOAL_Y) + y * Scalar::from_bits(GOAL_SWING),
            z * reach,
        );
    }
}

/// Where the moving obstacle is.
pub open spec fn mover_place(x: Bearing, y: Bearing, z: Bearing) -> V3 {
    let reach = decode(MOVER_REACH);
    V3 {
        x: x.sin@ * reach,
        y: decode(GOAL_Y) + y.cos@ * decode(MOVER_SWING),
        z: z.cos@ * reach,
    }
}

/// How fast it moves: the derivative of its place.
pub open spec fn mover_velocity(x: Bearing, y: Bearing, z: Bearing) -> V3 {
    let reach = decode(MOVER_REACH);
    V3 {
        x: decode(MOVER_RATE_X) * reach * x.cos@,
        y: -decode(MOVER_RATE_Y) * decode(MOVER_SWING) * y.sin@,
        z: -decode(MOVER_RATE_Z) * reach * z.sin@,
    }
}

/// Moves the moving obstacle.
pub fn move_obstacle(o: &mut Obstacles, sim: &SimState, x: Bearing, y: Bearing, z: Bearing)
    ensures
        sim.paused ==> *final(o) == *old(o),
        !sim.paused ==> {
            &&& final(o).moving@ == mover_place(x, y, z)
            &&& final(o).moving_vel@ == mover_velocity(x, y, z)
            &&& final(o).pillars == old(o).pillars
            &&& final(o).moving_radius == old(o).moving_radius
        },
{
    if !sim.paused {
        let reach = Scalar::from_bits(MOVER_REACH);
        let swing = Scalar::from_bits(MOVER_SWING);
        o.moving =
        Vec3::new(x.sin * reach, Scalar::from_bits(GOAL_Y) + y.cos * swing, z.cos * reach);
        o.moving_vel =
        Vec3::new(
            Scalar::from_bits(MOVER_RATE_X) * reach * x.cos,
            Scalar::from_bits(MOVER_RATE_Y).negate() * swing * y.sin,
            Scalar::from_bits(MOVER_RATE_Z).negate() * reach * z.sin,
        );
    }
}

/// A colour, by the strength of its three lights.
#[verifier::ext_equal]
pub struct Hue {
    pub red: Number,
    pub green: Number,
    pub blue: Number,
}

#[derive(Clone, Copy, Debug)]
pub struct Tint {
    pub red: Scalar,
    pub green: Scalar,
    pub blue: Scalar,
}

impl View for Tint {
    type V = Hue;

    open spec fn view(&self) -> Hue {
        Hue { red: self.red@, green: self.green@, blue: self.blue@ }
    }
}

/// 0.05
pub const SHADE_005: u32 = 0x3d4c_cccd;

/// 0.1
pub const SHADE_01: u32 = 0x3dcc_cccd;

/// 0.3
pub const SHADE_03: u32 = 0x3e99_999a;

/// 0.4
pub const SHADE_04: u32 = 0x3ecc_cccd;

/// 0.5
pub const SHADE_05: u32 = 0x3f00_0000;

/// 0.55
pub const SHADE_055: u32 = 0x3f0c_cccd;

/// 0.9
pub const SHADE_09: u32 = 0x3f66_6666;

/// 1.2
pub const SHADE_12: u32 = 0x3f99_999a;

/// 1.4
pub const SHADE_14: u32 = 0x3fb3_3333;

/// 1.6
pub const SHADE_16: u32 = 0x3fcc_cccd;

/// How fast a drone is, between zero and one.
pub open spec fn pace(vel: V3) -> Number {
    clamped(vel.length() / decode(MAX_SPEED), zero(), one())
}

/// How fast a drone is, between zero and one.
pub fn speed_share(vel: Vec3) -> (r: Scalar)
    ensures
        r@ == pace(vel@),
{
    (vel.length() / Scalar::from_bits(MAX_SPEED)).clamp(Scalar::zero(), Scalar::one())
}

/// The colour of a drone: orange where it is informed, green where it has
/// learned of the goal, blue where it has not; brighter with speed.
pub open spec fn color_of(informed: bool, knows: bool, t: Number) -> Hue {
    if informed {
        Hue { red: one(), green: decode(SHADE_055) + decode(SHADE_03) * t, blue: decode(SHADE_01) }
    } else if knows {
        Hue { red: decode(SHADE_01), green: decode(SHADE_09), blue: decode(SHADE_03) + decode(SHADE_03) * t }
    } else {
        Hue { red: decode(SHADE_01) + decode(SHADE_04) * t, green: decode(SHADE_05), blue: one() }
    }
}

/// The colour of a drone.
pub fn drone_color(informed: bool, knows_goal: bool, speed_t: Scalar) -> (r: Tint)
    ensures
        r@ == color_of(informed, knows_goal, speed_t@),
{
    if informed {
        Tint {
            red: Scalar::one(),
            green: Scalar::from_bits(SHADE_055) + Scalar::from_bits(SHADE_03) * speed_t,
            blue: Scalar::from_bits(SHADE_01),
        }
    } else if knows_goal {
        Tint {
            red: Scalar::from_bits(SHADE_01),
            green: Scalar::from_bits(SHADE_09),
            blue: Scalar::from_bits(SHADE_03) + Scalar::from_bits(SHADE_03) * speed_t,
        }
    } else {
        Tint {
            red: Scalar::from_bits(SHADE_01) + Scalar::from_bits(SHADE_04) * speed_t,
            green: Scalar::from_bits(SHADE_05),
            blue: Scalar::one(),
        }
    }
}

/// The light that a drone gives off.
pub open spec fn glow_of(informed: bool, knows: bool, t: Number) -> Hue {
    let g = decode(SHADE_04) + decode(SHADE_16) * t;
    if informed {
        Hue { red: decode(SHADE_14) + t, green: decode(SHADE_05) * g, blue: decode(SHADE_005) }
    } else if knows {
        Hue { red: decode(SHADE_005), green: one() + t, blue: decode(SHADE_03) * g }
    } else {
        Hue { red: decode(SHADE_005), green: decode(SHADE_04) * g, blue: decode(SHADE_12) + t }
    }
}

/// The light that a drone gives off.
pub fn drone_emissive(informed: bool, knows_goal: bool, speed_t: Scalar) -> (r: Tint)
    ensures
        r@ == glow_of(informed, knows_goal, speed_t@),
{
    let g = Scalar::from_bits(SHADE_04) + Scalar::from_bits(SHADE_16) * speed_t;
    if informed {
        Tint {
            red: Scalar::from_bits(SHADE_14) + speed_t,
            green: Scalar::from_bits(SHADE_05) * g,
            blue: Scalar::from_bits(SHADE_005),
        }
    } else if knows_goal {
        Tint {
            red: Scalar::from_bits(SHADE_005),
            green: Scalar::one() + speed_t,
            blue: Scalar::from_bits(SHADE_03) * g,
        }
    } else {
        Tint {
            red: Scalar::from_bits(SHADE_005),
            green: Scalar::from_bits(SHADE_04) * g,
            blue: Scalar::from_bits(SHADE_12) + speed_t,
        }
    }
}

/// By how much the rotors are drawn to turn; not at all while paused.
pub fn spin_rotors(sim: &SimState, delta: Scalar) -> (r: Option<Scalar>)
    ensures
        r is None <==> sim.paused,
        r matches Some(a) ==> a@ == decode(ROTOR_SPEED) * delta@,
{
    if sim.paused {
        None
    } else {
        Some(Scalar::from_bits(ROTOR_SPEED) * delta)
    }
}

/// Where the camera is on its sphere around the middle of the room.
#[verifier::ext_equal]
pub struct Orbit {
    pub yaw: Number,
    pub pitch: Number,
    pub radius: Number,
}

#[derive(Clone, Copy, Debug)]
pub struct OrbitCam {
    pub yaw: Scalar,
    pub pitch: Scalar,
    pub radius: Scalar,
}

impl View for OrbitCam {
    type V = Orbit;

    open spec fn view(&self) -> Orbit {
        Orbit { yaw: self.yaw@, pitch: self.pitch@, radius: self.radius@ }
    }
}

/// Pitch at the start (0.38 rad).
pub const CAM_PITCH: u32 = 0x3ec2_8f5c;

/// Distance at the start (20 m).
pub const CAM_RADIUS: u32 = 0x41a0_0000;

/// Turn per pixel dragged (0.006 rad).
pub const CAM_DRAG: u32 = 0x3bc4_9ba6;

/// Turn per second when left alone (0.1 rad).
pub const CAM_SWEEP: u32 = 0x3dcc_cccd;

/// Largest pitch (1.45 rad).
pub const CAM_PITCH_MAX: u32 = 0x3fb9_999a;

/// Distance per notch of the wheel (1.5 m).
pub const CAM_ZOOM: u32 = 0x3fc0_0000;

/// Shortest distance (6 m).
pub const CAM_NEAR: u32 = 0x40c0_0000;

/// Longest distance (45 m).
pub const CAM_FAR: u32 = 0x4234_0000;

/// Height of the point that the camera looks at (8.5 m).
pub const CAM_TARGET_Y: u32 = 0x4108_0000;

impl Default for OrbitCam {
    fn default() -> (r: OrbitCam)
        ensures
            r@ == (Orbit { yaw: zero(), pitch: decode(CAM_PITCH), radius: decode(CAM_RADIUS) }),
    {
        OrbitCam {
            yaw: Scalar::zero(),
            pitch: Scalar::from_bits(CAM_PITCH),
            radius: Scalar::from_bits(CAM_RADIUS),
        }
    }
}

/// The camera after a frame of `delta`, in which the mouse moved by `dx` and
/// `dy` and the wheel by `scroll`.
pub open spec fn orbited(
    c: Orbit,
    dragging: bool,
    dx: Number,
    dy: Number,
    scroll: Number,
    delta: Number,
) -> Orbit {
    let most = decode(CAM_PITCH_MAX);
    Orbit {
        yaw: if dragging {
            c.yaw - dx * decode(CAM_DRAG)
        } else {
            c.yaw + delta * decode(CAM_SWEEP)
        },
        pitch: if dragging {
            clamped(c.pitch - dy * decode(CAM_DRAG), -most, most)
        } else {
            c.pitch
        },
        radius: clamped(c.radius - scroll * decode(CAM_ZOOM), decode(CAM_NEAR), decode(CAM_FAR)),
    }
}

impl OrbitCam {
    /// Drags turn the camera, the wheel zooms, and left alone it sweeps round.
    pub fn orbit(&mut self, dragging: bool, dx: Scalar, dy: Scalar, scroll: Scalar, delta: Scalar)
        ensures
            final(self)@ == orbited(old(self)@, dragging, dx@, dy@, scroll@, delta@),
    {
        if dragging {
            let drag = Scalar::from_bits(CAM_DRAG);
            let most = Scalar::from_bits(CAM_PITCH_MAX);
            self.yaw = self.yaw - dx * drag;
            self.pitch = (self.pitch - dy * drag).clamp(most.negate(), most);
        } else {
            self.yaw = self.yaw + delta * Scalar::from_bits(CAM_SWEEP);
        }
        self.radius =
        (self.radius - scroll * Scalar::from_bits(CAM_ZOOM)).clamp(
            Scalar::from_bits(CAM_NEAR),
            Scalar::from_bits(CAM_FAR),
        );
    }

    /// Where the camera is, given the sines and cosines of yaw and pitch.
    pub fn place(&self, yaw: Bearing, pitch: Bearing) -> (r: Vec3)
        ensures
            r@ == camera_target() + (V3 {
                x: yaw.sin@ * pitch.cos@,
                y: pitch.sin@,
                z: yaw.cos@ * pitch.cos@,
            }) * self@.radius,
    {
        let dir = Vec3::new(yaw.sin * pitch.cos, pitch.sin, yaw.cos * pitch.cos);
        target() + dir * self.radius
    }
}

/// The point that the camera looks at.
pub open spec fn camera_target() -> V3 {
    V3 { x: zero(), y: decode(CAM_TARGET_Y), z: zero() }
}

/// The point that the camera looks at.
pub fn target() -> (r: Vec3)
    ensures
        r@ == camera_target(),
{
    Vec3::new(Scalar::zero(), Scalar::from_bits(CAM_TARGET_Y), Scalar::zero())
}

proof fn lemma_sizes()
    ensures
        decode(ROOM_HALF) == halves(28),
        decode(GOAL_INSET) == halves(6),
        decode(GOAL_Y) == halves(16),
        decode(GOAL_SWING) == halves(7),
        decode(FLOOR_Y) == halves(2),
        decode(CEIL_Y) == halves(32),
        decode(MOVER_REACH) == halves(18),
        decode(MOVER_SWING) == halves(6),
        one() == halves(2),
{
    lemma2_to64();
    lemma_pow2_adds(129, 19);
    lemma_pow2_adds(127, 21);
    lemma_pow2_adds(126, 22);
    lemma_pow2_adds(130, 18);
    lemma_pow2_unfold(149);
    assert(0xe0_0000 * pow2(129) == 28 * (pow2(129) * 0x8_0000)) by (nonlinear_arith);
    assert(0xc0_0000 * pow2(127) == 6 * (pow2(127) * 0x20_0000)) by (nonlinear_arith);
    assert(0x80_0000 * pow2(129) == 16 * (pow2(129) * 0x8_0000)) by (nonlinear_arith);
    assert(0xe0_0000 * pow2(127) == 7 * (pow2(127) * 0x20_0000)) by (nonlinear_arith);
    assert(0x80_0000 * pow2(126) == 2 * (pow2(126) * 0x40_0000)) by (nonlinear_arith);
    assert(0x80_0000 * pow2(130) == 32 * (pow2(130) * 0x4_0000)) by (nonlinear_arith);
    assert(0x90_0000 * pow2(129) == 18 * (pow2(129) * 0x8_0000)) by (nonlinear_arith);
}

/// Whether a place is between the walls, the floor and the ceiling.
pub open spec fn in_room(p: V3) -> bool {
    let half = decode(ROOM_HALF);
    &&& at_most(-half, p.x) && at_most(p.x, half)
    &&& at_most(decode(FLOOR_Y), p.y) && at_most(p.y, decode(CEIL_Y))
    &&& at_most(-half, p.z) && at_most(p.z, half)
}

/// Whether a number can be a sine or a cosine.
pub open spec fn is_unit(a: Number) -> bool {
    at_most(-one(), a) && at_most(a, one())
}

proof fn lemma_swings(a: Number, h: nat)
    requires
        is_unit(a),
        0 < h <= 14,
    ensures
        at_most(decode(FLOOR_Y), decode(GOAL_Y) + a * halves(h)),
        at_most(decode(GOAL_Y) + a * halves(h), decode(CEIL_Y)),
{
    lemma_sizes();
    let mid = halves(16);
    let x = a * halves(h);
    lemma_halves(h, 16);
    lemma_product_within(a, halves(h)->mag);
    lemma_sum_commutes(mid, x);
    lemma_sum_commutes(mid, -halves(h));
    assert((x + mid) !is Nan) by {
        reveal(sum);
        reveal(less);
        reveal(product);
    }
    lemma_sum_monotone(-halves(h), x, mid);
    lemma_sum_monotone(x, halves(h), mid);
    lemma_halves((16 - h) as nat, 2);
    lemma_halves(32, 16 + h);
    lemma_at_most_transitive(halves(2), halves((16 - h) as nat), mid + x);
    lemma_at_most_transitive(mid + x, halves(16 + h), halves(32));
}

proof fn lemma_reaches(a: Number, h: nat)
    requires
        is_unit(a),
        0 < h <= 28,
    ensures
        at_most(-decode(ROOM_HALF), a * halves(h)),
        at_most(a * halves(h), decode(ROOM_HALF)),
{
    lemma_sizes();
    lemma_halves(h, 28);
    lemma_halves(28, h);
    lemma_product_within(a, halves(h)->mag);
    lemma_negated(halves(h), halves(28));
    lemma_at_most_transitive(-halves(28), -halves(h), a * halves(h));
    lemma_at_most_transitive(a * halves(h), halves(h), halves(28));
}

/// The goal's tour stays in the room.
pub proof fn law_goal_stays_in_room(x: Number, y: Number, z: Number)
    requires
        is_unit(x),
        is_unit(y),
        is_unit(z),
    ensures
        in_room(goal_place(x, y, z)),
{
    lemma_sizes();
    lemma_halves(6, 28);
    lemma_reaches(x, 22);
    lemma_reaches(z, 22);
    lemma_swings(y, 7);
}

/// The moving obstacle stays in the room.
pub proof fn law_mover_stays_in_room(x: Bearing, y: Bearing, z: Bearing)
    requires
        is_unit(x.sin@),
        is_unit(y.cos@),
        is_unit(z.cos@),
    ensures
        in_room(mover_place(x, y, z)),
{
    lemma_sizes();
    lemma_reaches(x.sin@, 18);
    lemma_reaches(z.cos@, 18);
    lemma_swings(y.cos@, 6);
}

/// The camera comes neither too near nor too far, and a drag never tips it
/// over.
pub proof fn law_camera_is_bounded(
    c: Orbit,
    dragging: bool,
    dx: Number,
    dy: Number,
    scroll: Number,
    delta: Number,
)
    ensures
        ({
            let r = orbited(c, dragging, dx, dy, scroll, delta);
            let most = decode(CAM_PITCH_MAX);
            &&& r.radius !is Nan ==> at_most(decode(CAM_NEAR), r.radius) && at_most(
                r.radius,
                decode(CAM_FAR),
            )
            &&& dragging && r.pitch !is Nan ==> at_most(-most, r.pitch) && at_most(r.pitch, most)
            &&& !dragging ==> r.pitch == c.pitch
        }),
{
    let most = decode(CAM_PITCH_MAX);
    lemma2_to64();
    lemma_pow2_pos(126);
    lemma_pow2_pos(128);
    lemma_pow2_adds(3, 128);
    assert(at_most(decode(CAM_NEAR), decode(CAM_FAR)) && at_most(-most, most)) by {
        reveal(less);
        let p = pow2(128);
        let q = 0xb9_999a * pow2(126);
        assert(pow2(131) == 8 * p);
        assert(decode(CAM_NEAR) == (Number::Finite { neg: false, mag: 0xc0_0000 * p }));
        assert(decode(CAM_FAR) == (Number::Finite { neg: false, mag: 0xb4_0000 * pow2(131) }));
        assert(0xb4_0000 * pow2(131) == 0x5a0_0000 * p);
        assert(most == (Number::Finite { neg: false, mag: q }));
    }
    let radius = c.radius - scroll * decode(CAM_ZOOM);
    let pitch = c.pitch - dy * decode(CAM_DRAG);
    if radius !is Nan {
        lemma_clamped(radius, decode(CAM_NEAR), decode(CAM_FAR));
    }
    if pitch !is Nan {
        lemma_clamped(pitch, -most, most);
    }
    reveal(less);
}

/// Whether no light of `a` is stronger than in `b`.
pub open spec fn no_brighter(a: Hue, b: Hue) -> bool {
    at_most(a.red, b.red) && at_most(a.green, b.green) && at_most(a.blue, b.blue)
}

proof fn lemma_shades()
    ensures
        forall|c: u32| 0x3d00_0000 <= c < 0x4000_0000 ==> {
            &&& #[trigger] decode(c) is Finite
            &&& less(zero(), decode(c))
        },
{
    assert forall|c: u32| 0x3d00_0000 <= c < 0x4000_0000 implies #[trigger] decode(c) is Finite
        && less(zero(), decode(c)) by {
        reveal(less);
        let rest = (c as nat) % 0x8000_0000;
        let k = (rest / 0x80_0000 - 1) as nat;
        lemma_pow2_pos(k);
        let f = rest % 0x80_0000;
        assert((0x80_0000 + f) * pow2(k) > 0) by (nonlinear_arith)
            requires
                pow2(k) > 0,
        ;
    }
}

/// `a + k * t` grows with `t`.
proof fn lemma_affine(a: Number, k: Number, s: Number, t: Number)
    requires
        a is Finite,
        k is Finite,
        less(zero(), k),
        at_most(s, t),
    ensures
        at_most(a + k * s, a + k * t),
{
    lemma_product_monotone(k, s, t);
    lemma_sum_commutes(a, k * s);
    lemma_sum_commutes(a, k * t);
    assert((k * s + a) !is Nan && (k * t + a) !is Nan) by {
        reveal(sum);
    }
    lemma_sum_monotone(k * s, k * t, a);
}

/// A faster drone is shown no darker.
pub proof fn law_faster_is_brighter(informed: bool, knows: bool, s: Number, t: Number)
    requires
        at_most(s, t),
    ensures
        no_brighter(color_of(informed, knows, s), color_of(informed, knows, t)),
        no_brighter(glow_of(informed, knows, s), glow_of(informed, knows, t)),
{
    lemma_shades();
    lemma_affine(decode(SHADE_055), decode(SHADE_03), s, t);
    lemma_affine(decode(SHADE_03), decode(SHADE_03), s, t);
    lemma_affine(decode(SHADE_01), decode(SHADE_04), s, t);
    lemma_affine(decode(SHADE_04), decode(SHADE_16), s, t);
    let (g, h) = (
        decode(SHADE_04) + decode(SHADE_16) * s,
        decode(SHADE_04) + decode(SHADE_16) * t,
    );
    lemma_product_monotone(decode(SHADE_05), g, h);
    lemma_product_monotone(decode(SHADE_03), g, h);
    lemma_product_monotone(decode(SHADE_04), g, h);
    lemma_sum_commutes(decode(SHADE_14), s);
    lemma_sum_commutes(decode(SHADE_14), t);
    lemma_sum_commutes(decode(SHADE_12), s);
    lemma_sum_commutes(decode(SHADE_12), t);
    lemma_sum_commutes(one(), s);
    lemma_sum_commutes(one(), t);
    assert((t + decode(SHADE_14)) !is Nan && (t + decode(SHADE_12)) !is Nan && (t + one()) !is Nan
        && (s + decode(SHADE_14)) !is Nan && (s + decode(SHADE_12)) !is Nan && (s + one()) !is Nan)
        by {
        reveal(sum);
    }
    lemma_sum_monotone(s, t, decode(SHADE_14));
    lemma_sum_monotone(s, t, decode(SHADE_12));
    lemma_sum_monotone(s, t, one());
    reveal(less);
}

} // verus!
