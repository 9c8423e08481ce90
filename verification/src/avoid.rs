//! Collision avoidance: velocity half-planes and projection onto them.
use crate::config::{
    CEIL_Y, FLOOR_Y, FOUR, MAX_SPEED, MINUS_TWO, MIN_CLOSING, MIN_SEPARATION, ROOM_HALF, TWO,
    VO_TIME_HORIZON, WALL_MARGIN,
};
use crate::number::{
    at_most, decode, infinity, is_nought, less, product, quotient, square_root, sum, unit, zero,
    Number,
};
use crate::order::{
    lemma_at_most_transitive, lemma_difference_sign, lemma_negated, lemma_quotient_monotone,
    lemma_quotient_sign, lemma_root_monotone, lemma_root_of_product, lemma_sum_commutes,
    lemma_sum_monotone, lemma_zero_quotient,
};
use crate::rounding::{
    lemma_rounded_again, lemma_rounded_cancel, lemma_rounded_exact, lemma_rounded_monotone,
};
use crate::scalar::Scalar;
use crate::vector::{V3, Vec3};
use vstd::arithmetic::power2::{lemma2_to64, lemma_pow2_adds, lemma_pow2_pos, pow2};
use vstd::prelude::*;

verus! {

/// A body to keep clear of.
#[verifier::ext_equal]
pub struct Body {
    pub rel: V3,
    pub vel: V3,
    pub radius: Number,
    pub planar: bool,
}

/// A body to keep clear of: its position relative to the drone, its velocity,
/// the safety radius, and whether only the horizontal part matters, as for a
/// tall pillar.
#[derive(Clone, Copy, Debug)]
pub struct VoConstraint {
    pub rel: Vec3,
    pub vel: Vec3,
    pub radius: Scalar,
    pub planar: bool,
}

impl View for VoConstraint {
    type V = Body;

    open spec fn view(&self) -> Body {
        Body { rel: self.rel@, vel: self.vel@, radius: self.radius@, planar: self.planar }
    }
}

/// The velocities `v` with `n.v <= b`.
#[verifier::ext_equal]
pub struct HalfSpace {
    pub n: V3,
    pub b: Number,
}

/// A half-plane of velocities.
#[derive(Clone, Copy, Debug)]
pub struct Plane {
    pub n: Vec3,
    pub b: Scalar,
}

impl View for Plane {
    type V = HalfSpace;

    open spec fn view(&self) -> HalfSpace {
        HalfSpace { n: self.n@, b: self.b@ }
    }
}

/// The views of the elements.
pub open spec fn bodies(s: Seq<VoConstraint>) -> Seq<Body> {
    s.map_values(|c: VoConstraint| c@)
}

pub open spec fn half_spaces(s: Seq<Plane>) -> Seq<HalfSpace> {
    s.map_values(|p: Plane| p@)
}

/// The discriminant of `|rel - w t| = radius` as an equation in `t`.
pub open spec fn discriminant(rel: V3, w: V3, radius: Number) -> Number {
    let b = decode(MINUS_TWO) * rel.dot(w);
    b * b - decode(FOUR) * w.length_squared() * (rel.length_squared() - radius * radius)
}

/// The time of entry: the earlier root of that equation, or the later one
/// where the earlier is past.
pub open spec fn entry_time(rel: V3, w: V3, radius: Number) -> Option<Number> {
    let b = decode(MINUS_TWO) * rel.dot(w);
    let root = square_root(discriminant(rel, w, radius));
    let twice = decode(TWO) * w.length_squared();
    let (t1, t2) = ((-b - root) / twice, (-b + root) / twice);
    if less(zero(), t1) {
        Some(t1)
    } else if less(zero(), t2) {
        Some(t2)
    } else {
        None
    }
}

/// Whether the two bodies overlap already.
pub open spec fn overlaps(rel: V3, radius: Number) -> bool {
    at_most(rel.length_squared(), radius * radius)
}

/// The time until a body at `rel`, approached with velocity `w`, comes within
/// `radius`; infinite if that is not within `horizon`.
pub open spec fn collision_time(rel: V3, w: V3, radius: Number, horizon: Number) -> Number {
    if overlaps(rel, radius) {
        zero()
    } else if less(w.length_squared(), decode(MIN_CLOSING)) || less(
        discriminant(rel, w, radius),
        zero(),
    ) {
        infinity()
    } else {
        match entry_time(rel, w, radius) {
            Some(t) => if less(horizon, t) {
                infinity()
            } else {
                t
            },
            None => infinity(),
        }
    }
}

/// Time until a body at relative position `rel`, approached with relative
/// velocity `w`, enters `radius` of the drone; infinite if not within
/// `horizon` seconds.
pub fn time_to_collision(rel: Vec3, w: Vec3, radius: Scalar, horizon: Scalar) -> (t: Scalar)
    ensures
        t@ == collision_time(rel@, w@, radius@, horizon@),
{
    let pp = rel.length_squared();
    let rr = radius * radius;
    if pp.le(rr) {
        return Scalar::zero();
    }
    let a = w.length_squared();
    if a.lt(Scalar::from_bits(MIN_CLOSING)) {
        return Scalar::infinity();
    }
    let b = Scalar::from_bits(MINUS_TWO) * rel.dot(w);
    let c = pp - rr;
    let disc = b * b - Scalar::from_bits(FOUR) * a * c;
    if disc.lt(Scalar::zero()) {
        return Scalar::infinity();
    }
    let sq = disc.sqrt();
    let t1 = (b.negate() - sq) / (Scalar::from_bits(TWO) * a);
    let t2 = (b.negate() + sq) / (Scalar::from_bits(TWO) * a);
    let t_enter = if t1.gt(Scalar::zero()) {
        t1
    } else if t2.gt(Scalar::zero()) {
        t2
    } else {
        return Scalar::infinity();
    };
    if t_enter.gt(horizon) {
        Scalar::infinity()
    } else {
        t_enter
    }
}

/// The body as it is seen from above where only that matters.
pub open spec fn seen(c: Body) -> Body {
    if c.planar {
        Body { rel: c.rel.level(), vel: c.vel.level(), ..c }
    } else {
        c
    }
}

/// The drone's own velocity as it counts against a body: where only the
/// horizontal part matters, a climb does not.
pub open spec fn heading(c: Body, v: V3) -> V3 {
    if c.planar {
        v.level()
    } else {
        v
    }
}

/// The half-plane that caps the closing speed towards a body that would be hit
/// within the horizon; none for any other body.
pub open spec fn limit_on_closing(c: Body, v_cur: V3) -> Option<HalfSpace> {
    let s = seen(c);
    let dist = s.rel.length();
    if less(dist, decode(MIN_SEPARATION)) || collision_time(
        s.rel,
        heading(c, v_cur) - s.vel,
        c.radius,
        decode(VO_TIME_HORIZON),
    ) is Infinite {
        None
    } else {
        let n = s.rel / dist;
        Some(HalfSpace { n, b: s.vel.dot(n) + (dist - c.radius) / decode(VO_TIME_HORIZON) })
    }
}

/// The half-planes of all bodies, in order.
pub open spec fn limits_on_closing(cs: Seq<Body>, v_cur: V3) -> Seq<HalfSpace>
    decreases cs.len(),
{
    if cs.len() == 0 {
        Seq::empty()
    } else {
        let before = limits_on_closing(cs.drop_last(), v_cur);
        match limit_on_closing(cs.last(), v_cur) {
            Some(h) => before.push(h),
            None => before,
        }
    }
}

/// By how much `v` is beyond a half-plane's boundary.
pub open spec fn excess(v: V3, h: HalfSpace) -> Number {
    v.dot(h.n) - h.b
}

/// `v` moved onto the boundary of each half-plane that it violates, in turn.
pub open spec fn projected(v: V3, hs: Seq<HalfSpace>) -> V3
    decreases hs.len(),
{
    if hs.len() == 0 {
        v
    } else {
        let u = projected(v, hs.drop_last());
        let e = excess(u, hs.last());
        if less(zero(), e) {
            u - hs.last().n * e
        } else {
            u
        }
    }
}

/// `rounds` rounds of projection, each followed by the speed limit.
pub open spec fn settled(v: V3, hs: Seq<HalfSpace>, rounds: nat) -> V3
    decreases rounds,
{
    if rounds == 0 {
        v
    } else {
        projected(settled(v, hs, (rounds - 1) as nat), hs).clamp_length_max(decode(MAX_SPEED))
    }
}

/// The velocity to fly: the preferred one under the speed limit where no body
/// is in the way, and else its projection onto the half-planes.
pub open spec fn safe_velocity(v_pref: V3, v_cur: V3, cs: Seq<Body>) -> V3 {
    let hs = limits_on_closing(cs, v_cur);
    if hs.len() == 0 {
        v_pref.clamp_length_max(decode(MAX_SPEED))
    } else {
        settled(v_pref, hs, 16)
    }
}

fn plane_for(c: &VoConstraint, v_cur: Vec3) -> (r: Option<Plane>)
    ensures
        r is Some <==> limit_on_closing(c@, v_cur@) is Some,
        r matches Some(p) ==> limit_on_closing(c@, v_cur@) == Some(p@),
{
    let (rel, vother, vown) = if c.planar {
        (c.rel.level(), c.vel.level(), v_cur.level())
    } else {
        (c.rel, c.vel, v_cur)
    };
    let dist = rel.length();
    if dist.lt(Scalar::from_bits(MIN_SEPARATION)) {
        return None;
    }
    let horizon = Scalar::from_bits(VO_TIME_HORIZON);
    if time_to_collision(rel, vown - vother, c.radius, horizon).is_infinite() {
        return None;
    }
    let n = rel / dist;
    let s_max = (dist - c.radius) / horizon;
    Some(Plane { n, b: vother.dot(n) + s_max })
}

fn planes_for(constraints: &Vec<VoConstraint>, v_cur: Vec3) -> (planes: Vec<Plane>)
    ensures
        half_spaces(planes@) == limits_on_closing(bodies(constraints@), v_cur@),
{
    let ghost cs = bodies(constraints@);
    let mut planes: Vec<Plane> = Vec::new();
    let mut i: usize = 0;
    assert(half_spaces(planes@) =~= limits_on_closing(cs.take(0), v_cur@));
    while i < constraints.len()
        invariant
            i <= constraints.len(),
            cs == bodies(constraints@),
            half_spaces(planes@) == limits_on_closing(cs.take(i as int), v_cur@),
        decreases constraints.len() - i,
    {
        assert(cs.take(i + 1).drop_last() =~= cs.take(i as int));
        assert(cs.take(i + 1).last() == constraints@[i as int]@);
        let ghost before = planes@;
        if let Some(p) = plane_for(&constraints[i], v_cur) {
            planes.push(p);
            assert(half_spaces(planes@) =~= half_spaces(before).push(p@));
        }
        i = i + 1;
    }
    assert(cs.take(i as int) =~= cs);
    planes
}

fn project(v: Vec3, planes: &Vec<Plane>) -> (r: Vec3)
    ensures
        r@ == projected(v@, half_spaces(planes@)),
{
    let ghost hs = half_spaces(planes@);
    let mut u = v;
    let mut i: usize = 0;
    while i < planes.len()
        invariant
            i <= planes.len(),
            hs == half_spaces(planes@),
            u@ == projected(v@, hs.take(i as int)),
        decreases planes.len() - i,
    {
        assert(hs.take(i + 1).drop_last() =~= hs.take(i as int));
        assert(hs.take(i + 1).last() == planes@[i as int]@);
        let p = planes[i];
        let e = u.dot(p.n) - p.b;
        if e.gt(Scalar::zero()) {
            u = u - p.n * e;
        }
        i = i + 1;
    }
    assert(hs.take(i as int) =~= hs);
    u
}

/// The velocity nearest to the preferred one, up to projection, that closes on
/// no body faster than its distance allows.
pub fn select_safe_velocity(v_pref: Vec3, v_cur: Vec3, constraints: &Vec<VoConstraint>) -> (v: Vec3)
    ensures
        v@ == safe_velocity(v_pref@, v_cur@, bodies(constraints@)),
{
    let planes = planes_for(constraints, v_cur);
    let cap = Scalar::from_bits(MAX_SPEED);
    if planes.len() == 0 {
        return v_pref.clamp_length_max(cap);
    }
    let ghost hs = half_spaces(planes@);
    let mut v = v_pref;
    let mut round: u32 = 0;
    while round < 16
        invariant
            round <= 16,
            hs == half_spaces(planes@),
            cap@ == decode(MAX_SPEED),
            v@ == settled(v_pref@, hs, round as nat),
        decreases 16 - round,
    {
        v = project(v, &planes).clamp_length_max(cap);
        round = round + 1;
    }
    v
}

/// Whether `v` keeps to all half-planes and to the speed limit.
pub open spec fn feasible(v: V3, hs: Seq<HalfSpace>) -> bool {
    &&& forall|i: int| 0 <= i < hs.len() ==> !less(zero(), #[trigger] excess(v, hs[i]))
    &&& !less(decode(MAX_SPEED) * decode(MAX_SPEED), v.length_squared())
}

/// A preferred velocity that is feasible is flown unchanged.
pub proof fn law_feasible_velocity_is_kept(v_pref: V3, v_cur: V3, cs: Seq<Body>)
    requires
        feasible(v_pref, limits_on_closing(cs, v_cur)),
    ensures
        safe_velocity(v_pref, v_cur, cs) == v_pref,
{
    let hs = limits_on_closing(cs, v_cur);
    lemma_settled_feasible(v_pref, hs, 16);
}

proof fn lemma_projected_feasible(v: V3, hs: Seq<HalfSpace>)
    requires
        forall|i: int| 0 <= i < hs.len() ==> !less(zero(), #[trigger] excess(v, hs[i])),
    ensures
        projected(v, hs) == v,
    decreases hs.len(),
{
    if hs.len() > 0 {
        let before = hs.drop_last();
        assert forall|i: int| 0 <= i < before.len() implies !less(zero(), #[trigger] excess(v, before[i])) by {
            assert(before[i] == hs[i]);
        }
        lemma_projected_feasible(v, before);
        assert(hs.last() == hs[hs.len() - 1]);
    }
}

proof fn lemma_settled_feasible(v: V3, hs: Seq<HalfSpace>, rounds: nat)
    requires
        feasible(v, hs),
    ensures
        settled(v, hs, rounds) == v,
    decreases rounds,
{
    if rounds > 0 {
        lemma_settled_feasible(v, hs, (rounds - 1) as nat);
        lemma_projected_feasible(v, hs);
    }
}

/// A predicted collision is immediate where the bodies overlap, and else lies
/// after now and not beyond the horizon.
pub proof fn law_collision_is_within_horizon(rel: V3, w: V3, radius: Number, horizon: Number)
    requires
        !(horizon is Nan),
    ensures
        ({
            let t = collision_time(rel, w, radius, horizon);
            &&& overlaps(rel, radius) ==> t == zero()
            &&& !overlaps(rel, radius) && t !is Infinite ==> less(zero(), t) && at_most(t, horizon)
        }),
{
    reveal(less);
}

/// A climb does not take a drone off its course to a tall pillar: what caps
/// the closing speed does not depend on it, nor on the pillar's height.
pub proof fn law_climb_does_not_clear_a_pillar(c: Body, v: V3, rise: Number, height: Number)
    requires
        c.planar,
    ensures
        limit_on_closing(c, V3 { y: rise, ..v }) == limit_on_closing(c, v),
        limit_on_closing(Body { rel: V3 { y: height, ..c.rel }, ..c }, v) == limit_on_closing(c, v),
{
}

/// A body that moves with the drone is on no collision course unless the two
/// overlap.
pub proof fn law_no_relative_motion_no_collision(rel: V3, w: V3, radius: Number, horizon: Number)
    requires
        less(w.length_squared(), decode(MIN_CLOSING)),
        !overlaps(rel, radius),
    ensures
        collision_time(rel, w, radius, horizon) is Infinite,
{
}

/// What is taken off the square in the discriminant is not negative where the
/// bodies do not overlap.
proof fn lemma_takes_off(rel: V3, w: V3, radius: Number)
    requires
        !overlaps(rel, radius),
        !less(w.length_squared(), decode(MIN_CLOSING)),
        discriminant(rel, w, radius) !is Nan,
    ensures
        at_most(
            zero(),
            decode(FOUR) * w.length_squared() * (rel.length_squared() - radius * radius),
        ),
{
    let (a, c) = (w.length_squared(), rel.length_squared() - radius * radius);
    assert(a !is Nan && c !is Nan && (decode(FOUR) * a * c) !is Nan) by {
        reveal(sum);
        reveal(product);
    }
    assert(less(radius * radius, rel.length_squared())) by {
        reveal(sum);
    }
    lemma_difference_sign(radius * radius, rel.length_squared());
    lemma_pow2_pos(149);
    lemma_pow2_pos(277);
    lemma_zero_quotient(unit());
    assert(at_most(zero(), a)) by {
        lemma_min_closing();
        reveal(less);
    }
    let f = decode(FOUR) * a;
    assert(at_most(zero(), f)) by {
        reveal(less);
        reveal(product);
        assert(decode(FOUR)->mag * 0 == 0);
    }
    assert(at_most(zero(), f * c)) by {
        reveal(less);
        reveal(product);
        assert(f is Finite ==> f->mag * 0 == 0);
        assert(c is Finite ==> 0 * c->mag == 0);
    }
}

proof fn lemma_min_closing()
    ensures
        decode(MIN_CLOSING) is Finite,
        less(zero(), decode(MIN_CLOSING)),
{
    reveal(less);
    lemma_pow2_pos(106);
    let p = pow2(106);
    assert(0x86_37bd * p > 0) by (nonlinear_arith)
        requires
            p > 0,
    ;
}

proof fn lemma_receding(rel: V3, w: V3, radius: Number)
    requires
        !overlaps(rel, radius),
        !less(zero(), rel.dot(w)),
        ({
            let b = decode(MINUS_TWO) * rel.dot(w);
            (b * b) matches Number::Finite { mag, .. } ==> mag == 0 || mag >= 0x80_0000
        }),
        !less(w.length_squared(), decode(MIN_CLOSING)),
        discriminant(rel, w, radius) !is Nan,
        !less(discriminant(rel, w, radius), zero()),
    ensures
        entry_time(rel, w, radius) matches Some(t) ==> t is Infinite,
{
    let dot = rel.dot(w);
    let b = decode(MINUS_TWO) * dot;
    let a = w.length_squared();
    let off = decode(FOUR) * a * (rel.length_squared() - radius * radius);
    let disc = discriminant(rel, w, radius);
    let root = square_root(disc);
    let twice = decode(TWO) * a;
    lemma_takes_off(rel, w, radius);
    lemma_pow2_pos(149);
    lemma_pow2_pos(277);
    lemma_pow2_pos(127);
    let two = 0x80_0000 * pow2(127);
    assert(b !is Nan && dot !is Nan && a !is Nan) by {
        reveal(sum);
        reveal(product);
    }
    assert(at_most(zero(), b)) by {
        reveal(less);
        reveal(product);
        lemma_zero_quotient(unit());
        assert(two * 0 == 0);
    }
    lemma_twice(a);
    if b is Infinite {
        assert(disc is Infinite && (-b + root) is Nan && !less(zero(), -b - root)) by {
            reveal(less);
            reveal(sum);
            reveal(product);
            reveal(square_root);
        }
        assert(!less(zero(), (-b - root) / twice) && !less(zero(), (-b + root) / twice)) by {
            lemma_quotient_sign(-b - root, twice);
            reveal(less);
            reveal(quotient);
        }
    } else if (b * b) is Infinite {
        assert(disc is Infinite && root == infinity() && !less(zero(), -b - root) && (-b + root)
            == infinity()) by {
            reveal(less);
            reveal(sum);
            reveal(product);
            reveal(square_root);
        }
        lemma_quotient_sign(-b - root, twice);
        assert(((-b + root) / twice) is Infinite || ((-b + root) / twice) is Nan) by {
            reveal(quotient);
        }
        reveal(less);
    } else {
        assert(dot is Finite && (b * b) is Finite) by {
            reveal(product);
        }
        lemma_shrunk(b, off);
        lemma_root_monotone(disc, b * b);
        lemma_root_of_product(decode(MINUS_TWO), dot);
        lemma_at_most_transitive(root, square_root(b * b), b);
        assert(!less(zero(), -b - root) && !less(zero(), -b + root)) by {
            reveal(less);
            reveal(sum);
        }
        lemma_quotient_sign(-b - root, twice);
        lemma_quotient_sign(-b + root, twice);
    }
}

proof fn lemma_twice(a: Number)
    requires
        a !is Nan,
        !less(a, decode(MIN_CLOSING)),
    ensures
        less(zero(), decode(TWO) * a),
{
    lemma_min_closing();
    lemma_pow2_pos(127);
    lemma_pow2_pos(277);
    lemma_pow2_adds(22, 127);
    lemma2_to64();
    reveal(less);
    reveal(product);
    let two = 0x80_0000 * pow2(127);
    assert(two == 2 * unit());
    if let Number::Finite { mag, .. } = a {
        lemma_pow2_pos(149);
        let u = unit();
        lemma_rounded_cancel(2 * mag, 1, u);
        assert(two * mag == (2 * mag) * u) by (nonlinear_arith)
            requires
                two == 2 * u,
        ;
        assert(1 * u == u);
        lemma_rounded_monotone(1, 2 * mag, 1);
        lemma_rounded_exact(1, 0);
        assert(1 * pow2(0) == 1);
    }
}

/// A square less what is not negative is not above the square.
proof fn lemma_shrunk(b: Number, off: Number)
    requires
        (b * b) is Finite,
        at_most(zero(), off),
        (b * b - off) !is Nan,
    ensures
        at_most(b * b - off, b * b),
{
    let bb = b * b;
    lemma_negated(zero(), off);
    lemma_sum_commutes(bb, -off);
    lemma_sum_commutes(bb, -zero());
    let same = bb + (-zero());
    assert(same == bb || (is_nought(bb) && is_nought(same))) by {
        reveal(sum);
        reveal(product);
        lemma_pow2_pos(149);
        lemma_pow2_pos(277);
        if b is Finite {
            lemma_rounded_again(b->mag * b->mag, unit());
        }
    }
    lemma_sum_monotone(-off, -zero(), bb);
    reveal(less);
}

/// A body that recedes, or keeps its distance, is on no collision course
/// unless the two overlap. The square of the motion along the line of centres
/// must not be so small that it has lost digits.
pub proof fn law_receding_body_is_not_hit(rel: V3, w: V3, radius: Number, horizon: Number)
    requires
        !overlaps(rel, radius),
        !less(zero(), rel.dot(w)),
        ({
            let b = decode(MINUS_TWO) * rel.dot(w);
            (b * b) matches Number::Finite { mag, .. } ==> mag == 0 || mag >= 0x80_0000
        }),
    ensures
        collision_time(rel, w, radius, horizon) is Infinite,
{
    let dot = rel.dot(w);
    let b = decode(MINUS_TWO) * dot;
    let a = w.length_squared();
    let disc = discriminant(rel, w, radius);
    let root = square_root(disc);
    let twice = decode(TWO) * a;
    if !less(a, decode(MIN_CLOSING)) && !less(disc, zero()) {
        if disc is Nan {
            assert((-b - root) is Nan && (-b + root) is Nan) by {
                reveal(square_root);
                reveal(sum);
            }
            assert(entry_time(rel, w, radius) is None) by {
                reveal(less);
                reveal(quotient);
            }
        } else {
            lemma_receding(rel, w, radius);
        }
    }
}

/// The push on one axis that keeps `p` between `low` and `high`.
pub open spec fn inward(p: Number, low: Number, high: Number) -> Number {
    let margin = decode(WALL_MARGIN);
    if less(high - margin, p) {
        zero() - (p - (high - margin)) / margin
    } else if less(p, low + margin) {
        zero() + ((low + margin) - p) / margin
    } else {
        zero()
    }
}

/// The push away from the walls, the floor and the ceiling.
pub open spec fn push_from_walls(p: V3) -> V3 {
    let half = decode(ROOM_HALF);
    V3 {
        x: inward(p.x, -half, half),
        y: inward(p.y, decode(FLOOR_Y), decode(CEIL_Y)),
        z: inward(p.z, -half, half),
    }
}

fn push_inward(p: Scalar, low: Scalar, high: Scalar) -> (r: Scalar)
    ensures
        r@ == inward(p@, low@, high@),
{
    let margin = Scalar::from_bits(WALL_MARGIN);
    if p.gt(high - margin) {
        Scalar::zero() - (p - (high - margin)) / margin
    } else if p.lt(low + margin) {
        Scalar::zero() + ((low + margin) - p) / margin
    } else {
        Scalar::zero()
    }
}

/// Inward push that grows as a drone nears a wall, the floor or the ceiling.
pub fn boundary_push(p: Vec3) -> (r: Vec3)
    ensures
        r@ == push_from_walls(p@),
{
    let half = Scalar::from_bits(ROOM_HALF);
    Vec3::new(
        push_inward(p.x, half.negate(), half),
        push_inward(p.y, Scalar::from_bits(FLOOR_Y), Scalar::from_bits(CEIL_Y)),
        push_inward(p.z, half.negate(), half),
    )
}

proof fn lemma_margin()
    ensures
        decode(WALL_MARGIN) is Finite,
        less(zero(), decode(WALL_MARGIN)),
{
    reveal(less);
    lemma_pow2_pos(127);
    assert(0xa0_0000 * pow2(127) > 0) by (nonlinear_arith)
        requires
            pow2(127) > 0,
    ;
}

/// The push never points towards the wall that is near, and there is none away
/// from the walls.
pub proof fn law_push_is_inward(p: Number, low: Number, high: Number)
    ensures
        ({
            let margin = decode(WALL_MARGIN);
            let push = inward(p, low, high);
            if less(high - margin, p) {
                at_most(push, zero())
            } else if less(p, low + margin) {
                at_most(zero(), push)
            } else {
                push == zero()
            }
        }),
{
    let margin = decode(WALL_MARGIN);
    lemma_margin();
    assert(zero() / margin == zero()) by {
        reveal(quotient);
        reveal(less);
        lemma_zero_quotient(margin->mag);
        lemma_pow2_pos(277);
        assert(0 * unit() == 0);
    }
    if less(high - margin, p) {
        lemma_difference_sign(high - margin, p);
        lemma_quotient_monotone(zero(), p - (high - margin), margin);
        let x = (p - (high - margin)) / margin;
        assert(at_most(zero() - x, zero())) by {
            reveal(less);
            reveal(sum);
        }
    } else if less(p, low + margin) {
        lemma_difference_sign(p, low + margin);
        lemma_quotient_monotone(zero(), (low + margin) - p, margin);
        let x = ((low + margin) - p) / margin;
        assert(at_most(zero(), zero() + x)) by {
            reveal(less);
            reveal(sum);
            lemma_pow2_pos(277);
        }
    }
}

/// The nearer the upper wall, the stronger the push.
pub proof fn law_push_grows_upwards(p: Number, q: Number, low: Number, high: Number)
    requires
        less(high - decode(WALL_MARGIN), p),
        at_most(p, q),
    ensures
        at_most(inward(q, low, high), inward(p, low, high)),
{
    let margin = decode(WALL_MARGIN);
    let edge = high - margin;
    lemma_margin();
    assert(less(edge, q)) by {
        reveal(less);
    }
    lemma_difference_sign(edge, p);
    lemma_difference_sign(edge, q);
    lemma_sum_monotone(p, q, -edge);
    let (x, y) = ((p - edge) / margin, (q - edge) / margin);
    lemma_quotient_monotone(p - edge, q - edge, margin);
    lemma_negated(x, y);
    assert(-x + zero() == zero() + -x && -y + zero() == zero() + -y) by {
        reveal(sum);
    }
    assert((-x + zero()) !is Nan && (-y + zero()) !is Nan) by {
        reveal(sum);
    }
    lemma_sum_monotone(-y, -x, zero());
}

/// The nearer the lower wall, the stronger the push.
pub proof fn law_push_grows_downwards(p: Number, q: Number, low: Number, high: Number)
    requires
        less(p, low + decode(WALL_MARGIN)),
        at_most(q, p),
        !less(high - decode(WALL_MARGIN), p),
        !less(high - decode(WALL_MARGIN), q),
    ensures
        at_most(inward(p, low, high), inward(q, low, high)),
{
    let margin = decode(WALL_MARGIN);
    let edge = low + margin;
    lemma_margin();
    assert(less(q, edge)) by {
        reveal(less);
    }
    lemma_difference_sign(p, edge);
    lemma_difference_sign(q, edge);
    lemma_negated(q, p);
    assert(edge + -p == -p + edge && edge + -q == -q + edge) by {
        reveal(sum);
    }
    lemma_sum_monotone(-p, -q, edge);
    let (x, y) = ((edge - p) / margin, (edge - q) / margin);
    lemma_quotient_monotone(edge - p, edge - q, margin);
    assert(x + zero() == zero() + x && y + zero() == zero() + y) by {
        reveal(sum);
    }
    assert((x + zero()) !is Nan && (y + zero()) !is Nan) by {
        reveal(sum);
    }
    lemma_sum_monotone(x, y, zero());
}

} // verus!
