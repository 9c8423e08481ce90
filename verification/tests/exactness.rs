//! Every step of the arithmetic, held bit for bit against the same step on
//! hardware numbers with `nalgebra` and `bevy::math`.
use bevy::math::Vec3 as Glam;
use drone_swarm::angle::wrap_angle;
use drone_swarm::avoid::{boundary_push, select_safe_velocity, time_to_collision, VoConstraint};
use drone_swarm::fusion::covariance_intersection;
use drone_swarm::goal::{fuse_belief, GoalBelief};
use drone_swarm::matrix::Mat3;
use drone_swarm::scalar::Scalar;
use drone_swarm::selfloc::SelfLoc;
use drone_swarm::track::{measurement_jacobian, Track};
use drone_swarm::vector::Vec3;

type M3 = nalgebra::SMatrix<f32, 3, 3>;
type N3 = nalgebra::SVector<f32, 3>;
type M6 = nalgebra::SMatrix<f32, 6, 6>;
type N6 = nalgebra::SVector<f32, 6>;
type M36 = nalgebra::SMatrix<f32, 3, 6>;

fn s(x: f32) -> Scalar {
    Scalar::from_bits(x.to_bits())
}

fn f(x: Scalar) -> f32 {
    f32::from_bits(x.to_bits())
}

fn lib(v: Glam) -> Vec3 {
    Vec3::new(s(v.x), s(v.y), s(v.z))
}

fn same(a: Scalar, b: f32) -> bool {
    (f(a).is_nan() && b.is_nan()) || a.to_bits() == b.to_bits()
}

fn same_vec(a: Vec3, b: Glam) -> bool {
    same(a.x, b.x) && same(a.y, b.y) && same(a.z, b.z)
}

fn same_mat(a: Mat3, b: &M3) -> bool {
    let row = |v: Vec3, i: usize| {
        same(v.x, b[(i, 0)]) && same(v.y, b[(i, 1)]) && same(v.z, b[(i, 2)])
    };
    row(a.r0, 0) && row(a.r1, 1) && row(a.r2, 2)
}

fn lib_mat(m: &M3) -> Mat3 {
    let row = |i: usize| Vec3::new(s(m[(i, 0)]), s(m[(i, 1)]), s(m[(i, 2)]));
    Mat3 { r0: row(0), r1: row(1), r2: row(2) }
}

/// A small generator, so that every run sees the same numbers.
struct Rolls(u32);

impl Rolls {
    fn next(&mut self) -> u32 {
        self.0 ^= self.0 << 13;
        self.0 ^= self.0 >> 17;
        self.0 ^= self.0 << 5;
        self.0
    }

    /// Between `-size` and `size`.
    fn number(&mut self, size: f32) -> f32 {
        ((self.next() % 2_000_001) as f32 / 1_000_000.0 - 1.0) * size
    }

    fn vector(&mut self, size: f32) -> Glam {
        Glam::new(self.number(size), self.number(size), self.number(size))
    }

    /// A covariance: symmetric, with a heavy diagonal.
    fn covariance(&mut self) -> M3 {
        let a = M3::from_fn(|_, _| self.number(1.0));
        a * a.transpose() + M3::identity() * (0.05 + self.number(0.04))
    }
}

#[test]
fn vectors_are_exact() {
    let mut r = Rolls(0x9e37_79b9);
    for _ in 0..400 {
        let (a, b) = (r.vector(20.0), r.vector(3.0));
        let k = r.number(5.0);
        assert!(same_vec(lib(a) + lib(b), a + b));
        assert!(same_vec(lib(a) - lib(b), a - b));
        assert!(same_vec(lib(a) * s(k), a * k));
        assert!(same_vec(lib(a) / s(k), a / k));
        assert!(same(lib(a).dot(lib(b)), a.dot(b)));
        assert!(same(lib(a).length(), a.length()));
        assert!(same(lib(a).length_squared(), a.length_squared()));
        assert!(same(lib(a).distance(lib(b)), a.distance(b)));
        assert!(same(lib(a).distance_squared(lib(b)), a.distance_squared(b)));
        let cap = k.abs() * 4.0;
        assert!(same_vec(lib(a).clamp_length_max(s(cap)), a.clamp_length_max(cap)));
    }
}

#[test]
fn matrices_are_exact() {
    let mut r = Rolls(0x1357_9bdf);
    for i in 0..200 {
        let a = M3::from_fn(|_, _| r.number(4.0));
        let mut b = M3::from_fn(|_, _| r.number(4.0));
        if i % 7 == 0 {
            b = M3::zeros();
        }
        let v = r.vector(5.0);
        let n = N3::new(v.x, v.y, v.z);
        assert!(same_mat(lib_mat(&a).plus(lib_mat(&b)), &(a + b)));
        assert!(same_mat(lib_mat(&a).minus(lib_mat(&b)), &(a - b)));
        assert!(same_mat(lib_mat(&a).times(lib_mat(&b)), &(a * b)));
        assert!(same_mat(lib_mat(&a).scale(s(v.x)), &(a * v.x)));
        assert!(same_mat(lib_mat(&a).transpose(), &a.transpose()));
        let w = a * n;
        assert!(same_vec(lib_mat(&a).apply(lib(v)), Glam::new(w[0], w[1], w[2])));
        assert!(same_mat(Mat3::outer(lib(v), lib(v)), &(n * n.transpose())));
        assert!(same(lib_mat(&a).determinant(), a.determinant()));
        match (lib_mat(&b).try_inverse(), b.try_inverse()) {
            (Some(x), Some(y)) => assert!(same_mat(x, &y)),
            (None, None) => assert_eq!(i % 7, 0),
            _ => panic!("one of the two inverses is missing"),
        }
    }
}

fn wrap(a: f32) -> f32 {
    let mut a = a;
    while a > std::f32::consts::PI {
        a -= std::f32::consts::TAU;
    }
    while a < -std::f32::consts::PI {
        a += std::f32::consts::TAU;
    }
    a
}

#[test]
fn angles_wrap_exactly() {
    let mut r = Rolls(0x2468_ace1);
    for _ in 0..300 {
        let a = r.number(40.0);
        assert!(same(wrap_angle(s(a)), wrap(a)));
    }
    for a in [0.0, -0.0, 3.1415927, -3.1415927, 3.1415930, 1000.0, -1000.0] {
        assert!(same(wrap_angle(s(a)), wrap(a)));
    }
    assert!(wrap_angle(s(f32::NAN)).is_nan());
    // Whole turns are taken off, and nothing else but roundings.
    for a in [4.0f32, -9.5, 31.0, -100.0] {
        let turns = f64::from(a - f(wrap_angle(s(a)))) / std::f64::consts::TAU;
        assert!((turns - turns.round()).abs() < 1e-5, "{turns} turns");
        assert!(turns.round() != 0.0);
    }
}

/// The six-state filter on hardware numbers.
struct Filter {
    x: N6,
    p: M6,
    last_seen: f32,
}

fn jacobian(d: Glam) -> M36 {
    let (dx, dy, dz) = (d.x, d.y, d.z);
    let r = d.length().max(1e-4);
    let rxz2 = (dx * dx + dz * dz).max(1e-6);
    let rxz = rxz2.sqrt();
    let mut h = M36::zeros();
    h[(0, 0)] = dx / r;
    h[(0, 1)] = dy / r;
    h[(0, 2)] = dz / r;
    h[(1, 0)] = dz / rxz2;
    h[(1, 2)] = -dx / rxz2;
    h[(2, 0)] = -dy * dx / (rxz * r * r);
    h[(2, 1)] = rxz / (r * r);
    h[(2, 2)] = -dy * dz / (rxz * r * r);
    h
}

fn measure(d: Glam) -> N3 {
    let r = d.length().max(1e-4);
    N3::new(r, d.x.atan2(d.z), (d.y / r).clamp(-1.0, 1.0).asin())
}

impl Filter {
    fn new(pos: Glam, now: f32) -> Filter {
        let mut x = N6::zeros();
        x[0] = pos.x;
        x[1] = pos.y;
        x[2] = pos.z;
        let mut p = M6::zeros();
        for i in 0..3 {
            p[(i, i)] = 4.0;
            p[(i + 3, i + 3)] = 49.0;
        }
        Filter { x, p, last_seen: now }
    }

    fn pos(&self) -> Glam {
        Glam::new(self.x[0], self.x[1], self.x[2])
    }

    fn predict(&mut self, dt: f32) {
        let mut t = M6::identity();
        for i in 0..3 {
            t[(i, i + 3)] = dt;
        }
        self.x = t * self.x;
        let q = 9.0f32;
        let (q11, q12, q22) = (q * dt.powi(4) / 4.0, q * dt.powi(3) / 2.0, q * dt.powi(2));
        let mut qm = M6::zeros();
        for i in 0..3 {
            qm[(i, i)] = q11;
            qm[(i, i + 3)] = q12;
            qm[(i + 3, i)] = q12;
            qm[(i + 3, i + 3)] = q22;
        }
        self.p = t * self.p * t.transpose() + qm;
    }

    fn update(&mut self, ego: Glam, z: N3, r: &M3, now: f32) {
        let d = self.pos() - ego;
        let h = jacobian(d);
        let mut y = z - measure(d);
        y[1] = wrap(y[1]);
        let s = h * self.p * h.transpose() + r;
        let Some(s_inv) = s.try_inverse() else { return };
        let k = self.p * h.transpose() * s_inv;
        self.x += k * y;
        self.p = (M6::identity() - k * h) * self.p;
        self.last_seen = now;
    }
}

fn same_filter(t: &Track, g: &Filter) -> bool {
    let block = |i: usize, j: usize| -> M3 { g.p.fixed_view::<3, 3>(i, j).into() };
    same_vec(t.pos, g.pos())
        && same_vec(t.vel, Glam::new(g.x[3], g.x[4], g.x[5]))
        && same_mat(t.cov.pp, &block(0, 0))
        && same_mat(t.cov.pv, &block(0, 3))
        && same_mat(t.cov.vp, &block(3, 0))
        && same_mat(t.cov.vv, &block(3, 3))
        && same(t.last_seen, g.last_seen)
}

#[test]
fn tracks_are_exact() {
    let mut r = Rolls(0x0bad_cafe);
    for _ in 0..12 {
        let ego = r.vector(6.0);
        let target = ego + r.vector(5.0);
        let start = target - ego + r.vector(0.4);
        let cov = M3::from_diagonal(&N3::new(0.12 * 0.12, 0.07 * 0.07, 0.07 * 0.07));
        let mut t = Track::new(lib(ego), lib(start), s(0.5));
        let mut g = Filter::new(ego + start, 0.5);
        assert!(same_filter(&t, &g));
        for step in 0..20 {
            let now = 0.5 + step as f32 / 64.0;
            t.predict(s(1.0 / 64.0));
            g.predict(1.0 / 64.0);
            assert!(same_filter(&t, &g));
            let z = measure(target - ego) + N3::new(r.number(0.2), r.number(0.1), r.number(0.1));
            let e = measure(g.pos() - ego);
            t.update(
                lib(ego),
                Vec3::new(s(z[0]), s(z[1]), s(z[2])),
                Vec3::new(s(e[0]), s(e[1]), s(e[2])),
                &lib_mat(&cov),
                s(now),
            );
            g.update(ego, z, &cov, now);
            assert!(same_filter(&t, &g));
        }
        let h = jacobian(target - ego);
        let left: M3 = h.fixed_view::<3, 3>(0, 0).into();
        assert!(same_mat(measurement_jacobian(lib(target - ego)), &left));
    }
}

#[test]
fn a_track_without_information_is_left_alone() {
    // No uncertainty anywhere: the innovation's covariance is zero.
    let mut t = Track::new(Vec3::origin(), lib(Glam::new(3.0, 0.0, 0.0)), s(1.0));
    t.cov.pp = Mat3::nil();
    let before = t;
    let z = Vec3::new(s(3.0), s(1.5), s(0.0));
    t.update(Vec3::origin(), z, z, &Mat3::nil(), s(2.0));
    assert!(same(t.last_seen, 1.0));
    assert!(same_vec(t.pos, Glam::new(f(before.pos.x), f(before.pos.y), f(before.pos.z))));
}

#[test]
fn self_localization_is_exact() {
    let mut r = Rolls(0x7654_3210);
    for _ in 0..20 {
        let start = r.vector(10.0);
        let mut sl = SelfLoc::new(lib(start), lib(r.vector(0.1)));
        let mut x = start;
        let mut p = M3::identity() * 0.1;
        for _ in 0..10 {
            let (odom, dt) = (r.vector(5.0), 1.0 / 64.0);
            sl.predict(lib(odom), s(dt));
            x += odom * dt;
            p += M3::identity() * (0.08 * dt);
            let (anchor, z, r_var) = (r.vector(12.0), 8.0 + r.number(3.0), 0.01f32);
            sl.update_range(lib(anchor), s(z), s(r_var));
            let d = x - anchor;
            let rng = d.length().max(1e-3);
            let h = N3::new(d.x / rng, d.y / rng, d.z / rng);
            let pht = p * h;
            let var = h.dot(&pht) + r_var;
            let k = pht / var;
            let y = N3::new(x.x, x.y, x.z) + k * (z - rng);
            x = Glam::new(y[0], y[1], y[2]);
            p = (M3::identity() - k * h.transpose()) * p;
            assert!(same_vec(sl.x, x));
            assert!(same_mat(sl.p, &p));
        }
    }
}

#[test]
fn a_range_without_variance_is_skipped() {
    let mut sl = SelfLoc::new(lib(Glam::new(1.0, 2.0, 3.0)), Vec3::origin());
    sl.p = Mat3::nil();
    sl.update_range(Vec3::origin(), s(9.0), s(0.0));
    assert!(same_vec(sl.x, Glam::new(1.0, 2.0, 3.0)));
}

fn intersect(xa: Glam, pa: M3, xb: Glam, pb: M3) -> (Glam, M3) {
    let (Some(ia), Some(ib)) = (pa.try_inverse(), pb.try_inverse()) else {
        return (xa, pa);
    };
    let mut best_w = 1.0;
    let mut best_det = f32::INFINITY;
    for i in 0..=10 {
        let w = i as f32 / 10.0;
        if let Some(p) = (ia * w + ib * (1.0 - w)).try_inverse() {
            let det = p.determinant();
            if det < best_det {
                best_det = det;
                best_w = w;
            }
        }
    }
    let info = ia * best_w + ib * (1.0 - best_w);
    let Some(p) = info.try_inverse() else { return (xa, pa) };
    let a = N3::new(xa.x, xa.y, xa.z);
    let b = N3::new(xb.x, xb.y, xb.z);
    let x = p * (ia * a * best_w + ib * b * (1.0 - best_w));
    (Glam::new(x[0], x[1], x[2]), p)
}

#[test]
fn covariance_intersection_is_exact() {
    let mut r = Rolls(0x0f1e_2d3c);
    for _ in 0..60 {
        let (xa, xb) = (r.vector(8.0), r.vector(8.0));
        let (pa, pb) = (r.covariance(), r.covariance());
        let (x, p) = covariance_intersection(lib(xa), lib_mat(&pa), lib(xb), lib_mat(&pb));
        let (y, q) = intersect(xa, pa, xb, pb);
        assert!(same_vec(x, y));
        assert!(same_mat(p, &q));
    }
    // An estimate that cannot be weighed leaves the first one as it is.
    let (xa, xb) = (Glam::new(1.0, 2.0, 3.0), Glam::new(4.0, 5.0, 6.0));
    let pa = M3::identity();
    let (x, p) = covariance_intersection(lib(xa), lib_mat(&pa), lib(xb), Mat3::nil());
    assert!(same_vec(x, xa) && same_mat(p, &pa));
    let (x, p) = covariance_intersection(lib(xa), Mat3::nil(), lib(xb), lib_mat(&pa));
    assert!(same_vec(x, xa) && same_mat(p, &M3::zeros()));
}

#[test]
fn beliefs_fuse_exactly() {
    let mut r = Rolls(0x5555_1234);
    for _ in 0..100 {
        let (pa, pb) = (r.vector(12.0), r.vector(12.0));
        let (va, vb) = (r.number(4.0) + 5.0, r.number(1.0) + 1.5);
        let g = fuse_belief(
            GoalBelief { pos: lib(pa), var: s(va) },
            GoalBelief { pos: lib(pb), var: s(vb) },
        );
        let var = 1.0 / (1.0 / va + 1.0 / vb);
        assert!(same(g.var, var));
        assert!(same_vec(g.pos, (pa / va + pb / vb) * var));
    }
}

fn collision(rel: Glam, w: Glam, radius: f32, horizon: f32) -> f32 {
    let pp = rel.length_squared();
    let rr = radius * radius;
    if pp <= rr {
        return 0.0;
    }
    let a = w.length_squared();
    if a < 1e-6 {
        return f32::INFINITY;
    }
    let b = -2.0 * rel.dot(w);
    let c = pp - rr;
    let disc = b * b - 4.0 * a * c;
    if disc < 0.0 {
        return f32::INFINITY;
    }
    let sq = disc.sqrt();
    let t1 = (-b - sq) / (2.0 * a);
    let t2 = (-b + sq) / (2.0 * a);
    let t_enter = if t1 > 0.0 {
        t1
    } else if t2 > 0.0 {
        t2
    } else {
        return f32::INFINITY;
    };
    if t_enter > horizon {
        f32::INFINITY
    } else {
        t_enter
    }
}

struct Block {
    rel: Glam,
    vel: Glam,
    radius: f32,
    planar: bool,
}

fn avoid(v_pref: Glam, v_cur: Glam, blocks: &[Block]) -> Glam {
    let mut planes: Vec<(Glam, f32)> = Vec::new();
    for c in blocks {
        let level = |a: Glam| Glam::new(a.x, 0.0, a.z);
        let (rel, other, own) = if c.planar {
            (level(c.rel), level(c.vel), level(v_cur))
        } else {
            (c.rel, c.vel, v_cur)
        };
        let dist = rel.length();
        if dist < 1e-3 {
            continue;
        }
        if collision(rel, own - other, c.radius, 2.5).is_infinite() {
            continue;
        }
        let n = rel / dist;
        planes.push((n, other.dot(n) + (dist - c.radius) / 2.5));
    }
    if planes.is_empty() {
        return v_pref.clamp_length_max(7.0);
    }
    let mut v = v_pref;
    for _ in 0..16 {
        for &(n, b) in &planes {
            let excess = v.dot(n) - b;
            if excess > 0.0 {
                v -= n * excess;
            }
        }
        v = v.clamp_length_max(7.0);
    }
    v
}

#[test]
fn avoidance_is_exact() {
    let mut r = Rolls(0x3141_5926);
    let mut turned = 0;
    for _ in 0..120 {
        let (v_pref, v_cur) = (r.vector(6.0), r.vector(5.0));
        let blocks: Vec<Block> = (0..6)
            .map(|i| Block {
                rel: r.vector(4.5),
                vel: r.vector(3.0),
                radius: 1.5 + r.number(0.5),
                planar: i % 2 == 0,
            })
            .collect();
        for b in &blocks {
            let w = v_cur - b.vel;
            let t = time_to_collision(lib(b.rel), lib(w), s(b.radius), s(2.5));
            assert!(same(t, collision(b.rel, w, b.radius, 2.5)));
        }
        let constraints: Vec<VoConstraint> = blocks
            .iter()
            .map(|b| VoConstraint {
                rel: lib(b.rel),
                vel: lib(b.vel),
                radius: s(b.radius),
                planar: b.planar,
            })
            .collect();
        let flown = avoid(v_pref, v_cur, &blocks);
        assert!(same_vec(select_safe_velocity(lib(v_pref), lib(v_cur), &constraints), flown));
        if flown != v_pref.clamp_length_max(7.0) {
            turned += 1;
        }
    }
    assert!(turned > 10, "too few of the cases needed any avoidance: {turned}");
}

#[test]
fn nothing_in_the_way_only_caps_the_speed() {
    let v_pref = Glam::new(9.0, 0.0, 0.0);
    let flown = select_safe_velocity(lib(v_pref), Vec3::origin(), &Vec::new());
    assert!(same_vec(flown, v_pref.clamp_length_max(7.0)));
    // A body at the drone's own place has no direction to avoid.
    let here = VoConstraint {
        rel: Vec3::origin(),
        vel: Vec3::origin(),
        radius: s(1.0),
        planar: false,
    };
    let slow = Glam::new(2.0, 1.0, 0.0);
    assert!(same_vec(select_safe_velocity(lib(slow), lib(slow), &vec![here]), slow));
}

#[test]
fn walls_push_exactly() {
    let push = |p: Glam| {
        let m = 2.5f32;
        let one = |x: f32, low: f32, high: f32| {
            let mut push = 0.0f32;
            if x > high - m {
                push -= (x - (high - m)) / m;
            } else if x < low + m {
                push += ((low + m) - x) / m;
            }
            push
        };
        Glam::new(one(p.x, -14.0, 14.0), one(p.y, 1.0, 16.0), one(p.z, -14.0, 14.0))
    };
    let mut r = Rolls(0x2718_2818);
    for _ in 0..200 {
        let p = r.vector(17.0);
        assert!(same_vec(boundary_push(lib(p)), push(p)));
    }
    // None in the middle; inward at each wall; stronger nearer to it.
    let at = |x: f32, y: f32, z: f32| boundary_push(lib(Glam::new(x, y, z)));
    assert!(same_vec(at(0.0, 8.0, 0.0), Glam::ZERO));
    assert_eq!(f(at(14.0, 8.0, 0.0).x), -1.0);
    assert_eq!(f(at(-14.0, 8.0, 0.0).x), 1.0);
    assert_eq!(f(at(0.0, 16.0, 0.0).y), -1.0);
    assert_eq!(f(at(0.0, 1.0, 0.0).y), 1.0);
    assert!(f(at(13.5, 8.0, 0.0).x) < f(at(12.5, 8.0, 0.0).x));
    assert!(f(at(-13.5, 8.0, 0.0).x) > f(at(-12.5, 8.0, 0.0).x));
}
