use drone_swarm::scalar::Scalar;

fn s(x: f32) -> Scalar {
    Scalar::from_bits(x.to_bits())
}

fn f(x: Scalar) -> f32 {
    f32::from_bits(x.to_bits())
}

fn same(a: f32, b: f32) -> bool {
    (a.is_nan() && b.is_nan()) || a.to_bits() == b.to_bits()
}

/// Bit patterns that reach every kind of number.
fn patterns() -> Vec<u32> {
    let mut v: Vec<u32> = vec![
        0, 1, 2, 3, 0x7f_fffe, 0x7f_ffff, 0x80_0000, 0x80_0001, 0xff_ffff, 0x100_0000, 0x3f80_0000,
        0x3f7f_ffff, 0x3f80_0001, 0x4000_0000, 0x4049_0fdb, 0x7f7f_ffff, 0x7f7f_fffe, 0x7f00_0000,
        0x7f80_0000, 0x7fc0_0000, 0x7f80_0001, 0x3380_0000, 0x3400_0000, 0x4b80_0000, 0x4b7f_ffff,
        0x3eaa_aaab, 0x5f00_0000, 0x1f80_0000, 0x2000_0000,
    ];
    let mut x: u32 = 0x1234_5678;
    for _ in 0..400 {
        x ^= x << 13;
        x ^= x >> 17;
        x ^= x << 5;
        v.push(x % 0x8000_0000);
        // One near unit size, so that sums meet in the middle.
        v.push(0x3e00_0000 + x % 0x0300_0000);
    }
    let n = v.len();
    for i in 0..n {
        v.push(v[i] + 0x8000_0000);
    }
    v
}

#[test]
fn sums_and_differences_are_ieee() {
    for &a in patterns().iter() {
        for &b in patterns().iter() {
            let (x, y) = (f32::from_bits(a), f32::from_bits(b));
            assert!(same(f(s(x) + s(y)), x + y), "{x:?} + {y:?}");
            assert!(same(f(s(x) - s(y)), x - y), "{x:?} - {y:?}");
        }
    }
}

#[test]
fn products_and_quotients_are_ieee() {
    for &a in patterns().iter() {
        for &b in patterns().iter() {
            let (x, y) = (f32::from_bits(a), f32::from_bits(b));
            assert!(same(f(s(x) * s(y)), x * y), "{x:?} * {y:?}");
            assert!(same(f(s(x) / s(y)), x / y), "{x:?} / {y:?}");
        }
    }
}

#[test]
fn roots_are_ieee() {
    for &a in patterns().iter() {
        let x = f32::from_bits(a);
        assert!(same(f(s(x).sqrt()), x.sqrt()), "sqrt {x:?}");
        assert!(same(f(s(x).negate()), -x), "- {x:?}");
    }
    for i in 0..200_000u32 {
        let x = f32::from_bits(i * 10_007);
        assert!(same(f(s(x).sqrt()), x.sqrt()), "sqrt {x:?}");
    }
}

#[test]
fn comparisons_are_ieee() {
    for &a in patterns().iter() {
        for &b in patterns().iter() {
            let (x, y) = (f32::from_bits(a), f32::from_bits(b));
            assert_eq!(s(x).lt(s(y)), x < y);
            assert_eq!(s(x).le(s(y)), x <= y);
            assert_eq!(s(x).gt(s(y)), x > y);
            let (m, n) = (f(s(x).max(s(y))), f(s(x).min(s(y))));
            assert!(same(m, x.max(y)) || m == x.max(y));
            assert!(same(n, x.min(y)) || n == x.min(y));
        }
    }
}

#[test]
fn literals_are_ieee() {
    assert!(same(f(Scalar::from_whole(7)), 7.0));
    assert!(same(f(Scalar::from_whole(u32::MAX as u64)), u32::MAX as f32));
    for n in [u64::MAX, 1 << 62, (1 << 62) + (1 << 38), (1 << 62) + (1 << 38) + 1, (3 << 62) - 1] {
        assert!(same(f(Scalar::from_whole(n)), n as f32));
    }
    assert!(same(f(s(9.0).clamp(s(0.55), s(1.0))), 1.0));
    assert!(same(f(s(0.1).clamp(s(0.55), s(1.0))), 0.55));
    assert!(f(s(f32::NAN).clamp(s(0.55), s(1.0))).is_nan());
    assert!(s(0.0).is_zero() && s(-0.0).is_zero() && !s(1e-45).is_zero());
    assert!(Scalar::infinity().is_infinite() && !Scalar::infinity().is_finite());
    assert!(same(f(Scalar::zero()), 0.0));
}
