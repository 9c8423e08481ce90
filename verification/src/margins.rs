//! How wide a berth is given, how vague a sighting is and how long a track is kept.
use crate::config::{
    BEARING_STD, DRONE_RADIUS, MIN_FIX_VAR, RANGE_STD, TRACK_TIMEOUT, TWO, VO_BASE_MARGIN,
    VO_SIGMA_INFLATE,
};
use crate::error::{
    eps, lemma_less_value, lemma_no_value, lemma_root_error, lemma_units, size, value,
};
use crate::metric::lemma_product_size;
use crate::neighbors::is_fresh;
use crate::number::{decode, larger, limit, zero, Number};
use crate::quad::safety_radius;
use crate::slam::sighting_var;
use crate::tolerance::{lemma_difference_near, lemma_product_near, lemma_sum_near};
use crate::track::{spread, Estimate};
use vstd::arithmetic::power2::{lemma2_to64, lemma_pow2_adds, pow2};
use vstd::prelude::*;

verus! {

/// Whether two values agree to one part in a million.
pub open spec fn agree(a: real, b: real) -> bool {
    size(a - b) <= (1 as real) / (1_000_000 as real)
}

/// The settings: bodies of 0.28 m, 0.9 m between them, two standard deviations, 0.12 m
/// of range, 0.07 of bearing, and two seconds.
proof fn lemma_settings()
    ensures
        agree(value(decode(DRONE_RADIUS)), (28 as real) / (100 as real)),
        agree(value(decode(VO_BASE_MARGIN)), (9 as real) / (10 as real)),
        agree(value(decode(RANGE_STD)), (12 as real) / (100 as real)),
        agree(value(decode(BEARING_STD)), (7 as real) / (100 as real)),
        value(decode(TWO)) == 2 as real,
        value(decode(VO_SIGMA_INFLATE)) == 2 as real,
        value(decode(TRACK_TIMEOUT)) == 2 as real,
        value(decode(MIN_FIX_VAR)) <= (1 as real) / (1000 as real),
{
    lemma2_to64();
    lemma_pow2_adds(32, 5);
    assert(pow2(22) as real == 0x40_0000 as real);
    assert(pow2(24) as real == 0x100_0000 as real);
    assert(pow2(25) as real == 0x200_0000 as real);
    assert(pow2(27) as real == 0x800_0000 as real);
    assert(pow2(37) as real == 0x20_0000_0000 as real);
    lemma_units(decode(DRONE_RADIUS), 0x8f_5c29, 124, 25);
    lemma_units(decode(VO_BASE_MARGIN), 0xe6_6666, 125, 24);
    lemma_units(decode(RANGE_STD), 0xf5_c28f, 122, 27);
    lemma_units(decode(BEARING_STD), 0x8f_5c29, 122, 27);
    lemma_units(decode(TWO), 0x80_0000, 127, 22);
    lemma_units(decode(VO_SIGMA_INFLATE), 0x80_0000, 127, 22);
    lemma_units(decode(TRACK_TIMEOUT), 0x80_0000, 127, 22);
    lemma_units(decode(MIN_FIX_VAR), 0xd1_b717, 112, 37);
}

/// The standard deviation of a variance of at most `w * w`.
proof fn lemma_deviation(worst: Number, w: real)
    requires
        worst is Finite,
        worst->mag < limit(),
        value(worst) > 0 as real,
        value(worst) <= w * w,
        w >= 1 as real,
    ensures
        ({
            let s = value(spread(worst));
            &&& spread(worst) is Finite
            &&& s > 0 as real
            &&& s <= 2 as real * w
            &&& size(s * s - value(worst)) <= 4 as real * (value(worst) * eps())
        }),
{
    let (v, e) = (value(worst), eps());
    lemma_no_value(zero());
    lemma_less_value(worst, zero());
    lemma_root_error(worst);
    let s = value(spread(worst));
    assert(v * (4 as real * e) == 4 as real * (v * e) && 4 as real * (v * e) <= v)
        by (nonlinear_arith)
        requires
            v > 0 as real,
            e == (1 as real) / (0x100_0000 as real),
    ;
    assert(s <= 2 as real * w) by (nonlinear_arith)
        requires
            s * s <= 2 as real * (w * w),
            s > 0 as real,
            w >= 1 as real,
    ;
}

/// The berth given to a neighbour: both bodies, 0.9 m between them, and two standard
/// deviations of where the neighbour is. The result is that deviation.
pub proof fn law_berth_covers_bodies_and_doubt(worst: Number, w: real) -> (s: real)
    requires
        worst is Finite,
        worst->mag < limit(),
        value(worst) > 0 as real,
        value(worst) <= w * w,
        w >= 1 as real,
        w <= 0x10_0000 as real,
    ensures
        s > 0 as real,
        size(s * s - value(worst)) <= 4 as real * (value(worst) * eps()),
        safety_radius(worst) is Finite,
        size(value(safety_radius(worst)) - ((146 as real) / (100 as real) + 2 as real * s)) <= w / (
        100 as real),
{
    lemma_settings();
    lemma_deviation(worst, w);
    let s = value(spread(worst));
    let (a, g, k) = (decode(DRONE_RADIUS), decode(VO_BASE_MARGIN), decode(VO_SIGMA_INFLATE));
    let t = decode(TWO);
    lemma_product_near(t, a, 1 as real);
    lemma_sum_near(t * a, g, 2 as real);
    let m = 4 as real * w;
    lemma_product_near(k, spread(worst), m);
    let n = 5 as real * w;
    let b = t * a + g;
    lemma_sum_near(b, k * spread(worst), 2 as real * n);
    lemma_few_ulps(w);
    s
}

proof fn lemma_few_ulps(w: real)
    requires
        w >= 1 as real,
    ensures
        2 as real * ((4 as real * w) * eps()) <= w / (10_000 as real),
        2 as real * ((2 as real * (5 as real * w)) * eps()) <= w / (10_000 as real),
        2 as real * (1 as real * eps()) <= w / (10_000 as real),
        2 as real * (2 as real * eps()) <= w / (10_000 as real),
{
    let (e, we) = (eps(), w * eps());
    assert((4 as real * w) * e == 4 as real * we && (2 as real * (5 as real * w)) * e == 10 as real
        * we && we <= w / (1_000_000 as real) && e <= we) by (nonlinear_arith)
        requires
            we == w * e,
            w >= 1 as real,
            e == (1 as real) / (0x100_0000 as real),
    ;
}

/// A track is kept for two seconds after it was last confirmed.
pub proof fn law_track_is_kept_two_seconds(e: Estimate, now: Number)
    requires
        now is Finite,
        e.last_seen is Finite,
        size(value(now) - value(e.last_seen)) <= 0x1000 as real,
    ensures
        value(now) - value(e.last_seen) <= 2 as real - (1 as real) / (1000 as real) ==> is_fresh(
            e,
            now,
        ),
        value(now) - value(e.last_seen) >= 2 as real + (1 as real) / (1000 as real) ==> !is_fresh(
            e,
            now,
        ),
{
    lemma_settings();
    let m = 0x1000 as real;
    lemma_difference_near(now, e.last_seen, m);
    let p = eps();
    assert(2 as real * (m * p) <= (1 as real) / (1000 as real)) by (nonlinear_arith)
        requires
            m == 0x1000 as real,
            p == (1 as real) / (0x100_0000 as real),
    ;
    lemma_less_value(decode(TRACK_TIMEOUT), now - e.last_seen);
}

/// The deviation of a sighting from this range: 0.12 m, or 0.07 of the range where that
/// is more.
pub open spec fn blur(r: real) -> real {
    let (a, b) = ((12 as real) / (100 as real), r * ((7 as real) / (100 as real)));
    if b <= a {
        a
    } else {
        b
    }
}

/// A sighting is as vague as its range and its bearing.
pub proof fn law_sighting_is_as_vague_as_its_range(range: Number)
    requires
        range is Finite,
        value(range) >= 0 as real,
        value(range) <= 16 as real,
    ensures
        sighting_var(range) is Finite,
        size(value(sighting_var(range)) - blur(value(range)) * blur(value(range))) <= (1 as real) / (
        1000 as real),
{
    lemma_settings();
    let (a, b, r) = (decode(RANGE_STD), decode(BEARING_STD), value(range));
    let (m, e) = (16 as real, eps());
    lemma_product_size(r, value(b), m, 1 as real);
    lemma_product_near(range, b, m);
    assert(2 as real * (m * e) <= (1 as real) / (100_000 as real)) by (nonlinear_arith)
        requires
            m == 16 as real,
            e == (1 as real) / (0x100_0000 as real),
    ;
    let t = range * b;
    let c = value(b) - (7 as real) / (100 as real);
    lemma_product_size(r, c, m, (1 as real) / (1_000_000 as real));
    assert(r * value(b) == r * ((7 as real) / (100 as real)) + r * c) by (nonlinear_arith)
        requires
            c == value(b) - (7 as real) / (100 as real),
    ;
    lemma_less_value(a, t);
    let s = larger(a, t);
    let (x, y) = (value(s), blur(r));
    assert(y <= 2 as real && y >= (12 as real) / (100 as real));
    assert(size(x - y) <= (1 as real) / (10_000 as real));
    lemma_product_size(x - y, x + y, (1 as real) / (10_000 as real), 5 as real);
    assert(x * x - y * y == (x - y) * (x + y)) by (nonlinear_arith);
    lemma_product_size(x, x, 3 as real, 3 as real);
    let q = 9 as real;
    lemma_product_near(s, s, q);
    assert(2 as real * (q * e) <= (1 as real) / (100_000 as real)) by (nonlinear_arith)
        requires
            q == 9 as real,
            e == (1 as real) / (0x100_0000 as real),
    ;
    assert(x * x >= (1 as real) / (100 as real)) by (nonlinear_arith)
        requires
            x >= (11 as real) / (100 as real),
    ;
    lemma_less_value(s * s, decode(MIN_FIX_VAR));
}

} // verus!
