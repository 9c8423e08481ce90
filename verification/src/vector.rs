//! Vectors in space.
use crate::number::{less, square_root, Number};
use crate::scalar::Scalar;
use vstd::prelude::*;

verus! {

/// A vector of numbers.
#[verifier::ext_equal]
pub struct V3 {
    pub x: Number,
    pub y: Number,
    pub z: Number,
}

impl V3 {
    pub open spec fn spec_add(self, other: V3) -> V3 {
        V3 { x: self.x + other.x, y: self.y + other.y, z: self.z + other.z }
    }

    pub open spec fn spec_sub(self, other: V3) -> V3 {
        V3 { x: self.x - other.x, y: self.y - other.y, z: self.z - other.z }
    }

    /// Each component times `k`.
    pub open spec fn spec_mul(self, k: Number) -> V3 {
        V3 { x: self.x * k, y: self.y * k, z: self.z * k }
    }

    /// Each component divided by `k`.
    pub open spec fn spec_euclidean_or_real_div(self, k: Number) -> V3 {
        V3 { x: self.x / k, y: self.y / k, z: self.z / k }
    }

    pub open spec fn dot(self, other: V3) -> Number {
        self.x * other.x + self.y * other.y + self.z * other.z
    }

    pub open spec fn length_squared(self) -> Number {
        self.dot(self)
    }

    pub open spec fn length(self) -> Number {
        square_root(self.dot(self))
    }

    pub open spec fn distance_squared(self, other: V3) -> Number {
        (self - other).length_squared()
    }

    pub open spec fn distance(self, other: V3) -> Number {
        (self - other).length()
    }

    /// This vector, or one of length `max` in its direction where it is longer.
    pub open spec fn clamp_length_max(self, max: Number) -> V3 {
        if less(max * max, self.length_squared()) {
            (self / square_root(self.length_squared())) * max
        } else {
            self
        }
    }

    /// The horizontal part.
    pub open spec fn level(self) -> V3 {
        V3 { x: self.x, y: crate::number::zero(), z: self.z }
    }

    pub open spec fn origin() -> V3 {
        V3 { x: crate::number::zero(), y: crate::number::zero(), z: crate::number::zero() }
    }

    /// The upward unit vector.
    pub open spec fn up() -> V3 {
        V3 { x: crate::number::zero(), y: crate::number::one(), z: crate::number::zero() }
    }
}

/// A vector in space; y points up.
#[derive(Clone, Copy, Debug)]
pub struct Vec3 {
    pub x: Scalar,
    pub y: Scalar,
    pub z: Scalar,
}

impl View for Vec3 {
    type V = V3;

    open spec fn view(&self) -> V3 {
        V3 { x: self.x@, y: self.y@, z: self.z@ }
    }
}

impl Vec3 {
    pub fn new(x: Scalar, y: Scalar, z: Scalar) -> (r: Vec3)
        ensures
            r@ == (V3 { x: x@, y: y@, z: z@ }),
    {
        Vec3 { x, y, z }
    }

    /// The vector whose components have these bit patterns.
    pub fn from_bits(x: u32, y: u32, z: u32) -> (r: Vec3)
        ensures
            r@ == crate::vector::literal(x, y, z),
    {
        Vec3 { x: Scalar::from_bits(x), y: Scalar::from_bits(y), z: Scalar::from_bits(z) }
    }

    pub fn origin() -> (r: Vec3)
        ensures
            r@ == V3::origin(),
    {
        Vec3 { x: Scalar::zero(), y: Scalar::zero(), z: Scalar::zero() }
    }

    /// The upward unit vector.
    pub fn up() -> (r: Vec3)
        ensures
            r@ == V3::up(),
    {
        Vec3 { x: Scalar::zero(), y: Scalar::one(), z: Scalar::zero() }
    }

    pub fn dot(self, other: Vec3) -> (r: Scalar)
        ensures
            r@ == self@.dot(other@),
    {
        self.x * other.x + self.y * other.y + self.z * other.z
    }

    pub fn length_squared(self) -> (r: Scalar)
        ensures
            r@ == self@.length_squared(),
    {
        self.dot(self)
    }

    pub fn length(self) -> (r: Scalar)
        ensures
            r@ == self@.length(),
    {
        self.dot(self).sqrt()
    }

    pub fn distance_squared(self, other: Vec3) -> (r: Scalar)
        ensures
            r@ == self@.distance_squared(other@),
    {
        (self - other).length_squared()
    }

    pub fn distance(self, other: Vec3) -> (r: Scalar)
        ensures
            r@ == self@.distance(other@),
    {
        (self - other).length()
    }

    /// This vector, or one of length `max` in its direction where it is longer.
    pub fn clamp_length_max(self, max: Scalar) -> (r: Vec3)
        ensures
            r@ == self@.clamp_length_max(max@),
    {
        let squared = self.length_squared();
        if squared.gt(max * max) {
            (self / squared.sqrt()) * max
        } else {
            self
        }
    }

    /// The horizontal part.
    pub fn level(self) -> (r: Vec3)
        ensures
            r@ == self@.level(),
    {
        Vec3 { x: self.x, y: Scalar::zero(), z: self.z }
    }
}

/// The vector whose components have these bit patterns.
pub open spec fn literal(x: u32, y: u32, z: u32) -> V3 {
    V3 { x: crate::number::decode(x), y: crate::number::decode(y), z: crate::number::decode(z) }
}

impl core::ops::Add for Vec3 {
    type Output = Vec3;

    fn add(self, other: Vec3) -> (r: Vec3)
        ensures
            r@ == self@ + other@,
    {
        Vec3 { x: self.x + other.x, y: self.y + other.y, z: self.z + other.z }
    }
}

impl vstd::std_specs::ops::AddSpecImpl for Vec3 {
    open spec fn obeys_add_spec() -> bool {
        false
    }

    open spec fn add_req(self, other: Vec3) -> bool {
        true
    }

    open spec fn add_spec(self, other: Vec3) -> Vec3 {
        self
    }
}

impl core::ops::Sub for Vec3 {
    type Output = Vec3;

    fn sub(self, other: Vec3) -> (r: Vec3)
        ensures
            r@ == self@ - other@,
    {
        Vec3 { x: self.x - other.x, y: self.y - other.y, z: self.z - other.z }
    }
}

impl vstd::std_specs::ops::SubSpecImpl for Vec3 {
    open spec fn obeys_sub_spec() -> bool {
        false
    }

    open spec fn sub_req(self, other: Vec3) -> bool {
        true
    }

    open spec fn sub_spec(self, other: Vec3) -> Vec3 {
        self
    }
}

impl core::ops::Mul<Scalar> for Vec3 {
    type Output = Vec3;

    fn mul(self, k: Scalar) -> (r: Vec3)
        ensures
            r@ == self@ * k@,
    {
        Vec3 { x: self.x * k, y: self.y * k, z: self.z * k }
    }
}

impl vstd::std_specs::ops::MulSpecImpl<Scalar> for Vec3 {
    open spec fn obeys_mul_spec() -> bool {
        false
    }

    open spec fn mul_req(self, k: Scalar) -> bool {
        true
    }

    open spec fn mul_spec(self, k: Scalar) -> Vec3 {
        self
    }
}

impl core::ops::Div<Scalar> for Vec3 {
    type Output = Vec3;

    fn div(self, k: Scalar) -> (r: Vec3)
        ensures
            r@ == self@ / k@,
    {
        Vec3 { x: self.x / k, y: self.y / k, z: self.z / k }
    }
}

impl vstd::std_specs::ops::DivSpecImpl<Scalar> for Vec3 {
    open spec fn obeys_div_spec() -> bool {
        false
    }

    open spec fn div_req(self, k: Scalar) -> bool {
        true
    }

    open spec fn div_spec(self, k: Scalar) -> Vec3 {
        self
    }
}

} // verus!
