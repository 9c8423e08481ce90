//! Uncertainty: noise and lost packets, made of uniform draws.
use crate::config::PACKET_LOSS;
use crate::number::{at_most, decode, less, zero, Number};
use crate::scalar::Scalar;
use crate::vector::{Vec3, V3};
use vstd::prelude::*;

verus! {

/// Noise of standard deviation about `std` from two draws between -1 and 1.
pub open spec fn noise_of(u: Number, v: Number, std: Number) -> Number {
    if at_most(std, zero()) {
        zero()
    } else {
        (u + v) * std
    }
}

/// Approximately Gaussian noise: the sum of two uniform draws between -1 and 1,
/// scaled.
pub fn gauss(u: Scalar, v: Scalar, std: Scalar) -> (r: Scalar)
    ensures
        r@ == noise_of(u@, v@, std@),
{
    if std.le(Scalar::zero()) {
        Scalar::zero()
    } else {
        (u + v) * std
    }
}

/// Two uniform draws between -1 and 1 for each axis.
#[derive(Clone, Copy, Debug)]
pub struct Jitter {
    pub first: Vec3,
    pub second: Vec3,
}

#[verifier::ext_equal]
pub struct Draws {
    pub first: V3,
    pub second: V3,
}

impl View for Jitter {
    type V = Draws;

    open spec fn view(&self) -> Draws {
        Draws { first: self.first@, second: self.second@ }
    }
}

impl Draws {
    /// Noise with its own standard deviation on each axis.
    pub open spec fn noise(self, x: Number, y: Number, z: Number) -> V3 {
        V3 {
            x: noise_of(self.first.x, self.second.x, x),
            y: noise_of(self.first.y, self.second.y, y),
            z: noise_of(self.first.z, self.second.z, z),
        }
    }
}

impl Jitter {
    /// Noise with its own standard deviation on each axis.
    pub fn noise(&self, x: Scalar, y: Scalar, z: Scalar) -> (r: Vec3)
        ensures
            r@ == self@.noise(x@, y@, z@),
    {
        Vec3::new(
            gauss(self.first.x, self.second.x, x),
            gauss(self.first.y, self.second.y, y),
            gauss(self.first.z, self.second.z, z),
        )
    }
}

/// Whether a packet with this draw is lost.
pub open spec fn is_lost(noise: bool, draw: Number) -> bool {
    noise && less(draw, decode(PACKET_LOSS))
}

/// Whether a packet is lost, given a uniform draw between 0 and 1.
pub fn packet_lost(noise: bool, draw: Scalar) -> (r: bool)
    ensures
        r == is_lost(noise, draw@),
{
    noise && draw.lt(Scalar::from_bits(PACKET_LOSS))
}

/// Without a standard deviation there is no noise, whatever was drawn.
pub proof fn law_no_deviation_no_noise(d: Draws)
    ensures
        d.noise(zero(), zero(), zero()) == V3::origin(),
{
    reveal(less);
}

/// With uncertainty switched off every packet arrives.
pub proof fn law_quiet_loses_nothing(draw: Number)
    ensures
        !is_lost(false, draw),
{
}

} // verus!
