//! Three-by-three matrices, and six-dimensional ones made of such blocks.
//!
//! Products add their terms from left to right.
use crate::number::{one, zero, Number};
use crate::scalar::Scalar;
use crate::vector::{Vec3, V3};
use vstd::prelude::*;

verus! {

/// A matrix of numbers, by rows.
#[verifier::ext_equal]
pub struct M3 {
    pub r0: V3,
    pub r1: V3,
    pub r2: V3,
}

/// A three-by-three matrix, by rows.
#[derive(Clone, Copy, Debug)]
pub struct Mat3 {
    pub r0: Vec3,
    pub r1: Vec3,
    pub r2: Vec3,
}

impl View for Mat3 {
    type V = M3;

    open spec fn view(&self) -> M3 {
        M3 { r0: self.r0@, r1: self.r1@, r2: self.r2@ }
    }
}

/// `acc` and the terms of a dot product, added one by one.
pub open spec fn dot_onto(acc: Number, a: V3, b: V3) -> Number {
    acc + a.x * b.x + a.y * b.y + a.z * b.z
}

impl M3 {
    pub open spec fn diagonal(x: Number, y: Number, z: Number) -> M3 {
        M3 {
            r0: V3 { x, y: zero(), z: zero() },
            r1: V3 { x: zero(), y, z: zero() },
            r2: V3 { x: zero(), y: zero(), z },
        }
    }

    pub open spec fn identity() -> M3 {
        M3::diagonal(one(), one(), one())
    }

    pub open spec fn nil() -> M3 {
        M3::diagonal(zero(), zero(), zero())
    }

    pub open spec fn spec_add(self, other: M3) -> M3 {
        M3 { r0: self.r0 + other.r0, r1: self.r1 + other.r1, r2: self.r2 + other.r2 }
    }

    pub open spec fn spec_sub(self, other: M3) -> M3 {
        M3 { r0: self.r0 - other.r0, r1: self.r1 - other.r1, r2: self.r2 - other.r2 }
    }

    /// Each entry times `k`.
    pub open spec fn scaled(self, k: Number) -> M3 {
        M3 { r0: self.r0 * k, r1: self.r1 * k, r2: self.r2 * k }
    }

    pub open spec fn transposed(self) -> M3 {
        M3 {
            r0: V3 { x: self.r0.x, y: self.r1.x, z: self.r2.x },
            r1: V3 { x: self.r0.y, y: self.r1.y, z: self.r2.y },
            r2: V3 { x: self.r0.z, y: self.r1.z, z: self.r2.z },
        }
    }

    /// The matrix times a vector.
    pub open spec fn apply(self, v: V3) -> V3 {
        V3 { x: self.r0.dot(v), y: self.r1.dot(v), z: self.r2.dot(v) }
    }

    /// `acc` and the terms of the matrix times a vector, added one by one.
    pub open spec fn apply_onto(self, acc: V3, v: V3) -> V3 {
        V3 {
            x: dot_onto(acc.x, self.r0, v),
            y: dot_onto(acc.y, self.r1, v),
            z: dot_onto(acc.z, self.r2, v),
        }
    }

    /// The matrix product.
    pub open spec fn spec_mul(self, other: M3) -> M3 {
        let c = other.transposed();
        M3 { r0: c.rows_on(self.r0), r1: c.rows_on(self.r1), r2: c.rows_on(self.r2) }
    }

    /// `acc` and the terms of the matrix product, added one by one.
    pub open spec fn product_onto(self, acc: M3, other: M3) -> M3 {
        let c = other.transposed();
        M3 {
            r0: c.rows_on_onto(acc.r0, self.r0),
            r1: c.rows_on_onto(acc.r1, self.r1),
            r2: c.rows_on_onto(acc.r2, self.r2),
        }
    }

    /// The dot product of `v` with each row.
    pub open spec fn rows_on(self, v: V3) -> V3 {
        V3 { x: v.dot(self.r0), y: v.dot(self.r1), z: v.dot(self.r2) }
    }

    pub open spec fn rows_on_onto(self, acc: V3, v: V3) -> V3 {
        V3 {
            x: dot_onto(acc.x, v, self.r0),
            y: dot_onto(acc.y, v, self.r1),
            z: dot_onto(acc.z, v, self.r2),
        }
    }

    /// The column `u` times the row `v`.
    pub open spec fn outer(u: V3, v: V3) -> M3 {
        M3 {
            r0: V3 { x: u.x * v.x, y: u.x * v.y, z: u.x * v.z },
            r1: V3 { x: u.y * v.x, y: u.y * v.y, z: u.y * v.z },
            r2: V3 { x: u.z * v.x, y: u.z * v.y, z: u.z * v.z },
        }
    }

    /// The determinant, expanded along the first row.
    pub open spec fn determinant(self) -> Number {
        let (a, b, c) = (self.r0, self.r1, self.r2);
        a.x * (b.y * c.z - c.y * b.z) - a.y * (b.x * c.z - c.x * b.z) + a.z * (b.x * c.y - c.x * b.y)
    }

    /// The transposed matrix of cofactors.
    pub open spec fn adjugate(self) -> M3 {
        let (a, b, c) = (self.r0, self.r1, self.r2);
        M3 {
            r0: V3 {
                x: b.y * c.z - c.y * b.z,
                y: a.z * c.y - c.z * a.y,
                z: a.y * b.z - b.y * a.z,
            },
            r1: V3 {
                x: -(b.x * c.z - c.x * b.z),
                y: a.x * c.z - c.x * a.z,
                z: a.z * b.x - b.z * a.x,
            },
            r2: V3 {
                x: b.x * c.y - c.x * b.y,
                y: a.y * c.x - c.y * a.x,
                z: a.x * b.y - b.x * a.y,
            },
        }
    }

    pub open spec fn is_singular(self) -> bool {
        self.determinant() is Finite && self.determinant()->mag == 0
    }

    /// The inverse: the adjugate, each entry divided by the determinant.
    pub open spec fn inverse(self) -> M3 {
        let d = self.determinant();
        let m = self.adjugate();
        M3 { r0: m.r0 / d, r1: m.r1 / d, r2: m.r2 / d }
    }
}

fn dot_onto_exec(acc: Scalar, a: Vec3, b: Vec3) -> (r: Scalar)
    ensures
        r@ == dot_onto(acc@, a@, b@),
{
    acc + a.x * b.x + a.y * b.y + a.z * b.z
}

impl Mat3 {
    pub fn diagonal(x: Scalar, y: Scalar, z: Scalar) -> (r: Mat3)
        ensures
            r@ == M3::diagonal(x@, y@, z@),
    {
        let o = Scalar::zero();
        Mat3 { r0: Vec3::new(x, o, o), r1: Vec3::new(o, y, o), r2: Vec3::new(o, o, z) }
    }

    pub fn identity() -> (r: Mat3)
        ensures
            r@ == M3::identity(),
    {
        Mat3::diagonal(Scalar::one(), Scalar::one(), Scalar::one())
    }

    pub fn nil() -> (r: Mat3)
        ensures
            r@ == M3::nil(),
    {
        Mat3::diagonal(Scalar::zero(), Scalar::zero(), Scalar::zero())
    }

    /// The sum of the two matrices.
    pub fn plus(self, other: Mat3) -> (r: Mat3)
        ensures
            r@ == self@ + other@,
    {
        Mat3 { r0: self.r0 + other.r0, r1: self.r1 + other.r1, r2: self.r2 + other.r2 }
    }

    /// The difference of the two matrices.
    pub fn minus(self, other: Mat3) -> (r: Mat3)
        ensures
            r@ == self@ - other@,
    {
        Mat3 { r0: self.r0 - other.r0, r1: self.r1 - other.r1, r2: self.r2 - other.r2 }
    }

    /// Each entry times `k`.
    pub fn scale(self, k: Scalar) -> (r: Mat3)
        ensures
            r@ == self@.scaled(k@),
    {
        Mat3 { r0: self.r0 * k, r1: self.r1 * k, r2: self.r2 * k }
    }

    pub fn transpose(self) -> (r: Mat3)
        ensures
            r@ == self@.transposed(),
    {
        Mat3 {
            r0: Vec3::new(self.r0.x, self.r1.x, self.r2.x),
            r1: Vec3::new(self.r0.y, self.r1.y, self.r2.y),
            r2: Vec3::new(self.r0.z, self.r1.z, self.r2.z),
        }
    }

    /// The matrix times a vector.
    pub fn apply(self, v: Vec3) -> (r: Vec3)
        ensures
            r@ == self@.apply(v@),
    {
        Vec3::new(self.r0.dot(v), self.r1.dot(v), self.r2.dot(v))
    }

    /// `acc` and the terms of the matrix times a vector, added one by one.
    pub fn apply_onto(self, acc: Vec3, v: Vec3) -> (r: Vec3)
        ensures
            r@ == self@.apply_onto(acc@, v@),
    {
        Vec3::new(
            dot_onto_exec(acc.x, self.r0, v),
            dot_onto_exec(acc.y, self.r1, v),
            dot_onto_exec(acc.z, self.r2, v),
        )
    }

    fn rows_on(self, v: Vec3) -> (r: Vec3)
        ensures
            r@ == self@.rows_on(v@),
    {
        Vec3::new(v.dot(self.r0), v.dot(self.r1), v.dot(self.r2))
    }

    fn rows_on_onto(self, acc: Vec3, v: Vec3) -> (r: Vec3)
        ensures
            r@ == self@.rows_on_onto(acc@, v@),
    {
        Vec3::new(
            dot_onto_exec(acc.x, v, self.r0),
            dot_onto_exec(acc.y, v, self.r1),
            dot_onto_exec(acc.z, v, self.r2),
        )
    }

    /// The matrix product.
    pub fn times(self, other: Mat3) -> (r: Mat3)
        ensures
            r@ == self@ * other@,
    {
        let c = other.transpose();
        Mat3 { r0: c.rows_on(self.r0), r1: c.rows_on(self.r1), r2: c.rows_on(self.r2) }
    }

    /// `acc` and the terms of the matrix product, added one by one.
    pub fn times_onto(self, acc: Mat3, other: Mat3) -> (r: Mat3)
        ensures
            r@ == self@.product_onto(acc@, other@),
    {
        let c = other.transpose();
        Mat3 {
            r0: c.rows_on_onto(acc.r0, self.r0),
            r1: c.rows_on_onto(acc.r1, self.r1),
            r2: c.rows_on_onto(acc.r2, self.r2),
        }
    }

    /// The column `u` times the row `v`.
    pub fn outer(u: Vec3, v: Vec3) -> (r: Mat3)
        ensures
            r@ == M3::outer(u@, v@),
    {
        Mat3 {
            r0: Vec3::new(u.x * v.x, u.x * v.y, u.x * v.z),
            r1: Vec3::new(u.y * v.x, u.y * v.y, u.y * v.z),
            r2: Vec3::new(u.z * v.x, u.z * v.y, u.z * v.z),
        }
    }

    pub fn determinant(self) -> (r: Scalar)
        ensures
            r@ == self@.determinant(),
    {
        let (a, b, c) = (self.r0, self.r1, self.r2);
        a.x * (b.y * c.z - c.y * b.z) - a.y * (b.x * c.z - c.x * b.z) + a.z * (b.x * c.y - c.x * b.y)
    }

    fn adjugate(self) -> (r: Mat3)
        ensures
            r@ == self@.adjugate(),
    {
        let (a, b, c) = (self.r0, self.r1, self.r2);
        Mat3 {
            r0: Vec3::new(
                b.y * c.z - c.y * b.z,
                a.z * c.y - c.z * a.y,
                a.y * b.z - b.y * a.z,
            ),
            r1: Vec3::new(
                (b.x * c.z - c.x * b.z).negate(),
                a.x * c.z - c.x * a.z,
                a.z * b.x - b.z * a.x,
            ),
            r2: Vec3::new(
                b.x * c.y - c.x * b.y,
                a.y * c.x - c.y * a.x,
                a.x * b.y - b.x * a.y,
            ),
        }
    }

    /// The inverse, unless the determinant is zero.
    pub fn try_inverse(self) -> (r: Option<Mat3>)
        ensures
            r is None <==> self@.is_singular(),
            r matches Some(m) ==> m@ == self@.inverse(),
    {
        let d = self.determinant();
        if d.is_zero() {
            None
        } else {
            let m = self.adjugate();
            Some(Mat3 { r0: m.r0 / d, r1: m.r1 / d, r2: m.r2 / d })
        }
    }
}

/// A six-by-six matrix of numbers, in blocks for position and velocity.
#[verifier::ext_equal]
pub struct M6 {
    pub pp: M3,
    pub pv: M3,
    pub vp: M3,
    pub vv: M3,
}

/// A six-by-six matrix, in blocks for position and velocity.
#[derive(Clone, Copy, Debug)]
pub struct Mat6 {
    pub pp: Mat3,
    pub pv: Mat3,
    pub vp: Mat3,
    pub vv: Mat3,
}

impl View for Mat6 {
    type V = M6;

    open spec fn view(&self) -> M6 {
        M6 { pp: self.pp@, pv: self.pv@, vp: self.vp@, vv: self.vv@ }
    }
}

impl M6 {
    pub open spec fn identity() -> M6 {
        M6 { pp: M3::identity(), pv: M3::nil(), vp: M3::nil(), vv: M3::identity() }
    }

    pub open spec fn spec_add(self, other: M6) -> M6 {
        M6 {
            pp: self.pp + other.pp,
            pv: self.pv + other.pv,
            vp: self.vp + other.vp,
            vv: self.vv + other.vv,
        }
    }

    pub open spec fn spec_sub(self, other: M6) -> M6 {
        M6 {
            pp: self.pp - other.pp,
            pv: self.pv - other.pv,
            vp: self.vp - other.vp,
            vv: self.vv - other.vv,
        }
    }

    pub open spec fn spec_mul(self, other: M6) -> M6 {
        M6 {
            pp: self.pv.product_onto(self.pp * other.pp, other.vp),
            pv: self.pv.product_onto(self.pp * other.pv, other.vv),
            vp: self.vv.product_onto(self.vp * other.pp, other.vp),
            vv: self.vv.product_onto(self.vp * other.pv, other.vv),
        }
    }

    pub open spec fn transposed(self) -> M6 {
        M6 {
            pp: self.pp.transposed(),
            pv: self.vp.transposed(),
            vp: self.pv.transposed(),
            vv: self.vv.transposed(),
        }
    }
}

impl Mat6 {
    pub fn identity() -> (r: Mat6)
        ensures
            r@ == M6::identity(),
    {
        Mat6 { pp: Mat3::identity(), pv: Mat3::nil(), vp: Mat3::nil(), vv: Mat3::identity() }
    }

    pub fn plus(self, other: Mat6) -> (r: Mat6)
        ensures
            r@ == self@ + other@,
    {
        Mat6 {
            pp: self.pp.plus(other.pp),
            pv: self.pv.plus(other.pv),
            vp: self.vp.plus(other.vp),
            vv: self.vv.plus(other.vv),
        }
    }

    pub fn minus(self, other: Mat6) -> (r: Mat6)
        ensures
            r@ == self@ - other@,
    {
        Mat6 {
            pp: self.pp.minus(other.pp),
            pv: self.pv.minus(other.pv),
            vp: self.vp.minus(other.vp),
            vv: self.vv.minus(other.vv),
        }
    }

    pub fn times(self, other: Mat6) -> (r: Mat6)
        ensures
            r@ == self@ * other@,
    {
        Mat6 {
            pp: self.pv.times_onto(self.pp.times(other.pp), other.vp),
            pv: self.pv.times_onto(self.pp.times(other.pv), other.vv),
            vp: self.vv.times_onto(self.vp.times(other.pp), other.vp),
            vv: self.vv.times_onto(self.vp.times(other.pv), other.vv),
        }
    }

    pub fn transpose(self) -> (r: Mat6)
        ensures
            r@ == self@.transposed(),
    {
        Mat6 {
            pp: self.pp.transpose(),
            pv: self.vp.transpose(),
            vp: self.pv.transpose(),
            vv: self.vv.transpose(),
        }
    }
}

} // verus!
