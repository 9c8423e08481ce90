//! Vectors and matrices of real numbers.
use crate::error::value;
use crate::matrix::M3;
use crate::vector::V3;
use vstd::prelude::*;

verus! {

/// A vector of real numbers.
#[verifier::ext_equal]
pub struct Triple {
    pub x: real,
    pub y: real,
    pub z: real,
}

impl Triple {
    pub open spec fn minus(self, other: Triple) -> Triple {
        Triple { x: self.x - other.x, y: self.y - other.y, z: self.z - other.z }
    }

    pub open spec fn dot(self, other: Triple) -> real {
        self.x * other.x + self.y * other.y + self.z * other.z
    }

    /// `w` times this vector and `v` times the other.
    pub open spec fn mixed(self, w: real, other: Triple, v: real) -> Triple {
        Triple {
            x: w * self.x + v * other.x,
            y: w * self.y + v * other.y,
            z: w * self.z + v * other.z,
        }
    }

    /// This vector and `k` times the other.
    pub open spec fn plus(self, k: real, other: Triple) -> Triple {
        Triple { x: self.x + k * other.x, y: self.y + k * other.y, z: self.z + k * other.z }
    }
}

/// A matrix of real numbers, by rows.
#[verifier::ext_equal]
pub struct Grid {
    pub r0: Triple,
    pub r1: Triple,
    pub r2: Triple,
}

pub open spec fn triple(v: V3) -> Triple {
    Triple { x: value(v.x), y: value(v.y), z: value(v.z) }
}

pub open spec fn grid(m: M3) -> Grid {
    Grid { r0: triple(m.r0), r1: triple(m.r1), r2: triple(m.r2) }
}

impl Grid {
    /// This matrix and `k` times the other.
    pub open spec fn plus(self, k: real, other: Grid) -> Grid {
        Grid {
            r0: self.r0.plus(k, other.r0),
            r1: self.r1.plus(k, other.r1),
            r2: self.r2.plus(k, other.r2),
        }
    }

    /// `q` added on the diagonal.
    pub open spec fn lifted(self, q: real) -> Grid {
        Grid {
            r0: Triple { x: self.r0.x + q, ..self.r0 },
            r1: Triple { y: self.r1.y + q, ..self.r1 },
            r2: Triple { z: self.r2.z + q, ..self.r2 },
        }
    }

    /// `e` by this matrix by `a`.
    pub open spec fn form(self, e: Triple, a: Triple) -> real {
        e.x * self.r0.dot(a) + e.y * self.r1.dot(a) + e.z * self.r2.dot(a)
    }

    pub open spec fn transposed(self) -> Grid {
        Grid {
            r0: Triple { x: self.r0.x, y: self.r1.x, z: self.r2.x },
            r1: Triple { x: self.r0.y, y: self.r1.y, z: self.r2.y },
            r2: Triple { x: self.r0.z, y: self.r1.z, z: self.r2.z },
        }
    }
}

pub proof fn lemma_row_plus(g: Triple, k: real, h: Triple, a: Triple)
    ensures
        g.plus(k, h).dot(a) == g.dot(a) + k * h.dot(a),
        a.dot(g.plus(k, h)) == a.dot(g) + k * a.dot(h),
{
    lemma_plus_term(g.x, k, h.x, a.x);
    lemma_plus_term(g.y, k, h.y, a.y);
    lemma_plus_term(g.z, k, h.z, a.z);
    lemma_times_sum(k, h.x * a.x, h.y * a.y, h.z * a.z);
    lemma_times_sum(k, a.x * h.x, a.y * h.y, a.z * h.z);
}

pub proof fn lemma_plus_term(g: real, k: real, h: real, a: real)
    ensures
        (g + k * h) * a == g * a + k * (h * a),
        a * (g + k * h) == a * g + k * (a * h),
{
    let m = k * h;
    assert((g + m) * a == g * a + m * a) by (nonlinear_arith);
    assert((k * h) * a == k * (h * a)) by (nonlinear_arith);
    assert(a * (g + m) == a * g + a * m) by (nonlinear_arith);
    assert(a * (k * h) == k * (a * h)) by (nonlinear_arith);
}

pub proof fn lemma_times_sum(k: real, a: real, b: real, c: real)
    ensures
        k * (a + b + c) == k * a + k * b + k * c,
{
    assert(k * (a + b + c) == k * a + k * b + k * c) by (nonlinear_arith);
}

/// Forms add up in the matrix.
pub proof fn lemma_form_plus(g: Grid, k: real, h: Grid, e: Triple, a: Triple)
    ensures
        g.plus(k, h).form(e, a) == g.form(e, a) + k * h.form(e, a),
{
    lemma_row_plus(g.r0, k, h.r0, a);
    lemma_row_plus(g.r1, k, h.r1, a);
    lemma_row_plus(g.r2, k, h.r2, a);
    lemma_plus_term(g.r0.dot(a), k, h.r0.dot(a), e.x);
    lemma_plus_term(g.r1.dot(a), k, h.r1.dot(a), e.y);
    lemma_plus_term(g.r2.dot(a), k, h.r2.dot(a), e.z);
    lemma_times_sum(k, e.x * h.r0.dot(a), e.y * h.r1.dot(a), e.z * h.r2.dot(a));
}

pub proof fn lemma_form_lifted(g: Grid, q: real, e: Triple, a: Triple)
    ensures
        g.lifted(q).form(e, a) == g.form(e, a) + q * e.dot(a),
{
    let l = g.lifted(q);
    assert((g.r0.x + q) * a.x == g.r0.x * a.x + q * a.x) by (nonlinear_arith);
    assert((g.r1.y + q) * a.y == g.r1.y * a.y + q * a.y) by (nonlinear_arith);
    assert((g.r2.z + q) * a.z == g.r2.z * a.z + q * a.z) by (nonlinear_arith);
    lemma_plus_term(g.r0.dot(a), q, a.x, e.x);
    lemma_plus_term(g.r1.dot(a), q, a.y, e.y);
    lemma_plus_term(g.r2.dot(a), q, a.z, e.z);
    assert(l.r0.dot(a) == g.r0.dot(a) + q * a.x);
    assert(l.r1.dot(a) == g.r1.dot(a) + q * a.y);
    assert(l.r2.dot(a) == g.r2.dot(a) + q * a.z);
    lemma_times_sum(q, e.x * a.x, e.y * a.y, e.z * a.z);
}

/// Forms add up in either vector.
pub proof fn lemma_form_shift(g: Grid, e: Triple, b: Triple, k: real, a: Triple)
    ensures
        g.form(e, b.plus(k, a)) == g.form(e, b) + k * g.form(e, a),
        g.form(b.plus(k, a), e) == g.form(b, e) + k * g.form(a, e),
{
    lemma_row_plus(b, k, a, g.r0);
    lemma_row_plus(b, k, a, g.r1);
    lemma_row_plus(b, k, a, g.r2);
    lemma_plus_term(g.r0.dot(b), k, g.r0.dot(a), e.x);
    lemma_plus_term(g.r1.dot(b), k, g.r1.dot(a), e.y);
    lemma_plus_term(g.r2.dot(b), k, g.r2.dot(a), e.z);
    lemma_times_sum(k, e.x * g.r0.dot(a), e.y * g.r1.dot(a), e.z * g.r2.dot(a));
    lemma_plus_term(b.x, k, a.x, g.r0.dot(e));
    lemma_plus_term(b.y, k, a.y, g.r1.dot(e));
    lemma_plus_term(b.z, k, a.z, g.r2.dot(e));
    lemma_times_sum(k, a.x * g.r0.dot(e), a.y * g.r1.dot(e), a.z * g.r2.dot(e));
}

} // verus!
