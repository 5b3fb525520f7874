//! The 3-component fixed-point value type used for points, directions and
//! colours, with exact contracts for its arithmetic.

use vstd::prelude::*;
use crate::fixed::{UNIT, div_floor, isqrt, sqrt_floor, floor_div_spec};

verus! {

/// A vector of three fixed-point components; doubles as a position
/// (`Point3`) and an RGB colour (`Color`).
#[derive(Clone, Copy, Debug, PartialEq, Eq, Structural)]
pub struct Vec3 {
    pub x: i128,
    pub y: i128,
    pub z: i128,
}

/// A position in space.
pub type Point3 = Vec3;

/// An RGB triple, each channel a fixed-point value in [0, 1] before
/// quantisation.
pub type Color = Vec3;

/// Component magnitude bound under which a dot product of two vectors stays
/// inside `i128` (2^60).
pub const DOT_ARG_MAX: i128 = 0x1000_0000_0000_0000;

/// Component magnitude bound under which a componentwise sum or difference
/// stays inside `i128` (2^125).
pub const LIN_ARG_MAX: i128 = 0x2000_0000_0000_0000_0000_0000_0000_0000;

/// Every component of `v` has magnitude at most `b`.
pub open spec fn bounded(v: Vec3, b: int) -> bool {
    &&& -b <= v.x <= b
    &&& -b <= v.y <= b
    &&& -b <= v.z <= b
}

/// The dot product of `a` and `b`, in raw fixed-point steps (carrying a
/// factor of `UNIT * UNIT`).
pub open spec fn dot_spec(a: Vec3, b: Vec3) -> int {
    a.x * b.x + a.y * b.y + a.z * b.z
}

/// The product of two values bounded by `b` is bounded by `b * b`.
pub proof fn lemma_mul_bound(p: int, q: int, b: int) by (nonlinear_arith)
    requires
        0 <= b,
        -b <= p <= b,
        -b <= q <= b,
    ensures
        -(b * b) <= p * q <= b * b,
{
}

/// The product of values with individual bounds is bounded by the bounds'
/// product.
pub proof fn lemma_mul_bound2(p: int, q: int, bp: int, bq: int) by (nonlinear_arith)
    requires
        0 <= bp,
        0 <= bq,
        -bp <= p <= bp,
        -bq <= q <= bq,
    ensures
        -(bp * bq) <= p * q <= bp * bq,
{
}

impl Vec3 {
    /// Builds the vector with the given components.
    pub fn new(x: i128, y: i128, z: i128) -> (v: Vec3)
        ensures
            v == (Vec3 { x, y, z }),
    {
        Vec3 { x, y, z }
    }

    /// The first component.
    pub fn x(&self) -> (r: i128)
        ensures
            r == self.x,
    {
        self.x
    }

    /// The second component.
    pub fn y(&self) -> (r: i128)
        ensures
            r == self.y,
    {
        self.y
    }

    /// The third component.
    pub fn z(&self) -> (r: i128)
        ensures
            r == self.z,
    {
        self.z
    }

    /// Componentwise sum.
    pub fn add(self, o: Vec3) -> (r: Vec3)
        requires
            bounded(self, LIN_ARG_MAX as int),
            bounded(o, LIN_ARG_MAX as int),
        ensures
            r.x == self.x + o.x,
            r.y == self.y + o.y,
            r.z == self.z + o.z,
    {
        Vec3 { x: self.x + o.x, y: self.y + o.y, z: self.z + o.z }
    }

    /// Componentwise difference.
    pub fn sub(self, o: Vec3) -> (r: Vec3)
        requires
            bounded(self, LIN_ARG_MAX as int),
            bounded(o, LIN_ARG_MAX as int),
        ensures
            r.x == self.x - o.x,
            r.y == self.y - o.y,
            r.z == self.z - o.z,
    {
        Vec3 { x: self.x - o.x, y: self.y - o.y, z: self.z - o.z }
    }

    /// The dot product, exact in raw steps.
    pub fn dot(self, o: Vec3) -> (r: i128)
        requires
            bounded(self, DOT_ARG_MAX as int),
            bounded(o, DOT_ARG_MAX as int),
        ensures
            r == dot_spec(self, o),
    {
        proof {
            lemma_mul_bound(self.x as int, o.x as int, DOT_ARG_MAX as int);
            lemma_mul_bound(self.y as int, o.y as int, DOT_ARG_MAX as int);
            lemma_mul_bound(self.z as int, o.z as int, DOT_ARG_MAX as int);
        }
        self.x * o.x + self.y * o.y + self.z * o.z
    }

    /// Multiplies by the fixed-point scalar `s`, rounding each component
    /// toward negative infinity.
    pub fn scale(self, s: i128) -> (r: Vec3)
        requires
            bounded(self, DOT_ARG_MAX as int),
            -DOT_ARG_MAX <= s <= DOT_ARG_MAX,
        ensures
            r.x == (self.x * s) / (UNIT as int),
            r.y == (self.y * s) / (UNIT as int),
            r.z == (self.z * s) / (UNIT as int),
            UNIT * r.x <= self.x * s < UNIT * (r.x + 1),
            UNIT * r.y <= self.y * s < UNIT * (r.y + 1),
            UNIT * r.z <= self.z * s < UNIT * (r.z + 1),
    {
        proof {
            lemma_mul_bound(self.x as int, s as int, DOT_ARG_MAX as int);
            lemma_mul_bound(self.y as int, s as int, DOT_ARG_MAX as int);
            lemma_mul_bound(self.z as int, s as int, DOT_ARG_MAX as int);
        }
        Vec3 {
            x: div_floor(self.x * s, UNIT),
            y: div_floor(self.y * s, UNIT),
            z: div_floor(self.z * s, UNIT),
        }
    }

    /// Divides by the nonzero fixed-point scalar `s`, rounding each
    /// component toward negative infinity.
    pub fn div_scalar(self, s: i128) -> (r: Vec3)
        requires
            bounded(self, DOT_ARG_MAX as int),
            s != 0,
            -0x2000_0000_0000_0000 <= s <= 0x2000_0000_0000_0000,
        ensures
            r.x == floor_div_spec(self.x * UNIT, s as int),
            r.y == floor_div_spec(self.y * UNIT, s as int),
            r.z == floor_div_spec(self.z * UNIT, s as int),
            s > 0 ==> s * r.x <= self.x * UNIT < s * (r.x + 1),
            s > 0 ==> s * r.y <= self.y * UNIT < s * (r.y + 1),
            s > 0 ==> s * r.z <= self.z * UNIT < s * (r.z + 1),
            s < 0 ==> (-s) * r.x <= -(self.x * UNIT) < (-s) * (r.x + 1),
            s < 0 ==> (-s) * r.y <= -(self.y * UNIT) < (-s) * (r.y + 1),
            s < 0 ==> (-s) * r.z <= -(self.z * UNIT) < (-s) * (r.z + 1),
    {
        proof {
            lemma_mul_bound(self.x as int, UNIT as int, DOT_ARG_MAX as int);
            lemma_mul_bound(self.y as int, UNIT as int, DOT_ARG_MAX as int);
            lemma_mul_bound(self.z as int, UNIT as int, DOT_ARG_MAX as int);
        }
        if s > 0 {
            Vec3 {
                x: div_floor(self.x * UNIT, s),
                y: div_floor(self.y * UNIT, s),
                z: div_floor(self.z * UNIT, s),
            }
        } else {
            Vec3 {
                x: div_floor(-(self.x * UNIT), -s),
                y: div_floor(-(self.y * UNIT), -s),
                z: div_floor(-(self.z * UNIT), -s),
            }
        }
    }

    /// The squared length, exact in raw steps (carrying `UNIT * UNIT`).
    pub fn length_squared(&self) -> (r: i128)
        requires
            bounded(*self, DOT_ARG_MAX as int),
        ensures
            r == dot_spec(*self, *self),
    {
        self.dot(*self)
    }

    /// The length, rounded down to a whole fixed-point step.
    pub fn length(&self) -> (r: i128)
        requires
            bounded(*self, DOT_ARG_MAX as int),
        ensures
            r == sqrt_floor(dot_spec(*self, *self)),
    {
        let sq = self.length_squared();
        proof {
            lemma_mul_bound(self.x as int, self.x as int, DOT_ARG_MAX as int);
            lemma_mul_bound(self.y as int, self.y as int, DOT_ARG_MAX as int);
            lemma_mul_bound(self.z as int, self.z as int, DOT_ARG_MAX as int);
            assert(self.x * self.x + self.y * self.y + self.z * self.z >= 0)
                by (nonlinear_arith);
        }
        isqrt(sq)
    }

    /// Scales a nonzero vector to unit length (length `UNIT` in raw steps),
    /// rounding each component toward negative infinity.
    pub fn unit_vector(&self) -> (r: Vec3)
        requires
            bounded(*self, DOT_ARG_MAX as int),
            dot_spec(*self, *self) >= 1,
        ensures
            r.x == (self.x * UNIT) / sqrt_floor(dot_spec(*self, *self)),
            r.y == (self.y * UNIT) / sqrt_floor(dot_spec(*self, *self)),
            r.z == (self.z * UNIT) / sqrt_floor(dot_spec(*self, *self)),
    {
        let len = self.length();
        proof {
            crate::fixed::lemma_sqrt_floor_bounds(dot_spec(*self, *self));
            crate::fixed::lemma_sqrt_floor_pos(dot_spec(*self, *self));
            lemma_mul_bound(self.x as int, self.x as int, DOT_ARG_MAX as int);
            lemma_mul_bound(self.y as int, self.y as int, DOT_ARG_MAX as int);
            lemma_mul_bound(self.z as int, self.z as int, DOT_ARG_MAX as int);
            assert(len >= 1);
            assert(len <= 0x2000_0000_0000_0000) by (nonlinear_arith)
                requires
                    0 <= len,
                    len * len <= dot_spec(*self, *self),
                    dot_spec(*self, *self) < 0x400_0000_0000_0000_0000_0000_0000_0000,
            ;
        }
        self.div_scalar(len)
    }
}

} // verus!
