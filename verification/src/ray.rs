//! A ray: an origin plus a direction, evaluated parametrically.

use vstd::prelude::*;
use crate::fixed::{UNIT, COORD_MAX, T_MAX};
use crate::vec3::{Vec3, Point3, bounded};

verus! {

/// Component magnitude bound on any point a ray evaluation can produce from
/// in-range inputs (2^54).
pub const POINT_MAX: i128 = 0x40_0000_0000_0000;

/// A half-line through `orig` along `dir`; `dir` need not be unit length,
/// and negative parameters reach behind the origin.
#[derive(Clone, Copy, Debug, PartialEq, Eq, Structural)]
pub struct Ray {
    pub orig: Point3,
    pub dir: Vec3,
}

/// A ray whose origin and direction fit the intersection solver's range and
/// whose direction is nonzero.
pub open spec fn ray_wf(r: Ray) -> bool {
    &&& bounded(r.orig, COORD_MAX as int)
    &&& bounded(r.dir, COORD_MAX as int)
    &&& crate::vec3::dot_spec(r.dir, r.dir) >= 1
}

/// The components of `orig + t * dir`, each rounded toward negative
/// infinity.
pub open spec fn at_spec(r: Ray, t: int) -> (int, int, int) {
    (
        r.orig.x + (r.dir.x * t) / (UNIT as int),
        r.orig.y + (r.dir.y * t) / (UNIT as int),
        r.orig.z + (r.dir.z * t) / (UNIT as int),
    )
}

impl Ray {
    /// Builds the ray from an origin and a direction.
    pub fn new(orig: Point3, dir: Vec3) -> (r: Ray)
        ensures
            r == (Ray { orig, dir }),
    {
        Ray { orig, dir }
    }

    /// The ray's origin.
    pub fn origin(&self) -> (p: Point3)
        ensures
            p == self.orig,
    {
        self.orig
    }

    /// The ray's direction.
    pub fn direction(&self) -> (d: Vec3)
        ensures
            d == self.dir,
    {
        self.dir
    }

    /// The point reached at parameter `t`: `orig + t * dir` with each
    /// component rounded down to a whole fixed-point step.
    pub fn at(&self, t: i128) -> (p: Point3)
        requires
            bounded(self.orig, COORD_MAX as int),
            bounded(self.dir, COORD_MAX as int),
            -T_MAX <= t <= T_MAX,
        ensures
            p.x == at_spec(*self, t as int).0,
            p.y == at_spec(*self, t as int).1,
            p.z == at_spec(*self, t as int).2,
            bounded(p, POINT_MAX as int),
    {
        let step = self.dir.scale(t);
        proof {
            assert(UNIT * step.x <= self.dir.x * t < UNIT * (step.x + 1));
            assert(-(COORD_MAX * T_MAX) <= self.dir.x * t <= COORD_MAX * T_MAX)
                by (nonlinear_arith)
                requires
                    -COORD_MAX <= self.dir.x <= COORD_MAX,
                    -T_MAX <= t <= T_MAX,
            ;
            assert(-(COORD_MAX * T_MAX) <= self.dir.y * t <= COORD_MAX * T_MAX)
                by (nonlinear_arith)
                requires
                    -COORD_MAX <= self.dir.y <= COORD_MAX,
                    -T_MAX <= t <= T_MAX,
            ;
            assert(-(COORD_MAX * T_MAX) <= self.dir.z * t <= COORD_MAX * T_MAX)
                by (nonlinear_arith)
                requires
                    -COORD_MAX <= self.dir.z <= COORD_MAX,
                    -T_MAX <= t <= T_MAX,
            ;
        }
        self.orig.add(step)
    }
}

} // verus!
