//! The result of a successful ray-intersection query.

use vstd::prelude::*;
use crate::vec3::{Vec3, Point3};

verus! {

/// Scratch state for one ray evaluation: the hit point, the outward surface
/// normal scaled to unit length, the ray parameter of the hit, and whether
/// the ray came from outside the surface. A primitive that reports a hit
/// fills every field; one that reports none leaves the record untouched.
#[derive(Clone, Copy, Debug, PartialEq, Eq, Structural)]
pub struct HitRecord {
    pub p: Point3,
    pub normal: Vec3,
    pub t: i128,
    pub front_face: bool,
}

impl HitRecord {
    /// A blank record to pass into an intersection query.
    pub fn blank() -> (rec: HitRecord)
        ensures
            rec == (HitRecord {
                p: Vec3 { x: 0, y: 0, z: 0 },
                normal: Vec3 { x: 0, y: 0, z: 0 },
                t: 0,
                front_face: false,
            }),
    {
        HitRecord {
            p: Vec3 { x: 0, y: 0, z: 0 },
            normal: Vec3 { x: 0, y: 0, z: 0 },
            t: 0,
            front_face: false,
        }
    }
}

} // verus!
