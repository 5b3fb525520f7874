//! A minimal ray-casting core over fixed-point coordinates.
//!
//! Every coordinate, colour channel and ray parameter is an integer number
//! of 1/65536 units, so the geometry of the renderer — ray construction,
//! analytic ray–sphere intersection, closest-hit search over a scene, and
//! colour quantisation — is exact integer arithmetic with floor rounding,
//! and each step carries a proved contract.

pub mod fixed;
pub mod vec3;
pub mod interval;
pub mod ray;
pub mod hittable;
pub mod sphere;
pub mod hittable_list;
pub mod camera;
