//! Analytic ray–sphere intersection over fixed-point scalars.
//!
//! The quadratic `a t^2 + 2 hb t + c = 0` (with the half-b form of the
//! coefficients) is solved exactly in integers: its discriminant is exact,
//! its square root is the integer square root, and each root is produced by
//! one floor division, so the reported parameter is pinned down to the step.

use vstd::prelude::*;
use vstd::arithmetic::div_mod::lemma_fundamental_div_mod;
use vstd::arithmetic::div_mod::lemma_mod_bound;
use crate::fixed::{UNIT, T_MAX, COORD_MAX, sqrt_floor, isqrt, div_floor};
use crate::fixed::{lemma_sqrt_floor_bounds, lemma_div_floor_bounds};
use crate::vec3::{Vec3, Point3, bounded, dot_spec, lemma_mul_bound};
use crate::ray::{Ray, ray_wf, at_spec};
use crate::hittable::HitRecord;
use crate::interval::Interval;

verus! {

/// A sphere: a centre and a positive radius, immutable after construction.
#[derive(Clone, Copy, Debug, PartialEq, Eq, Structural)]
pub struct Sphere {
    pub center: Point3,
    pub radius: i128,
}

/// The quadratic's leading coefficient for ray `r`: `dir . dir`.
pub open spec fn quad_a(r: Ray) -> int {
    dot_spec(r.dir, r.dir)
}

/// The quadratic's half linear coefficient: `(orig - center) . dir`.
pub open spec fn quad_hb(s: Sphere, r: Ray) -> int {
    (r.orig.x - s.center.x) * r.dir.x
        + (r.orig.y - s.center.y) * r.dir.y
        + (r.orig.z - s.center.z) * r.dir.z
}

/// The quadratic's constant coefficient:
/// `(orig - center) . (orig - center) - radius^2`.
pub open spec fn quad_c(s: Sphere, r: Ray) -> int {
    (r.orig.x - s.center.x) * (r.orig.x - s.center.x)
        + (r.orig.y - s.center.y) * (r.orig.y - s.center.y)
        + (r.orig.z - s.center.z) * (r.orig.z - s.center.z)
        - s.radius * s.radius
}

/// The discriminant `hb^2 - a c`; negative exactly when the ray's line
/// misses the sphere.
pub open spec fn discriminant(s: Sphere, r: Ray) -> int {
    quad_hb(s, r) * quad_hb(s, r) - quad_a(r) * quad_c(s, r)
}

/// The smaller quadratic root `(-hb - sqrt(disc)) / a`, in fixed-point
/// steps rounded toward negative infinity.
pub open spec fn near_root(s: Sphere, r: Ray) -> int {
    ((-quad_hb(s, r) - sqrt_floor(discriminant(s, r))) * UNIT) / quad_a(r)
}

/// The larger quadratic root `(-hb + sqrt(disc)) / a`, in fixed-point steps
/// rounded toward negative infinity.
pub open spec fn far_root(s: Sphere, r: Ray) -> int {
    ((-quad_hb(s, r) + sqrt_floor(discriminant(s, r))) * UNIT) / quad_a(r)
}

/// The parameter the sphere reports for ray `r` within `[lo, hi]`: the near
/// root if it lies in the range, else the far root if it does, else no hit.
/// This is always the smallest root within the range.
pub open spec fn sphere_hit_t(s: Sphere, r: Ray, lo: int, hi: int) -> Option<int> {
    if discriminant(s, r) < 0 {
        None
    } else if lo <= near_root(s, r) <= hi {
        Some(near_root(s, r))
    } else if lo <= far_root(s, r) <= hi {
        Some(far_root(s, r))
    } else {
        None
    }
}

/// One component of the outward unit normal at point component `pc`: the
/// centre-to-point offset scaled by `UNIT / radius`, rounded down.
pub open spec fn normal_component(pc: int, cc: int, radius: int) -> int {
    ((pc - cc) * UNIT) / radius
}

/// The record a sphere fills for a hit at parameter `t`: the point is the
/// ray evaluated at `t`, the normal is the centre-to-point offset scaled to
/// unit length, and the front-face flag says whether the direction runs
/// against the outward normal.
pub open spec fn is_record_for(rec: HitRecord, s: Sphere, r: Ray, t: int) -> bool {
    let p = at_spec(r, t);
    &&& rec.t == t
    &&& rec.p.x == p.0
    &&& rec.p.y == p.1
    &&& rec.p.z == p.2
    &&& rec.normal.x == normal_component(p.0, s.center.x as int, s.radius as int)
    &&& rec.normal.y == normal_component(p.1, s.center.y as int, s.radius as int)
    &&& rec.normal.z == normal_component(p.2, s.center.z as int, s.radius as int)
    &&& rec.front_face == ((p.0 - s.center.x) * r.dir.x + (p.1 - s.center.y) * r.dir.y
        + (p.2 - s.center.z) * r.dir.z < 0)
}

impl Sphere {
    /// A sphere whose centre and radius fit the solver's coordinate range.
    pub open spec fn wf(self) -> bool {
        &&& bounded(self.center, COORD_MAX as int)
        &&& 0 < self.radius <= COORD_MAX
    }

    /// Builds a sphere from a centre and a positive radius.
    pub fn new(center: Point3, radius: i128) -> (s: Sphere)
        requires
            bounded(center, COORD_MAX as int),
            0 < radius <= COORD_MAX,
        ensures
            s == (Sphere { center, radius }),
            s.wf(),
    {
        Sphere { center, radius }
    }

    /// Reports the nearest intersection of `r` with the sphere at a
    /// parameter within `t_range`, filling `rec` on a hit and leaving it
    /// untouched otherwise. A ray whose line misses the sphere (negative
    /// discriminant), or whose roots both fall outside the range, reports
    /// no hit.
    pub fn hit(&self, r: &Ray, t_range: Interval, rec: &mut HitRecord) -> (b: bool)
        requires
            self.wf(),
            ray_wf(*r),
            -T_MAX <= t_range.min <= T_MAX,
            -T_MAX <= t_range.max <= T_MAX,
        ensures
            b == (sphere_hit_t(*self, *r, t_range.min as int, t_range.max as int) is Some),
            !b ==> *final(rec) == *old(rec),
            b ==> sphere_hit_t(*self, *r, t_range.min as int, t_range.max as int)
                == Some(final(rec).t as int),
            b ==> is_record_for(*final(rec), *self, *r, final(rec).t as int),
            b ==> t_range.min <= final(rec).t <= t_range.max,
    {
        let oc = r.origin().sub(self.center);
        let a = r.direction().dot(r.direction());
        proof {
            lemma_mul_bound(self.radius as int, self.radius as int, COORD_MAX as int);
            lemma_mul_bound(r.dir.x as int, r.dir.x as int, 0x4000_0000);
            lemma_mul_bound(r.dir.y as int, r.dir.y as int, 0x4000_0000);
            lemma_mul_bound(r.dir.z as int, r.dir.z as int, 0x4000_0000);
            lemma_mul_bound(oc.x as int, r.dir.x as int, 0x4000_0000);
            lemma_mul_bound(oc.y as int, r.dir.y as int, 0x4000_0000);
            lemma_mul_bound(oc.z as int, r.dir.z as int, 0x4000_0000);
            lemma_mul_bound(oc.x as int, oc.x as int, 0x4000_0000);
            lemma_mul_bound(oc.y as int, oc.y as int, 0x4000_0000);
            lemma_mul_bound(oc.z as int, oc.z as int, 0x4000_0000);
        }
        let half_b = oc.dot(r.direction());
        let c = oc.dot(oc) - self.radius * self.radius;
        proof {
            assert(a == quad_a(*r));
            assert(half_b == quad_hb(*self, *r));
            assert(c == quad_c(*self, *r));
            lemma_mul_bound(half_b as int, half_b as int, 0x4000_0000_0000_0000);
            lemma_mul_bound(a as int, c as int, 0x4000_0000_0000_0000);
        }
        let disc = half_b * half_b - a * c;
        if disc < 0 {
            return false;
        }
        let sq = isqrt(disc);
        proof {
            lemma_sqrt_floor_bounds(disc as int);
            assert(sq <= 0x8000_0000_0000_0000) by (nonlinear_arith)
                requires
                    0 <= sq,
                    sq * sq <= disc,
                    disc < 0x4000_0000_0000_0000_0000_0000_0000_0000,
            ;
        }
        let t1 = div_floor((-half_b - sq) * UNIT, a);
        proof {
            assert(t1 == near_root(*self, *r));
        }
        if t_range.contains(t1) {
            self.fill_record(r, t1, rec);
            return true;
        }
        let t2 = div_floor((-half_b + sq) * UNIT, a);
        proof {
            assert(t2 == far_root(*self, *r));
        }
        if t_range.contains(t2) {
            self.fill_record(r, t2, rec);
            return true;
        }
        false
    }

    /// Fills `rec` for a hit of `r` on this sphere at parameter `t`.
    fn fill_record(&self, r: &Ray, t: i128, rec: &mut HitRecord)
        requires
            self.wf(),
            ray_wf(*r),
            -T_MAX <= t <= T_MAX,
        ensures
            is_record_for(*final(rec), *self, *r, t as int),
            final(rec).t == t,
    {
        let p = r.at(t);
        let outward = p.sub(self.center);
        let normal = Vec3 {
            x: div_floor(outward.x * UNIT, self.radius),
            y: div_floor(outward.y * UNIT, self.radius),
            z: div_floor(outward.z * UNIT, self.radius),
        };
        let front_face = outward.dot(r.direction()) < 0;
        rec.p = p;
        rec.normal = normal;
        rec.t = t;
        rec.front_face = front_face;
    }
}

/// A ray whose line misses the sphere entirely — negative discriminant —
/// produces no intersection within any parameter range.
pub proof fn lemma_miss_when_discriminant_negative(s: Sphere, r: Ray, lo: int, hi: int)
    requires
        discriminant(s, r) < 0,
    ensures
        sphere_hit_t(s, r, lo, hi) is None,
{
}

/// Root selection within `[lo, hi]`: the near root wins when it lies in the
/// range; when only the far root lies in the range — in particular when the
/// near root falls below `lo` — the far root is returned; when neither
/// lies in the range, no hit is reported.
pub proof fn lemma_root_selection(s: Sphere, r: Ray, lo: int, hi: int)
    requires
        discriminant(s, r) >= 0,
    ensures
        lo <= near_root(s, r) <= hi ==> sphere_hit_t(s, r, lo, hi) == Some(
            near_root(s, r)),
        !(lo <= near_root(s, r) <= hi) && lo <= far_root(s, r) <= hi
            ==> sphere_hit_t(s, r, lo, hi) == Some(far_root(s, r)),
        !(lo <= near_root(s, r) <= hi) && !(lo <= far_root(s, r) <= hi)
            ==> sphere_hit_t(s, r, lo, hi) is None,
{
}

/// Every parameter the sphere reports satisfies the sphere's quadratic
/// equation — whose exact roots are where the ray's line meets the points
/// at distance `radius` from the centre — up to the rounding of the
/// integer square root and of one floor division. The residual
/// `e = a t^2 + 2 hb UNIT t + c UNIT^2`, which an exact root makes vanish,
/// obeys `|a e| <= a^2 + 2 UNIT a s + 2 UNIT^2 s` for `s` the rounded
/// square root of the discriminant.
pub proof fn lemma_hit_t_on_sphere(s: Sphere, r: Ray, lo: int, hi: int)
    requires
        ray_wf(r),
        sphere_hit_t(s, r, lo, hi) is Some,
    ensures
        match sphere_hit_t(s, r, lo, hi) {
            Some(t) => {
                let a = quad_a(r);
                let hb = quad_hb(s, r);
                let c = quad_c(s, r);
                let sq = sqrt_floor(discriminant(s, r));
                let e = a * t * t + 2 * hb * UNIT * t + c * UNIT * UNIT;
                -(a * a + 2 * UNIT * a * sq + 2 * UNIT * UNIT * sq) <= a * e
                    <= a * a + 2 * UNIT * a * sq + 2 * UNIT * UNIT * sq
            },
            None => false,
        },
{
    let a = quad_a(r);
    let hb = quad_hb(s, r);
    let c = quad_c(s, r);
    let disc = discriminant(s, r);
    let sq = sqrt_floor(disc);
    assert(disc >= 0);
    lemma_sqrt_floor_bounds(disc);
    assert(0 <= disc - sq * sq <= 2 * sq) by (nonlinear_arith)
        requires
            sq * sq <= disc,
            disc < (sq + 1) * (sq + 1),
            0 <= sq,
    ;
    match sphere_hit_t(s, r, lo, hi) {
        Some(t) => {
            let e = a * t * t + 2 * hb * UNIT * t + c * UNIT * UNIT;
            if lo <= near_root(s, r) <= hi {
                let nn = -hb - sq;
                lemma_fundamental_div_mod(nn * UNIT, a);
                lemma_mod_bound(nn * UNIT, a);
                let rho = (nn * UNIT) % a;
                assert(t == (nn * UNIT) / a);
                assert(nn * UNIT == a * t + rho);
                lemma_residual_math(a, hb, c, disc, sq, -1, nn, t, rho, e);
            } else {
                let nf = -hb + sq;
                lemma_fundamental_div_mod(nf * UNIT, a);
                lemma_mod_bound(nf * UNIT, a);
                let rho = (nf * UNIT) % a;
                assert(t == (nf * UNIT) / a);
                assert(nf * UNIT == a * t + rho);
                lemma_residual_math(a, hb, c, disc, sq, 1, nf, t, rho, e);
            }
        },
        None => {
            assert(false);
        },
    }
}

/// The algebra behind the residual bound: a floor-divided quadratic root
/// leaves a residual built from the square-root defect and the division
/// remainder alone.
proof fn lemma_residual_math(
    a: int,
    hb: int,
    c: int,
    disc: int,
    sq: int,
    sg: int,
    nv: int,
    t: int,
    rho: int,
    e: int,
)
    requires
        1 <= a,
        0 <= sq,
        0 <= rho < a,
        sg == 1 || sg == -1,
        nv == -hb + sg * sq,
        nv * UNIT == a * t + rho,
        disc == hb * hb - a * c,
        0 <= disc - sq * sq <= 2 * sq,
        e == a * t * t + 2 * hb * UNIT * t + c * UNIT * UNIT,
    ensures
        -(a * a + 2 * UNIT * a * sq + 2 * UNIT * UNIT * sq) <= a * e
            <= a * a + 2 * UNIT * a * sq + 2 * UNIT * UNIT * sq,
{
    let m = a * t;
    assert(m == nv * UNIT - rho);
    assert(a * e == m * m + 2 * hb * UNIT * m + c * a * UNIT * UNIT)
        by (nonlinear_arith)
        requires
            e == a * t * t + 2 * hb * UNIT * t + c * UNIT * UNIT,
            m == a * t,
    ;
    assert(m * m + 2 * hb * UNIT * m + c * a * UNIT * UNIT
        == UNIT * UNIT * (nv * nv + 2 * hb * nv + c * a) + rho * rho
            - 2 * UNIT * rho * (nv + hb)) by (nonlinear_arith)
        requires
            m == nv * UNIT - rho,
    ;
    assert(nv * nv + 2 * hb * nv + c * a == sq * sq - disc) by (nonlinear_arith)
        requires
            nv == -hb + sg * sq,
            sg == 1 || sg == -1,
            disc == hb * hb - a * c,
    ;
    assert(nv + hb == sg * sq);
    assert(2 * UNIT * rho * (nv + hb) == 2 * UNIT * rho * sg * sq)
        by (nonlinear_arith)
        requires
            nv + hb == sg * sq,
    ;
    assert(a * e == UNIT * UNIT * (sq * sq - disc) + rho * rho
        - 2 * UNIT * rho * sg * sq);
    assert(-(a * a + 2 * UNIT * a * sq + 2 * UNIT * UNIT * sq) <= a * e
        <= a * a + 2 * UNIT * a * sq + 2 * UNIT * UNIT * sq) by (nonlinear_arith)
        requires
            a * e == UNIT * UNIT * (sq * sq - disc) + rho * rho
                - 2 * UNIT * rho * sg * sq,
            0 <= disc - sq * sq <= 2 * sq,
            0 <= rho < a,
            0 <= sq,
            1 <= a,
            sg == 1 || sg == -1,
    ;
}

/// The near root never exceeds the far root.
pub proof fn lemma_near_le_far(s: Sphere, r: Ray)
    requires
        ray_wf(r),
        discriminant(s, r) >= 0,
    ensures
        near_root(s, r) <= far_root(s, r),
{
    let a = quad_a(r);
    let hb = quad_hb(s, r);
    let disc = discriminant(s, r);
    let sq = sqrt_floor(disc);
    lemma_sqrt_floor_bounds(disc);
    vstd::arithmetic::div_mod::lemma_div_is_ordered(
        (-hb - sq) * UNIT,
        (-hb + sq) * UNIT,
        a,
    );
}

/// Narrowing the upper bound of the range keeps exactly those hits at or
/// under the new bound: queried with `[lo, hi2]` for `hi2 <= hi`, the
/// sphere reports the same parameter as with `[lo, hi]` when that
/// parameter still fits, and nothing otherwise. This is what lets the
/// scene aggregator shrink the range instead of comparing afterwards.
pub proof fn lemma_sphere_hit_narrow(s: Sphere, r: Ray, lo: int, hi: int, hi2: int)
    requires
        ray_wf(r),
        hi2 <= hi,
    ensures
        sphere_hit_t(s, r, lo, hi2) == match sphere_hit_t(s, r, lo, hi) {
            Some(t) => if t <= hi2 {
                Some(t)
            } else {
                None
            },
            None => None,
        },
{
    if discriminant(s, r) >= 0 {
        lemma_near_le_far(s, r);
    }
}

/// The normal a sphere reports points from the centre toward the hit
/// point: `radius` times each normal component brackets `UNIT` times the
/// centre-to-point offset — the offset scaled by `UNIT / radius`, rounded
/// down — so a component is nonnegative exactly where the offset is.
pub proof fn lemma_normal_outward(s: Sphere, r: Ray, t: int, rec: HitRecord)
    requires
        s.wf(),
        is_record_for(rec, s, r, t),
    ensures
        s.radius * rec.normal.x <= (rec.p.x - s.center.x) * UNIT
            < s.radius * (rec.normal.x + 1),
        s.radius * rec.normal.y <= (rec.p.y - s.center.y) * UNIT
            < s.radius * (rec.normal.y + 1),
        s.radius * rec.normal.z <= (rec.p.z - s.center.z) * UNIT
            < s.radius * (rec.normal.z + 1),
        rec.p.x - s.center.x >= 0 ==> rec.normal.x >= 0,
        rec.p.x - s.center.x < 0 ==> rec.normal.x < 0,
        rec.p.y - s.center.y >= 0 ==> rec.normal.y >= 0,
        rec.p.y - s.center.y < 0 ==> rec.normal.y < 0,
        rec.p.z - s.center.z >= 0 ==> rec.normal.z >= 0,
        rec.p.z - s.center.z < 0 ==> rec.normal.z < 0,
{
    let rad = s.radius as int;
    lemma_div_floor_bounds((rec.p.x - s.center.x) * UNIT, rad);
    lemma_div_floor_bounds((rec.p.y - s.center.y) * UNIT, rad);
    lemma_div_floor_bounds((rec.p.z - s.center.z) * UNIT, rad);
    lemma_component_sign(rec.p.x - s.center.x, rec.normal.x as int, rad);
    lemma_component_sign(rec.p.y - s.center.y, rec.normal.y as int, rad);
    lemma_component_sign(rec.p.z - s.center.z, rec.normal.z as int, rad);
}

/// A floor-scaled component keeps the sign of the offset it came from.
proof fn lemma_component_sign(off: int, n: int, rad: int) by (nonlinear_arith)
    requires
        0 < rad,
        rad * n <= off * UNIT < rad * (n + 1),
    ensures
        off >= 0 ==> n >= 0,
        off < 0 ==> n < 0,
{
}

} // verus!
