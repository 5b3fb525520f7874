use raycast::fixed::{UNIT, T_MAX, isqrt, div_floor, clamp};
use raycast::vec3::Vec3;
use raycast::interval::Interval;
use raycast::ray::Ray;
use raycast::hittable::HitRecord;
use raycast::sphere::Sphere;
use raycast::hittable_list::HittableList;

#[test]
fn unit_vector_of_axis_vector() {
    let v = Vec3::new(3 * UNIT, 0, 0);
    let u = v.unit_vector();
    assert_eq!(u, Vec3::new(UNIT, 0, 0));
}

#[test]
fn vector_arithmetic_is_exact() {
    let a = Vec3::new(UNIT, 2 * UNIT, -3 * UNIT);
    let b = Vec3::new(4 * UNIT, -5 * UNIT, 6 * UNIT);
    assert_eq!(a.add(b), Vec3::new(5 * UNIT, -3 * UNIT, 3 * UNIT));
    assert_eq!(a.sub(b), Vec3::new(-3 * UNIT, 7 * UNIT, -9 * UNIT));
    let half: i128 = UNIT / 2;
    assert_eq!(a.scale(half), Vec3::new(UNIT / 2, UNIT, -3 * UNIT / 2));
    assert_eq!(a.dot(b), (4 - 10 - 18) * UNIT * UNIT);
    assert_eq!(a.x(), UNIT);
    assert_eq!(a.y(), 2 * UNIT);
    assert_eq!(a.z(), -3 * UNIT);
}

#[test]
fn scalar_division_by_either_sign() {
    let v = Vec3::new(3 * UNIT, -3 * UNIT, UNIT);
    let half = v.div_scalar(2 * UNIT);
    assert_eq!(half, Vec3::new(3 * UNIT / 2, -3 * UNIT / 2, UNIT / 2));
    let neg_half = v.div_scalar(-2 * UNIT);
    assert_eq!(neg_half, Vec3::new(-3 * UNIT / 2, 3 * UNIT / 2, -UNIT / 2));
}

#[test]
fn length_of_pythagorean_vector() {
    let v = Vec3::new(3 * UNIT, 4 * UNIT, 0);
    assert_eq!(v.length_squared(), 25 * UNIT * UNIT);
    assert_eq!(v.length(), 5 * UNIT);
}

#[test]
fn integer_sqrt_and_floor_division() {
    assert_eq!(isqrt(0), 0);
    assert_eq!(isqrt(1), 1);
    assert_eq!(isqrt(1_000_000), 1000);
    assert_eq!(isqrt(999_999), 999);
    assert_eq!(div_floor(7, 2), 3);
    assert_eq!(div_floor(-7, 2), -4);
    assert_eq!(div_floor(-8, 2), -4);
    assert_eq!(clamp(5, 0, 3), 3);
    assert_eq!(clamp(-5, 0, 3), 0);
    assert_eq!(clamp(2, 0, 3), 2);
}

#[test]
fn interval_contains_and_clamp() {
    let iv = Interval::new(0, UNIT);
    assert!(iv.contains(0));
    assert!(iv.contains(UNIT));
    assert!(iv.contains(UNIT / 2));
    assert!(!iv.contains(-1));
    assert!(!iv.contains(UNIT + 1));
    assert_eq!(iv.clamp(2 * UNIT), UNIT);
    let empty = Interval::new(UNIT, 0);
    assert!(!empty.contains(UNIT / 2));
}

#[test]
fn ray_evaluation() {
    let r = Ray::new(Vec3::new(UNIT, 0, 0), Vec3::new(0, 0, -UNIT));
    assert_eq!(r.origin(), Vec3::new(UNIT, 0, 0));
    assert_eq!(r.direction(), Vec3::new(0, 0, -UNIT));
    assert_eq!(r.at(2 * UNIT), Vec3::new(UNIT, 0, -2 * UNIT));
    assert_eq!(r.at(-UNIT), Vec3::new(UNIT, 0, UNIT));
}

#[test]
fn sphere_hit_point_lies_on_sphere() {
    // Straight-on hit: the near root, the hit point and the normal are all
    // exact, and the hit point lies at distance exactly `radius` from the
    // centre.
    let s = Sphere::new(Vec3::new(0, 0, -2 * UNIT), UNIT);
    let r = Ray::new(Vec3::new(0, 0, 0), Vec3::new(0, 0, -UNIT));
    let mut rec = HitRecord::blank();
    let hit = s.hit(&r, Interval::new(0, T_MAX), &mut rec);
    assert!(hit);
    assert_eq!(rec.t, UNIT);
    assert_eq!(rec.p, Vec3::new(0, 0, -UNIT));
    assert_eq!(rec.normal, Vec3::new(0, 0, UNIT));
    assert!(rec.front_face);
    let offset = rec.p.sub(s.center);
    assert_eq!(offset.dot(offset), UNIT * UNIT);
}

#[test]
fn sphere_miss_reports_no_intersection() {
    // The ray passes far to the side: negative discriminant, record left
    // untouched.
    let s = Sphere::new(Vec3::new(0, 5 * UNIT, -2 * UNIT), UNIT);
    let r = Ray::new(Vec3::new(0, 0, 0), Vec3::new(0, 0, -UNIT));
    let mut rec = HitRecord::blank();
    let hit = s.hit(&r, Interval::new(0, T_MAX), &mut rec);
    assert!(!hit);
    assert_eq!(rec, HitRecord::blank());
}

#[test]
fn far_root_wins_when_origin_is_inside() {
    // From the centre of a sphere the near root is behind the origin, so
    // the far root is reported.
    let s = Sphere::new(Vec3::new(0, 0, 0), UNIT);
    let r = Ray::new(Vec3::new(0, 0, 0), Vec3::new(0, 0, -UNIT));
    let mut rec = HitRecord::blank();
    let hit = s.hit(&r, Interval::new(0, T_MAX), &mut rec);
    assert!(hit);
    assert_eq!(rec.t, UNIT);
}

#[test]
fn far_root_wins_when_near_root_is_below_min() {
    // Near root at 1.0, far root at 3.0: with the range starting at 1.5
    // only the far root is acceptable.
    let s = Sphere::new(Vec3::new(0, 0, -2 * UNIT), UNIT);
    let r = Ray::new(Vec3::new(0, 0, 0), Vec3::new(0, 0, -UNIT));
    let mut rec = HitRecord::blank();
    let hit = s.hit(&r, Interval::new(3 * UNIT / 2, T_MAX), &mut rec);
    assert!(hit);
    assert_eq!(rec.t, 3 * UNIT);
}

#[test]
fn no_hit_when_both_roots_outside_range() {
    let s = Sphere::new(Vec3::new(0, 0, -2 * UNIT), UNIT);
    let r = Ray::new(Vec3::new(0, 0, 0), Vec3::new(0, 0, -UNIT));
    let mut rec = HitRecord::blank();
    // Roots at 1.0 and 3.0; the range [0, 0.5] excludes both.
    let hit = s.hit(&r, Interval::new(0, UNIT / 2), &mut rec);
    assert!(!hit);
    assert_eq!(rec, HitRecord::blank());
}

#[test]
fn list_returns_nearest_hit_in_either_order() {
    let near = Sphere::new(Vec3::new(0, 0, -2 * UNIT), UNIT);
    let far = Sphere::new(Vec3::new(0, 0, -4 * UNIT), UNIT);
    let r = Ray::new(Vec3::new(0, 0, 0), Vec3::new(0, 0, -UNIT));

    let mut world = HittableList::new();
    world.add(near);
    world.add(far);
    let mut rec = HitRecord::blank();
    assert!(world.hit(&r, Interval::new(0, T_MAX), &mut rec));
    assert_eq!(rec.t, UNIT);
    assert_eq!(rec.normal, Vec3::new(0, 0, UNIT));

    let mut world2 = HittableList::new();
    world2.add(far);
    world2.add(near);
    let mut rec2 = HitRecord::blank();
    assert!(world2.hit(&r, Interval::new(0, T_MAX), &mut rec2));
    assert_eq!(rec2.t, UNIT);
    assert_eq!(rec2.normal, Vec3::new(0, 0, UNIT));
}

#[test]
fn list_clear_empties_the_scene() {
    let mut world = HittableList::new();
    assert_eq!(world.objects.len(), 0);
    world.add(Sphere::new(Vec3::new(0, 0, -2 * UNIT), UNIT));
    assert_eq!(world.objects.len(), 1);
    world.clear();
    assert_eq!(world.objects.len(), 0);
    let r = Ray::new(Vec3::new(0, 0, 0), Vec3::new(0, 0, -UNIT));
    let mut rec = HitRecord::blank();
    assert!(!world.hit(&r, Interval::new(0, T_MAX), &mut rec));
}

#[test]
fn normal_is_unit_length_and_outward() {
    // A slanted hit: the normal's squared length stays within a small
    // tolerance of one, and each component keeps the sign of the
    // centre-to-point offset.
    let s = Sphere::new(Vec3::new(0, 0, -2 * UNIT), UNIT);
    let r = Ray::new(Vec3::new(UNIT / 2, 0, 0), Vec3::new(0, 0, -UNIT));
    let mut rec = HitRecord::blank();
    assert!(s.hit(&r, Interval::new(0, T_MAX), &mut rec));
    let n = rec.normal;
    let len2: i128 = n.dot(n);
    let unit2: i128 = UNIT * UNIT;
    assert!((len2 - unit2).abs() < 200_000);
    let off = rec.p.sub(s.center);
    assert!(off.x > 0 && n.x > 0);
    assert!(off.z > 0 && n.z > 0);
    assert_eq!(off.y, 0);
}
