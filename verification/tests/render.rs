use raycast::fixed::UNIT;
use raycast::vec3::Vec3;
use raycast::ray::Ray;
use raycast::sphere::Sphere;
use raycast::hittable_list::HittableList;
use raycast::camera::{RenderConfig, ray_color, color_triple, render, random_in_range};

fn reference_camera(samples_per_pixel: usize) -> RenderConfig {
    // 400x225 (16:9), viewport height 2.0, focal length 1.0, eye at the
    // origin.
    let viewport_width: i128 = 32 * UNIT / 9;
    let origin = Vec3::new(0, 0, 0);
    let horizontal = Vec3::new(viewport_width, 0, 0);
    let vertical = Vec3::new(0, 2 * UNIT, 0);
    let lower_left = Vec3::new(-viewport_width / 2, -UNIT, -UNIT);
    match RenderConfig::new(400, 225, samples_per_pixel, origin, lower_left, horizontal,
        vertical) {
        Some(cfg) => cfg,
        None => panic!("reference camera must be well formed"),
    }
}

fn reference_world() -> HittableList {
    let mut world = HittableList::new();
    world.add(Sphere::new(Vec3::new(0, 0, -UNIT), UNIT / 2));
    world.add(Sphere::new(Vec3::new(0, -6586368, -UNIT), 100 * UNIT));
    world
}

#[test]
fn pure_white_pixel_quantises_to_255() {
    let white = Vec3::new(UNIT, UNIT, UNIT);
    assert_eq!(color_triple(white, 1), (255, 255, 255));
}

#[test]
fn black_pixel_quantises_to_zero() {
    assert_eq!(color_triple(Vec3::new(0, 0, 0), 1), (0, 0, 0));
}

#[test]
fn gamma_correction_of_quarter_channel() {
    // 0.25 becomes 0.5 after the square-root gamma, which quantises to 128.
    let quarter: i128 = UNIT / 4;
    assert_eq!(color_triple(Vec3::new(quarter, 0, 0), 1).0, 128);
}

#[test]
fn averaging_over_samples() {
    // Four samples summing to one full unit average to a quarter.
    let sum = Vec3::new(UNIT, UNIT, UNIT);
    assert_eq!(color_triple(sum, 4), (128, 128, 128));
}

#[test]
fn background_gradient_for_level_ray() {
    // A ray along -z in an empty scene: the gradient midpoint, blended
    // halfway between white and the horizon colour.
    let world = HittableList::new();
    let r = Ray::new(Vec3::new(0, 0, 0), Vec3::new(0, 0, -UNIT));
    let c = ray_color(&r, &world);
    assert_eq!(c, Vec3::new(49152, 55705, UNIT));
}

#[test]
fn reference_scene_regression() {
    // The reference scene at one centred sample per pixel: the top-left
    // pixel sees only sky, the central pixel the normal-shaded foreground
    // sphere, the bottom-left pixel the ground sphere.
    let world = reference_world();
    let cfg = reference_camera(1);
    let pixels = render(&world, &cfg, false);
    assert_eq!(pixels.len(), 400 * 225);
    assert_eq!(pixels[0], (204, 226, 255));
    assert_eq!(pixels[112 * 400 + 200], (181, 181, 255));
    assert_eq!(pixels[224 * 400], (180, 255, 181));
}

#[test]
fn jittered_render_has_one_triple_per_pixel() {
    let world = reference_world();
    let mut cfg = reference_camera(2);
    cfg.image_width = 8;
    cfg.image_height = 4;
    let pixels = render(&world, &cfg, true);
    assert_eq!(pixels.len(), 32);
}

#[test]
fn random_sample_stays_in_range() {
    let mut i: usize = 0;
    while i < 200 {
        let v = random_in_range(10, 20);
        assert!(10 <= v && v < 20);
        i += 1;
    }
}
