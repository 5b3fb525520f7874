//! The render driver: camera geometry, per-pixel sampling, shading and
//! colour quantisation. Rays are cast through a virtual viewport, the scene
//! reports the nearest hit, and each pixel becomes either a normal-shaded
//! colour or the sky gradient, averaged over its samples and quantised.

use vstd::prelude::*;
use vstd::arithmetic::div_mod::lemma_fundamental_div_mod_converse;
use vstd::arithmetic::div_mod::lemma_div_of0;
use crate::fixed::{UNIT, HALF_UNIT, T_MAX, COORD_MAX, sqrt_floor, isqrt, div_floor, clamp,
    clamp_spec, lemma_div_floor_bounds};
use crate::vec3::{Vec3, Point3, Color, bounded, dot_spec, lemma_mul_bound2};
use crate::ray::{Ray, ray_wf, at_spec};
use crate::hittable::HitRecord;
use crate::hittable_list::{HittableList, list_hit};
use crate::interval::Interval;
use crate::sphere::{Sphere, normal_component, is_record_for};

verus! {

/// Red and green channels of the sky's horizon colour (0.5 and 0.7 in
/// fixed point, rounded down); its blue channel is a full unit.
pub const SKY_R: i128 = 32768;

/// Green channel of the sky's horizon colour.
pub const SKY_G: i128 = 45875;

/// Blue channel of the sky's horizon colour.
pub const SKY_B: i128 = 65536;

/// The channel ceiling before quantisation: just under one whole unit
/// (0.999 in fixed point, rounded down), so a full channel maps to 255.
pub const CLAMP_MAX: i128 = 65470;

/// Magnitude bound on any colour channel the shading functions produce.
pub const CHANNEL_ABS_MAX: i128 = 0x1000_0000_0000_0000_0000_0000;

/// Component magnitude bound for the camera's own geometry (2^26 raw
/// steps, 1024 whole units).
pub const CAMERA_MAX: i128 = 0x400_0000;

/// A component-wise floor quotient is bounded by the dividend's bound.
proof fn lemma_floor_quot_bound(num: int, den: int, q: int, m: int) by (nonlinear_arith)
    requires
        1 <= den,
        0 <= m,
        den * q <= num < den * (q + 1),
        -m <= num <= m,
    ensures
        -m - 1 <= q <= m,
{
}

/// The sky gradient behind a ray that hits nothing: white blended toward
/// the horizon colour by the upward component of the unit direction.
pub open spec fn background_spec(r: Ray) -> (int, int, int) {
    let uy = (r.dir.y * UNIT) / sqrt_floor(dot_spec(r.dir, r.dir));
    let tt = (uy + UNIT) / 2;
    (
        ((UNIT - tt) * UNIT + tt * SKY_R) / (UNIT as int),
        ((UNIT - tt) * UNIT + tt * SKY_G) / (UNIT as int),
        ((UNIT - tt) * UNIT + tt * SKY_B) / (UNIT as int),
    )
}

/// The normal-visualisation shade at a hit of `s` at parameter `t`: each
/// unit-normal component mapped from [-1, 1] into [0, 1].
pub open spec fn shade_spec(s: Sphere, r: Ray, t: int) -> (int, int, int) {
    let p = at_spec(r, t);
    (
        (normal_component(p.0, s.center.x as int, s.radius as int) + UNIT) / 2,
        (normal_component(p.1, s.center.y as int, s.radius as int) + UNIT) / 2,
        (normal_component(p.2, s.center.z as int, s.radius as int) + UNIT) / 2,
    )
}

/// The colour of one sample ray: the shade of the nearest hit in front of
/// the camera, or the sky gradient when nothing is hit.
pub open spec fn ray_color_spec(objs: Seq<Sphere>, r: Ray) -> (int, int, int) {
    match list_hit(objs, r, 0, T_MAX as int) {
        Some(ih) => shade_spec(objs[ih.0], r, ih.1),
        None => background_spec(r),
    }
}

/// Bounds on the point, the normal and the shade of a recorded hit, from
/// the floor-division bracketing alone.
proof fn lemma_record_component_bounds(s: Sphere, r: Ray, t: int, rec: HitRecord)
    requires
        s.wf(),
        ray_wf(r),
        -T_MAX <= t <= T_MAX,
        is_record_for(rec, s, r, t),
    ensures
        bounded(rec.normal, 0x1000_0000_0000_0000_0000_0000),
        bounded(rec.p, 0x40_0000_0000_0000_0000),
{
    lemma_point_component_bound(r.orig.x as int, r.dir.x as int, t, rec.p.x as int);
    lemma_point_component_bound(r.orig.y as int, r.dir.y as int, t, rec.p.y as int);
    lemma_point_component_bound(r.orig.z as int, r.dir.z as int, t, rec.p.z as int);
    lemma_normal_component_bound(rec.p.x as int, s.center.x as int, s.radius as int,
        rec.normal.x as int);
    lemma_normal_component_bound(rec.p.y as int, s.center.y as int, s.radius as int,
        rec.normal.y as int);
    lemma_normal_component_bound(rec.p.z as int, s.center.z as int, s.radius as int,
        rec.normal.z as int);
}

/// One evaluated point component stays within 2^70.
proof fn lemma_point_component_bound(o: int, d: int, t: int, pc: int)
    requires
        -COORD_MAX <= o <= COORD_MAX,
        -COORD_MAX <= d <= COORD_MAX,
        -T_MAX <= t <= T_MAX,
        pc == o + (d * t) / (UNIT as int),
    ensures
        -0x40_0000_0000_0000_0000 <= pc <= 0x40_0000_0000_0000_0000,
{
    lemma_mul_bound2(d, t, COORD_MAX as int, T_MAX as int);
    lemma_div_floor_bounds(d * t, UNIT as int);
    lemma_floor_quot_bound(d * t, UNIT as int, (d * t) / (UNIT as int),
        0x20_0000_0000_0000_0000);
}

/// One normal component stays within 2^88.
proof fn lemma_normal_component_bound(pc: int, cc: int, rad: int, nc: int)
    requires
        0 < rad,
        -COORD_MAX <= cc <= COORD_MAX,
        -0x40_0000_0000_0000_0000 <= pc <= 0x40_0000_0000_0000_0000,
        nc == ((pc - cc) * UNIT) / rad,
    ensures
        -0x1000_0000_0000_0000_0000_0000 <= nc <= 0x1000_0000_0000_0000_0000_0000,
{
    lemma_div_floor_bounds((pc - cc) * UNIT, rad);
    lemma_floor_quot_bound((pc - cc) * UNIT, rad, nc, 0x800_0000_0000_0000_0000_0000);
}

/// Computes the colour seen along one ray: the nearest hit in `[0, T_MAX]`
/// shaded by its outward normal, or the sky gradient when the scene is
/// missed.
pub fn ray_color(r: &Ray, world: &HittableList) -> (color: Color)
    requires
        world.wf(),
        ray_wf(*r),
    ensures
        color.x as int == ray_color_spec(world.objects@, *r).0,
        color.y as int == ray_color_spec(world.objects@, *r).1,
        color.z as int == ray_color_spec(world.objects@, *r).2,
        bounded(color, CHANNEL_ABS_MAX as int),
        list_hit(world.objects@, *r, 0, T_MAX as int) is None ==> bounded(color, UNIT as int)
            && color.x >= 0 && color.y >= 0 && color.z >= 0,
{
    let mut rec = HitRecord::blank();
    if world.hit(r, Interval::new(0, T_MAX), &mut rec) {
        proof {
            match list_hit(world.objects@, *r, 0, T_MAX as int) {
                Some(ih) => {
                    lemma_record_component_bounds(world.objects@[ih.0], *r, ih.1, rec);
                },
                None => {
                    assert(false);
                },
            }
        }
        Vec3::new(
            div_floor(rec.normal.x + UNIT, 2),
            div_floor(rec.normal.y + UNIT, 2),
            div_floor(rec.normal.z + UNIT, 2),
        )
    } else {
        let dir = r.direction();
        let ud = dir.unit_vector();
        proof {
            crate::fixed::lemma_sqrt_floor_bounds(dot_spec(r.dir, r.dir));
            crate::fixed::lemma_sqrt_floor_pos(dot_spec(r.dir, r.dir));
        }
        let uy = ud.y;
        proof {
            let len = sqrt_floor(dot_spec(r.dir, r.dir));
            lemma_mul_bound2(r.dir.y as int, UNIT as int, COORD_MAX as int, UNIT as int);
            lemma_div_floor_bounds(r.dir.y * UNIT, len);
            lemma_floor_quot_bound(r.dir.y * UNIT, len, uy as int, COORD_MAX * UNIT);
            // The unit direction's upward component stays within one unit:
            // the component is no longer than the whole direction.
            assert(r.dir.y * r.dir.y <= dot_spec(r.dir, r.dir)) by (nonlinear_arith);
            assert(-len <= r.dir.y <= len) by (nonlinear_arith)
                requires
                    0 <= len,
                    r.dir.y * r.dir.y <= dot_spec(r.dir, r.dir),
                    dot_spec(r.dir, r.dir) < (len + 1) * (len + 1),
            ;
            assert(-UNIT <= uy <= UNIT) by (nonlinear_arith)
                requires
                    1 <= len,
                    len * uy <= r.dir.y * UNIT,
                    r.dir.y * UNIT < len * (uy + 1),
                    -(len * UNIT) <= r.dir.y * UNIT <= len * UNIT,
            ;
        }
        let tt = div_floor(uy + UNIT, 2);
        Vec3::new(
            div_floor((UNIT - tt) * UNIT + tt * SKY_R, UNIT),
            div_floor((UNIT - tt) * UNIT + tt * SKY_G, UNIT),
            div_floor((UNIT - tt) * UNIT + tt * SKY_B, UNIT),
        )
    }
}

/// One colour channel quantised for output: the sample sum is averaged,
/// gamma-corrected by a square root, clamped just under one, and scaled to
/// an integer in [0, 255]. A negative channel — a degenerate colour no
/// well-formed scene produces — is emitted as 0.
pub open spec fn channel_spec(sum: int, n: int) -> int {
    let avg = sum / n;
    if avg < 0 {
        0
    } else {
        (256 * clamp_spec(sqrt_floor(avg * UNIT), 0, CLAMP_MAX as int)) / (UNIT as int)
    }
}

/// Quantises one channel of an accumulated pixel colour.
fn channel(sum: i128, n: i128) -> (v: u8)
    requires
        1 <= n,
        -0x100_0000_0000_0000_0000_0000_0000 <= sum
            <= 0x100_0000_0000_0000_0000_0000_0000,
    ensures
        v as int == channel_spec(sum as int, n as int),
{
    let avg = div_floor(sum, n);
    proof {
        lemma_floor_quot_bound(sum as int, n as int, avg as int,
            0x100_0000_0000_0000_0000_0000_0000);
    }
    if avg < 0 {
        return 0;
    }
    let g = isqrt(avg * UNIT);
    proof {
        crate::fixed::lemma_sqrt_floor_bounds(avg as int * UNIT);
    }
    let cl = clamp(g, 0, CLAMP_MAX);
    let out = div_floor(256 * cl, UNIT);
    proof {
        assert(0 <= out <= 255);
    }
    out as u8
}

/// Quantises an accumulated pixel colour into an output triple, averaging
/// over the sample count and gamma-correcting each channel.
pub fn color_triple(pixel_color: Color, samples_per_pixel: usize) -> (rgb: (u8, u8, u8))
    requires
        1 <= samples_per_pixel,
        bounded(pixel_color, 0x100_0000_0000_0000_0000_0000_0000),
    ensures
        rgb.0 as int == channel_spec(pixel_color.x as int, samples_per_pixel as int),
        rgb.1 as int == channel_spec(pixel_color.y as int, samples_per_pixel as int),
        rgb.2 as int == channel_spec(pixel_color.z as int, samples_per_pixel as int),
{
    let n = samples_per_pixel as i128;
    (channel(pixel_color.x, n), channel(pixel_color.y, n), channel(pixel_color.z, n))
}

/// Fixed camera geometry and output dimensions for one render.
pub struct RenderConfig {
    pub image_width: usize,
    pub image_height: usize,
    pub samples_per_pixel: usize,
    pub origin: Point3,
    pub lower_left_corner: Point3,
    pub horizontal: Vec3,
    pub vertical: Vec3,
}

impl RenderConfig {
    /// A usable camera: positive dimensions within the solver's range, a
    /// viewport spanned in the image plane (no depth component in its two
    /// axes), and the viewport strictly in front of the eye, so every
    /// generated ray has a nonzero direction.
    pub open spec fn wf(self) -> bool {
        &&& 2 <= self.image_width <= 16384
        &&& 2 <= self.image_height <= 16384
        &&& 1 <= self.samples_per_pixel <= 4096
        &&& bounded(self.origin, CAMERA_MAX as int)
        &&& bounded(self.lower_left_corner, CAMERA_MAX as int)
        &&& bounded(self.horizontal, CAMERA_MAX as int)
        &&& bounded(self.vertical, CAMERA_MAX as int)
        &&& self.horizontal.z == 0
        &&& self.vertical.z == 0
        &&& self.lower_left_corner.z < self.origin.z
    }

    /// Builds a camera after checking its geometry is usable.
    pub fn new(
        image_width: usize,
        image_height: usize,
        samples_per_pixel: usize,
        origin: Point3,
        lower_left_corner: Point3,
        horizontal: Vec3,
        vertical: Vec3,
    ) -> (cfg: Option<RenderConfig>)
        ensures
            match cfg {
                Some(c) => c == (RenderConfig {
                    image_width,
                    image_height,
                    samples_per_pixel,
                    origin,
                    lower_left_corner,
                    horizontal,
                    vertical,
                }) && c.wf(),
                None => !(RenderConfig {
                    image_width,
                    image_height,
                    samples_per_pixel,
                    origin,
                    lower_left_corner,
                    horizontal,
                    vertical,
                }).wf(),
            },
    {
        let ok = 2 <= image_width && image_width <= 16384 && 2 <= image_height
            && image_height <= 16384 && 1 <= samples_per_pixel && samples_per_pixel <= 4096
            && in_camera_range(origin) && in_camera_range(lower_left_corner)
            && in_camera_range(horizontal) && in_camera_range(vertical)
            && horizontal.z == 0 && vertical.z == 0 && lower_left_corner.z < origin.z;
        if ok {
            Some(RenderConfig {
                image_width,
                image_height,
                samples_per_pixel,
                origin,
                lower_left_corner,
                horizontal,
                vertical,
            })
        } else {
            None
        }
    }
}

/// Checks a camera component vector against the camera range.
fn in_camera_range(v: Vec3) -> (r: bool)
    ensures
        r == bounded(v, CAMERA_MAX as int),
{
    -CAMERA_MAX <= v.x && v.x <= CAMERA_MAX && -CAMERA_MAX <= v.y && v.y <= CAMERA_MAX
        && -CAMERA_MAX <= v.z && v.z <= CAMERA_MAX
}

/// The ray cast through pixel column `i`, row-from-bottom `j`, with
/// sub-pixel offsets `du`, `dv` in raw steps: the viewport point at
/// fractions `u = (i + du/UNIT) / (width-1)`, `v = (j + dv/UNIT) /
/// (height-1)`, seen from the camera origin.
pub open spec fn sample_ray_spec(cfg: RenderConfig, i: int, j: int, du: int, dv: int) -> Ray {
    let u = (i * UNIT + du) / (cfg.image_width - 1);
    let v = (j * UNIT + dv) / (cfg.image_height - 1);
    Ray {
        orig: cfg.origin,
        dir: Vec3 {
            x: (cfg.lower_left_corner.x + (cfg.horizontal.x * u) / (UNIT as int)
                + (cfg.vertical.x * v) / (UNIT as int) - cfg.origin.x) as i128,
            y: (cfg.lower_left_corner.y + (cfg.horizontal.y * u) / (UNIT as int)
                + (cfg.vertical.y * v) / (UNIT as int) - cfg.origin.y) as i128,
            z: (cfg.lower_left_corner.z + (cfg.horizontal.z * u) / (UNIT as int)
                + (cfg.vertical.z * v) / (UNIT as int) - cfg.origin.z) as i128,
        },
    }
}

/// A fraction of the viewport span stays within twice a unit.
proof fn lemma_fraction_bound(num: int, den: int, q: int) by (nonlinear_arith)
    requires
        1 <= den,
        0 <= num <= (den + 1) * UNIT,
        den * q <= num < den * (q + 1),
    ensures
        0 <= q <= 2 * UNIT,
{
}

/// Builds the sample ray for pixel `(i, j)` with sub-pixel offsets
/// `du, dv`.
pub fn get_ray(cfg: &RenderConfig, i: usize, j: usize, du: i128, dv: i128) -> (r: Ray)
    requires
        cfg.wf(),
        i < cfg.image_width,
        j < cfg.image_height,
        0 <= du <= UNIT,
        0 <= dv <= UNIT,
    ensures
        r == sample_ray_spec(*cfg, i as int, j as int, du as int, dv as int),
        ray_wf(r),
{
    let w1 = (cfg.image_width - 1) as i128;
    let h1 = (cfg.image_height - 1) as i128;
    let u = div_floor((i as i128) * UNIT + du, w1);
    let v = div_floor((j as i128) * UNIT + dv, h1);
    proof {
        lemma_fraction_bound((i as i128) * UNIT + du, w1 as int, u as int);
        lemma_fraction_bound((j as i128) * UNIT + dv, h1 as int, v as int);
    }
    let hterm = cfg.horizontal.scale(u);
    let vterm = cfg.vertical.scale(v);
    proof {
        lemma_scaled_term_bound(cfg.horizontal.x as int, u as int, hterm.x as int);
        lemma_scaled_term_bound(cfg.horizontal.y as int, u as int, hterm.y as int);
        lemma_scaled_term_bound(cfg.horizontal.z as int, u as int, hterm.z as int);
        lemma_scaled_term_bound(cfg.vertical.x as int, v as int, vterm.x as int);
        lemma_scaled_term_bound(cfg.vertical.y as int, v as int, vterm.y as int);
        lemma_scaled_term_bound(cfg.vertical.z as int, v as int, vterm.z as int);
        lemma_div_of0(UNIT as int);
        assert(hterm.z == 0);
        assert(vterm.z == 0);
    }
    let dir = cfg.lower_left_corner.add(hterm).add(vterm).sub(cfg.origin);
    proof {
        assert(dir.z <= -1);
        assert(dot_spec(dir, dir) >= 1) by (nonlinear_arith)
            requires
                dir.z <= -1,
        ;
    }
    Ray { orig: cfg.origin, dir }
}

/// Relies on rand::random_range over the half-open integer range
/// `0..UNIT`: the sample always lies within the range it is given. Nothing
/// more is promised of a random value.
#[verifier::external_body]
fn random_unit() -> (r: i128)
    ensures
        0 <= r < UNIT,
{
    rand::random_range(0..UNIT)
}

/// A sample anywhere in `[min, max)`: the unit sample scaled into the
/// span. Only the range of the result is promised; its distribution comes
/// from the external generator.
pub fn random_in_range(min: i128, max: i128) -> (r: i128)
    requires
        -0x1000_0000_0000_0000 <= min,
        min < max,
        max <= 0x1000_0000_0000_0000,
    ensures
        min <= r < max,
{
    let u = random_unit();
    let span = max - min;
    proof {
        lemma_mul_bound2(span as int, u as int, 0x2000_0000_0000_0000, UNIT as int);
    }
    let off = div_floor(span * u, UNIT);
    proof {
        assert(0 <= off < span) by (nonlinear_arith)
            requires
                UNIT * off <= span * u,
                span * u < UNIT * (off + 1),
                0 <= u < UNIT,
                0 < span,
        ;
    }
    min + off
}

/// The deterministic colour of the pixel at column `i`, row-from-bottom
/// `j`: every sample cast through the pixel centre.
pub open spec fn pixel_center_spec(objs: Seq<Sphere>, cfg: RenderConfig, i: int, j: int) -> (
    int,
    int,
    int,
) {
    let c = ray_color_spec(objs, sample_ray_spec(cfg, i, j, HALF_UNIT as int,
        HALF_UNIT as int));
    let n = cfg.samples_per_pixel as int;
    (channel_spec(n * c.0, n), channel_spec(n * c.1, n), channel_spec(n * c.2, n))
}

/// The triple at raster index `k` is the centre-sampled colour of its
/// pixel (raster order: top row first, left to right).
pub open spec fn pixel_matches(objs: Seq<Sphere>, cfg: RenderConfig, k: int, px: (u8, u8, u8)) -> bool {
    let w = cfg.image_width as int;
    let h = cfg.image_height as int;
    let c = pixel_center_spec(objs, cfg, k % w, h - 1 - k / w);
    px.0 as int == c.0 && px.1 as int == c.1 && px.2 as int == c.2
}

/// Every offset pair lies within one pixel footprint.
pub open spec fn offsets_in_unit(offs: Seq<(int, int)>) -> bool {
    forall|k: int| 0 <= k < offs.len()
        ==> 0 <= (#[trigger] offs[k]).0 < UNIT && 0 <= offs[k].1 < UNIT
}

/// The componentwise sum of the sample colours of pixel `(i, j)` cast
/// through the given sub-pixel offsets.
pub open spec fn sample_sum(
    objs: Seq<Sphere>,
    cfg: RenderConfig,
    i: int,
    j: int,
    offs: Seq<(int, int)>,
) -> (int, int, int)
    decreases offs.len(),
{
    if offs.len() == 0 {
        (0, 0, 0)
    } else {
        let prev = sample_sum(objs, cfg, i, j, offs.drop_last());
        let c = ray_color_spec(objs, sample_ray_spec(cfg, i, j, offs.last().0,
            offs.last().1));
        (prev.0 + c.0, prev.1 + c.1, prev.2 + c.2)
    }
}

/// The triple `px` is the quantised average of the colours of pixel
/// `(i, j)` sampled through some `samples_per_pixel` offsets, each within
/// the pixel footprint: what a jittered render produces, whatever the
/// generator returned.
pub open spec fn pixel_sampled_at(
    objs: Seq<Sphere>,
    cfg: RenderConfig,
    i: int,
    j: int,
    px: (u8, u8, u8),
) -> bool {
    exists|offs: Seq<(int, int)>| {
        &&& offs.len() == cfg.samples_per_pixel
        &&& offsets_in_unit(offs)
        &&& px.0 as int == channel_spec((#[trigger] sample_sum(objs, cfg, i, j, offs)).0,
            cfg.samples_per_pixel as int)
        &&& px.1 as int == channel_spec(sample_sum(objs, cfg, i, j, offs).1,
            cfg.samples_per_pixel as int)
        &&& px.2 as int == channel_spec(sample_sum(objs, cfg, i, j, offs).2,
            cfg.samples_per_pixel as int)
    }
}

/// The triple at raster index `k` is the quantised average of its pixel's
/// colour over sample offsets within the pixel footprint.
pub open spec fn pixel_sampled(objs: Seq<Sphere>, cfg: RenderConfig, k: int, px: (u8, u8, u8)) -> bool {
    let w = cfg.image_width as int;
    let h = cfg.image_height as int;
    pixel_sampled_at(objs, cfg, k % w, h - 1 - k / w, px)
}

/// Renders the scene: one quantised colour triple per pixel, in raster
/// order (top row first, left to right). Each pixel averages
/// `samples_per_pixel` sample rays; with `jitter` the sub-pixel offsets
/// come from the external random generator, and without it every sample
/// passes through the pixel centre, pinning the whole image down exactly.
pub fn render(world: &HittableList, cfg: &RenderConfig, jitter: bool) -> (pixels: Vec<
    (u8, u8, u8),
>)
    requires
        world.wf(),
        cfg.wf(),
    ensures
        pixels@.len() == cfg.image_width * cfg.image_height,
        !jitter ==> forall|k: int| 0 <= k < pixels@.len()
            ==> #[trigger] pixel_matches(world.objects@, *cfg, k, pixels@[k]),
        jitter ==> forall|k: int| 0 <= k < pixels@.len()
            ==> #[trigger] pixel_sampled(world.objects@, *cfg, k, pixels@[k]),
{
    let w = cfg.image_width;
    let h = cfg.image_height;
    let spp = cfg.samples_per_pixel;
    let mut pixels: Vec<(u8, u8, u8)> = Vec::new();
    let mut row: usize = 0;
    while row < h
        invariant
            row <= h,
            w == cfg.image_width,
            h == cfg.image_height,
            spp == cfg.samples_per_pixel,
            world.wf(),
            cfg.wf(),
            pixels@.len() == row * w,
            !jitter ==> forall|k: int| 0 <= k < pixels@.len()
                ==> #[trigger] pixel_matches(world.objects@, *cfg, k, pixels@[k]),
            jitter ==> forall|k: int| 0 <= k < pixels@.len()
                ==> #[trigger] pixel_sampled(world.objects@, *cfg, k, pixels@[k]),
        decreases h - row,
    {
        let j = h - 1 - row;
        let mut col: usize = 0;
        while col < w
            invariant
                col <= w,
                row < h,
                j == h - 1 - row,
                w == cfg.image_width,
                h == cfg.image_height,
                spp == cfg.samples_per_pixel,
                world.wf(),
                cfg.wf(),
                pixels@.len() == row * w + col,
                !jitter ==> forall|k: int| 0 <= k < pixels@.len()
                    ==> #[trigger] pixel_matches(world.objects@, *cfg, k, pixels@[k]),
                jitter ==> forall|k: int| 0 <= k < pixels@.len()
                    ==> #[trigger] pixel_sampled(world.objects@, *cfg, k, pixels@[k]),
            decreases w - col,
        {
            let px = render_pixel(world, cfg, col, j, jitter);
            proof {
                let k = pixels@.len() as int;
                lemma_fundamental_div_mod_converse(k, w as int, row as int, col as int);
                if !jitter {
                    assert(pixel_matches(world.objects@, *cfg, k, px));
                } else {
                    assert(pixel_sampled(world.objects@, *cfg, k, px));
                }
            }
            pixels.push(px);
            col = col + 1;
        }
        proof {
            assert((row as int + 1) * (w as int) == row as int * (w as int) + w as int)
                by (nonlinear_arith);
        }
        row = row + 1;
    }
    proof {
        assert(h * w == w * h) by (nonlinear_arith);
    }
    pixels
}

/// Renders one pixel: accumulates its sample colours and quantises the
/// average.
fn render_pixel(world: &HittableList, cfg: &RenderConfig, i: usize, j: usize, jitter: bool)
    -> (px: (u8, u8, u8))
    requires
        world.wf(),
        cfg.wf(),
        i < cfg.image_width,
        j < cfg.image_height,
    ensures
        !jitter ==> {
            let c = pixel_center_spec(world.objects@, *cfg, i as int, j as int);
            px.0 as int == c.0 && px.1 as int == c.1 && px.2 as int == c.2
        },
        jitter ==> pixel_sampled_at(world.objects@, *cfg, i as int, j as int, px),
{
    let spp = cfg.samples_per_pixel;
    let ghost cdet = ray_color_spec(world.objects@, sample_ray_spec(*cfg, i as int,
        j as int, HALF_UNIT as int, HALF_UNIT as int));
    let ghost mut offs: Seq<(int, int)> = Seq::empty();
    let mut sample: usize = 0;
    let mut sum = Vec3::new(0, 0, 0);
    while sample < spp
        invariant
            sample <= spp,
            spp == cfg.samples_per_pixel,
            world.wf(),
            cfg.wf(),
            i < cfg.image_width,
            j < cfg.image_height,
            cdet == ray_color_spec(world.objects@, sample_ray_spec(*cfg, i as int,
                j as int, HALF_UNIT as int, HALF_UNIT as int)),
            offs.len() == sample,
            offsets_in_unit(offs),
            sum.x == sample_sum(world.objects@, *cfg, i as int, j as int, offs).0,
            sum.y == sample_sum(world.objects@, *cfg, i as int, j as int, offs).1,
            sum.z == sample_sum(world.objects@, *cfg, i as int, j as int, offs).2,
            -(sample as int * CHANNEL_ABS_MAX) <= sum.x
                <= sample as int * CHANNEL_ABS_MAX,
            -(sample as int * CHANNEL_ABS_MAX) <= sum.y
                <= sample as int * CHANNEL_ABS_MAX,
            -(sample as int * CHANNEL_ABS_MAX) <= sum.z
                <= sample as int * CHANNEL_ABS_MAX,
            !jitter ==> sum.x == sample as int * cdet.0,
            !jitter ==> sum.y == sample as int * cdet.1,
            !jitter ==> sum.z == sample as int * cdet.2,
        decreases spp - sample,
    {
        let du: i128 = if jitter {
            random_unit()
        } else {
            HALF_UNIT
        };
        let dv: i128 = if jitter {
            random_unit()
        } else {
            HALF_UNIT
        };
        let ray = get_ray(cfg, i, j, du, dv);
        let c = ray_color(&ray, world);
        proof {
            let prev = offs;
            offs = offs.push((du as int, dv as int));
            assert(offs.drop_last() =~= prev);
            assert(offs.last() == (du as int, dv as int));
            if !jitter {
                assert((sample as int + 1) * cdet.0 == sample as int * cdet.0 + cdet.0)
                    by (nonlinear_arith);
                assert((sample as int + 1) * cdet.1 == sample as int * cdet.1 + cdet.1)
                    by (nonlinear_arith);
                assert((sample as int + 1) * cdet.2 == sample as int * cdet.2 + cdet.2)
                    by (nonlinear_arith);
            }
        }
        sum = sum.add(c);
        sample = sample + 1;
    }
    let out = color_triple(sum, spp);
    proof {
        assert(offs.len() == cfg.samples_per_pixel);
        assert(out.0 as int == channel_spec(sample_sum(world.objects@, *cfg, i as int,
            j as int, offs).0, cfg.samples_per_pixel as int));
        assert(out.1 as int == channel_spec(sample_sum(world.objects@, *cfg, i as int,
            j as int, offs).1, cfg.samples_per_pixel as int));
        assert(out.2 as int == channel_spec(sample_sum(world.objects@, *cfg, i as int,
            j as int, offs).2, cfg.samples_per_pixel as int));
    }
    out
}

/// One scaled viewport term stays within twice the camera range.
proof fn lemma_scaled_term_bound(hc: int, u: int, q: int)
    requires
        -CAMERA_MAX <= hc <= CAMERA_MAX,
        0 <= u <= 2 * UNIT,
        q == (hc * u) / (UNIT as int),
    ensures
        -2 * CAMERA_MAX - 1 <= q <= 2 * CAMERA_MAX,
{
    lemma_mul_bound2(hc, u, CAMERA_MAX as int, 2 * UNIT);
    lemma_div_floor_bounds(hc * u, UNIT as int);
    lemma_floor_quot_bound(hc * u, UNIT as int, q, 2 * CAMERA_MAX * UNIT);
    assert(-2 * CAMERA_MAX - 1 <= q <= 2 * CAMERA_MAX) by (nonlinear_arith)
        requires
            UNIT * q <= hc * u < UNIT * (q + 1),
            -(2 * CAMERA_MAX * UNIT) <= hc * u <= 2 * CAMERA_MAX * UNIT,
    ;
}

} // verus!
