use vstd::prelude::*;
use crate::fixed::{div_floor, isqrt, isqrt_spec, SCALE, SCALE_WIDE};
use crate::hittable::{lemma_nearest_is_minimum, object_hit, Hittable, HittableList};
use crate::interval::{Interval, T_MAX};
use crate::color::{ppm_image, write_header, Color};
use crate::ray::{Ray, COORD_MAX};
use crate::vec3::{bounded_by, dot_spec, random_in, vec3_of, Point3, Vec3};

verus! {

/// Green channel of the sky color at the top of the background, 0.7 in fixed point.
pub const SKY_GREEN: i64 = 45875;

/// Width-to-height ratio of the image, as two whole numbers.
#[derive(Clone, Copy, Debug, PartialEq, Eq, Structural)]
pub struct AspectRatio {
    pub width: u32,
    pub height: u32,
}

/// The viewer and the image it takes. The first three fields are its settings;
/// the others are derived from them by `initialize`.
#[derive(Clone, Copy, Debug)]
pub struct Camera {
    pub aspect_ratio: AspectRatio,
    pub image_width: u32,
    pub samples_per_pixel: u32,
    pub image_height: u32,
    pub center: Point3,
    pub pixel00_loc: Point3,
    pub pixel_delta_u: Vec3,
    pub pixel_delta_v: Vec3,
}

/// Image height for a width and a ratio: the width over the ratio, rounded down, at least 1.
pub open spec fn height_for(image_width: int, ar: AspectRatio) -> int {
    let h = (image_width * ar.height) / (ar.width as int);
    if h < 1 { 1 } else { h }
}

/// Distance between neighbouring pixel centers: a viewport 2 units high over `h` rows.
pub open spec fn pixel_step(h: int) -> int {
    (2 * (SCALE as int)) / h
}

/// Center of pixel (0, 0): half a step in from the upper left corner of the grid of
/// `w` by `h` steps that is centered on the view axis, one unit in front of the camera.
pub open spec fn pixel00_for(w: int, h: int) -> Vec3 {
    vec3_of(
        -((w * pixel_step(h)) / 2) + pixel_step(h) / 2,
        (h * pixel_step(h)) / 2 - pixel_step(h) / 2,
        -SCALE,
    )
}

/// A sampling offset, in fixed point, lies in `[-1/2, 1/2)`.
pub open spec fn offset_ok(o: i64) -> bool {
    -(SCALE / 2) <= o < SCALE / 2
}

/// The ray from the camera center through pixel `(x, y)` moved by `(ox, oy)` of a pixel.
pub open spec fn sample_ray(cam: Camera, x: int, y: int, ox: int, oy: int) -> Ray {
    let u = x * SCALE + ox;
    let v = y * SCALE + oy;
    let p = cam.pixel00_loc;
    let du = cam.pixel_delta_u;
    let dv = cam.pixel_delta_v;
    let sample = vec3_of(
        p.x + (u * du.x) / (SCALE as int) + (v * dv.x) / (SCALE as int),
        p.y + (u * du.y) / (SCALE as int) + (v * dv.y) / (SCALE as int),
        p.z + (u * du.z) / (SCALE as int) + (v * dv.z) / (SCALE as int),
    );
    Ray {
        origin: cam.center,
        dir: vec3_of(sample.x - cam.center.x, sample.y - cam.center.y, sample.z - cam.center.z),
    }
}

/// Normal visualization: each component of a unit normal mapped from `[-1, 1]` to `[0, 1]`.
pub open spec fn normal_shade(n: Vec3) -> Color {
    vec3_of((n.x + SCALE) / 2, (n.y + SCALE) / 2, (n.z + SCALE) / 2)
}

/// Height of a direction on the sky, `(unit_y + 1) / 2`, in fixed point.
pub open spec fn sky_blend(dir: Vec3) -> int {
    let len = isqrt_spec(dot_spec(dir, dir));
    ((dir.y * SCALE) / len + SCALE) / 2
}

/// Background: white at the bottom blended linearly into sky blue `(0.5, 0.7, 1)` at the top.
pub open spec fn background(dir: Vec3) -> Color {
    let a = sky_blend(dir);
    vec3_of(
        ((SCALE - a) * SCALE + a * (SCALE / 2)) / (SCALE as int),
        ((SCALE - a) * SCALE + a * SKY_GREEN) / (SCALE as int),
        ((SCALE - a) * SCALE + a * SCALE) / (SCALE as int),
    )
}

/// The color seen along `r`: the shaded normal of the nearest hit at `t` in
/// `[0, T_MAX]`, else the background. `T_MAX` stands for "no limit": a hit farther
/// than `T_MAX / SCALE` = 65536 times the direction's length counts as a miss, so a
/// ray with a direction only a few steps long sees no sphere more than a few units away.
pub open spec fn ray_color_spec<H: Hittable>(world: H, r: Ray) -> Color {
    match world.hit_spec(r, Interval { min: 0, max: T_MAX }) {
        Some(rec) => normal_shade(rec.normal),
        None => background(r.dir),
    }
}

proof fn lemma_grid_bound(w: int, h: int)
    requires
        0 <= w <= 1024 * h,
        h >= 1,
    ensures
        0 <= w * pixel_step(h) <= 2048 * SCALE,
        0 <= h * pixel_step(h) <= 2 * SCALE,
{
    lemma_step_facts(h);
    let step = pixel_step(h);
    assert(0 <= w * step <= 2048 * SCALE) by (nonlinear_arith)
        requires 0 <= w <= 1024 * h, step * h <= 2 * SCALE, step >= 0;
    assert(0 <= h * step <= 2 * SCALE) by (nonlinear_arith)
        requires step * h <= 2 * SCALE, step >= 0, h >= 1;
}

/// Largest magnitude of a color component that shading produces.
pub const COLOR_MAX: i64 = 0x2000_0000_0000_0000;

proof fn lemma_step_facts(h: int)
    requires
        h >= 1,
    ensures
        0 <= pixel_step(h) <= 2 * SCALE,
        pixel_step(h) * h <= 2 * SCALE,
{
    vstd::arithmetic::div_mod::lemma_fundamental_div_mod(2 * SCALE as int, h);
    vstd::arithmetic::div_mod::lemma_div_is_ordered_by_denominator(2 * SCALE as int, 1, h);
    vstd::arithmetic::div_mod::lemma_div_pos_is_pos(2 * SCALE as int, h);
    assert(pixel_step(h) * h == h * pixel_step(h)) by (nonlinear_arith);
}

proof fn lemma_column_bound(x: int, ox: int, step: int, w: int, h: int)
    requires
        0 <= x < w,
        -32768 <= ox < 32768,
        0 <= step <= 131072,
        step * h <= 131072,
        h >= 1,
        w <= 1024 * h,
    ensures
        -65536 <= ((x * 65536 + ox) * step) / 65536 <= 0x800_0000,
{
    let u = x * 65536 + ox;
    assert(-32768 * step <= u * step <= (w * 65536) * step) by (nonlinear_arith)
        requires -32768 <= u <= w * 65536, step >= 0;
    assert((w * 65536) * step <= 65536 * 0x800_0000) by (nonlinear_arith)
        requires w <= 1024 * h, step * h <= 131072, step >= 0, h >= 1, w >= 0;
    assert(-32768 * step >= -65536 * 65536) by (nonlinear_arith)
        requires 0 <= step <= 131072;
    vstd::arithmetic::div_mod::lemma_div_is_ordered(-65536 * 65536, u * step, 65536);
    vstd::arithmetic::div_mod::lemma_div_is_ordered(u * step, (65536 * 0x800_0000) as int, 65536);
}

proof fn lemma_row_bound(y: int, oy: int, step: int, h: int)
    requires
        0 <= y < h,
        -32768 <= oy < 32768,
        0 <= step <= 131072,
        step * h <= 131072,
    ensures
        -131072 <= ((y * 65536 + oy) * (-step)) / 65536 <= 65536,
{
    let v = y * 65536 + oy;
    assert(-65536 * 65536 <= v * step <= 131072 * 65536) by (nonlinear_arith)
        requires -32768 <= v <= h * 65536, 0 <= step <= 131072, step * h <= 131072, h >= 1;
    assert(v * (-step) == -(v * step)) by (nonlinear_arith);
    vstd::arithmetic::div_mod::lemma_div_is_ordered(-131072 * 65536, v * (-step), 65536);
    vstd::arithmetic::div_mod::lemma_div_is_ordered(v * (-step), (65536 * 65536) as int, 65536);
}

/// One channel of a color: red, green or blue for `k` 0, 1 or 2.
pub open spec fn channel(c: Color, k: int) -> int {
    if k == 0 {
        c.x as int
    } else if k == 1 {
        c.y as int
    } else {
        c.z as int
    }
}

pub open spec fn channel_sum(cols: Seq<Color>, k: int) -> int
    decreases cols.len(),
{
    if cols.len() == 0 {
        0
    } else {
        channel_sum(cols.drop_last(), k) + channel(cols.last(), k)
    }
}

/// Channel-wise mean of a non-empty run of colors, rounded down.
pub open spec fn average(cols: Seq<Color>) -> Color {
    let n = cols.len() as int;
    vec3_of(channel_sum(cols, 0) / n, channel_sum(cols, 1) / n, channel_sum(cols, 2) / n)
}

/// Every offset pair lies within half a pixel.
pub open spec fn offsets_ok(offs: Seq<(i64, i64)>) -> bool {
    forall|i: int| 0 <= i < offs.len() ==> offset_ok(#[trigger] offs[i].0) && offset_ok(offs[i].1)
}

/// The colors seen along the sample rays of pixel `(x, y)`, one per offset pair.
pub open spec fn sample_colors<H: Hittable>(
    cam: Camera,
    world: H,
    x: int,
    y: int,
    offs: Seq<(i64, i64)>,
) -> Seq<Color> {
    offs.map_values(|o: (i64, i64)| ray_color_spec(world, sample_ray(cam, x, y, o.0 as int, o.1 as int)))
}

/// `c` is the average over some set of `samples_per_pixel` sample rays of pixel `(x, y)`.
pub open spec fn pixel_sampled<H: Hittable>(cam: Camera, world: H, x: int, y: int, c: Color) -> bool {
    exists|offs: Seq<(i64, i64)>|
        offs.len() == cam.samples_per_pixel && offsets_ok(offs) && c == #[trigger] average(
            sample_colors(cam, world, x, y, offs),
        )
}

proof fn lemma_channel_sum_of_equal(cols: Seq<Color>, c: Color, k: int)
    requires
        forall|i: int| 0 <= i < cols.len() ==> cols[i] == c,
    ensures
        channel_sum(cols, k) == cols.len() * channel(c, k),
    decreases cols.len(),
{
    if cols.len() > 0 {
        lemma_channel_sum_of_equal(cols.drop_last(), c, k);
        assert(channel_sum(cols, k) == (cols.len() - 1) * channel(c, k) + channel(c, k));
        assert((cols.len() - 1) * channel(c, k) + channel(c, k) == cols.len() * channel(c, k))
            by (nonlinear_arith);
    }
}

/// Averaging any number of samples that all have the same color gives exactly that color.
pub proof fn lemma_average_of_equal(cols: Seq<Color>, c: Color)
    requires
        cols.len() > 0,
        forall|i: int| 0 <= i < cols.len() ==> cols[i] == c,
    ensures
        average(cols) == c,
{
    let n = cols.len() as int;
    lemma_channel_sum_of_equal(cols, c, 0);
    lemma_channel_sum_of_equal(cols, c, 1);
    lemma_channel_sum_of_equal(cols, c, 2);
    vstd::arithmetic::div_mod::lemma_div_multiples_vanish(c.x as int, n);
    vstd::arithmetic::div_mod::lemma_div_multiples_vanish(c.y as int, n);
    vstd::arithmetic::div_mod::lemma_div_multiples_vanish(c.z as int, n);
    assert(n * c.x == cols.len() * channel(c, 0));
}

proof fn lemma_mean_bound(s: int, n: int, m: int)
    requires
        n >= 1,
        m >= 0,
        -(n * m) <= s <= n * m,
    ensures
        -m <= s / n <= m,
{
    vstd::arithmetic::div_mod::lemma_div_is_ordered(-(n * m), s, n);
    vstd::arithmetic::div_mod::lemma_div_is_ordered(s, n * m, n);
    vstd::arithmetic::div_mod::lemma_div_multiples_vanish(m, n);
    vstd::arithmetic::div_mod::lemma_div_multiples_vanish(-m, n);
    assert(n * (-m) == -(n * m)) by (nonlinear_arith);
}

/// A ray that meets no object of a scene in `[0, T_MAX]` finds no hit there, and
/// its color is the background's.
pub proof fn lemma_miss_shows_background(world: HittableList, r: Ray)
    requires
        forall|i: int|
            0 <= i < world@.len() ==> (#[trigger] object_hit(world@[i], r, Interval { min: 0, max: T_MAX }))
                is None,
    ensures
        world.hit_spec(r, Interval { min: 0, max: T_MAX }) is None,
        ray_color_spec(world, r) == background(r.dir),
{
    lemma_nearest_is_minimum(world@, r, Interval { min: 0, max: T_MAX });
}

/// In a 400-pixel-wide 16:9 image, every sample ray through the center pixel
/// (200, 112) leaves the camera within one pixel step of the view axis:
/// `0 <= x < 2/225` and `|y| <= 1/225`, one unit ahead.
pub proof fn lemma_center_ray_on_axis(cam: Camera, ox: i64, oy: i64)
    requires
        cam.initialized(),
        cam.image_width == 400,
        cam.aspect_ratio == (AspectRatio { width: 16, height: 9 }),
        offset_ok(ox),
        offset_ok(oy),
    ensures
        sample_ray(cam, 200, 112, ox as int, oy as int).origin == vec3_of(0, 0, 0),
        0 <= sample_ray(cam, 200, 112, ox as int, oy as int).dir.x < (2 * SCALE) / 225,
        -(SCALE / 225) <= sample_ray(cam, 200, 112, ox as int, oy as int).dir.y <= SCALE / 225,
        sample_ray(cam, 200, 112, ox as int, oy as int).dir.z == -SCALE,
{
    assert(height_for(400, cam.aspect_ratio) == 225);
    assert(pixel_step(225) == 582);
    assert(cam.pixel00_loc == vec3_of(-116109, 65184, -65536));
    let u = 200 * 65536 + ox;
    let v = 112 * 65536 + oy;
    assert(u * 582 == ox * 582 + 116400 * 65536) by (nonlinear_arith)
        requires u == 200 * 65536 + ox;
    assert(v * (-582) == oy * (-582) + (-65184) * 65536) by (nonlinear_arith)
        requires v == 112 * 65536 + oy;
    assert(u * 0 == 0 && v * 0 == 0) by (nonlinear_arith);
    vstd::arithmetic::div_mod::lemma_hoist_over_denominator(ox * 582, 116400, 65536);
    vstd::arithmetic::div_mod::lemma_hoist_over_denominator(oy * (-582), -65184, 65536);
    assert(-19070976 <= ox * 582 <= 19070394) by (nonlinear_arith)
        requires -32768 <= ox < 32768;
    assert(-19070394 <= oy * (-582) <= 19070976) by (nonlinear_arith)
        requires -32768 <= oy < 32768;
    vstd::arithmetic::div_mod::lemma_div_is_ordered(-19070976, ox * 582, 65536);
    vstd::arithmetic::div_mod::lemma_div_is_ordered(ox * 582, 19070394, 65536);
    vstd::arithmetic::div_mod::lemma_div_is_ordered(-19070394, oy * (-582), 65536);
    vstd::arithmetic::div_mod::lemma_div_is_ordered(oy * (-582), 19070976, 65536);
}

impl Default for Camera {
    /// A square image 100 pixels wide with 10 samples per pixel, not yet initialized.
    fn default() -> (c: Camera)
        ensures
            c.aspect_ratio == (AspectRatio { width: 1, height: 1 }),
            c.image_width == 100,
            c.samples_per_pixel == 10,
            c.image_height == 0,
            c.center == vec3_of(0, 0, 0),
            c.pixel00_loc == vec3_of(0, 0, 0),
            c.pixel_delta_u == vec3_of(0, 0, 0),
            c.pixel_delta_v == vec3_of(0, 0, 0),
    {
        Camera {
            aspect_ratio: AspectRatio { width: 1, height: 1 },
            image_width: 100,
            samples_per_pixel: 10,
            image_height: 0,
            center: Vec3::zero(),
            pixel00_loc: Vec3::zero(),
            pixel_delta_u: Vec3::zero(),
            pixel_delta_v: Vec3::zero(),
        }
    }
}

impl Camera {
    /// Settings a render can work with: all positive, and an image no more than 1024
    /// times wider than high, so that the viewport fits the coordinate range.
    pub open spec fn settings_ok(&self) -> bool {
        &&& self.aspect_ratio.width > 0
        &&& self.aspect_ratio.height > 0
        &&& self.image_width > 0
        &&& self.samples_per_pixel > 0
        &&& height_for(self.image_width as int, self.aspect_ratio) <= u32::MAX
        &&& self.image_width <= 1024 * height_for(self.image_width as int, self.aspect_ratio)
    }

    /// The derived fields are those that the settings give.
    pub open spec fn initialized(&self) -> bool {
        let h = height_for(self.image_width as int, self.aspect_ratio);
        &&& self.image_height == h
        &&& self.center == vec3_of(0, 0, 0)
        &&& self.pixel_delta_u == vec3_of(pixel_step(h), 0, 0)
        &&& self.pixel_delta_v == vec3_of(0, -pixel_step(h), 0)
        &&& self.pixel00_loc == pixel00_for(self.image_width as int, h)
    }

    /// Derives image height, pixel grid and camera center from the settings.
    pub fn initialize(&mut self)
        requires
            old(self).settings_ok(),
        ensures
            final(self).initialized(),
            final(self).aspect_ratio == old(self).aspect_ratio,
            final(self).image_width == old(self).image_width,
            final(self).samples_per_pixel == old(self).samples_per_pixel,
    {
        let w = self.image_width as u64;
        assert(w * (self.aspect_ratio.height as u64) <= 0xFFFF_FFFF * 0xFFFF_FFFF) by (nonlinear_arith)
            requires w <= 0xFFFF_FFFF, self.aspect_ratio.height <= 0xFFFF_FFFF;
        let hq = w * (self.aspect_ratio.height as u64) / (self.aspect_ratio.width as u64);
        let h: u64 = if hq < 1 { 1 } else { hq };
        self.image_height = h as u32;
        self.center = Vec3::zero();
        proof {
            assert(w * 2 * SCALE <= 0x40_0000_0000_0000) by (nonlinear_arith)
                requires w <= 0xFFFF_FFFF;
            vstd::arithmetic::div_mod::lemma_div_is_ordered_by_denominator(2 * SCALE as int, 1, h as int);
        }
        let step: i64 = (2 * SCALE / (h as i64));
        proof {
            lemma_grid_bound(w as int, h as int);
        }
        let grid_w: i64 = w as i64 * step;
        let grid_h: i64 = h as i64 * step;
        self.pixel_delta_u = Vec3::new(step, 0, 0);
        self.pixel_delta_v = Vec3::new(0, -step, 0);
        self.pixel00_loc = Vec3::new(-(grid_w / 2) + step / 2, grid_h / 2 - step / 2, -SCALE);
    }

    /// The sample ray through pixel `(x, y)`, moved by `(ox, oy)` of a pixel.
    pub fn get_ray(&self, x: u32, y: u32, ox: i64, oy: i64) -> (r: Ray)
        requires
            self.settings_ok(),
            self.initialized(),
            x < self.image_width,
            y < self.image_height,
            offset_ok(ox),
            offset_ok(oy),
        ensures
            r == sample_ray(*self, x as int, y as int, ox as int, oy as int),
            r.valid(),
    {
        let ghost h = self.image_height as int;
        let step = self.pixel_delta_u.x;
        proof {
            lemma_step_facts(h);
            lemma_grid_bound(self.image_width as int, h);
            lemma_column_bound(x as int, ox as int, step as int, self.image_width as int, h);
            lemma_row_bound(y as int, oy as int, step as int, h);
        }
        let u: i128 = x as i128 * SCALE_WIDE + ox as i128;
        let v: i128 = y as i128 * SCALE_WIDE + oy as i128;
        let p = self.pixel00_loc;
        let du = self.pixel_delta_u;
        let dv = self.pixel_delta_v;
        proof {
            assert(u * du.y == 0 && u * du.z == 0 && v * dv.x == 0 && v * dv.z == 0) by (nonlinear_arith)
                requires du.y == 0, du.z == 0, dv.x == 0, dv.z == 0;
            assert(-0x4_0000_0000_0000_0000 <= u * step <= 0x4_0000_0000_0000_0000) by (nonlinear_arith)
                requires -0x1_0000_0000_0000 <= u <= 0x1_0000_0000_0000, 0 <= step <= 131072;
            assert(-0x4_0000_0000_0000_0000 <= v * (-step) <= 0x4_0000_0000_0000_0000) by (nonlinear_arith)
                requires -0x1_0000_0000_0000 <= v <= 0x1_0000_0000_0000, 0 <= step <= 131072;
            assert((0 as int) / 65536 == 0);
        }
        let sx = p.x as i128 + div_floor(u * du.x as i128, SCALE_WIDE);
        let sy = p.y as i128 + div_floor(v * dv.y as i128, SCALE_WIDE);
        let sz = p.z as i128;
        let sample = Vec3 { x: sx as i64, y: sy as i64, z: sz as i64 };
        let dir = sample.sub(&self.center);
        proof {
            assert(dir.z == -65536);
            assert(dot_spec(dir, dir) > 0) by (nonlinear_arith)
                requires dot_spec(dir, dir) == dir.x * dir.x + dir.y * dir.y + dir.z * dir.z, dir.z == -65536;
        }
        Ray::new(self.center, dir)
    }

    /// The color seen along `r` in `world`; hits beyond parameter `T_MAX` count as misses.
    pub fn ray_color<H: Hittable>(r: &Ray, world: &H) -> (c: Color)
        requires
            world.well_formed(),
            r.valid(),
        ensures
            c == ray_color_spec(*world, *r),
            bounded_by(c, COLOR_MAX as int),
    {
        match world.hit(r, Interval::new(0, T_MAX)) {
            Some(rec) => {
                let n = rec.normal;
                Vec3 {
                    x: div_floor(n.x as i128 + SCALE_WIDE, 2) as i64,
                    y: div_floor(n.y as i128 + SCALE_WIDE, 2) as i64,
                    z: div_floor(n.z as i128 + SCALE_WIDE, 2) as i64,
                }
            },
            None => background_color(&r.dir),
        }
    }

    /// Mean color of the sample rays of pixel `(x, y)`, one ray per offset pair.
    pub fn pixel_color<H: Hittable>(&self, world: &H, x: u32, y: u32, offsets: &Vec<(i64, i64)>) -> (c: Color)
        requires
            self.settings_ok(),
            self.initialized(),
            world.well_formed(),
            x < self.image_width,
            y < self.image_height,
            offsets.len() == self.samples_per_pixel,
            offsets_ok(offsets@),
        ensures
            c == average(sample_colors(*self, *world, x as int, y as int, offsets@)),
    {
        let ghost cols = sample_colors(*self, *world, x as int, y as int, offsets@);
        let mut sr: i128 = 0;
        let mut sg: i128 = 0;
        let mut sb: i128 = 0;
        let mut i: usize = 0;
        while i < offsets.len()
            invariant
                self.settings_ok(),
                self.initialized(),
                world.well_formed(),
                x < self.image_width,
                y < self.image_height,
                offsets.len() == self.samples_per_pixel,
                offsets_ok(offsets@),
                cols == sample_colors(*self, *world, x as int, y as int, offsets@),
                0 <= i <= offsets.len(),
                sr == channel_sum(cols.take(i as int), 0),
                sg == channel_sum(cols.take(i as int), 1),
                sb == channel_sum(cols.take(i as int), 2),
                -(i * COLOR_MAX) <= sr <= i * COLOR_MAX,
                -(i * COLOR_MAX) <= sg <= i * COLOR_MAX,
                -(i * COLOR_MAX) <= sb <= i * COLOR_MAX,
            decreases offsets.len() - i,
        {
            let (ox, oy) = offsets[i];
            assert(offset_ok(offsets@[i as int].0));
            let r = self.get_ray(x, y, ox, oy);
            let c = Camera::ray_color(&r, world);
            proof {
                assert(cols.take(i + 1).drop_last() == cols.take(i as int));
                assert(cols.take(i + 1).last() == c);
            }
            sr = sr + c.x as i128;
            sg = sg + c.y as i128;
            sb = sb + c.z as i128;
            i = i + 1;
        }
        proof {
            assert(cols.take(i as int) == cols);
            lemma_mean_bound(sr as int, i as int, COLOR_MAX as int);
            lemma_mean_bound(sg as int, i as int, COLOR_MAX as int);
            lemma_mean_bound(sb as int, i as int, COLOR_MAX as int);
        }
        let n = offsets.len() as i128;
        Vec3 {
            x: div_floor(sr, n) as i64,
            y: div_floor(sg, n) as i64,
            z: div_floor(sb, n) as i64,
        }
    }

    /// Mean color of `samples_per_pixel` rays through pixel `(x, y)`, each moved by a
    /// random offset within half a pixel.
    pub fn sample_pixel<H: Hittable>(&self, world: &H, x: u32, y: u32) -> (c: Color)
        requires
            self.settings_ok(),
            self.initialized(),
            world.well_formed(),
            x < self.image_width,
            y < self.image_height,
        ensures
            pixel_sampled(*self, *world, x as int, y as int, c),
    {
        let mut offsets: Vec<(i64, i64)> = Vec::new();
        let mut k: u32 = 0;
        while k < self.samples_per_pixel
            invariant
                offsets.len() == k,
                k <= self.samples_per_pixel,
                offsets_ok(offsets@),
            decreases self.samples_per_pixel - k,
        {
            let ox = random_in(-(SCALE / 2), SCALE / 2);
            let oy = random_in(-(SCALE / 2), SCALE / 2);
            offsets.push((ox, oy));
            k = k + 1;
        }
        let c = self.pixel_color(world, x, y, &offsets);
        assert(offsets@.len() == self.samples_per_pixel && offsets_ok(offsets@));
        c
    }

    /// Renders `world`: derives the pixel grid from the settings, then writes the image
    /// header and, row by row from the top and left to right in each row, the line of
    /// each pixel's sampled color.
    pub fn render<H: Hittable>(&mut self, world: &H) -> (img: Vec<u8>)
        requires
            old(self).settings_ok(),
            world.well_formed(),
        ensures
            final(self).initialized(),
            final(self).aspect_ratio == old(self).aspect_ratio,
            final(self).image_width == old(self).image_width,
            final(self).samples_per_pixel == old(self).samples_per_pixel,
            exists|cols: Seq<Color>|
                {
                    &&& cols.len() == final(self).image_width * final(self).image_height
                    &&& forall|k: int|
                        0 <= k < cols.len() ==> pixel_sampled(
                            *final(self),
                            *world,
                            k % final(self).image_width as int,
                            k / final(self).image_width as int,
                            #[trigger] cols[k],
                        )
                    &&& img@ == ppm_image(
                        final(self).image_width as nat,
                        final(self).image_height as nat,
                        cols,
                    )
                },
    {
        self.initialize();
        let w = self.image_width;
        let h = self.image_height;
        let mut out: Vec<u8> = Vec::new();
        write_header(&mut out, w, h);
        let ghost mut cols: Seq<Color> = Seq::empty();
        let mut y: u32 = 0;
        while y < h
            invariant
                self.settings_ok(),
                self.initialized(),
                world.well_formed(),
                w == self.image_width,
                h == self.image_height,
                y <= h,
                cols.len() == y * w,
                out@ == ppm_image(w as nat, h as nat, cols),
                forall|k: int|
                    0 <= k < cols.len() ==> pixel_sampled(
                        *self,
                        *world,
                        k % w as int,
                        k / w as int,
                        #[trigger] cols[k],
                    ),
            decreases h - y,
        {
            let mut x: u32 = 0;
            while x < w
                invariant
                    self.settings_ok(),
                    self.initialized(),
                    world.well_formed(),
                    w == self.image_width,
                    h == self.image_height,
                    y < h,
                    x <= w,
                    cols.len() == y * w + x,
                    out@ == ppm_image(w as nat, h as nat, cols),
                    forall|k: int|
                        0 <= k < cols.len() ==> pixel_sampled(
                            *self,
                            *world,
                            k % w as int,
                            k / w as int,
                            #[trigger] cols[k],
                        ),
                decreases w - x,
            {
                let c = self.sample_pixel(world, x, y);
                let ghost old_cols = cols;
                let ghost old_out = out@;
                c.write(&mut out);
                proof {
                    cols = cols.push(c);
                    let k = y * w + x;
                    vstd::arithmetic::div_mod::lemma_fundamental_div_mod_converse(
                        k as int,
                        w as int,
                        y as int,
                        x as int,
                    );
                    assert(cols.drop_last() == old_cols);
                    assert(out@ =~= ppm_image(w as nat, h as nat, cols));
                    assert forall|j: int| 0 <= j < cols.len() implies pixel_sampled(
                        *self,
                        *world,
                        j % w as int,
                        j / w as int,
                        #[trigger] cols[j],
                    ) by {
                        if j < old_cols.len() {
                            assert(cols[j] == old_cols[j]);
                        }
                    }
                }
                x = x + 1;
            }
            assert(y * w + w == (y + 1) * w) by (nonlinear_arith);
            y = y + 1;
        }
        assert(cols.len() == w * h) by (nonlinear_arith)
            requires cols.len() == y * w, y == h;
        out
    }
}

/// The background color along a non-zero direction.
fn background_color(dir: &Vec3) -> (c: Color)
    requires
        bounded_by(*dir, COORD_MAX as int),
        dot_spec(*dir, *dir) > 0,
    ensures
        c == background(*dir),
        bounded_by(c, COLOR_MAX as int),
{
    let a2 = dir.length_squared();
    proof {
        assert(dot_spec(*dir, *dir) <= 0x400_0000_0000_0000) by (nonlinear_arith)
            requires bounded_by(*dir, 0x1000_0000), dot_spec(*dir, *dir) == dir.x * dir.x + dir.y * dir.y + dir.z * dir.z;
    }
    let len = isqrt(a2 as u128);
    proof {
        if len == 0 {
            assert(a2 < 1);
        }
        assert(len <= a2) by (nonlinear_arith)
            requires len * len <= a2, len >= 0;
    }
    let len = len as i128;
    let uy = div_floor(dir.y as i128 * SCALE_WIDE, len);
    proof {
        assert(-0x1000_0000_0000 <= dir.y * 65536 <= 0x1000_0000_0000) by (nonlinear_arith)
            requires -0x1000_0000 <= dir.y <= 0x1000_0000;
        vstd::arithmetic::div_mod::lemma_div_is_ordered(-0x1000_0000_0000, dir.y * 65536, len as int);
        vstd::arithmetic::div_mod::lemma_div_is_ordered(dir.y * 65536, 0x1000_0000_0000, len as int);
        vstd::arithmetic::div_mod::lemma_div_is_ordered_by_denominator(0x1000_0000_0000, 1, len as int);
        assert(-0x1000_0000_0000 / (len as int) >= -0x1000_0000_0000) by {
            vstd::arithmetic::div_mod::lemma_fundamental_div_mod(-0x1000_0000_0000, len as int);
            assert(-0x1000_0000_0000 / (len as int) >= -0x1000_0000_0000) by (nonlinear_arith)
                requires len >= 1, -0x1000_0000_0000 == (len as int) * (-0x1000_0000_0000 / (len as int)) + (-0x1000_0000_0000 % (len as int)),
                    0 <= -0x1000_0000_0000 % (len as int) < len;
        }
    }
    let a = div_floor(uy + SCALE_WIDE, 2);
    let white = (SCALE_WIDE - a) * SCALE_WIDE;
    proof {
        assert(-0x1000_0000_0000_0000 <= a * 65536 <= 0x1000_0000_0000_0000) by (nonlinear_arith)
            requires -0x1000_0000_0000 <= a <= 0x1000_0000_0000;
        assert(-0x1000_0000_0000_0000 <= a * 45875 <= 0x1000_0000_0000_0000) by (nonlinear_arith)
            requires -0x1000_0000_0000 <= a <= 0x1000_0000_0000;
        assert(-0x1000_0000_0000_0000 <= a * 32768 <= 0x1000_0000_0000_0000) by (nonlinear_arith)
            requires -0x1000_0000_0000 <= a <= 0x1000_0000_0000;
    }
    let cx = div_floor(white + a * (SCALE_WIDE / 2), SCALE_WIDE);
    let cy = div_floor(white + a * (SKY_GREEN as i128), SCALE_WIDE);
    let cz = div_floor(white + a * SCALE_WIDE, SCALE_WIDE);
    proof {
        vstd::arithmetic::div_mod::lemma_div_is_ordered(-0x4000_0000_0000_0000, white + a * 32768, 65536);
        vstd::arithmetic::div_mod::lemma_div_is_ordered(white + a * 32768, 0x4000_0000_0000_0000, 65536);
        vstd::arithmetic::div_mod::lemma_div_is_ordered(-0x4000_0000_0000_0000, white + a * 45875, 65536);
        vstd::arithmetic::div_mod::lemma_div_is_ordered(white + a * 45875, 0x4000_0000_0000_0000, 65536);
        vstd::arithmetic::div_mod::lemma_div_is_ordered(-0x4000_0000_0000_0000, white + a * 65536, 65536);
        vstd::arithmetic::div_mod::lemma_div_is_ordered(white + a * 65536, 0x4000_0000_0000_0000, 65536);
    }
    Vec3 { x: cx as i64, y: cy as i64, z: cz as i64 }
}

} // verus!
