use raytrace::camera::{AspectRatio, Camera};
use raytrace::fixed::SCALE;
use raytrace::hittable::{HitRecord, Hittable, HittableList, Object, Sphere};
use raytrace::interval::{Interval, T_MAX};
use raytrace::ray::Ray;
use raytrace::vec3::Vec3;

const S: i64 = SCALE;

fn p(x: f64, y: f64, z: f64) -> Vec3 {
    Vec3::new((x * S as f64) as i64, (y * S as f64) as i64, (z * S as f64) as i64)
}

fn forward() -> Ray {
    Ray::new(Vec3::zero(), p(0.0, 0.0, -1.0))
}

fn two_sphere_world() -> HittableList {
    let mut world = HittableList::new();
    world.add(Sphere::new(p(0.0, 0.0, -1.0), S / 2).into());
    world.add(Sphere::new(p(0.0, -100.5, -1.0), 100 * S).into());
    world
}

fn distance(a: &Vec3, b: &Vec3) -> f64 {
    let d = a.sub(b);
    (d.length_squared() as f64).sqrt()
}

#[test]
fn ray_at_steps_along_direction() {
    let r = Ray::new(p(1.0, 2.0, 3.0), p(0.5, -1.0, 2.0));
    assert_eq!(r.at(2 * S), p(2.0, 0.0, 7.0));
    assert_eq!(r.at(-S), p(0.5, 3.0, 1.0));
    assert_eq!(r.origin(), p(1.0, 2.0, 3.0));
    assert_eq!(r.direction(), p(0.5, -1.0, 2.0));
    assert_eq!(Ray::zero().direction(), Vec3::zero());
}

#[test]
fn interval_membership_is_inclusive() {
    let i = Interval::new(2, 5);
    assert!(i.contains(2));
    assert!(i.contains(5));
    assert!(!i.contains(1));
    assert!(!i.contains(6));
}

#[test]
fn sphere_radius_is_clamped() {
    assert_eq!(Sphere::new(p(0.0, 0.0, 0.0), -7).radius, 0);
    assert_eq!(Sphere::new(p(0.0, 0.0, 0.0), 7).radius, 7);
}

#[test]
fn head_on_hit_from_outside() {
    let s = Sphere::new(p(0.0, 0.0, -1.0), S / 2);
    let rec = s.hit(&forward(), Interval::new(0, T_MAX)).unwrap();
    assert_eq!(rec.t, S / 2);
    assert_eq!(rec.p, p(0.0, 0.0, -0.5));
    assert!(rec.front_face);
    assert_eq!(rec.normal, p(0.0, 0.0, 1.0));
    // the normal opposes the incoming direction and has unit length
    assert!(forward().direction().dot(&rec.normal) < 0);
    assert_eq!(rec.normal.length(), S);
}

#[test]
fn hit_from_inside_flips_normal() {
    let s = Sphere::new(p(0.0, 0.0, 0.0), S);
    let rec = s.hit(&forward(), Interval::new(0, T_MAX)).unwrap();
    assert_eq!(rec.t, S);
    assert!(!rec.front_face);
    assert_eq!(rec.normal, p(0.0, 0.0, 1.0));
}

#[test]
fn near_root_rejected_far_root_taken() {
    let s = Sphere::new(p(0.0, 0.0, -2.0), S / 2);
    let rec = s.hit(&forward(), Interval::new(2 * S, T_MAX)).unwrap();
    assert_eq!(rec.t, 5 * S / 2);
    assert!(!rec.front_face);
    assert!(s.hit(&forward(), Interval::new(3 * S, T_MAX)).is_none());
}

#[test]
fn zero_radius_sphere_is_never_hit() {
    let s = Sphere::new(p(0.0, 0.0, -1.0), 0);
    assert!(s.hit(&forward(), Interval::new(0, T_MAX)).is_none());
}

#[test]
fn hit_lies_in_interval_and_on_surface() {
    let s = Sphere::new(p(0.3, -0.2, -3.0), S);
    for k in 0..20i64 {
        let dir = Vec3::new(k * 1500 - 15000, 4000 - k * 700, -S);
        let r = Ray::new(p(0.0, 0.1, 0.0), dir);
        let ray_t = Interval::new(S / 100, 10 * S);
        if let Some(rec) = s.hit(&r, ray_t) {
            assert!(ray_t.contains(rec.t));
            assert_eq!(rec.p, r.at(rec.t));
            assert!((distance(&rec.p, &s.center) - S as f64).abs() < 64.0);
        }
    }
}

#[test]
fn tangent_ray_roots_agree() {
    // grazes the top of a sphere of radius 1 centered at (0, -1, -5)
    let s = Sphere::new(p(0.0, -1.0, -5.0), S);
    let rec = s.hit(&forward(), Interval::new(0, T_MAX)).unwrap();
    assert_eq!(rec.t, 5 * S);
    // the far root is the same, so nothing beyond it is found
    assert!(s.hit(&forward(), Interval::new(5 * S + 1, T_MAX)).is_none());
}

#[test]
fn nearest_hit_regardless_of_order() {
    let near = Sphere::new(p(0.0, 0.0, -2.0), S);
    let far = Sphere::new(p(0.0, 0.0, -3.0), S);
    let mut a = HittableList::new();
    a.add(near.into());
    a.add(far.into());
    let mut b = HittableList::new();
    b.add(far.into());
    b.add(near.into());
    let ha = a.hit(&forward(), Interval::new(0, T_MAX)).unwrap();
    let hb = b.hit(&forward(), Interval::new(0, T_MAX)).unwrap();
    assert_eq!(ha.t, S);
    assert_eq!(hb.t, S);
    assert_eq!(ha, hb);
}

#[test]
fn clear_empties_the_scene() {
    let mut world = two_sphere_world();
    assert!(world.hit(&forward(), Interval::new(0, T_MAX)).is_some());
    world.clear();
    assert!(world.hit(&forward(), Interval::new(0, T_MAX)).is_none());
}

#[test]
fn miss_falls_back_to_background() {
    let world = two_sphere_world();
    let up = Ray::new(Vec3::zero(), p(0.0, 1.0, -1.0));
    assert!(world.hit(&up, Interval::new(0, T_MAX)).is_none());
    let straight = Ray::new(Vec3::zero(), p(0.0, 0.0, -1.0));
    let mut empty = HittableList::new();
    empty.clear();
    // halfway up the sky: (0.75, 0.85, 1.0) rounded down in fixed point
    assert_eq!(Camera::ray_color(&straight, &empty), Vec3::new(49152, 55705, 65536));
    // straight up is the sky color itself, straight down plain white
    let top = Camera::ray_color(&Ray::new(Vec3::zero(), p(0.0, 1.0, 0.0)), &empty);
    assert_eq!(top, Vec3::new(S / 2, 45875, S));
    let bottom = Camera::ray_color(&Ray::new(Vec3::zero(), p(0.0, -1.0, 0.0)), &empty);
    assert_eq!(bottom, Vec3::new(S, S, S));
}

#[test]
fn hit_shows_normal_colors() {
    let world = two_sphere_world();
    // normal (0, 0, 1) maps to (0.5, 0.5, 1)
    assert_eq!(Camera::ray_color(&forward(), &world), Vec3::new(S / 2, S / 2, S));
}

#[test]
fn set_face_normal_orients_against_ray() {
    let mut rec = HitRecord::new(Vec3::zero(), Vec3::zero(), 3);
    rec.set_face_normal(&forward(), &p(0.0, 0.0, -1.0));
    assert!(!rec.front_face);
    assert_eq!(rec.normal, p(0.0, 0.0, 1.0));
    rec.set_face_normal(&forward(), &p(0.0, 0.0, 1.0));
    assert!(rec.front_face);
    assert_eq!(rec.normal, p(0.0, 0.0, 1.0));
    assert_eq!(rec.t, 3);
}

#[test]
fn wide_image_center_pixel_hits_small_sphere() {
    let world = two_sphere_world();
    let mut cam = Camera::default();
    cam.aspect_ratio = AspectRatio { width: 16, height: 9 };
    cam.image_width = 400;
    cam.samples_per_pixel = 100;
    cam.initialize();
    assert_eq!(cam.image_height, 225);
    let r = cam.get_ray(200, 112, 0, 0);
    assert_eq!(r.origin(), Vec3::zero());
    assert_eq!(r.direction(), Vec3::new(291, 0, -S));
    let rec = world.hit(&r, Interval::new(0, T_MAX)).unwrap();
    assert_eq!(rec.t, S / 2);
    assert!(rec.front_face);
    let c = Camera::ray_color(&r, &world);
    assert_eq!(c, Vec3::new(32913, 32768, 65536));
    // every jittered ray through the center pixel stays within the pixel around the axis
    for (ox, oy) in [(-S / 2, -S / 2), (S / 2 - 1, S / 2 - 1), (-S / 2, S / 2 - 1), (S / 2 - 1, -S / 2)] {
        let d = cam.get_ray(200, 112, ox, oy).direction();
        assert!(0 <= d.x() && d.x() < 2 * S / 225);
        assert!(d.y().abs() <= S / 225);
        assert_eq!(d.z(), -S);
        let c = Camera::ray_color(&cam.get_ray(200, 112, ox, oy), &world);
        assert!((c.x() - S / 2).abs() < S / 100 && (c.y() - S / 2).abs() < S / 100);
        assert!(c.z() > S * 99 / 100);
    }
}

#[test]
fn averaging_equal_samples_is_exact() {
    let world = two_sphere_world();
    let mut cam = Camera::default();
    cam.samples_per_pixel = 7;
    cam.initialize();
    let offsets = vec![(0i64, 0i64); 7];
    let single = Camera::ray_color(&cam.get_ray(50, 50, 0, 0), &world);
    assert_eq!(cam.pixel_color(&world, 50, 50, &offsets), single);
}

#[test]
fn averaging_takes_the_mean() {
    let empty = HittableList::new();
    let mut cam = Camera::default();
    cam.samples_per_pixel = 2;
    cam.initialize();
    let offsets = vec![(0i64, -S / 2), (0i64, S / 2 - 1)];
    let a = Camera::ray_color(&cam.get_ray(50, 0, 0, -S / 2), &empty);
    let b = Camera::ray_color(&cam.get_ray(50, 0, 0, S / 2 - 1), &empty);
    let m = cam.pixel_color(&empty, 50, 0, &offsets);
    assert_eq!(m.g(), (a.g() + b.g()).div_euclid(2));
    assert_eq!(m.r(), (a.r() + b.r()).div_euclid(2));
    assert_eq!(m.b(), (a.b() + b.b()).div_euclid(2));
}

#[test]
fn sampled_pixel_stays_near_center_color() {
    let empty = HittableList::new();
    let mut cam = Camera::default();
    cam.samples_per_pixel = 5;
    cam.initialize();
    let c = cam.sample_pixel(&empty, 10, 10);
    let center = Camera::ray_color(&cam.get_ray(10, 10, 0, 0), &empty);
    assert!((c.g() - center.g()).abs() < 1000);
}

#[test]
fn two_by_one_image_text() {
    let world = two_sphere_world();
    let mut cam = Camera::default();
    cam.aspect_ratio = AspectRatio { width: 2, height: 1 };
    cam.image_width = 2;
    cam.samples_per_pixel = 1;
    let img = String::from_utf8(cam.render(&world)).unwrap();
    assert!(img.starts_with("P3\n2 1\n255\n"));
    let lines: Vec<&str> = img.lines().collect();
    assert_eq!(lines.len(), 5);
    for line in &lines[3..] {
        let parts: Vec<u32> = line.split(' ').map(|t| t.parse().unwrap()).collect();
        assert_eq!(parts.len(), 3);
        assert!(parts.iter().all(|&b| b <= 255));
    }
}

#[test]
fn pixel_lines_are_scaled_and_clamped() {
    let mut out = Vec::new();
    Vec3::new(49152, 55705, 65536).write(&mut out);
    Vec3::new(-5, 0, 70000).write(&mut out);
    assert_eq!(String::from_utf8(out).unwrap(), "192 217 255\n0 0 255\n");
}

#[test]
fn header_text() {
    let mut out = Vec::new();
    raytrace::color::write_header(&mut out, 400, 225);
    assert_eq!(String::from_utf8(out).unwrap(), "P3\n400 225\n255\n");
}

#[test]
fn default_camera_settings() {
    let cam = Camera::default();
    assert_eq!(cam.image_width, 100);
    assert_eq!(cam.samples_per_pixel, 10);
    assert_eq!(cam.aspect_ratio, AspectRatio { width: 1, height: 1 });
}

#[test]
fn nested_lists_compose() {
    let near = Sphere::new(p(0.0, 0.0, -2.0), S);
    let far = Sphere::new(p(0.0, 0.0, -3.0), S);
    let mut inner = HittableList::new();
    inner.add(Object::Sphere(near));
    let mut outer = HittableList::new();
    outer.add(Object::Sphere(far));
    outer.add(Object::List(inner));
    let rec = outer.hit(&forward(), Interval::new(0, T_MAX)).unwrap();
    assert_eq!(rec.t, S);
    let wrapped = Object::List(outer);
    assert_eq!(wrapped.hit(&forward(), Interval::new(0, T_MAX)).unwrap(), rec);
    // the bound narrows into the nested list too
    assert!(wrapped.hit(&forward(), Interval::new(0, S / 2)).is_none());
    let empty: Object = HittableList::new().into();
    assert!(empty.hit(&forward(), Interval::new(0, T_MAX)).is_none());
}
