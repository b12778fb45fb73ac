use vstd::prelude::*;
use crate::fixed::{div_floor, is_isqrt, isqrt, isqrt_spec, lemma_isqrt_exists, SCALE, SCALE_WIDE};
use crate::interval::{Interval, T_MAX};
use crate::ray::{at_spec, lemma_step_bound, Ray, COORD_MAX};
use crate::vec3::{abs, bounded_by, dot_spec, vec3_of, Point3, Vec3};

verus! {

/// Largest magnitude of a normal's component that a hit may report.
pub const NORMAL_MAX: i64 = 0x2000_0000_0000_0000;

/// One intersection of a ray with a surface.
#[derive(Clone, Copy, Debug, PartialEq, Eq, Structural)]
pub struct HitRecord {
    pub p: Point3,
    pub normal: Vec3,
    pub t: i64,
    pub front_face: bool,
}

/// The record for a hit at `p` with parameter `t`, its normal turned against `dir`.
pub open spec fn face_record(p: Vec3, outward: Vec3, t: int, dir: Vec3) -> HitRecord {
    let front = dot_spec(dir, outward) < 0;
    HitRecord {
        p,
        normal: if front { outward } else { vec3_of(-outward.x, -outward.y, -outward.z) },
        t: t as i64,
        front_face: front,
    }
}

/// A recorded normal never points along the ray: it is turned against the ray's
/// direction, and strictly so when the front face was hit.
pub proof fn lemma_normal_opposes_ray(p: Vec3, outward: Vec3, t: int, dir: Vec3)
    requires
        bounded_by(outward, NORMAL_MAX as int),
    ensures
        dot_spec(dir, face_record(p, outward, t, dir).normal) <= 0,
        face_record(p, outward, t, dir).front_face ==> dot_spec(
            dir,
            face_record(p, outward, t, dir).normal,
        ) < 0,
{
    let n = vec3_of(-outward.x, -outward.y, -outward.z);
    assert(dot_spec(dir, n) == -dot_spec(dir, outward)) by (nonlinear_arith)
        requires n.x == -outward.x, n.y == -outward.y, n.z == -outward.z;
}

impl HitRecord {
    pub fn new(p: Point3, normal: Vec3, t: i64) -> (r: HitRecord)
        ensures
            r == (HitRecord { p, normal, t, front_face: false }),
    {
        HitRecord { p, normal, t, front_face: false }
    }

    /// Records which side the ray came from and turns the normal against the ray.
    pub fn set_face_normal(&mut self, r: &Ray, outward_normal: &Vec3)
        requires
            bounded_by(r.dir, COORD_MAX as int),
            bounded_by(*outward_normal, NORMAL_MAX as int),
        ensures
            *final(self) == face_record(old(self).p, *outward_normal, old(self).t as int, r.dir),
    {
        let front = r.dir.dot(outward_normal) < 0;
        self.front_face = front;
        self.normal = if front {
            *outward_normal
        } else {
            outward_normal.neg()
        };
    }
}

/// Something a ray can be tested against.
pub trait Hittable {
    /// The object is fit to be queried.
    spec fn well_formed(&self) -> bool;

    /// The closest intersection with `r` whose parameter lies in `ray_t`.
    spec fn hit_spec(&self, r: Ray, ray_t: Interval) -> Option<HitRecord>;

    fn hit(&self, r: &Ray, ray_t: Interval) -> (res: Option<HitRecord>)
        requires
            self.well_formed(),
            r.valid(),
            ray_t.valid(),
        ensures
            res == self.hit_spec(*r, ray_t),
            res matches Some(rec) ==> ray_t.contains_spec(rec.t as int) && bounded_by(
                rec.normal,
                NORMAL_MAX as int,
            ),
    ;
}

/// A sphere with a non-negative radius.
#[derive(Clone, Copy, Debug, PartialEq, Eq, Structural)]
pub struct Sphere {
    pub center: Point3,
    pub radius: i64,
}

/// Center minus ray origin.
pub open spec fn center_offset(s: Sphere, r: Ray) -> Vec3 {
    vec3_of(s.center.x - r.origin.x, s.center.y - r.origin.y, s.center.z - r.origin.z)
}

/// Coefficient of `t^2` in the intersection equation.
pub open spec fn quad_a(r: Ray) -> int {
    dot_spec(r.dir, r.dir)
}

/// Half the (negated) coefficient of `t`.
pub open spec fn quad_h(s: Sphere, r: Ray) -> int {
    dot_spec(r.dir, center_offset(s, r))
}

/// Constant coefficient.
pub open spec fn quad_c(s: Sphere, r: Ray) -> int {
    dot_spec(center_offset(s, r), center_offset(s, r)) - s.radius * s.radius
}

pub open spec fn discriminant(s: Sphere, r: Ray) -> int {
    quad_h(s, r) * quad_h(s, r) - quad_a(r) * quad_c(s, r)
}

/// Nearer root, as a fixed-point parameter rounded down.
pub open spec fn near_root(s: Sphere, r: Ray) -> int {
    ((quad_h(s, r) - isqrt_spec(discriminant(s, r))) * SCALE) / quad_a(r)
}

/// Farther root, as a fixed-point parameter rounded down.
pub open spec fn far_root(s: Sphere, r: Ray) -> int {
    ((quad_h(s, r) + isqrt_spec(discriminant(s, r))) * SCALE) / quad_a(r)
}

/// The record for the point of `s` met at parameter `t`.
pub open spec fn sphere_record(s: Sphere, r: Ray, t: int) -> HitRecord {
    let p = at_spec(r, t);
    let outward = vec3_of(
        ((p.x - s.center.x) * SCALE) / (s.radius as int),
        ((p.y - s.center.y) * SCALE) / (s.radius as int),
        ((p.z - s.center.z) * SCALE) / (s.radius as int),
    );
    face_record(p, outward, t, r.dir)
}

/// The nearer admissible root if there is one, else the farther one.
/// A sphere of radius zero is never hit: its normal would have no value.
pub open spec fn sphere_hit(s: Sphere, r: Ray, ray_t: Interval) -> Option<HitRecord> {
    if s.radius == 0 || discriminant(s, r) < 0 {
        None
    } else if ray_t.contains_spec(near_root(s, r)) {
        Some(sphere_record(s, r, near_root(s, r)))
    } else if ray_t.contains_spec(far_root(s, r)) {
        Some(sphere_record(s, r, far_root(s, r)))
    } else {
        None
    }
}

proof fn lemma_mul_abs_bound(a: int, b: int, ba: int, bb: int) by (nonlinear_arith)
    requires
        abs(a) <= ba,
        abs(b) <= bb,
    ensures
        -(ba * bb) <= a * b <= ba * bb,
{
}

proof fn lemma_dot_bound(u: Vec3, v: Vec3, bu: int, bv: int)
    requires
        bounded_by(u, bu),
        bounded_by(v, bv),
    ensures
        -3 * (bu * bv) <= dot_spec(u, v) <= 3 * (bu * bv),
{
    lemma_mul_abs_bound(u.x as int, v.x as int, bu, bv);
    lemma_mul_abs_bound(u.y as int, v.y as int, bu, bv);
    lemma_mul_abs_bound(u.z as int, v.z as int, bu, bv);
}

proof fn lemma_div_bound(x: int, d: int, b: int) by (nonlinear_arith)
    requires
        -b <= x <= b,
        d >= 1,
    ensures
        -b <= x / d <= b,
{
    let q = x / d;
    let m = x % d;
    assert(x == d * q + m && 0 <= m < d) by {
        vstd::arithmetic::div_mod::lemma_fundamental_div_mod(x, d);
    }
}

impl Sphere {
    /// Center within `COORD_MAX`, radius in `[0, COORD_MAX]`.
    pub open spec fn valid(&self) -> bool {
        bounded_by(self.center, COORD_MAX as int) && 0 <= self.radius <= COORD_MAX
    }

    /// A sphere whose radius is `radius`, or zero where that is negative.
    pub fn new(center: Point3, radius: i64) -> (s: Sphere)
        ensures
            s.center == center,
            s.radius == if radius < 0 { 0 } else { radius },
    {
        Sphere { center, radius: if radius < 0 { 0 } else { radius } }
    }

    fn record_at(&self, r: &Ray, t: i64) -> (rec: HitRecord)
        requires
            self.valid(),
            self.radius > 0,
            r.valid(),
            -T_MAX <= t <= T_MAX,
        ensures
            rec == sphere_record(*self, *r, t as int),
            bounded_by(rec.normal, NORMAL_MAX as int),
    {
        let p = r.at(t);
        let rad = self.radius as i128;
        let dx: i128 = (p.x as i128 - self.center.x as i128) * SCALE_WIDE;
        let dy: i128 = (p.y as i128 - self.center.y as i128) * SCALE_WIDE;
        let dz: i128 = (p.z as i128 - self.center.z as i128) * SCALE_WIDE;
        let ox = div_floor(dx, rad);
        let oy = div_floor(dy, rad);
        let oz = div_floor(dz, rad);
        proof {
            lemma_div_bound(dx as int, rad as int, 0x2000_0000_0000_0000);
            lemma_div_bound(dy as int, rad as int, 0x2000_0000_0000_0000);
            lemma_div_bound(dz as int, rad as int, 0x2000_0000_0000_0000);
        }
        let outward = Vec3 { x: ox as i64, y: oy as i64, z: oz as i64 };
        let mut rec = HitRecord::new(p, outward, t);
        rec.set_face_normal(r, &outward);
        rec
    }
}

impl Hittable for Sphere {
    open spec fn well_formed(&self) -> bool {
        self.valid()
    }

    open spec fn hit_spec(&self, r: Ray, ray_t: Interval) -> Option<HitRecord> {
        sphere_hit(*self, r, ray_t)
    }

    fn hit(&self, r: &Ray, ray_t: Interval) -> (res: Option<HitRecord>) {
        let oc = self.center.sub(&r.origin);
        assert(oc == center_offset(*self, *r));
        let a = r.dir.length_squared();
        let h = r.dir.dot(&oc);
        let oc2 = oc.length_squared();
        proof {
            lemma_dot_bound(r.dir, r.dir, COORD_MAX as int, COORD_MAX as int);
            lemma_dot_bound(r.dir, oc, COORD_MAX as int, 2 * COORD_MAX);
            lemma_dot_bound(oc, oc, 2 * COORD_MAX, 2 * COORD_MAX);
            lemma_mul_abs_bound(self.radius as int, self.radius as int, COORD_MAX as int, COORD_MAX as int);
        }
        let c = oc2 - (self.radius as i128) * (self.radius as i128);
        proof {
            lemma_mul_abs_bound(h as int, h as int, 0x800_0000_0000_0000, 0x800_0000_0000_0000);
            lemma_mul_abs_bound(a as int, c as int, 0x400_0000_0000_0000, 0x1000_0000_0000_0000);
        }
        let disc = h * h - a * c;
        if self.radius == 0 || disc < 0 {
            return None;
        }
        let sdu = isqrt(disc as u128);
        proof {
            assert(sdu <= 0x1000_0000_0000_0000) by (nonlinear_arith)
                requires sdu * sdu <= disc, disc <= 0x80_0000_0000_0000_0000_0000_0000_0000, sdu >= 0;
        }
        let sd = sdu as i128;
        let near = div_floor((h - sd) * SCALE_WIDE, a);
        if ray_t.min as i128 <= near && near <= ray_t.max as i128 {
            return Some(self.record_at(r, near as i64));
        }
        let far = div_floor((h + sd) * SCALE_WIDE, a);
        if ray_t.min as i128 <= far && far <= ray_t.max as i128 {
            return Some(self.record_at(r, far as i64));
        }
        None
    }
}

/// Of the two root formulas, the nearer never exceeds the farther.
pub proof fn lemma_roots_ordered(s: Sphere, r: Ray)
    requires
        r.valid(),
        discriminant(s, r) >= 0,
    ensures
        near_root(s, r) <= far_root(s, r),
{
    lemma_isqrt_exists(discriminant(s, r));
    let sd = isqrt_spec(discriminant(s, r));
    vstd::arithmetic::div_mod::lemma_div_is_ordered(
        (quad_h(s, r) - sd) * SCALE,
        (quad_h(s, r) + sd) * SCALE,
        quad_a(r),
    );
}

/// A ray that grazes a sphere, with a zero discriminant, has one root:
/// the near and far formulas both give `h / a`, and the sphere is hit there
/// exactly when that parameter is admissible (a sphere of radius zero, whose
/// normal has no value, excepted).
pub proof fn lemma_tangent_roots_agree(s: Sphere, r: Ray, ray_t: Interval)
    requires
        discriminant(s, r) == 0,
    ensures
        near_root(s, r) == far_root(s, r),
        near_root(s, r) == (quad_h(s, r) * SCALE) / quad_a(r),
        s.radius != 0 ==> sphere_hit(s, r, ray_t) == if ray_t.contains_spec(near_root(s, r)) {
            Some(sphere_record(s, r, near_root(s, r)))
        } else {
            None
        },
{
    lemma_isqrt_exists(0);
    assert(isqrt_spec(0) == 0) by {
        if isqrt_spec(0) > 0 {
            assert(isqrt_spec(0) * isqrt_spec(0) > 0) by (nonlinear_arith)
                requires isqrt_spec(0) > 0;
        }
    }
}

/// Querying a sphere with a smaller upper bound `b` yields the full query's hit
/// when that hit is no farther than `b`, and nothing otherwise.
pub proof fn lemma_narrowed_query(s: Sphere, r: Ray, ray_t: Interval, b: i64)
    requires
        r.valid(),
        ray_t.valid(),
        b <= ray_t.max,
    ensures
        sphere_hit(s, r, Interval { min: ray_t.min, max: b }) == (match sphere_hit(s, r, ray_t) {
            Some(c) => if c.t <= b { Some(c) } else { None },
            None => None,
        }),
{
    if s.radius != 0 && discriminant(s, r) >= 0 {
        lemma_roots_ordered(s, r);
    }
}

proof fn lemma_head_on_terms(s: Sphere, r: Ray, k: int)
    requires
        s.valid(),
        r.valid(),
        s.center.x == r.origin.x + k * r.dir.x,
        s.center.y == r.origin.y + k * r.dir.y,
        s.center.z == r.origin.z + k * r.dir.z,
    ensures
        quad_h(s, r) == k * quad_a(r),
        discriminant(s, r) == quad_a(r) * (s.radius * s.radius),
{
    let d = r.dir;
    let oc = center_offset(s, r);
    assert(oc.x == k * d.x && oc.y == k * d.y && oc.z == k * d.z);
    let a = quad_a(r);
    assert(d.x * oc.x == k * (d.x * d.x)) by (nonlinear_arith)
        requires oc.x == k * d.x;
    assert(d.y * oc.y == k * (d.y * d.y)) by (nonlinear_arith)
        requires oc.y == k * d.y;
    assert(d.z * oc.z == k * (d.z * d.z)) by (nonlinear_arith)
        requires oc.z == k * d.z;
    assert(k * a == k * (d.x * d.x) + k * (d.y * d.y) + k * (d.z * d.z)) by (nonlinear_arith)
        requires a == d.x * d.x + d.y * d.y + d.z * d.z;
    let kk = k * k;
    assert(oc.x * oc.x == kk * (d.x * d.x)) by (nonlinear_arith)
        requires oc.x == k * d.x, kk == k * k;
    assert(oc.y * oc.y == kk * (d.y * d.y)) by (nonlinear_arith)
        requires oc.y == k * d.y, kk == k * k;
    assert(oc.z * oc.z == kk * (d.z * d.z)) by (nonlinear_arith)
        requires oc.z == k * d.z, kk == k * k;
    assert(kk * a == kk * (d.x * d.x) + kk * (d.y * d.y) + kk * (d.z * d.z)) by (nonlinear_arith)
        requires a == d.x * d.x + d.y * d.y + d.z * d.z;
    let rr = s.radius * s.radius;
    assert(discriminant(s, r) == a * rr) by (nonlinear_arith)
        requires
            discriminant(s, r) == quad_h(s, r) * quad_h(s, r) - a * quad_c(s, r),
            quad_h(s, r) == k * a,
            quad_c(s, r) == kk * a - rr,
            kk == k * k;
}

proof fn lemma_root_size(a: int, rad: int, sd: int)
    requires
        a >= 1,
        rad >= 8,
        is_isqrt(a * (rad * rad), sd),
    ensures
        4 * (sd * sd) >= 3 * (a * (rad * rad)),
        sd >= 1,
{
    let x = a * (rad * rad);
    assert(x >= 64) by (nonlinear_arith)
        requires a >= 1, rad >= 8, x == a * (rad * rad);
    assert(4 * (sd * sd) >= 3 * x) by (nonlinear_arith)
        requires x >= 64, x < (sd + 1) * (sd + 1), sd >= 0;
    assert(sd >= 1) by (nonlinear_arith)
        requires x >= 64, x < (sd + 1) * (sd + 1), sd >= 0;
}

proof fn lemma_component_reach(m: int, a: int, sd: int, rad: int, q: int)
    requires
        m >= 0,
        a >= 1,
        sd >= 0,
        rad >= 0,
        3 * (m * m) >= a,
        4 * (sd * sd) >= 3 * (a * (rad * rad)),
        q * a <= -(sd * 65536),
    ensures
        2 * (m * (-q)) >= rad * 65536,
{
    assert(4 * (m * m) * (sd * sd) >= (a * rad) * (a * rad)) by (nonlinear_arith)
        requires 3 * (m * m) >= a, 4 * (sd * sd) >= 3 * (a * (rad * rad)), a >= 1;
    assert(2 * m * sd >= a * rad) by (nonlinear_arith)
        requires 4 * (m * m) * (sd * sd) >= (a * rad) * (a * rad), m >= 0, sd >= 0, a >= 1, rad >= 0;
    assert((m * (-q)) * a >= m * sd * 65536) by (nonlinear_arith)
        requires q * a <= -(sd * 65536), m >= 0;
    assert(2 * (m * (-q)) * a >= (rad * 65536) * a) by (nonlinear_arith)
        requires (m * (-q)) * a >= m * sd * 65536, 2 * m * sd >= a * rad;
    assert(2 * (m * (-q)) >= rad * 65536) by (nonlinear_arith)
        requires 2 * (m * (-q)) * a >= (rad * 65536) * a, a >= 1;
}

/// Sign of one term of the dot product of a direction with the outward normal at
/// a point `q` fixed-point steps short of the center.
proof fn lemma_term_sign(di: int, q: int, rad: int)
    requires
        q <= -1,
        rad >= 3,
    ensures
        di * ((((di * q) / 65536) * 65536) / rad) <= 0,
        di > 0 ==> di * ((((di * q) / 65536) * 65536) / rad) < 0,
        di < 0 && 2 * ((-di) * (-q)) >= rad * 65536 ==> di * ((((di * q) / 65536) * 65536) / rad) < 0,
{
    let w = (di * q) / 65536;
    let o = (w * 65536) / rad;
    vstd::arithmetic::div_mod::lemma_fundamental_div_mod(di * q, 65536);
    vstd::arithmetic::div_mod::lemma_fundamental_div_mod(w * 65536, rad);
    if di > 0 {
        assert(di * q < 0) by (nonlinear_arith)
            requires di > 0, q <= -1;
        assert(o <= -1) by (nonlinear_arith)
            requires di * q < 0, di * q == 65536 * w + (di * q) % 65536, 0 <= (di * q) % 65536 < 65536,
                w * 65536 == rad * o + (w * 65536) % rad, 0 <= (w * 65536) % rad < rad, rad >= 3;
        assert(di * o < 0) by (nonlinear_arith)
            requires di > 0, o <= -1;
    } else if di < 0 {
        assert(di * q > 0) by (nonlinear_arith)
            requires di < 0, q <= -1;
        assert(o >= 0) by (nonlinear_arith)
            requires di * q > 0, di * q == 65536 * w + (di * q) % 65536, 0 <= (di * q) % 65536 < 65536,
                w * 65536 == rad * o + (w * 65536) % rad, 0 <= (w * 65536) % rad < rad, rad >= 3;
        assert(di * o <= 0) by (nonlinear_arith)
            requires di < 0, o >= 0;
        if 2 * ((-di) * (-q)) >= rad * 65536 {
            assert(di * q == (-di) * (-q)) by (nonlinear_arith);
            assert(o >= 1) by (nonlinear_arith)
                requires 2 * (di * q) >= rad * 65536, di * q == 65536 * w + (di * q) % 65536,
                    0 <= (di * q) % 65536 < 65536, w * 65536 == rad * o + (w * 65536) % rad,
                    0 <= (w * 65536) % rad < rad, rad >= 3;
            assert(di * o < 0) by (nonlinear_arith)
                requires di < 0, o >= 1;
        }
    } else {
        assert(di * o == 0) by (nonlinear_arith)
            requires di == 0;
    }
}

/// A ray aimed straight at a sphere's center, that center lying a whole number `k`
/// of direction steps ahead, meets the sphere at its nearer root on the front face,
/// with the normal against the ray. The radius is at least 8 fixed-point steps.
pub proof fn lemma_head_on_hit_is_front(s: Sphere, r: Ray, ray_t: Interval, k: int)
    requires
        s.valid(),
        r.valid(),
        ray_t.valid(),
        s.radius >= 8,
        s.center.x == r.origin.x + k * r.dir.x,
        s.center.y == r.origin.y + k * r.dir.y,
        s.center.z == r.origin.z + k * r.dir.z,
        ray_t.contains_spec(near_root(s, r)),
    ensures
        sphere_hit(s, r, ray_t) == Some(sphere_record(s, r, near_root(s, r))),
        sphere_record(s, r, near_root(s, r)).front_face,
        dot_spec(r.dir, sphere_record(s, r, near_root(s, r)).normal) < 0,
{
    let d = r.dir;
    let a = quad_a(r);
    let rad = s.radius as int;
    lemma_head_on_terms(s, r, k);
    let disc = discriminant(s, r);
    assert(disc >= 0) by (nonlinear_arith)
        requires disc == a * (rad * rad), a > 0;
    lemma_isqrt_exists(disc);
    let sd = isqrt_spec(disc);
    lemma_root_size(a, rad, sd);
    let near = near_root(s, r);
    let q = (-(sd * 65536)) / a;
    assert(((k * a - sd) * 65536) == -(sd * 65536) + (k * 65536) * a) by (nonlinear_arith);
    vstd::arithmetic::div_mod::lemma_hoist_over_denominator(-(sd * 65536), k * 65536, a as nat);
    assert(near == q + k * 65536);
    vstd::arithmetic::div_mod::lemma_fundamental_div_mod(-(sd * 65536), a);
    assert(q * a <= -(sd * 65536)) by (nonlinear_arith)
        requires -(sd * 65536) == a * q + (-(sd * 65536)) % a, 0 <= (-(sd * 65536)) % a;
    assert(q <= -1) by (nonlinear_arith)
        requires q * a <= -(sd * 65536), sd >= 1, a >= 1;
    let rec = sphere_record(s, r, near);
    let p = at_spec(r, near);
    lemma_step_bound(d.x as int, near);
    lemma_step_bound(d.y as int, near);
    lemma_step_bound(d.z as int, near);
    assert(d.x * near == d.x * q + (k * d.x) * 65536) by (nonlinear_arith)
        requires near == q + k * 65536;
    assert(d.y * near == d.y * q + (k * d.y) * 65536) by (nonlinear_arith)
        requires near == q + k * 65536;
    assert(d.z * near == d.z * q + (k * d.z) * 65536) by (nonlinear_arith)
        requires near == q + k * 65536;
    vstd::arithmetic::div_mod::lemma_hoist_over_denominator(d.x * q, k * d.x, 65536);
    vstd::arithmetic::div_mod::lemma_hoist_over_denominator(d.y * q, k * d.y, 65536);
    vstd::arithmetic::div_mod::lemma_hoist_over_denominator(d.z * q, k * d.z, 65536);
    let wx = (d.x * q) / 65536;
    let wy = (d.y * q) / 65536;
    let wz = (d.z * q) / 65536;
    assert(p.x - s.center.x == wx && p.y - s.center.y == wy && p.z - s.center.z == wz);
    lemma_div_bound(wx * 65536, rad, 0x2000_0000_0000_0000);
    lemma_div_bound(wy * 65536, rad, 0x2000_0000_0000_0000);
    lemma_div_bound(wz * 65536, rad, 0x2000_0000_0000_0000);
    let o = vec3_of((wx * 65536) / rad, (wy * 65536) / rad, (wz * 65536) / rad);
    lemma_term_sign(d.x as int, q, rad);
    lemma_term_sign(d.y as int, q, rad);
    lemma_term_sign(d.z as int, q, rad);
    let dxx = d.x * d.x;
    let dyy = d.y * d.y;
    let dzz = d.z * d.z;
    if dxx >= dyy && dxx >= dzz {
        let m = abs(d.x as int);
        assert(m * m == dxx) by (nonlinear_arith)
            requires m == abs(d.x as int), dxx == d.x * d.x;
        lemma_component_reach(m, a, sd, rad, q);
    } else if dyy >= dzz {
        let m = abs(d.y as int);
        assert(m * m == dyy) by (nonlinear_arith)
            requires m == abs(d.y as int), dyy == d.y * d.y;
        lemma_component_reach(m, a, sd, rad, q);
    } else {
        let m = abs(d.z as int);
        assert(m * m == dzz) by (nonlinear_arith)
            requires m == abs(d.z as int), dzz == d.z * d.z;
        lemma_component_reach(m, a, sd, rad, q);
    }
    assert(dot_spec(d, o) < 0);
}

/// One member of a scene: a sphere, or a whole scene of its own.
pub enum Object {
    Sphere(Sphere),
    List(HittableList),
}

/// A scene: the objects it holds, in the order they were added.
pub struct HittableList {
    pub objects: Vec<Object>,
}

impl View for HittableList {
    type V = Seq<Object>;

    open spec fn view(&self) -> Seq<Object> {
        self.objects@
    }
}

/// The closest hit of `o` over `ray_t`: a sphere's own, or the nearest in a list.
pub open spec fn object_hit(o: Object, r: Ray, ray_t: Interval) -> Option<HitRecord>
    decreases o, 0int,
{
    match o {
        Object::Sphere(s) => sphere_hit(s, r, ray_t),
        Object::List(l) => nearest_prefix(l.objects@, l.objects@.len() as int, r, ray_t),
    }
}

/// The nearest of the hits that the first `n` objects report on their own over
/// `ray_t`; of hits at the same parameter, the later object's.
pub open spec fn nearest_prefix(objs: Seq<Object>, n: int, r: Ray, ray_t: Interval) -> Option<HitRecord>
    decreases objs, n,
{
    if n <= 0 || n > objs.len() {
        None
    } else {
        let prev = nearest_prefix(objs, n - 1, r, ray_t);
        match object_hit(objs[n - 1], r, ray_t) {
            None => prev,
            Some(c) => match prev {
                None => Some(c),
                Some(p) => if c.t <= p.t { Some(c) } else { prev },
            },
        }
    }
}

/// The nearest hit among all of `objs`.
pub open spec fn nearest_hit(objs: Seq<Object>, r: Ray, ray_t: Interval) -> Option<HitRecord> {
    nearest_prefix(objs, objs.len() as int, r, ray_t)
}

/// Every sphere, at any depth, is valid.
pub open spec fn object_valid(o: Object) -> bool
    decreases o, 0int,
{
    match o {
        Object::Sphere(s) => s.valid(),
        Object::List(l) => prefix_valid(l.objects@, l.objects@.len() as int),
    }
}

pub open spec fn prefix_valid(objs: Seq<Object>, n: int) -> bool
    decreases objs, n,
{
    if n <= 0 || n > objs.len() {
        true
    } else {
        prefix_valid(objs, n - 1) && object_valid(objs[n - 1])
    }
}

proof fn lemma_prefix_valid(objs: Seq<Object>, n: int, i: int)
    requires
        prefix_valid(objs, n),
        0 <= i < n <= objs.len(),
    ensures
        object_valid(objs[i]),
    decreases n,
{
    if i < n - 1 {
        lemma_prefix_valid(objs, n - 1, i);
    }
}

/// Querying an object with a smaller upper bound `b` yields the full query's hit
/// when that hit is no farther than `b`, and nothing otherwise.
pub proof fn lemma_narrowed_object(o: Object, r: Ray, ray_t: Interval, b: i64)
    requires
        r.valid(),
        ray_t.valid(),
        b <= ray_t.max,
    ensures
        object_hit(o, r, Interval { min: ray_t.min, max: b }) == (match object_hit(o, r, ray_t) {
            Some(c) => if c.t <= b { Some(c) } else { None },
            None => None,
        }),
    decreases o, 0int,
{
    match o {
        Object::Sphere(s) => lemma_narrowed_query(s, r, ray_t, b),
        Object::List(l) => lemma_narrowed_prefix(l.objects@, l.objects@.len() as int, r, ray_t, b),
    }
}

proof fn lemma_narrowed_prefix(objs: Seq<Object>, n: int, r: Ray, ray_t: Interval, b: i64)
    requires
        r.valid(),
        ray_t.valid(),
        b <= ray_t.max,
    ensures
        nearest_prefix(objs, n, r, Interval { min: ray_t.min, max: b }) == (match nearest_prefix(objs, n, r, ray_t) {
            Some(c) => if c.t <= b { Some(c) } else { None },
            None => None,
        }),
    decreases objs, n,
{
    if 0 < n <= objs.len() {
        lemma_narrowed_prefix(objs, n - 1, r, ray_t, b);
        lemma_narrowed_object(objs[n - 1], r, ray_t, b);
    }
}

proof fn lemma_prefix_is_minimum(objs: Seq<Object>, n: int, r: Ray, ray_t: Interval)
    requires
        0 <= n <= objs.len(),
    ensures
        nearest_prefix(objs, n, r, ray_t) is None <==> forall|i: int|
            0 <= i < n ==> (#[trigger] object_hit(objs[i], r, ray_t)) is None,
        nearest_prefix(objs, n, r, ray_t) matches Some(c) ==> (exists|i: int|
            0 <= i < n && #[trigger] object_hit(objs[i], r, ray_t) == Some(c)),
        nearest_prefix(objs, n, r, ray_t) matches Some(c) ==> (forall|j: int|
            0 <= j < n && (#[trigger] object_hit(objs[j], r, ray_t)) is Some
                ==> c.t <= object_hit(objs[j], r, ray_t)->Some_0.t),
    decreases n,
{
    if n > 0 {
        lemma_prefix_is_minimum(objs, n - 1, r, ray_t);
        if let Some(c) = nearest_prefix(objs, n, r, ray_t) {
            if object_hit(objs[n - 1], r, ray_t) != Some(c) {
                let i = choose|i: int| 0 <= i < n - 1 && object_hit(objs[i], r, ray_t) == Some(c);
                assert(object_hit(objs[i], r, ray_t) == Some(c));
            }
        }
    }
}

/// The nearest hit is one of the objects' own hits and no object is hit closer;
/// there is none exactly when no object is hit at all.
pub proof fn lemma_nearest_is_minimum(objs: Seq<Object>, r: Ray, ray_t: Interval)
    ensures
        nearest_hit(objs, r, ray_t) is None <==> forall|i: int|
            0 <= i < objs.len() ==> (#[trigger] object_hit(objs[i], r, ray_t)) is None,
        nearest_hit(objs, r, ray_t) matches Some(c) ==> (exists|i: int|
            0 <= i < objs.len() && #[trigger] object_hit(objs[i], r, ray_t) == Some(c)),
        nearest_hit(objs, r, ray_t) matches Some(c) ==> (forall|j: int|
            0 <= j < objs.len() && (#[trigger] object_hit(objs[j], r, ray_t)) is Some
                ==> c.t <= object_hit(objs[j], r, ray_t)->Some_0.t),
{
    lemma_prefix_is_minimum(objs, objs.len() as int, r, ray_t);
}

/// Nearest-hit law: two scenes that hold the same objects, in whatever order,
/// report a hit at the same parameter, or both report none; where no two objects
/// are hit at the same parameter they report the very same hit.
pub proof fn lemma_nearest_ignores_order(
    objs1: Seq<Object>,
    objs2: Seq<Object>,
    r: Ray,
    ray_t: Interval,
)
    requires
        forall|i: int| 0 <= i < objs1.len() ==> #[trigger] objs2.contains(objs1[i]),
        forall|j: int| 0 <= j < objs2.len() ==> #[trigger] objs1.contains(objs2[j]),
    ensures
        nearest_hit(objs1, r, ray_t) is None <==> nearest_hit(objs2, r, ray_t) is None,
        nearest_hit(objs1, r, ray_t) matches Some(c1) ==> nearest_hit(objs2, r, ray_t)->Some_0.t
            == c1.t,
        (forall|i: int, j: int|
            0 <= i < objs1.len() && 0 <= j < objs1.len() && i != j
                && (#[trigger] object_hit(objs1[i], r, ray_t)) is Some
                && (#[trigger] object_hit(objs1[j], r, ray_t)) is Some
                ==> object_hit(objs1[i], r, ray_t)->Some_0.t != object_hit(objs1[j], r, ray_t)->Some_0.t)
            ==> nearest_hit(objs1, r, ray_t) == nearest_hit(objs2, r, ray_t),
{
    let n1 = objs1.len() as int;
    let n2 = objs2.len() as int;
    lemma_prefix_is_minimum(objs1, n1, r, ray_t);
    lemma_prefix_is_minimum(objs2, n2, r, ray_t);
    if nearest_hit(objs1, r, ray_t) is None {
        assert forall|j: int| 0 <= j < n2 implies (#[trigger] object_hit(objs2[j], r, ray_t)) is None by {
            assert(objs1.contains(objs2[j]));
        }
    } else if nearest_hit(objs2, r, ray_t) is None {
        assert forall|i: int| 0 <= i < n1 implies (#[trigger] object_hit(objs1[i], r, ray_t)) is None by {
            assert(objs2.contains(objs1[i]));
        }
    } else {
        let c1 = nearest_hit(objs1, r, ray_t)->Some_0;
        let c2 = nearest_hit(objs2, r, ray_t)->Some_0;
        let i = choose|i: int| 0 <= i < n1 && object_hit(objs1[i], r, ray_t) == Some(c1);
        let j = choose|j: int| 0 <= j < n2 && object_hit(objs2[j], r, ray_t) == Some(c2);
        assert(objs2.contains(objs1[i]));
        assert(objs1.contains(objs2[j]));
        let i2 = choose|k: int| 0 <= k < n2 && objs2[k] == objs1[i];
        let j1 = choose|k: int| 0 <= k < n1 && objs1[k] == objs2[j];
        assert(object_hit(objs2[i2], r, ray_t) is Some);
        assert(object_hit(objs1[j1], r, ray_t) is Some);
        assert(object_hit(objs1[j1], r, ray_t) == Some(c2));
        assert(c1.t == c2.t);
        if forall|i: int, j: int|
            0 <= i < objs1.len() && 0 <= j < objs1.len() && i != j
                && (#[trigger] object_hit(objs1[i], r, ray_t)) is Some
                && (#[trigger] object_hit(objs1[j], r, ray_t)) is Some
                ==> object_hit(objs1[i], r, ray_t)->Some_0.t != object_hit(objs1[j], r, ray_t)->Some_0.t {
            assert(j1 == i);
        }
    }
}

impl HittableList {
    pub fn new() -> (l: HittableList)
        ensures
            l@ == Seq::<Object>::empty(),
    {
        HittableList { objects: Vec::new() }
    }

    pub fn add(&mut self, object: Object)
        ensures
            final(self)@ == old(self)@.push(object),
    {
        self.objects.push(object);
    }

    pub fn clear(&mut self)
        ensures
            final(self)@ == Seq::<Object>::empty(),
    {
        self.objects.clear();
    }

    /// Queries each object in turn, each only up to the best hit found so far.
    fn hit_list(&self, r: &Ray, ray_t: Interval) -> (res: Option<HitRecord>)
        requires
            prefix_valid(self@, self@.len() as int),
            r.valid(),
            ray_t.valid(),
        ensures
            res == nearest_hit(self@, *r, ray_t),
            res matches Some(rec) ==> ray_t.contains_spec(rec.t as int) && bounded_by(
                rec.normal,
                NORMAL_MAX as int,
            ),
        decreases self, 1int,
    {
        let mut best: Option<HitRecord> = None;
        let mut i: usize = 0;
        while i < self.objects.len()
            invariant
                prefix_valid(self@, self@.len() as int),
                r.valid(),
                ray_t.valid(),
                0 <= i <= self@.len(),
                best == nearest_prefix(self@, i as int, *r, ray_t),
                best matches Some(rec) ==> ray_t.contains_spec(rec.t as int) && bounded_by(
                    rec.normal,
                    NORMAL_MAX as int,
                ),
            decreases self@.len() - i,
        {
            let bound = match best {
                Some(rec) => rec.t,
                None => ray_t.max,
            };
            let object = &self.objects[i];
            proof {
                lemma_prefix_valid(self@, self@.len() as int, i as int);
                lemma_narrowed_object(*object, *r, ray_t, bound);
            }
            let res = object.hit_object(r, Interval::new(ray_t.min, bound));
            if res.is_some() {
                best = res;
            }
            i = i + 1;
        }
        best
    }
}

impl From<Sphere> for Object {
    fn from(s: Sphere) -> (o: Object)
        ensures
            o == Object::Sphere(s),
    {
        Object::Sphere(s)
    }
}

impl vstd::std_specs::convert::FromSpecImpl<Sphere> for Object {
    open spec fn obeys_from_spec() -> bool {
        true
    }

    open spec fn from_spec(s: Sphere) -> Object {
        Object::Sphere(s)
    }
}

impl From<HittableList> for Object {
    fn from(l: HittableList) -> (o: Object)
        ensures
            o == Object::List(l),
    {
        Object::List(l)
    }
}

impl vstd::std_specs::convert::FromSpecImpl<HittableList> for Object {
    open spec fn obeys_from_spec() -> bool {
        true
    }

    open spec fn from_spec(l: HittableList) -> Object {
        Object::List(l)
    }
}

impl Object {
    fn hit_object(&self, r: &Ray, ray_t: Interval) -> (res: Option<HitRecord>)
        requires
            object_valid(*self),
            r.valid(),
            ray_t.valid(),
        ensures
            res == object_hit(*self, *r, ray_t),
            res matches Some(rec) ==> ray_t.contains_spec(rec.t as int) && bounded_by(
                rec.normal,
                NORMAL_MAX as int,
            ),
        decreases self, 0int,
    {
        match self {
            Object::Sphere(s) => s.hit(r, ray_t),
            Object::List(l) => l.hit_list(r, ray_t),
        }
    }
}

impl Hittable for Object {
    open spec fn well_formed(&self) -> bool {
        object_valid(*self)
    }

    open spec fn hit_spec(&self, r: Ray, ray_t: Interval) -> Option<HitRecord> {
        object_hit(*self, r, ray_t)
    }

    fn hit(&self, r: &Ray, ray_t: Interval) -> (res: Option<HitRecord>) {
        self.hit_object(r, ray_t)
    }
}

impl Hittable for HittableList {
    open spec fn well_formed(&self) -> bool {
        prefix_valid(self@, self@.len() as int)
    }

    open spec fn hit_spec(&self, r: Ray, ray_t: Interval) -> Option<HitRecord> {
        nearest_hit(self@, r, ray_t)
    }

    fn hit(&self, r: &Ray, ray_t: Interval) -> (res: Option<HitRecord>) {
        self.hit_list(r, ray_t)
    }
}

} // verus!
