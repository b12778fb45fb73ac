use vstd::prelude::*;
use crate::fixed::{div_floor, SCALE_WIDE, SCALE};
use crate::interval::T_MAX;
use crate::vec3::{bounded_by, dot_spec, vec3_of, Point3, Vec3};

verus! {

/// Largest coordinate magnitude of a ray's origin and direction, or a sphere's center.
pub const COORD_MAX: i64 = 0x1000_0000;

/// The half-line `origin + t * dir`.
#[derive(Clone, Copy, Debug, PartialEq, Eq, Structural)]
pub struct Ray {
    pub origin: Point3,
    pub dir: Vec3,
}

/// Point at fixed-point parameter `t`, each step of `dir * t` rounded down.
pub open spec fn at_spec(r: Ray, t: int) -> Vec3 {
    vec3_of(
        r.origin.x + (r.dir.x * t) / (SCALE as int),
        r.origin.y + (r.dir.y * t) / (SCALE as int),
        r.origin.z + (r.dir.z * t) / (SCALE as int),
    )
}

pub proof fn lemma_step_bound(d: int, t: int)
    requires
        -COORD_MAX <= d <= COORD_MAX,
        -T_MAX <= t <= T_MAX,
    ensures
        -0x1000_0000_0000 <= (d * t) / (SCALE as int) <= 0x1000_0000_0000,
{
    assert(-0x1000_0000_0000_0000 <= d * t <= 0x1000_0000_0000_0000) by (nonlinear_arith)
        requires -0x1000_0000 <= d <= 0x1000_0000, -0x1_0000_0000 <= t <= 0x1_0000_0000;
    vstd::arithmetic::div_mod::lemma_div_is_ordered(-0x1000_0000_0000_0000, d * t, 65536);
    vstd::arithmetic::div_mod::lemma_div_is_ordered(d * t, 0x1000_0000_0000_0000, 65536);
}

impl Ray {
    /// Origin and direction lie within `COORD_MAX`, and the direction is not zero.
    pub open spec fn valid(&self) -> bool {
        bounded_by(self.origin, COORD_MAX as int) && bounded_by(self.dir, COORD_MAX as int)
            && dot_spec(self.dir, self.dir) > 0
    }

    pub fn zero() -> (r: Ray)
        ensures
            r.origin == vec3_of(0, 0, 0) && r.dir == vec3_of(0, 0, 0),
    {
        Ray { origin: Vec3::zero(), dir: Vec3::zero() }
    }

    pub fn new(origin: Point3, dir: Vec3) -> (r: Ray)
        ensures
            r.origin == origin && r.dir == dir,
    {
        Ray { origin, dir }
    }

    pub fn origin(&self) -> (r: Point3)
        ensures
            r == self.origin,
    {
        self.origin
    }

    pub fn direction(&self) -> (r: Vec3)
        ensures
            r == self.dir,
    {
        self.dir
    }

    /// The point at parameter `t`; its components stay within `2^44 + COORD_MAX`.
    pub fn at(&self, t: i64) -> (p: Point3)
        requires
            bounded_by(self.origin, COORD_MAX as int),
            bounded_by(self.dir, COORD_MAX as int),
            -T_MAX <= t <= T_MAX,
        ensures
            p == at_spec(*self, t as int),
            bounded_by(p, 0x1000_0000_0000 + COORD_MAX),
    {
        proof {
            lemma_step_bound(self.dir.x as int, t as int);
            lemma_step_bound(self.dir.y as int, t as int);
            lemma_step_bound(self.dir.z as int, t as int);
        }
        let sx = div_floor(self.dir.x as i128 * t as i128, SCALE_WIDE);
        let sy = div_floor(self.dir.y as i128 * t as i128, SCALE_WIDE);
        let sz = div_floor(self.dir.z as i128 * t as i128, SCALE_WIDE);
        Vec3 {
            x: (self.origin.x as i128 + sx) as i64,
            y: (self.origin.y as i128 + sy) as i64,
            z: (self.origin.z as i128 + sz) as i64,
        }
    }
}

} // verus!
