use vstd::prelude::*;
use crate::fixed::{div_floor, isqrt, isqrt_spec, lemma_isqrt_exists, SCALE, SCALE_WIDE};

verus! {

/// A vector (or point, or color) of three fixed-point components.
#[derive(Clone, Copy, Debug, PartialEq, Eq, Structural)]
pub struct Vec3 {
    pub x: i64,
    pub y: i64,
    pub z: i64,
}

/// A point in space.
pub type Point3 = Vec3;

pub open spec fn abs(v: int) -> int {
    if v < 0 { -v } else { v }
}

/// Every component lies in `[-b, b]`.
pub open spec fn bounded_by(v: Vec3, b: int) -> bool {
    abs(v.x as int) <= b && abs(v.y as int) <= b && abs(v.z as int) <= b
}

pub open spec fn dot_spec(a: Vec3, b: Vec3) -> int {
    a.x * b.x + a.y * b.y + a.z * b.z
}

pub open spec fn vec3_of(x: int, y: int, z: int) -> Vec3 {
    Vec3 { x: x as i64, y: y as i64, z: z as i64 }
}

/// Exact components of `v` fit in an `i64`.
pub open spec fn fits(x: int, y: int, z: int) -> bool {
    i64::MIN <= x <= i64::MAX && i64::MIN <= y <= i64::MAX && i64::MIN <= z <= i64::MAX
}

proof fn lemma_product_bound(a: int, b: int, bound: int) by (nonlinear_arith)
    requires
        abs(a) <= bound,
        abs(b) <= bound,
    ensures
        abs(a * b) <= bound * bound,
        -(bound * bound) <= a * b <= bound * bound,
{
}

/// Fixed-point product of two fixed-point values, rounded down.
pub open spec fn fmul(a: int, b: int) -> int {
    (a * b) / (SCALE as int)
}

/// Fixed-point quotient of two fixed-point values, rounded down.
pub open spec fn fdiv(a: int, d: int) -> int {
    (a * SCALE) / d
}

/// Relies on rand::random_range: a value drawn from the half-open range `lo..hi`,
/// which panics when that range is empty.
#[verifier::external_body]
pub(crate) fn random_in(lo: i64, hi: i64) -> (r: i64)
    requires
        lo < hi,
    ensures
        lo <= r < hi,
{
    rand::random_range(lo..hi)
}

proof fn lemma_fmul_bound(a: int, b: int)
    requires
        abs(a) <= 0x8000_0000,
        abs(b) <= 0x8000_0000,
    ensures
        -0x4000_0000_0000_0000 <= a * b <= 0x4000_0000_0000_0000,
        -0x4000_0000_0000 <= fmul(a, b) <= 0x4000_0000_0000,
{
    lemma_product_bound(a, b, 0x8000_0000);
    vstd::arithmetic::div_mod::lemma_div_is_ordered(-0x4000_0000_0000_0000, a * b, 65536);
    vstd::arithmetic::div_mod::lemma_div_is_ordered(a * b, 0x4000_0000_0000_0000, 65536);
}

/// Decimal digits of a fraction `f / SCALE` (with `0 <= f < SCALE`) after the point,
/// without trailing zeros; `n` bounds the count, and 16 digits always suffice.
pub open spec fn fraction_digits(f: int, n: nat) -> Seq<u8>
    decreases n,
{
    if n == 0 || f <= 0 {
        Seq::empty()
    } else {
        seq![(48 + (f * 10) / (SCALE as int)) as u8] + fraction_digits((f * 10) % (SCALE as int), (n - 1) as nat)
    }
}

/// A fixed-point number in decimal: sign, whole part, then `.` and the fraction's
/// digits when the fraction is not zero.
pub open spec fn fixed_text(v: int) -> Seq<u8> {
    let m = abs(v);
    let whole = crate::color::decimal((m / (SCALE as int)) as nat);
    let f = m % (SCALE as int);
    let sign = if v < 0 { seq![45u8] } else { Seq::empty() };
    if f == 0 {
        sign + whole
    } else {
        sign + whole + seq![46u8] + fraction_digits(f, 16)
    }
}

impl Vec3 {
    pub fn zero() -> (r: Vec3)
        ensures
            r == vec3_of(0, 0, 0),
    {
        Vec3 { x: 0, y: 0, z: 0 }
    }

    pub fn new(x: i64, y: i64, z: i64) -> (r: Vec3)
        ensures
            r.x == x && r.y == y && r.z == z,
    {
        Vec3 { x, y, z }
    }

    pub fn x(&self) -> (r: i64)
        ensures
            r == self.x,
    {
        self.x
    }

    pub fn y(&self) -> (r: i64)
        ensures
            r == self.y,
    {
        self.y
    }

    pub fn z(&self) -> (r: i64)
        ensures
            r == self.z,
    {
        self.z
    }

    pub fn tuple(&self) -> (r: (i64, i64, i64))
        ensures
            r == (self.x, self.y, self.z),
    {
        (self.x, self.y, self.z)
    }

    pub fn add(&self, o: &Vec3) -> (r: Vec3)
        requires
            fits(self.x + o.x, self.y + o.y, self.z + o.z),
        ensures
            r == vec3_of(self.x + o.x, self.y + o.y, self.z + o.z),
    {
        Vec3 { x: self.x + o.x, y: self.y + o.y, z: self.z + o.z }
    }

    pub fn sub(&self, o: &Vec3) -> (r: Vec3)
        requires
            fits(self.x - o.x, self.y - o.y, self.z - o.z),
        ensures
            r == vec3_of(self.x - o.x, self.y - o.y, self.z - o.z),
    {
        Vec3 { x: self.x - o.x, y: self.y - o.y, z: self.z - o.z }
    }

    pub fn neg(&self) -> (r: Vec3)
        requires
            fits(-self.x, -self.y, -self.z),
        ensures
            r == vec3_of(-self.x, -self.y, -self.z),
    {
        Vec3 { x: -self.x, y: -self.y, z: -self.z }
    }

    /// Dot product, exact, over raw components.
    pub fn dot(&self, o: &Vec3) -> (r: i128)
        requires
            bounded_by(*self, 0x4000_0000_0000_0000),
            bounded_by(*o, 0x4000_0000_0000_0000),
        ensures
            r == dot_spec(*self, *o),
    {
        proof {
            lemma_product_bound(self.x as int, o.x as int, 0x4000_0000_0000_0000);
            lemma_product_bound(self.y as int, o.y as int, 0x4000_0000_0000_0000);
            lemma_product_bound(self.z as int, o.z as int, 0x4000_0000_0000_0000);
        }
        (self.x as i128) * (o.x as i128) + (self.y as i128) * (o.y as i128) + (self.z as i128) * (
        o.z as i128)
    }

    pub fn length_squared(&self) -> (r: i128)
        requires
            bounded_by(*self, 0x4000_0000_0000_0000),
        ensures
            r == dot_spec(*self, *self),
    {
        self.dot(self)
    }

    /// Components drawn at random from `[0, 1)`.
    pub fn random() -> (r: Vec3)
        ensures
            0 <= r.x < SCALE && 0 <= r.y < SCALE && 0 <= r.z < SCALE,
    {
        Vec3 { x: random_in(0, SCALE), y: random_in(0, SCALE), z: random_in(0, SCALE) }
    }

    /// Components drawn at random from `[lo, hi)`.
    pub fn random_range(lo: i64, hi: i64) -> (r: Vec3)
        requires
            lo < hi,
        ensures
            lo <= r.x < hi && lo <= r.y < hi && lo <= r.z < hi,
    {
        Vec3 { x: random_in(lo, hi), y: random_in(lo, hi), z: random_in(lo, hi) }
    }

    /// Euclidean length, rounded down.
    pub fn length(&self) -> (r: i64)
        requires
            bounded_by(*self, 0x4000_0000_0000_0000),
        ensures
            r == isqrt_spec(dot_spec(*self, *self)),
    {
        proof {
            lemma_product_bound(self.x as int, self.x as int, 0x4000_0000_0000_0000);
            lemma_product_bound(self.y as int, self.y as int, 0x4000_0000_0000_0000);
            lemma_product_bound(self.z as int, self.z as int, 0x4000_0000_0000_0000);
            assert(self.x * self.x >= 0 && self.y * self.y >= 0 && self.z * self.z >= 0) by (nonlinear_arith);
        }
        let l = isqrt(self.length_squared() as u128);
        proof {
            assert(l < 0x8000_0000_0000_0000) by (nonlinear_arith)
                requires l * l <= 0x3000_0000_0000_0000_0000_0000_0000_0000, l >= 0;
        }
        l as i64
    }

    /// Component-wise fixed-point product.
    pub fn mul(&self, o: &Vec3) -> (r: Vec3)
        requires
            bounded_by(*self, 0x8000_0000),
            bounded_by(*o, 0x8000_0000),
        ensures
            r == vec3_of(fmul(self.x as int, o.x as int), fmul(self.y as int, o.y as int), fmul(self.z as int, o.z as int)),
    {
        proof {
            lemma_fmul_bound(self.x as int, o.x as int);
            lemma_fmul_bound(self.y as int, o.y as int);
            lemma_fmul_bound(self.z as int, o.z as int);
        }
        Vec3 {
            x: div_floor(self.x as i128 * o.x as i128, SCALE_WIDE) as i64,
            y: div_floor(self.y as i128 * o.y as i128, SCALE_WIDE) as i64,
            z: div_floor(self.z as i128 * o.z as i128, SCALE_WIDE) as i64,
        }
    }

    /// Every component times the fixed-point scalar `s`.
    pub fn scale(&self, s: i64) -> (r: Vec3)
        requires
            bounded_by(*self, 0x8000_0000),
            abs(s as int) <= 0x8000_0000,
        ensures
            r == vec3_of(fmul(self.x as int, s as int), fmul(self.y as int, s as int), fmul(self.z as int, s as int)),
    {
        self.mul(&Vec3 { x: s, y: s, z: s })
    }

    /// Every component over the positive fixed-point scalar `d`.
    pub fn div(&self, d: i64) -> (r: Vec3)
        requires
            bounded_by(*self, 0x4000_0000_0000),
            d > 0,
        ensures
            r == vec3_of(fdiv(self.x as int, d as int), fdiv(self.y as int, d as int), fdiv(self.z as int, d as int)),
    {
        proof {
            vstd::arithmetic::div_mod::lemma_div_is_ordered(-0x4000_0000_0000_0000, self.x * 65536, d as int);
            vstd::arithmetic::div_mod::lemma_div_is_ordered(self.x * 65536, 0x4000_0000_0000_0000, d as int);
            vstd::arithmetic::div_mod::lemma_div_is_ordered(-0x4000_0000_0000_0000, self.y * 65536, d as int);
            vstd::arithmetic::div_mod::lemma_div_is_ordered(self.y * 65536, 0x4000_0000_0000_0000, d as int);
            vstd::arithmetic::div_mod::lemma_div_is_ordered(-0x4000_0000_0000_0000, self.z * 65536, d as int);
            vstd::arithmetic::div_mod::lemma_div_is_ordered(self.z * 65536, 0x4000_0000_0000_0000, d as int);
            vstd::arithmetic::div_mod::lemma_div_is_ordered_by_denominator(0x4000_0000_0000_0000, 1, d as int);
            assert(-0x4000_0000_0000_0000 / (d as int) >= -0x4000_0000_0000_0000) by {
                vstd::arithmetic::div_mod::lemma_fundamental_div_mod(-0x4000_0000_0000_0000, d as int);
                assert(-0x4000_0000_0000_0000 / (d as int) >= -0x4000_0000_0000_0000) by (nonlinear_arith)
                    requires d >= 1, -0x4000_0000_0000_0000 == (d as int) * (-0x4000_0000_0000_0000 / (d as int))
                        + (-0x4000_0000_0000_0000 % (d as int)), 0 <= -0x4000_0000_0000_0000 % (d as int) < d;
            }
        }
        Vec3 {
            x: div_floor(self.x as i128 * SCALE_WIDE, d as i128) as i64,
            y: div_floor(self.y as i128 * SCALE_WIDE, d as i128) as i64,
            z: div_floor(self.z as i128 * SCALE_WIDE, d as i128) as i64,
        }
    }

    /// This vector over its length: a unit vector, up to rounding.
    pub fn unit_vector(&self) -> (r: Vec3)
        requires
            bounded_by(*self, 0x4000_0000_0000),
            dot_spec(*self, *self) > 0,
        ensures
            r == vec3_of(
                fdiv(self.x as int, isqrt_spec(dot_spec(*self, *self))),
                fdiv(self.y as int, isqrt_spec(dot_spec(*self, *self))),
                fdiv(self.z as int, isqrt_spec(dot_spec(*self, *self))),
            ),
    {
        let l = self.length();
        proof {
            lemma_isqrt_exists(dot_spec(*self, *self));
            let n = dot_spec(*self, *self);
            assert(crate::fixed::is_isqrt(n, l as int));
            if l == 0 {
                assert(n < (0 + 1) * (0 + 1));
            }
            assert(l > 0);
        }
        self.div(l)
    }

    /// Cross product in fixed point, each term rounded down.
    pub fn cross(&self, o: &Vec3) -> (r: Vec3)
        requires
            bounded_by(*self, 0x8000_0000),
            bounded_by(*o, 0x8000_0000),
        ensures
            r == vec3_of(
                (self.y * o.z - self.z * o.y) / (SCALE as int),
                (self.z * o.x - self.x * o.z) / (SCALE as int),
                (self.x * o.y - self.y * o.x) / (SCALE as int),
            ),
    {
        proof {
            lemma_product_bound(self.y as int, o.z as int, 0x8000_0000);
            lemma_product_bound(self.z as int, o.y as int, 0x8000_0000);
            lemma_product_bound(self.z as int, o.x as int, 0x8000_0000);
            lemma_product_bound(self.x as int, o.z as int, 0x8000_0000);
            lemma_product_bound(self.x as int, o.y as int, 0x8000_0000);
            lemma_product_bound(self.y as int, o.x as int, 0x8000_0000);
            let a = self.y * o.z - self.z * o.y;
            let b = self.z * o.x - self.x * o.z;
            let c = self.x * o.y - self.y * o.x;
            vstd::arithmetic::div_mod::lemma_div_is_ordered(-0x8000_0000_0000_0000, a, 65536);
            vstd::arithmetic::div_mod::lemma_div_is_ordered(a, 0x8000_0000_0000_0000, 65536);
            vstd::arithmetic::div_mod::lemma_div_is_ordered(-0x8000_0000_0000_0000, b, 65536);
            vstd::arithmetic::div_mod::lemma_div_is_ordered(b, 0x8000_0000_0000_0000, 65536);
            vstd::arithmetic::div_mod::lemma_div_is_ordered(-0x8000_0000_0000_0000, c, 65536);
            vstd::arithmetic::div_mod::lemma_div_is_ordered(c, 0x8000_0000_0000_0000, 65536);
        }
        let sx = self.x as i128;
        let sy = self.y as i128;
        let sz = self.z as i128;
        let ox = o.x as i128;
        let oy = o.y as i128;
        let oz = o.z as i128;
        Vec3 {
            x: div_floor(sy * oz - sz * oy, SCALE_WIDE) as i64,
            y: div_floor(sz * ox - sx * oz, SCALE_WIDE) as i64,
            z: div_floor(sx * oy - sy * ox, SCALE_WIDE) as i64,
        }
    }

    /// The three components in decimal, separated by spaces.
    pub fn to_text(&self) -> (t: Vec<u8>)
        ensures
            t@ == fixed_text(self.x as int) + seq![32u8] + fixed_text(self.y as int) + seq![32u8]
                + fixed_text(self.z as int),
    {
        let mut t: Vec<u8> = Vec::new();
        push_fixed(&mut t, self.x);
        t.push(32);
        push_fixed(&mut t, self.y);
        t.push(32);
        push_fixed(&mut t, self.z);
        t
    }

    /// `p` over its length when `p` is not zero and lies within the unit ball, else nothing.
    pub fn unit_in_ball(p: &Vec3) -> (r: Option<Vec3>)
        requires
            bounded_by(*p, 0x4000_0000_0000),
        ensures
            r is Some <==> 0 < dot_spec(*p, *p) <= SCALE * SCALE,
            r matches Some(u) ==> u == vec3_of(
                fdiv(p.x as int, isqrt_spec(dot_spec(*p, *p))),
                fdiv(p.y as int, isqrt_spec(dot_spec(*p, *p))),
                fdiv(p.z as int, isqrt_spec(dot_spec(*p, *p))),
            ),
    {
        proof {
            lemma_product_bound(p.x as int, p.x as int, 0x4000_0000_0000);
            lemma_product_bound(p.y as int, p.y as int, 0x4000_0000_0000);
            lemma_product_bound(p.z as int, p.z as int, 0x4000_0000_0000);
        }
        let len_sq = p.length_squared();
        if 0 < len_sq && len_sq <= SCALE_WIDE * SCALE_WIDE {
            Some(p.unit_vector())
        } else {
            None
        }
    }

    /// `v` when it points to the side of `normal`, else `v` reversed.
    pub fn on_hemisphere(v: &Vec3, normal: &Vec3) -> (r: Vec3)
        requires
            bounded_by(*v, 0x4000_0000_0000_0000),
            bounded_by(*normal, 0x4000_0000_0000_0000),
        ensures
            r == if dot_spec(*v, *normal) > 0 { *v } else { vec3_of(-v.x, -v.y, -v.z) },
    {
        if v.dot(normal) > 0 {
            *v
        } else {
            v.neg()
        }
    }
}

/// Appends `v` in decimal.
fn push_fixed(out: &mut Vec<u8>, v: i64)
    ensures
        final(out)@ == old(out)@ + fixed_text(v as int),
{
    let ghost start = out@;
    let m: u64 = if v < 0 { (-(v as i128)) as u64 } else { v as u64 };
    if v < 0 {
        out.push(45);
    }
    let whole = m / (SCALE as u64);
    let mut f: u64 = m % (SCALE as u64);
    proof {
        assert(whole <= 0x8000_0000_0000);
    }
    crate::color::push_decimal_wide(out, whole);
    let ghost mid = out@;
    if f != 0 {
        out.push(46);
        let ghost before = out@;
        let mut n: u32 = 16;
        while n > 0 && f > 0
            invariant
                0 <= f < SCALE,
                n <= 16,
                before + fraction_digits((m as int) % (SCALE as int), 16) == out@ + fraction_digits(f as int, n as nat),
            decreases n,
        {
            let d = f * 10 / (SCALE as u64);
            assert(d < 10) by (nonlinear_arith)
                requires d == f * 10 / 65536, f < 65536;
            out.push((48 + d) as u8);
            f = f * 10 % (SCALE as u64);
            n = n - 1;
        }
        assert(fraction_digits(f as int, n as nat) == Seq::<u8>::empty());
    }
    assert(out@ =~= start + fixed_text(v as int));
}

} // verus!
