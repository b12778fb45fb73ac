use raytrace::fixed::SCALE;
use raytrace::vec3::Vec3;

const S: i64 = SCALE;
const S2: i128 = (SCALE as i128) * (SCALE as i128);

fn v(x: f64, y: f64, z: f64) -> Vec3 {
    Vec3::new((x * S as f64) as i64, (y * S as f64) as i64, (z * S as f64) as i64)
}

fn close(a: i64, b: i64) {
    // fixed-point rounding leaves a couple of steps of slack
    assert!((a - b).abs() <= 2, "expected {} close to {}", a, b);
}

fn vec_close(a: &Vec3, b: &Vec3) {
    close(a.x(), b.x());
    close(a.y(), b.y());
    close(a.z(), b.z());
}

#[test]
fn constructors_and_accessors() {
    let z = Vec3::zero();
    assert_eq!(z.tuple(), (0, 0, 0));
    assert_eq!(z.length(), 0);

    let a = v(1.0, -2.5, 3.25);
    assert_eq!(a.x(), S);
    assert_eq!(a.y(), -5 * S / 2);
    assert_eq!(a.z(), 13 * S / 4);
    assert_eq!(a.tuple(), (S, -5 * S / 2, 13 * S / 4));

    let w = Vec3::new(4 * S, 5 * S, 6 * S);
    assert_eq!(w.tuple(), (4 * S, 5 * S, 6 * S));

    let t = v(7.0, 8.0, 9.0);
    assert_eq!(t.tuple(), (7 * S, 8 * S, 9 * S));
}

#[test]
fn length_and_unit_vector() {
    let a = v(3.0, 4.0, 12.0);
    assert_eq!(a.length_squared(), (9 + 16 + 144) * S2);
    assert_eq!(a.length(), 13 * S);

    let u = a.unit_vector();
    close(u.length(), S);
    // u should be a normalized
    vec_close(&u, &a.div(13 * S));

    // unit vector of unit vector is itself
    vec_close(&u.unit_vector(), &u);
}

#[test]
fn dot_product_properties() {
    let a = v(1.0, 2.0, 3.0);
    let b = v(-4.0, 5.0, -6.0);
    let c = v(7.5, -8.25, 0.5);

    // numeric value, in squared fixed-point units
    assert_eq!(a.dot(&b), -12 * S2);

    // symmetry
    assert_eq!(a.dot(&b), b.dot(&a));

    // linearity: (a+b)·c = a·c + b·c
    assert_eq!(a.add(&b).dot(&c), a.dot(&c) + b.dot(&c));

    // relation with length: a·a = |a|^2
    assert_eq!(a.dot(&a), a.length_squared());
}

#[test]
fn cross_product_properties() {
    let i = v(1.0, 0.0, 0.0);
    let j = v(0.0, 1.0, 0.0);
    let k = v(0.0, 0.0, 1.0);

    vec_close(&i.cross(&j), &k); // right-hand rule
    vec_close(&j.cross(&k), &i);
    vec_close(&k.cross(&i), &j);

    // orthogonality: a×b ⟂ a and b
    let a = v(2.0, -3.0, 4.0);
    let b = v(-1.0, 5.0, 2.0);
    let c = a.cross(&b);
    assert_eq!(c.dot(&a), 0);
    assert_eq!(c.dot(&b), 0);

    // numeric value
    assert_eq!(c.tuple(), (-26 * S, -8 * S, 7 * S));

    // anti-commutativity: a×b = -(b×a)
    vec_close(&c, &b.cross(&a).neg());
}

#[test]
fn addition_and_subtraction() {
    let a = v(1.0, 2.0, 3.0);
    let b = v(4.0, -5.0, 6.0);
    assert_eq!(a.add(&b).tuple(), (5 * S, -3 * S, 9 * S));
    assert_eq!(a.sub(&b).tuple(), (-3 * S, 7 * S, -3 * S));

    let mut c = a;
    c = c.add(&b);
    assert_eq!(c.tuple(), (5 * S, -3 * S, 9 * S));
    c = c.sub(&b);
    assert_eq!(c.tuple(), a.tuple());

    // commutativity of addition
    assert_eq!(a.add(&b), b.add(&a));
}

#[test]
fn element_wise_and_scalar_multiplication() {
    let a = v(2.0, -3.0, 4.0);
    let b = v(-5.0, 6.0, 0.5);
    assert_eq!(a.mul(&b).tuple(), (-10 * S, -18 * S, 2 * S));

    let s = -5 * S / 2;
    let expect = (-5 * S, 15 * S / 2, -10 * S);
    assert_eq!(a.scale(s).tuple(), expect);
    assert_eq!(Vec3::new(s, s, s).mul(&a).tuple(), expect);

    // distributivity s*(a+b) = s*a + s*b
    vec_close(&a.add(&b).scale(s), &a.scale(s).add(&b.scale(s)));
}

#[test]
fn scalar_division() {
    let a = v(9.0, -3.0, 12.0);
    let d = 3 * S;
    assert_eq!(a.div(d).tuple(), (3 * S, -S, 4 * S));

    // (a/d) * d == a
    vec_close(&a.div(d).scale(d), &a);
}

#[test]
fn random_components_in_range() {
    for _ in 0..100 {
        let r = Vec3::random();
        assert!(0 <= r.x() && r.x() < S);
        let q = Vec3::random_range(-S, S);
        assert!(-S <= q.y() && q.y() < S);
    }
}

#[test]
fn display_formatting() {
    let a = v(1.5, -2.0, 3.25);
    let s = String::from_utf8(a.to_text()).unwrap();
    assert_eq!(s, "1.5 -2 3.25");
}

#[test]
fn text_of_small_fractions() {
    let a = Vec3::new(1, -S / 8, 0);
    let s = String::from_utf8(a.to_text()).unwrap();
    assert_eq!(s, "0.0000152587890625 -0.125 0");
}

#[test]
fn unit_candidates_inside_ball_only() {
    assert_eq!(Vec3::unit_in_ball(&v(0.0, 0.5, 0.0)), Some(v(0.0, 1.0, 0.0)));
    assert_eq!(Vec3::unit_in_ball(&v(0.0, 0.0, -1.0)), Some(v(0.0, 0.0, -1.0)));
    assert_eq!(Vec3::unit_in_ball(&v(0.9, 0.9, 0.0)), None);
    assert_eq!(Vec3::unit_in_ball(&Vec3::zero()), None);
}

#[test]
fn hemisphere_flip() {
    let n = v(0.0, 1.0, 0.0);
    assert_eq!(Vec3::on_hemisphere(&v(0.6, 0.8, 0.0), &n), v(0.6, 0.8, 0.0));
    assert_eq!(Vec3::on_hemisphere(&v(0.6, -0.8, 0.0), &n), v(-0.6, 0.8, 0.0));
    assert_eq!(Vec3::on_hemisphere(&v(1.0, 0.0, 0.0), &n), v(-1.0, 0.0, 0.0));
}
