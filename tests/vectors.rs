use raytracer::fixed::{isqrt, mul_fx, saturate, sqrt_fx, LIMIT, SCALE};
use raytracer::material::schlick;
use raytracer::screen::ColorTraits;
use raytracer::vec3::Vec3;

fn v(x: i64, y: i64, z: i64) -> Vec3 {
    Vec3::new((x, y, z))
}

#[test]
fn new_saturates_to_coordinate_range() {
    let a = Vec3::new((2_000_000_000, -5, i64::MIN));
    assert_eq!(a, Vec3 { x: LIMIT, y: -5, z: -LIMIT });
    assert_eq!(saturate(-7), -7);
    assert_eq!(saturate(1i128 << 100), LIMIT);
}

#[test]
fn scalar_arithmetic_exact_values() {
    assert_eq!(mul_fx(1_500_000, 2_000_000), 3_000_000);
    assert_eq!(mul_fx(-1_500_000, 2_000_000), -3_000_000);
    assert_eq!(mul_fx(3, 333_333), 0);
    assert_eq!(sqrt_fx(4 * SCALE), 2 * SCALE);
    assert_eq!(sqrt_fx(250_000), 500_000);
    assert_eq!(sqrt_fx(-1), 0);
    assert_eq!(isqrt(99), 9);
    assert_eq!(isqrt(100), 10);
    assert_eq!(isqrt(u128::MAX), u64::MAX as u128);
}

#[test]
fn dot_cross_and_lengths() {
    let a = v(SCALE, 2 * SCALE, 3 * SCALE);
    let b = v(4 * SCALE, 5 * SCALE, 6 * SCALE);
    assert_eq!(a.dot(b), 32 * SCALE);
    assert_eq!(a.cross(b), v(-3 * SCALE, 6 * SCALE, -3 * SCALE));
    let c = v(3 * SCALE, 4 * SCALE, 0);
    assert_eq!(c.length(), 5 * SCALE);
    assert_eq!(c.length_squared(), 25 * SCALE);
    assert_eq!(c.unitize(), v(600_000, 800_000, 0));
    assert_eq!(v(0, 0, 0).unitize(), v(0, 0, 0));
}

#[test]
fn component_operations() {
    let a = v(SCALE, -2 * SCALE, 500_000);
    let b = v(2 * SCALE, 3 * SCALE, 500_000);
    assert_eq!(a.add(b), v(3 * SCALE, SCALE, SCALE));
    assert_eq!(a.sub(b), v(-SCALE, -5 * SCALE, 0));
    assert_eq!(a.mul(b), v(2 * SCALE, -6 * SCALE, 250_000));
    assert_eq!(a.scale(2 * SCALE), v(2 * SCALE, -4 * SCALE, SCALE));
    assert_eq!(a.div(2 * SCALE), v(500_000, -SCALE, 250_000));
    assert_eq!(a.neg(), v(-SCALE, 2 * SCALE, -500_000));
    assert_eq!(v(4 * SCALE, 250_000, -3).sqrt(), v(2 * SCALE, 500_000, 0));
    let mut c = a;
    c.add_assign(b);
    assert_eq!(c, v(3 * SCALE, SCALE, SCALE));
    assert_eq!(v(LIMIT, 0, 0).add(v(LIMIT, 0, 0)), v(LIMIT, 0, 0));
    assert_eq!((a.x(), a.y(), a.z()), (SCALE, -2 * SCALE, 500_000));
}

#[test]
fn reflect_about_a_plane() {
    let n = v(0, SCALE, 0);
    assert_eq!(v(SCALE, -SCALE, 0).reflect(n), v(SCALE, SCALE, 0));
}

#[test]
fn reflect_along_normal_turns_around() {
    let n = v(0, SCALE, 0);
    let a = v(0, -2 * SCALE, 0);
    assert_eq!(a.reflect(n), a.neg());
    assert_eq!(a.reflect(n).reflect(n), a);
    assert_ne!(a.reflect(n).reflect(n), a.reflect(n));
    let n2 = v(600_000, 800_000, 0);
    let b = v(300_000, 400_000, 0);
    assert_eq!(b.reflect(n2), b.neg());
}

#[test]
fn reflect_perpendicular_keeps_vector() {
    let n = v(0, 0, SCALE);
    let a = v(SCALE, 2 * SCALE, 0);
    assert_eq!(a.reflect(n), a);
}

#[test]
fn refract_with_equal_indices_passes_straight() {
    let n = v(0, 0, SCALE);
    let a = v(0, 0, -SCALE);
    assert_eq!(a.refract(n, SCALE), a);
    let oblique = v(SCALE, 0, -SCALE).unitize();
    let r = oblique.refract(n, SCALE);
    assert!((r.x - oblique.x).abs() <= 10);
    assert!((r.y - oblique.y).abs() <= 10);
    assert!((r.z - oblique.z).abs() <= 10);
}

#[test]
fn refract_bends_toward_normal_entering_glass() {
    let n = v(0, 0, SCALE);
    let a = v(SCALE, 0, -SCALE).unitize();
    let r = a.refract(n, 666_667);
    assert!(r.x > 0 && r.x < a.x);
    assert!(r.z < 0);
}

#[test]
fn schlick_exact_values() {
    assert_eq!(schlick(SCALE, SCALE), 0);
    assert_eq!(schlick(0, 1_500_000), SCALE);
    assert_eq!(schlick(SCALE, 1_500_000), 40_000);
}

#[test]
fn write_color_quantizes_channels() {
    assert_eq!(v(500_000, 250_000, SCALE).write_color(), "128 64 255");
    assert_eq!(v(-SCALE, 0, 999_000).write_color(), "0 0 255");
    assert_eq!(v(3_906, 3_907, 998_999).write_color(), "0 1 255");
}

#[test]
fn scaling_in_place() {
    let mut a = v(SCALE, -3 * SCALE, 1);
    a.mul_assign(2 * SCALE);
    assert_eq!(a, v(2 * SCALE, -6 * SCALE, 2));
    a.div_assign(4 * SCALE);
    assert_eq!(a, v(500_000, -1_500_000, 0));
}
