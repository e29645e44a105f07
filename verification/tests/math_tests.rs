use boids::math::{clamp_i64, div_trunc, isqrt};
use boids::vec3::Vec3;
use boids::SCALE;

#[test]
fn isqrt_exact_values() {
    assert_eq!(isqrt(0), 0);
    assert_eq!(isqrt(1), 1);
    assert_eq!(isqrt(15), 3);
    assert_eq!(isqrt(16), 4);
    assert_eq!(isqrt(17), 4);
    assert_eq!(isqrt(1_000_000), 1000);
    assert_eq!(isqrt((1u128 << 84) - 1), (1u64 << 42) - 1);
    assert_eq!(isqrt(u128::MAX), u64::MAX);
}

#[test]
fn division_rounds_toward_zero() {
    assert_eq!(div_trunc(7, 2), 3);
    assert_eq!(div_trunc(-7, 2), -3);
    assert_eq!(div_trunc(-1, 65536), 0);
    assert_eq!(div_trunc(0, 5), 0);
}

#[test]
fn clamp_works() {
    assert_eq!(clamp_i64(-5, 0, 65536), 0);
    assert_eq!(clamp_i64(70000, 0, 65536), 65536);
    assert_eq!(clamp_i64(123, 0, 65536), 123);
}

#[test]
fn normalize_three_four_five() {
    let v = Vec3 { x: 3 * SCALE, y: 4 * SCALE, z: 0 };
    let u = v.normalized().unwrap();
    // |v| = 5 units; components are 3/5 and 4/5, rounded toward zero
    assert_eq!(u, Vec3 { x: 39321, y: 52428, z: 0 });
}

#[test]
fn normalize_axis_is_exact() {
    let v = Vec3 { x: 0, y: 7 * SCALE, z: 0 };
    let u = v.normalized().unwrap();
    assert_eq!(u, Vec3 { x: 0, y: SCALE, z: 0 });
}

#[test]
fn normalize_zero_is_none() {
    let v = Vec3 { x: 0, y: 0, z: 0 };
    assert!(v.normalized().is_none());
}
