use raytrace::fixed::SCALE;
use raytrace::fixed::div_trunc;
use raytrace::fixed::isqrt;
use raytrace::utils::clamp;
use raytrace::utils::lerp;
use raytrace::utils::map_range;
use raytrace::vec3::Vec3;

#[test]
fn div_trunc_rounds_toward_zero() {
    assert_eq!(div_trunc(7, 2), 3);
    assert_eq!(div_trunc(-7, 2), -3);
    assert_eq!(div_trunc(7, -2), -3);
    assert_eq!(div_trunc(-7, -2), 3);
    assert_eq!(div_trunc(-8, 2), -4);
    assert_eq!(div_trunc(0, 5), 0);
}

#[test]
fn isqrt_exact_values() {
    assert_eq!(isqrt(0), 0);
    assert_eq!(isqrt(1), 1);
    assert_eq!(isqrt(15), 3);
    assert_eq!(isqrt(16), 4);
    assert_eq!(isqrt(1048576), 1024);
    assert_eq!(isqrt(1048575), 1023);
    assert_eq!(isqrt(123456789 * 123456789), 123456789);
}

#[test]
fn clamp_inside_and_outside() {
    assert_eq!(clamp(5, 0, 10), 5);
    assert_eq!(clamp(-3, 0, 10), 0);
    assert_eq!(clamp(99, 0, 10), 10);
    assert_eq!(clamp(-2048, -1024, 1024), -1024);
    assert_eq!(clamp(7, 7, 7), 7);
}

#[test]
fn map_range_identity_on_same_range() {
    assert_eq!(map_range(300, (0, 1024), (0, 1024)), 300);
    assert_eq!(map_range(-17, (-1024, 1024), (-1024, 1024)), -17);
    assert_eq!(map_range(1024, (3, 2000), (3, 2000)), 1024);
}

#[test]
fn map_range_scales_exactly() {
    assert_eq!(map_range(512, (0, 1024), (0, 2048)), 1024);
    assert_eq!(map_range(0, (0, 1024), (0, 262142)), 0);
    assert_eq!(map_range(1024, (0, 1024), (0, 262142)), 262142);
    assert_eq!(map_range(512, (0, 1024), (0, 262142)), 131071);
}

#[test]
fn lerp_returns_start_at_zero() {
    let a = Vec3 { x: 100, y: -200, z: 300 };
    let b = Vec3 { x: 1024, y: 512, z: -768 };
    let v = lerp(0, a, b);
    assert_eq!((v.x, v.y, v.z), (100, -200, 300));
}

#[test]
fn lerp_returns_end_at_scale() {
    let a = Vec3 { x: 100, y: -200, z: 300 };
    let b = Vec3 { x: 1024, y: 512, z: -768 };
    let v = lerp(SCALE, a, b);
    assert_eq!((v.x, v.y, v.z), (1024, 512, -768));
}

#[test]
fn lerp_of_equal_endpoints_is_constant() {
    let a = Vec3 { x: 123, y: -456, z: 789 };
    for t in [0i64, 1, 7, 100, 511, 512, 513, 1000, 1023, 1024] {
        let v = lerp(t, a, a);
        assert_eq!((v.x, v.y, v.z), (123, -456, 789));
    }
}

#[test]
fn dot_and_length_squared_are_fixed_point() {
    let x = Vec3 { x: 1024, y: 0, z: 0 };
    let y = Vec3 { x: 0, y: 1024, z: 0 };
    // A unit vector has fixed-point squared length one.
    assert_eq!(x.length_squared(), 1024);
    assert_eq!(x.dot(y), 0);
    let d = Vec3 { x: 2048, y: 1024, z: -1024 };
    // |d|^2 = 4 + 1 + 1 world units.
    assert_eq!(d.length_squared(), 6 * 1024);
    assert_eq!(x.dot(d), 2048);
}

#[test]
fn lerp_midpoint() {
    let a = Vec3 { x: 0, y: 0, z: 0 };
    let b = Vec3 { x: 1024, y: 1024, z: 1024 };
    let v = lerp(512, a, b);
    assert_eq!((v.x, v.y, v.z), (512, 512, 512));
}
