use raytrace::utils::random_in_hemisphere;
use raytrace::utils::random_in_unit_sphere;
use raytrace::utils::random_unit_vector;
use raytrace::utils::random_vec3;
use raytrace::vec3::Vec3;

#[test]
fn random_vec3_respects_bounds() {
    for _ in 0..200 {
        let p = random_vec3(-1024, 1024);
        assert!(-1024 <= p.x && p.x <= 1024);
        assert!(-1024 <= p.y && p.y <= 1024);
        assert!(-1024 <= p.z && p.z <= 1024);
    }
}

#[test]
fn random_vec3_degenerate_range_pins_the_point() {
    let p = random_vec3(7, 7);
    assert_eq!((p.x, p.y, p.z), (7, 7, 7));
}

#[test]
fn random_in_unit_sphere_stays_inside() {
    for _ in 0..200 {
        let p = random_in_unit_sphere();
        let n2 = p.x * p.x + p.y * p.y + p.z * p.z;
        assert!(0 < n2 && n2 < 1024 * 1024);
    }
}

#[test]
fn random_unit_vector_is_near_unit_length() {
    for _ in 0..200 {
        let u = random_unit_vector();
        assert!(u.x.abs() <= 1024 && u.y.abs() <= 1024 && u.z.abs() <= 1024);
        // The draw's norm is at least half a unit, so normalizing keeps
        // the raw squared norm within a percent of one.
        let n2 = u.x * u.x + u.y * u.y + u.z * u.z;
        assert!(1030000 < n2 && n2 < 1055000);
    }
}

#[test]
fn random_in_hemisphere_faces_the_normal() {
    let normal = Vec3 { x: 0, y: 1024, z: 0 };
    for _ in 0..200 {
        let p = random_in_hemisphere(normal);
        let raw = p.x * normal.x + p.y * normal.y + p.z * normal.z;
        assert!(raw / 1024 >= 0);
    }
}
