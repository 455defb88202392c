use raytrace::camera::Camera;
use raytrace::ray::Hittable;
use raytrace::ray::Ray;
use raytrace::render::hit_world;
use raytrace::render::ray_color;
use raytrace::render::render;
use raytrace::render::vec_to_pixel;
use raytrace::sphere::Sphere;
use raytrace::vec3::Vec3;

fn v(x: i64, y: i64, z: i64) -> Vec3 {
    Vec3 { x, y, z }
}

#[test]
fn ray_at_walks_the_line() {
    let r = Ray { origin: v(100, 200, 300), direction: v(1024, -2048, 512) };
    let p = r.at(1024);
    assert_eq!((p.x, p.y, p.z), (100 + 1024, 200 - 2048, 300 + 512));
    let q = r.at(-2048);
    assert_eq!((q.x, q.y, q.z), (100 - 2048, 200 + 4096, 300 - 1024));
}

#[test]
fn axial_hit_from_outside() {
    // Eye two world units along +z from a half-unit sphere, looking down -z.
    let s = Sphere { center: v(0, 0, 0), radius: 512 };
    let r = Ray { origin: v(0, 0, 2048), direction: v(0, 0, -1024) };
    let h = s.hit(&r, 1, 0x80000000).expect("the ray points at the sphere");
    assert_eq!(h.t, 2048 - 512);
    assert!(h.outward_normal);
    assert_eq!((h.p.x, h.p.y, h.p.z), (0, 0, 512));
    assert_eq!((h.normal.x, h.normal.y, h.normal.z), (0, 0, 1024));
}

#[test]
fn axial_hit_from_inside() {
    // Eye strictly inside the sphere: the exit face is struck and the
    // stored normal points back toward the eye.
    let s = Sphere { center: v(0, 0, 0), radius: 512 };
    let r = Ray { origin: v(0, 0, 100), direction: v(0, 0, -1024) };
    let h = s.hit(&r, 1, 0x80000000).expect("the ray exits the sphere");
    assert_eq!(h.t, 100 + 512);
    assert!(!h.outward_normal);
    assert_eq!((h.p.x, h.p.y, h.p.z), (0, 0, -512));
    // Flipped inward: against the ray, toward the origin.
    assert_eq!((h.normal.x, h.normal.y, h.normal.z), (0, 0, 1024));
}

#[test]
fn miss_returns_none() {
    let s = Sphere { center: v(0, 0, -2048), radius: 512 };
    let up = Ray { origin: v(0, 0, 0), direction: v(0, 1024, 0) };
    assert!(s.hit(&up, 1, 0x80000000).is_none());
}

#[test]
fn window_rejects_far_surface() {
    let s = Sphere { center: v(0, 0, 0), radius: 512 };
    let r = Ray { origin: v(0, 0, 2048), direction: v(0, 0, -1024) };
    // Both roots (1536 and 2560) lie beyond the window.
    assert!(s.hit(&r, 1, 1000).is_none());
}

#[test]
fn nearest_sphere_wins_either_order() {
    let near = Sphere { center: v(0, 0, -2048), radius: 512 };
    let far = Sphere { center: v(0, 0, -4096), radius: 512 };
    let r = Ray { origin: v(0, 0, 0), direction: v(0, 0, -1024) };

    let ab = vec![near, far];
    let ba = vec![far, near];
    let h1 = hit_world(&r, &ab, 1, 0x80000000).expect("hit");
    let h2 = hit_world(&r, &ba, 1, 0x80000000).expect("hit");
    assert_eq!(h1.t, 2048 - 512);
    assert_eq!(h2.t, 2048 - 512);
    assert_eq!((h1.p.x, h1.p.y, h1.p.z), (h2.p.x, h2.p.y, h2.p.z));
    assert_eq!(
        (h1.normal.x, h1.normal.y, h1.normal.z),
        (h2.normal.x, h2.normal.y, h2.normal.z),
    );
}

#[test]
fn hit_world_empty_scene_is_none() {
    let r = Ray { origin: v(0, 0, 0), direction: v(0, 0, -1024) };
    let world: Vec<Sphere> = vec![];
    assert!(hit_world(&r, &world, 1, 0x80000000).is_none());
}

#[test]
fn depth_zero_is_black() {
    let world = vec![Sphere { center: v(0, 0, -1024), radius: 512 }];
    let r = Ray { origin: v(0, 0, 0), direction: v(0, 0, -1024) };
    let c = ray_color(&r, &world, 0);
    assert_eq!((c.x, c.y, c.z), (0, 0, 0));
    let c2 = ray_color(&r, &world, -5);
    assert_eq!((c2.x, c2.y, c2.z), (0, 0, 0));
}

#[test]
fn straight_up_ray_returns_sky_blue() {
    let world = vec![
        Sphere { center: v(0, 0, -1024), radius: 512 },
        Sphere { center: v(0, -102912, -1024), radius: 102400 },
    ];
    let up = Ray { origin: v(0, 0, 0), direction: v(0, 1024, 0) };
    let c = ray_color(&up, &world, 50);
    assert_eq!((c.x, c.y, c.z), (512, 716, 1024));
}

#[test]
fn camera_default_configuration() {
    let c = Camera::new();
    assert_eq!((c.origin.x, c.origin.y, c.origin.z), (0, 0, 0));
    assert_eq!((c.horizontal.x, c.horizontal.y, c.horizontal.z), (3640, 0, 0));
    assert_eq!((c.vertical.x, c.vertical.y, c.vertical.z), (0, 2048, 0));
    assert_eq!(
        (c.lower_left_corner.x, c.lower_left_corner.y, c.lower_left_corner.z),
        (-1820, -1024, -1024),
    );
}

#[test]
fn camera_rays_span_the_viewport() {
    let c = Camera::new();
    let bl = c.get_ray(0, 0);
    assert_eq!((bl.direction.x, bl.direction.y, bl.direction.z), (-1820, -1024, -1024));
    let tr = c.get_ray(1024, 1024);
    assert_eq!((tr.direction.x, tr.direction.y, tr.direction.z), (1820, 1024, -1024));
    assert_eq!((tr.origin.x, tr.origin.y, tr.origin.z), (0, 0, 0));
}

#[test]
fn pixel_conversion_gamma_and_clamp() {
    assert_eq!(vec_to_pixel(v(0, 0, 0)), (0, 0, 0));
    assert_eq!(vec_to_pixel(v(1024, 1024, 1024)), (255, 255, 255));
    // A quarter of full radiance maps through the square root to one half.
    assert_eq!(vec_to_pixel(v(256, 256, 256)), (127, 127, 127));
}

#[test]
fn render_with_no_bounce_budget_is_black() {
    let camera = Camera::new();
    let world = vec![Sphere { center: v(0, 0, -1024), radius: 512 }];
    let buf = render(&camera, &world, 20, 18, 2, 0);
    assert_eq!(buf.len(), 3 * 20 * 18);
    assert!(buf.iter().all(|&b| b == 0));
}

#[test]
fn render_single_sphere_silhouette() {
    let camera = Camera::new();
    let world = vec![Sphere { center: v(0, 0, -1024), radius: 512 }];
    let width: usize = 100;
    let height: usize = 56;
    let buf = render(&camera, &world, width, height, 1, 1);
    assert_eq!(buf.len(), 3 * width * height);

    // The center pixel lies on the silhouette; at depth one, a hit bounces
    // once into an exhausted budget, so it shades to black.
    let center = (28 * width + 50) * 3;
    assert_eq!(&buf[center..center + 3], &[0, 0, 0]);

    // The top-left corner shows the gradient: fully blue, and ordered
    // white-to-sky in its channels.
    let corner = 0;
    let (r, g, b) = (buf[corner], buf[corner + 1], buf[corner + 2]);
    assert_eq!(b, 255);
    assert!(r >= 150);
    assert!(r <= g && g <= b);
}
