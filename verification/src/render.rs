//! Scene aggregation, the recursive color integrator, and the render driver.

use vstd::prelude::*;
use vstd::arithmetic::div_mod::lemma_div_is_ordered;
use vstd::arithmetic::div_mod::lemma_div_multiples_vanish;
use vstd::arithmetic::div_mod::lemma_div_multiples_vanish_fancy;
use crate::camera::Camera;
use crate::fixed::SCALE;
use crate::fixed::div_trunc;
use crate::fixed::iabs;
use crate::fixed::isqrt;
use crate::fixed::lemma_sqrt_spec_bracket;
use crate::fixed::lemma_sqrt_unique;
use crate::fixed::lemma_tdiv_abs;
use crate::fixed::lemma_tdiv_exact;
use crate::fixed::lemma_tdiv_mono;
use crate::fixed::sqrt_spec;
use crate::fixed::tdiv;
use crate::ray::HitRecord;
use crate::ray::Hittable;
use crate::ray::Ray;
use crate::sphere::Sphere;
use crate::utils::clamp;
use crate::utils::clamp_spec;
use crate::utils::lemma_comp_le_len;
use crate::utils::lemma_lerp_between;
use crate::utils::lemma_lerp_constant;
use crate::utils::lemma_unit_comp;
use crate::utils::lerp;
use crate::utils::lerp_spec;
use crate::utils::map_range;
use crate::utils::map_range_spec;
use crate::utils::random_unit_vector;
use crate::vec3::Vec3;
use crate::vec3::dot3;
use crate::vec3::lemma_dot3_bound;

verus! {

/// Every sphere of the scene is well formed.
pub open spec fn scene_wf(spheres: Seq<Sphere>) -> bool {
    forall|i: int| 0 <= i < spheres.len() ==> (#[trigger] spheres[i]).wf()
}

/// The nearest accepted hit over the scene: the index of the winning sphere
/// and its root. Of two spheres with equal roots the later one wins, as a
/// sequential scan that narrows its window to the best root so far decides.
pub open spec fn scene_best(spheres: Seq<Sphere>, r: Ray, t_min: int, t_max: int) -> Option<
    (int, int),
>
    decreases spheres.len(),
{
    if spheres.len() == 0 {
        None
    } else {
        let prev = scene_best(spheres.drop_last(), r, t_min, t_max);
        let last = spheres.last().hit_root(r, t_min, t_max);
        match (prev, last) {
            (None, None) => None,
            (None, Some(t)) => Some((spheres.len() - 1, t)),
            (Some(p), None) => Some(p),
            (Some(p), Some(t)) => if t <= p.1 {
                Some((spheres.len() - 1, t))
            } else {
                Some(p)
            },
        }
    }
}

/// Narrowing the upper end of the window keeps an accepted root that still
/// fits and drops everything else; it never yields a different root.
pub proof fn lemma_hit_root_narrow(s: Sphere, r: Ray, t_min: int, c: int, t_max: int)
    requires
        t_min <= c <= t_max,
    ensures
        match s.hit_root(r, t_min, t_max) {
            None => s.hit_root(r, t_min, c) is None,
            Some(t) => s.hit_root(r, t_min, c) == if t <= c {
                Some(t)
            } else {
                None::<int>
            },
        },
{
    if s.a_raw(r) == 0 || s.disc_raw(r) < 0 {
    } else {
        let dx = r.direction.x as int;
        let dy = r.direction.y as int;
        let dz = r.direction.z as int;
        assert(dx * dx + dy * dy + dz * dz >= 0) by (nonlinear_arith);
        assert(s.a_raw(r) == dx * dx + dy * dy + dz * dz);
        lemma_sqrt_spec_bracket(s.disc_raw(r));
        let hb = s.hb_raw(r);
        let sd = s.sqrt_disc(r);
        let a = s.a_raw(r);
        assert((-hb - sd) * (SCALE as int) <= (-hb + sd) * (SCALE as int)) by (nonlinear_arith)
            requires
                sd >= 0,
                (SCALE as int) == 1024,
        ;
        lemma_tdiv_mono((-hb - sd) * (SCALE as int), (-hb + sd) * (SCALE as int), a);
    }
}

/// Nearest hit of the ray over the whole scene inside `[t_min, t_max]`.
pub fn hit_world(r: &Ray, world: &Vec<Sphere>, t_min: i64, t_max: i64) -> (result: Option<
    HitRecord,
>)
    requires
        scene_wf(world@),
        r.wf(0x40000000000),
        0 <= t_min <= t_max <= 0x80000000,
    ensures
        match result {
            None => scene_best(world@, *r, t_min as int, t_max as int) is None,
            Some(h) => match scene_best(world@, *r, t_min as int, t_max as int) {
                Some(b) => {
                    &&& h.t == b.1
                    &&& 0 <= b.0 < world@.len()
                    &&& world@[b.0].hit_root(*r, t_min as int, t_max as int) == Some(b.1)
                    &&& world@[b.0].record_matches(*r, h.t as int, h)
                    &&& t_min <= h.t <= t_max
                    &&& h.normal.in_range(2048)
                    &&& iabs(h.p.x as int) <= iabs(r.origin.x as int) + 0x800000000
                    &&& iabs(h.p.y as int) <= iabs(r.origin.y as int) + 0x800000000
                    &&& iabs(h.p.z as int) <= iabs(r.origin.z as int) + 0x800000000
                },
                None => false,
            },
        },
{
    let mut closest_so_far: i64 = t_max;
    let mut hit_record: Option<HitRecord> = None;
    let n = world.len();
    let mut idx: usize = 0;
    while idx < n
        invariant
            n == world@.len(),
            idx <= n,
            scene_wf(world@),
            r.wf(0x40000000000),
            0 <= t_min <= closest_so_far <= t_max <= 0x80000000,
            match hit_record {
                None => {
                    &&& scene_best(world@.take(idx as int), *r, t_min as int, t_max as int)
                        is None
                    &&& closest_so_far == t_max
                },
                Some(h) => match scene_best(
                    world@.take(idx as int),
                    *r,
                    t_min as int,
                    t_max as int,
                ) {
                    Some(b) => {
                        &&& h.t == b.1
                        &&& closest_so_far == h.t
                        &&& 0 <= b.0 < idx
                        &&& world@[b.0].hit_root(*r, t_min as int, t_max as int) == Some(b.1)
                        &&& world@[b.0].record_matches(*r, h.t as int, h)
                        &&& t_min <= h.t <= t_max
                        &&& h.normal.in_range(2048)
                        &&& iabs(h.p.x as int) <= iabs(r.origin.x as int) + 0x800000000
                        &&& iabs(h.p.y as int) <= iabs(r.origin.y as int) + 0x800000000
                        &&& iabs(h.p.z as int) <= iabs(r.origin.z as int) + 0x800000000
                    },
                    None => false,
                },
            },
        decreases n - idx,
    {
        let sphere = world[idx];
        proof {
            assert(world@[idx as int].wf());
            lemma_hit_root_narrow(sphere, *r, t_min as int, closest_so_far as int, t_max as int);
            assert(world@.take(idx as int + 1).drop_last() =~= world@.take(idx as int));
            assert(world@.take(idx as int + 1).last() == world@[idx as int]);
        }
        let res = sphere.hit(r, t_min, closest_so_far);
        match res {
            Some(hit) => {
                closest_so_far = hit.t;
                hit_record = Some(hit);
            },
            None => {},
        }
        idx = idx + 1;
    }
    proof {
        assert(world@.take(n as int) =~= world@);
    }
    hit_record
}

/// With two spheres both hit inside the window, at distinct parameters, the
/// scene returns the nearer hit whichever order lists them.
pub proof fn lemma_scene_order_independent(
    s0: Sphere,
    s1: Sphere,
    r: Ray,
    t_min: int,
    t_max: int,
    t0: int,
    t1: int,
)
    requires
        s0.hit_root(r, t_min, t_max) == Some(t0),
        s1.hit_root(r, t_min, t_max) == Some(t1),
        t0 < t1,
    ensures
        scene_best(seq![s0, s1], r, t_min, t_max) == Some((0int, t0)),
        scene_best(seq![s1, s0], r, t_min, t_max) == Some((1int, t0)),
{
    let a = seq![s0, s1];
    let b = seq![s1, s0];
    assert(a.drop_last() =~= seq![s0]);
    assert(b.drop_last() =~= seq![s1]);
    assert(seq![s0].drop_last() =~= Seq::<Sphere>::empty());
    assert(seq![s1].drop_last() =~= Seq::<Sphere>::empty());
    assert(scene_best(Seq::<Sphere>::empty(), r, t_min, t_max) is None);
    assert(scene_best(seq![s0], r, t_min, t_max) == Some((0int, t0)));
    assert(scene_best(seq![s1], r, t_min, t_max) == Some((0int, t1)));
}

/// Vertical component of the ray's direction scaled to unit length,
/// or zero for a degenerate (zero) direction.
pub open spec fn unit_y_spec(r: Ray) -> int {
    let n2 = dot3(
        r.direction.x as int,
        r.direction.y as int,
        r.direction.z as int,
        r.direction.x as int,
        r.direction.y as int,
        r.direction.z as int,
    );
    let l = sqrt_spec(n2);
    if l == 0 {
        0
    } else {
        tdiv(r.direction.y * SCALE, l)
    }
}

/// Blend parameter of the background gradient: `0` at the nadir, `SCALE`
/// at the zenith.
pub open spec fn bg_t(r: Ray) -> int {
    tdiv(unit_y_spec(r) + SCALE, 2)
}

pub open spec fn bg_x(r: Ray) -> int {
    lerp_spec(bg_t(r), SCALE as int, 512)
}

pub open spec fn bg_y(r: Ray) -> int {
    lerp_spec(bg_t(r), SCALE as int, 716)
}

pub open spec fn bg_z(r: Ray) -> int {
    lerp_spec(bg_t(r), SCALE as int, SCALE as int)
}

/// The sky gradient a missed ray returns: white toward the nadir blending
/// to sky blue toward the zenith.
pub fn background(r: &Ray) -> (c: Vec3)
    requires
        r.direction.in_range(16384),
    ensures
        c.x == bg_x(*r),
        c.y == bg_y(*r),
        c.z == bg_z(*r),
        512 <= c.x <= SCALE,
        716 <= c.y <= SCALE,
        c.z == SCALE,
{
    let dx: i128 = r.direction.x as i128;
    let dy: i128 = r.direction.y as i128;
    let dz: i128 = r.direction.z as i128;
    proof {
        lemma_dot3_bound(
            r.direction.x as int,
            r.direction.y as int,
            r.direction.z as int,
            r.direction.x as int,
            r.direction.y as int,
            r.direction.z as int,
            16384,
            16384,
        );
        assert(r.direction.x as int * r.direction.x as int >= 0) by (nonlinear_arith);
        assert(r.direction.y as int * r.direction.y as int >= 0) by (nonlinear_arith);
        assert(r.direction.z as int * r.direction.z as int >= 0) by (nonlinear_arith);
    }
    let n2: i128 = dx * dx + dy * dy + dz * dz;
    let l: u128 = isqrt(n2 as u128);
    let uy: i64;
    if l == 0 {
        uy = 0;
    } else {
        proof {
            assert((r.direction.y as int) * (r.direction.y as int) <= n2 as int);
            lemma_comp_le_len(r.direction.y as int, n2 as int, l as int);
            lemma_unit_comp(r.direction.y as int, l as int);
        }
        uy = div_trunc((r.direction.y as i128) * 1024, l as i128) as i64;
    }
    let t = div_trunc((uy as i128) + 1024, 2) as i64;
    let white = Vec3::one();
    let sky_blue = Vec3::new(512, 716, 1024);
    let c = lerp(t, white, sky_blue);
    proof {
        lemma_lerp_between(t as int, SCALE as int, 512);
        lemma_lerp_between(t as int, SCALE as int, 716);
        lemma_lerp_constant(t as int, SCALE as int);
    }
    c
}

/// Origin magnitude a ray may carry when traced at the given depth: each
/// bounce moves the origin by at most one window span.
pub open spec fn origin_budget(depth: int) -> int {
    0x400000 + (64 - depth) * 0x800000000
}

/// Recursive color integrator: black once the bounce budget is exhausted,
/// the sky gradient on a miss, and half the color of the scattered ray on
/// a hit.
pub fn ray_color(r: &Ray, world: &Vec<Sphere>, depth: i32) -> (c: Vec3)
    requires
        scene_wf(world@),
        depth <= 64,
        depth >= 1 ==> r.direction.in_range(16384) && r.origin.in_range(
            origin_budget(depth as int),
        ),
    ensures
        0 <= c.x <= SCALE,
        0 <= c.y <= SCALE,
        0 <= c.z <= SCALE,
        depth <= 0 ==> c.x == 0 && c.y == 0 && c.z == 0,
        depth >= 1 && scene_best(world@, *r, 1, 0x80000000) is None ==> c.x == bg_x(*r) && c.y
            == bg_y(*r) && c.z == bg_z(*r),
        depth >= 1 && scene_best(world@, *r, 1, 0x80000000) is Some ==> c.x <= 512 && c.y <= 512
            && c.z <= 512,
        depth == 1 && scene_best(world@, *r, 1, 0x80000000) is Some ==> c.x == 0 && c.y == 0
            && c.z == 0,
    decreases depth,
{
    if depth <= 0 {
        return Vec3::zero();
    }
    let hit = hit_world(r, world, 1, 0x80000000);
    match hit {
        Some(hit_record) => {
            let scatter_direction = hit_record.normal.add(random_unit_vector());
            let scatter_ray = Ray { origin: hit_record.p, direction: scatter_direction };
            let rec = ray_color(&scatter_ray, world, depth - 1);
            proof {
                lemma_tdiv_mono(rec.x as int, 1024, 2);
                lemma_tdiv_mono(rec.y as int, 1024, 2);
                lemma_tdiv_mono(rec.z as int, 1024, 2);
                lemma_tdiv_mono(0, rec.x as int, 2);
                lemma_tdiv_mono(0, rec.y as int, 2);
                lemma_tdiv_mono(0, rec.z as int, 2);
                lemma_div_multiples_vanish(0, 2);
                lemma_div_multiples_vanish(512, 2);
            }
            let hx = div_trunc(rec.x as i128, 2) as i64;
            let hy = div_trunc(rec.y as i128, 2) as i64;
            let hz = div_trunc(rec.z as i128, 2) as i64;
            Vec3 { x: hx, y: hy, z: hz }
        },
        None => background(r),
    }
}

/// The display byte of one linear color channel: gamma correction by
/// square root, a mapping of `[0, 1]` onto `[0, 256)`, and a final clamp.
pub open spec fn pixel_spec(c: int) -> int {
    clamp_spec(
        tdiv(map_range_spec(sqrt_spec(c * (SCALE as int)), 0, SCALE as int, 0, 262142), SCALE as int),
        0,
        255,
    )
}

fn channel_byte(c: i64) -> (b: u8)
    requires
        0 <= c <= SCALE,
    ensures
        b == pixel_spec(c as int),
{
    let sq_wide: u128 = isqrt((c * 1024) as u128);
    proof {
        assert(sq_wide <= 1024) by (nonlinear_arith)
            requires
                sq_wide * sq_wide <= c * 1024,
                c <= 1024,
                sq_wide >= 0,
        ;
    }
    let sq: i64 = sq_wide as i64;
    let m = map_range(sq, (0, 1024), (0, 262142));
    proof {
        lemma_tdiv_abs(sq as int * 262142, 1024);
        lemma_div_is_ordered(iabs(sq as int * 262142), 268433408, 1024);
        lemma_div_multiples_vanish(262142, 1024);
        assert(1024 * 262142 == 268433408);
        assert(m >= 0);
        assert(m <= 262142);
        lemma_div_multiples_vanish_fancy(255, 1022, 1024);
        assert(1024 * 255 + 1022 == 262142);
        lemma_tdiv_mono(m as int, 262142, 1024);
        lemma_tdiv_mono(0, m as int, 1024);
        lemma_div_multiples_vanish(0, 1024);
    }
    let byte_wide = div_trunc(m as i128, 1024);
    let b = clamp(byte_wide as i64, 0, 255);
    b as u8
}

/// The gamma-corrected display bytes of a linear color.
pub fn vec_to_pixel(vec: Vec3) -> (p: (u8, u8, u8))
    requires
        0 <= vec.x <= SCALE,
        0 <= vec.y <= SCALE,
        0 <= vec.z <= SCALE,
    ensures
        p.0 == pixel_spec(vec.x as int),
        p.1 == pixel_spec(vec.y as int),
        p.2 == pixel_spec(vec.z as int),
{
    let r = channel_byte(vec.x);
    let g = channel_byte(vec.y);
    let b = channel_byte(vec.z);
    (r, g, b)
}

/// One jittered viewport coordinate: pixel index plus jitter, over the
/// image extent.
fn sample_coord(i: usize, j: i64, extent: usize) -> (u: i64)
    requires
        (i as int) < extent as int,
        17 <= extent <= 4096,
        0 <= j < 1024,
    ensures
        0 <= u <= 1088,
        u == tdiv(i as int * 1024 + j, extent as int - 1),
{
    let num: i64 = (i as i64) * 1024 + j;
    let den: i64 = (extent - 1) as i64;
    proof {
        assert(num <= den * 1088) by (nonlinear_arith)
            requires
                num as int <= den as int * 1024 + 1023,
                den >= 16,
        ;
        lemma_tdiv_mono(num as int, den as int * 1088, den as int);
        lemma_tdiv_exact(1088, den as int);
        assert(den as int * 1088 == 1088 * den as int);
        lemma_tdiv_mono(0, num as int, den as int);
        lemma_div_multiples_vanish(0, den as int);
        lemma_tdiv_abs(num as int, den as int);
    }
    div_trunc(num as i128, den as i128) as i64
}

/// Byte offset of a pixel's first channel in a row-major RGB buffer.
pub open spec fn pix_index(w: int, px: int, py: int) -> int {
    3 * (py * w + px)
}

/// The camera ray one sample of pixel `(px, py)` traces: column and buffer
/// row plus jitter, over the image extents, through the camera's formula.
pub open spec fn is_sample_ray(
    cam: Camera,
    r: Ray,
    px: int,
    py: int,
    ju: int,
    jv: int,
    w: int,
    h: int,
) -> bool {
    let u = tdiv(px * 1024 + ju, w - 1);
    let v = tdiv((h - 1 - py) * 1024 + jv, h - 1);
    &&& r.origin == cam.origin
    &&& r.direction.x == cam.lower_left_corner.x + tdiv(u * cam.horizontal.x, SCALE as int)
        + tdiv(v * cam.vertical.x, SCALE as int) - cam.origin.x
    &&& r.direction.y == cam.lower_left_corner.y + tdiv(u * cam.horizontal.y, SCALE as int)
        + tdiv(v * cam.vertical.y, SCALE as int) - cam.origin.y
    &&& r.direction.z == cam.lower_left_corner.z + tdiv(u * cam.horizontal.z, SCALE as int)
        + tdiv(v * cam.vertical.z, SCALE as int) - cam.origin.z
}

/// Every ray the pixel's jitter box can produce misses the whole scene.
pub open spec fn pixel_misses(
    cam: Camera,
    spheres: Seq<Sphere>,
    px: int,
    py: int,
    w: int,
    h: int,
) -> bool {
    forall|r: Ray, ju: int, jv: int|
        0 <= ju < 1024 && 0 <= jv < 1024 && #[trigger] is_sample_ray(cam, r, px, py, ju, jv, w, h)
            ==> scene_best(spheres, r, 1, 0x80000000) is None
}

/// Every ray the pixel's jitter box can produce strikes the scene.
pub open spec fn pixel_hits(
    cam: Camera,
    spheres: Seq<Sphere>,
    px: int,
    py: int,
    w: int,
    h: int,
) -> bool {
    forall|r: Ray, ju: int, jv: int|
        0 <= ju < 1024 && 0 <= jv < 1024 && #[trigger] is_sample_ray(cam, r, px, py, ju, jv, w, h)
            ==> scene_best(spheres, r, 1, 0x80000000) is Some
}

/// A pixel's three bytes are the display bytes of the per-channel
/// truncating average of its samples, each sample channel in `[0, SCALE]`.
pub open spec fn avg_pixel(b0: u8, b1: u8, b2: u8, samples: int) -> bool {
    exists|sr: int, sg: int, sb: int|
        #![trigger pixel_spec(tdiv(sr, samples)), pixel_spec(tdiv(sg, samples)), pixel_spec(tdiv(sb, samples))]
        {
            &&& 0 <= sr <= 1024 * samples
            &&& 0 <= sg <= 1024 * samples
            &&& 0 <= sb <= 1024 * samples
            &&& b0 == pixel_spec(tdiv(sr, samples))
            &&& b1 == pixel_spec(tdiv(sg, samples))
            &&& b2 == pixel_spec(tdiv(sb, samples))
        }
}

/// Zero radiance displays as byte zero.
pub proof fn lemma_pixel_black()
    ensures
        pixel_spec(0) == 0,
{
    assert(0 * (SCALE as int) == 0) by (nonlinear_arith);
    assert((0 - 0) * (262142 - 0) == 0 * 1024) by (nonlinear_arith);
    lemma_tdiv_exact(0, 1024);
}

/// Full radiance displays as byte 255.
pub proof fn lemma_pixel_full()
    ensures
        pixel_spec(1024) == 255,
{
    assert(1024 * (SCALE as int) == 1048576) by (nonlinear_arith);
    assert(1024 * 1024 <= 1048576 < 1025 * 1025) by (nonlinear_arith);
    lemma_sqrt_unique(1048576, 1024);
    assert((1024 - 0) * (262142 - 0) == 262142 * 1024) by (nonlinear_arith);
    lemma_tdiv_exact(262142, 1024);
    lemma_div_multiples_vanish_fancy(255, 1022, 1024);
    assert(1024 * 255 + 1022 == 262142);
}

/// Renders the scene: for every pixel, averages jittered samples through
/// the color integrator and writes gamma-corrected RGB bytes, top row
/// first. Every byte is the display byte of an averaged sample set; with
/// no bounce budget the image is black, and a pixel whose whole jitter
/// box misses the scene keeps the background's full blue channel.
#[verifier::loop_isolation(false)]
pub fn render(
    camera: &Camera,
    world: &Vec<Sphere>,
    image_width: usize,
    image_height: usize,
    rays_per_pixel: usize,
    max_depth: i32,
) -> (buf: Vec<u8>)
    requires
        camera.wf(),
        scene_wf(world@),
        17 <= image_width <= 4096,
        17 <= image_height <= 4096,
        1 <= rays_per_pixel <= 65536,
        max_depth <= 64,
    ensures
        buf.len() == 3 * image_width * image_height,
        forall|px: int, py: int|
            #![trigger pix_index(image_width as int, px, py)]
            0 <= px < image_width && 0 <= py < image_height ==> avg_pixel(
                buf@[pix_index(image_width as int, px, py)],
                buf@[pix_index(image_width as int, px, py) + 1],
                buf@[pix_index(image_width as int, px, py) + 2],
                rays_per_pixel as int,
            ),
        max_depth <= 0 ==> forall|i: int| 0 <= i < buf@.len() ==> #[trigger] buf@[i] == 0,
        forall|px: int, py: int|
            #![trigger pixel_misses(*camera, world@, px, py, image_width as int, image_height as int)]
            0 <= px < image_width && 0 <= py < image_height && max_depth >= 1 && pixel_misses(
                *camera,
                world@,
                px,
                py,
                image_width as int,
                image_height as int,
            ) ==> buf@[pix_index(image_width as int, px, py) + 2] == 255,
        forall|px: int, py: int|
            #![trigger pixel_hits(*camera, world@, px, py, image_width as int, image_height as int)]
            0 <= px < image_width && 0 <= py < image_height && max_depth == 1 && pixel_hits(
                *camera,
                world@,
                px,
                py,
                image_width as int,
                image_height as int,
            ) ==> buf@[pix_index(image_width as int, px, py)] == 0 && buf@[pix_index(
                image_width as int,
                px,
                py,
            ) + 1] == 0 && buf@[pix_index(image_width as int, px, py) + 2] == 0,
{
    let ghost w = image_width as int;
    let ghost h = image_height as int;
    let mut buf: Vec<u8> = Vec::new();
    let mut yi: usize = 0;
    while yi < image_height
        invariant
            yi <= image_height,
            buf.len() == 3 * image_width * yi,
            forall|px: int, py: int|
                #![trigger pix_index(w, px, py)]
                0 <= px < w && 0 <= py < yi ==> avg_pixel(
                    buf@[pix_index(w, px, py)],
                    buf@[pix_index(w, px, py) + 1],
                    buf@[pix_index(w, px, py) + 2],
                    rays_per_pixel as int,
                ),
            max_depth <= 0 ==> forall|i: int| 0 <= i < buf@.len() ==> #[trigger] buf@[i] == 0,
            forall|px: int, py: int|
                #![trigger pixel_misses(*camera, world@, px, py, w, h)]
                0 <= px < w && 0 <= py < yi && max_depth >= 1 && pixel_misses(
                    *camera,
                    world@,
                    px,
                    py,
                    w,
                    h,
                ) ==> buf@[pix_index(w, px, py) + 2] == 255,
            forall|px: int, py: int|
                #![trigger pixel_hits(*camera, world@, px, py, w, h)]
                0 <= px < w && 0 <= py < yi && max_depth == 1 && pixel_hits(
                    *camera,
                    world@,
                    px,
                    py,
                    w,
                    h,
                ) ==> buf@[pix_index(w, px, py)] == 0 && buf@[pix_index(w, px, py) + 1] == 0
                    && buf@[pix_index(w, px, py) + 2] == 0,
        decreases image_height - yi,
    {
        let y = image_height - 1 - yi;
        let mut x: usize = 0;
        while x < image_width
            invariant
                yi < image_height,
                y == image_height - 1 - yi,
                x <= image_width,
                buf.len() == 3 * image_width * yi + 3 * x,
                forall|px: int, py: int|
                    #![trigger pix_index(w, px, py)]
                    0 <= px < w && (0 <= py < yi || (py == yi && 0 <= px < x)) ==> avg_pixel(
                        buf@[pix_index(w, px, py)],
                        buf@[pix_index(w, px, py) + 1],
                        buf@[pix_index(w, px, py) + 2],
                        rays_per_pixel as int,
                    ),
                max_depth <= 0 ==> forall|i: int|
                    0 <= i < buf@.len() ==> #[trigger] buf@[i] == 0,
                forall|px: int, py: int|
                    #![trigger pixel_misses(*camera, world@, px, py, w, h)]
                    0 <= px < w && (0 <= py < yi || (py == yi && 0 <= px < x)) && max_depth >= 1
                        && pixel_misses(*camera, world@, px, py, w, h) ==> buf@[pix_index(
                        w,
                        px,
                        py,
                    ) + 2] == 255,
                forall|px: int, py: int|
                    #![trigger pixel_hits(*camera, world@, px, py, w, h)]
                    0 <= px < w && (0 <= py < yi || (py == yi && 0 <= px < x)) && max_depth == 1
                        && pixel_hits(*camera, world@, px, py, w, h) ==> buf@[pix_index(
                        w,
                        px,
                        py,
                    )] == 0 && buf@[pix_index(w, px, py) + 1] == 0 && buf@[pix_index(w, px, py)
                        + 2] == 0,
            decreases image_width - x,
        {
            let mut sr: i64 = 0;
            let mut sg: i64 = 0;
            let mut sb: i64 = 0;
            let mut s: usize = 0;
            while s < rays_per_pixel
                invariant
                    s <= rays_per_pixel,
                    0 <= sr <= 1024 * s,
                    0 <= sg <= 1024 * s,
                    0 <= sb <= 1024 * s,
                    max_depth <= 0 ==> sr == 0 && sg == 0 && sb == 0,
                    max_depth >= 1 && pixel_misses(*camera, world@, x as int, yi as int, w, h)
                        ==> sb == 1024 * s,
                    max_depth == 1 && pixel_hits(*camera, world@, x as int, yi as int, w, h)
                        ==> sr == 0 && sg == 0 && sb == 0,
                decreases rays_per_pixel - s,
            {
                let ju = crate::rng::random_scalar();
                let jv = crate::rng::random_scalar();
                let u = sample_coord(x, ju, image_width);
                let v = sample_coord(y, jv, image_height);
                let ray = camera.get_ray(u, v);
                let col = ray_color(&ray, world, max_depth);
                proof {
                    assert(is_sample_ray(
                        *camera,
                        ray,
                        x as int,
                        yi as int,
                        ju as int,
                        jv as int,
                        w,
                        h,
                    ));
                    if max_depth >= 1 && pixel_misses(*camera, world@, x as int, yi as int, w, h) {
                        assert(scene_best(world@, ray, 1, 0x80000000) is None);
                        lemma_lerp_constant(bg_t(ray), SCALE as int);
                        assert(col.z == 1024);
                    }
                    if max_depth == 1 && pixel_hits(*camera, world@, x as int, yi as int, w, h) {
                        assert(scene_best(world@, ray, 1, 0x80000000) is Some);
                        assert(col.x == 0 && col.y == 0 && col.z == 0);
                    }
                }
                sr = sr + col.x;
                sg = sg + col.y;
                sb = sb + col.z;
                s = s + 1;
            }
            let samples: i64 = rays_per_pixel as i64;
            proof {
                lemma_tdiv_mono(sr as int, 1024 * samples as int, samples as int);
                lemma_tdiv_mono(sg as int, 1024 * samples as int, samples as int);
                lemma_tdiv_mono(sb as int, 1024 * samples as int, samples as int);
                lemma_tdiv_exact(1024, samples as int);
                lemma_div_multiples_vanish(0, samples as int);
                lemma_tdiv_mono(0, sr as int, samples as int);
                lemma_tdiv_mono(0, sg as int, samples as int);
                lemma_tdiv_mono(0, sb as int, samples as int);
            }
            let ar = div_trunc(sr as i128, samples as i128) as i64;
            let ag = div_trunc(sg as i128, samples as i128) as i64;
            let ab = div_trunc(sb as i128, samples as i128) as i64;
            let pix = vec_to_pixel(Vec3::new(ar, ag, ab));
            let ghost prefix = buf@;
            buf.push(pix.0);
            buf.push(pix.1);
            buf.push(pix.2);
            proof {
                lemma_pixel_black();
                lemma_pixel_full();
                assert(buf@ == prefix.push(pix.0).push(pix.1).push(pix.2));
                assert(forall|i: int| 0 <= i < prefix.len() ==> buf@[i] == #[trigger] prefix[i]);
                assert(pix_index(w, x as int, yi as int) == 3 * w * (yi as int) + 3 * (x as int))
                    by (nonlinear_arith);
                assert(buf@[pix_index(w, x as int, yi as int)] == pix.0);
                assert(buf@[pix_index(w, x as int, yi as int) + 1] == pix.1);
                assert(buf@[pix_index(w, x as int, yi as int) + 2] == pix.2);
                assert(samples as int == rays_per_pixel as int);
                assert(pix.0 == pixel_spec(tdiv(sr as int, rays_per_pixel as int)));
                assert(pix.1 == pixel_spec(tdiv(sg as int, rays_per_pixel as int)));
                assert(pix.2 == pixel_spec(tdiv(sb as int, rays_per_pixel as int)));
                assert(avg_pixel(pix.0, pix.1, pix.2, rays_per_pixel as int));
                assert forall|px2: int, py2: int|
                    0 <= px2 < w && (0 <= py2 < yi || (py2 == yi && 0 <= px2 < x + 1)) implies
                    avg_pixel(
                        buf@[#[trigger] pix_index(w, px2, py2)],
                        buf@[pix_index(w, px2, py2) + 1],
                        buf@[pix_index(w, px2, py2) + 2],
                        rays_per_pixel as int,
                    ) by {
                    lemma_pix_index_bounds(w, yi as int, x as int, px2, py2);
                    if px2 == x as int && py2 == yi as int {
                    } else {
                        assert(avg_pixel(
                            prefix[pix_index(w, px2, py2)],
                            prefix[pix_index(w, px2, py2) + 1],
                            prefix[pix_index(w, px2, py2) + 2],
                            rays_per_pixel as int,
                        ));
                    }
                }
                if max_depth <= 0 {
                    assert(pix.0 == 0 && pix.1 == 0 && pix.2 == 0);
                }
                assert forall|px2: int, py2: int|
                    0 <= px2 < w && (0 <= py2 < yi || (py2 == yi && 0 <= px2 < x + 1))
                        && max_depth >= 1 && pixel_misses(*camera, world@, px2, py2, w, h) implies
                    buf@[pix_index(w, px2, py2) + 2] == 255 by {
                    lemma_pix_index_bounds(w, yi as int, x as int, px2, py2);
                    if px2 == x as int && py2 == yi as int {
                        assert(sb == 1024 * samples);
                        assert(ab == 1024);
                    }
                }
                assert forall|px2: int, py2: int|
                    0 <= px2 < w && (0 <= py2 < yi || (py2 == yi && 0 <= px2 < x + 1))
                        && max_depth == 1 && pixel_hits(*camera, world@, px2, py2, w, h) implies
                    buf@[pix_index(w, px2, py2)] == 0 && buf@[pix_index(w, px2, py2) + 1] == 0
                        && buf@[pix_index(w, px2, py2) + 2] == 0 by {
                    lemma_pix_index_bounds(w, yi as int, x as int, px2, py2);
                    if px2 == x as int && py2 == yi as int {
                        assert(sr == 0 && sg == 0 && sb == 0);
                        assert(ar == 0 && ag == 0 && ab == 0);
                    }
                }
            }
            x = x + 1;
        }
        proof {
            assert(3 * image_width * yi + 3 * image_width == 3 * image_width * (yi + 1))
                by (nonlinear_arith);
        }
        yi = yi + 1;
    }
    buf
}

/// A pixel at or before column `x` of row `yi` starts strictly inside the
/// first `3 * (w * yi + x) + 3` bytes of the buffer.
proof fn lemma_pix_index_bounds(w: int, yi: int, x: int, px: int, py: int)
    requires
        w >= 1,
        0 <= x < w,
        0 <= yi,
        0 <= px < w,
        0 <= py < yi || (py == yi && 0 <= px <= x),
    ensures
        0 <= pix_index(w, px, py),
        pix_index(w, px, py) + 3 <= 3 * w * yi + 3 * x + 3,
        py == yi ==> pix_index(w, px, py) == 3 * w * yi + 3 * px,
        py < yi || px < x ==> pix_index(w, px, py) + 3 <= 3 * w * yi + 3 * x,
{
    assert(0 <= py * w + px) by (nonlinear_arith)
        requires
            0 <= py,
            0 <= px,
            w >= 1,
    ;
    assert(3 * (py * w + px) == 3 * w * py + 3 * px) by (nonlinear_arith);
    if py < yi {
        assert(3 * w * py + 3 * px + 3 <= 3 * w * yi) by (nonlinear_arith)
            requires
                py + 1 <= yi,
                0 <= px < w,
                w >= 1,
        ;
    }
}

} // verus!
