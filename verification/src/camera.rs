//! The camera: maps normalized viewport coordinates to world-space rays.

use vstd::prelude::*;
use vstd::arithmetic::div_mod::lemma_div_is_ordered;
use vstd::arithmetic::div_mod::lemma_div_multiples_vanish;
use vstd::arithmetic::div_mod::lemma_div_multiples_vanish_fancy;
use crate::fixed::SCALE;
use crate::fixed::div_trunc;
use crate::fixed::iabs;
use crate::fixed::lemma_mul_abs_bound;
use crate::fixed::lemma_tdiv_abs;
use crate::fixed::tdiv;
use crate::ray::Ray;
use crate::vec3::Vec3;

verus! {

#[derive(Clone, Copy, PartialEq, Eq, Structural, Debug)]
pub struct Camera {
    pub origin: Vec3,
    pub lower_left_corner: Vec3,
    pub horizontal: Vec3,
    pub vertical: Vec3,
}

impl Camera {
    /// The eye and the derived vectors stay small enough that every
    /// viewport coordinate in `[0, SCALE + 64]` yields a well-formed ray.
    pub open spec fn wf(self) -> bool {
        &&& self.origin.in_range(2048)
        &&& self.lower_left_corner.in_range(4096)
        &&& self.horizontal.in_range(4096)
        &&& self.vertical.in_range(4096)
    }

    /// The default configuration: aspect ratio 16:9, viewport height two
    /// world units, focal length one world unit, eye at the origin.
    pub fn new() -> (c: Camera)
        ensures
            c.origin == (Vec3 { x: 0, y: 0, z: 0 }),
            c.horizontal == (Vec3 { x: 3640, y: 0, z: 0 }),
            c.vertical == (Vec3 { x: 0, y: 2048, z: 0 }),
            c.lower_left_corner == (Vec3 { x: -1820i64, y: -1024i64, z: -1024i64 }),
            c.wf(),
    {
        let aspect_wide: i128 = div_trunc(16 * 1024 * 1024, 9 * 1024);
        proof {
            lemma_div_multiples_vanish_fancy(1820, 4096, 9216);
            assert(9216 * 1820 + 4096 == 16777216);
            assert(tdiv(16777216, 9216) == 1820);
            assert(aspect_wide == 1820);
        }
        let aspect_ratio: i64 = aspect_wide as i64;
        let viewport_height: i64 = 2 * 1024;
        proof {
            assert(aspect_ratio as int * viewport_height as int == 3727360) by (nonlinear_arith)
                requires
                    aspect_ratio == 1820,
                    viewport_height == 2048,
            ;
        }
        let vw_wide: i128 = div_trunc((aspect_ratio as i128) * (viewport_height as i128), 1024);
        proof {
            lemma_div_multiples_vanish(3640, 1024);
            assert(1024 * 3640 == 3727360);
            assert(vw_wide == 3640);
            lemma_div_multiples_vanish(1820, 2048);
            assert(2048 * 1820 == 3727360);
            lemma_div_multiples_vanish(1024, 2048);
            assert(2048 * 1024 == 2097152);
            lemma_div_multiples_vanish(0, 2048);
            assert(2048 * 0 == 0) by (nonlinear_arith);
        }
        let viewport_width: i64 = vw_wide as i64;
        let focal_length: i64 = 1024;

        let origin = Vec3::zero();
        let horizontal = Vec3::new(viewport_width, 0, 0);
        let vertical = Vec3::new(0, viewport_height, 0);
        let lower_left_corner = origin.sub(horizontal.vdiv(2 * 1024)).sub(
            vertical.vdiv(2 * 1024),
        ).sub(Vec3::new(0, 0, focal_length));

        Camera { origin, lower_left_corner, horizontal, vertical }
    }

    /// The ray from the eye through the viewport point
    /// `lower_left_corner + u * horizontal + v * vertical`, with `u`
    /// running left to right and `v` bottom to top, in fixed-point units
    /// of one viewport span: its direction is that point less the eye.
    pub fn get_ray(&self, u: i64, v: i64) -> (r: Ray)
        requires
            self.wf(),
            0 <= u <= 1088,
            0 <= v <= 1088,
        ensures
            r.origin == self.origin,
            r.direction.x == self.lower_left_corner.x + tdiv(u * self.horizontal.x, SCALE as int)
                + tdiv(v * self.vertical.x, SCALE as int) - self.origin.x,
            r.direction.y == self.lower_left_corner.y + tdiv(u * self.horizontal.y, SCALE as int)
                + tdiv(v * self.vertical.y, SCALE as int) - self.origin.y,
            r.direction.z == self.lower_left_corner.z + tdiv(u * self.horizontal.z, SCALE as int)
                + tdiv(v * self.vertical.z, SCALE as int) - self.origin.z,
            r.wf(0x400000),
    {
        proof {
            lemma_mul_abs_bound(u as int, self.horizontal.x as int, 1088, 4096);
            lemma_mul_abs_bound(u as int, self.horizontal.y as int, 1088, 4096);
            lemma_mul_abs_bound(u as int, self.horizontal.z as int, 1088, 4096);
            lemma_mul_abs_bound(v as int, self.vertical.x as int, 1088, 4096);
            lemma_mul_abs_bound(v as int, self.vertical.y as int, 1088, 4096);
            lemma_mul_abs_bound(v as int, self.vertical.z as int, 1088, 4096);
            lemma_tdiv_abs(u as int * self.horizontal.x as int, SCALE as int);
            lemma_tdiv_abs(u as int * self.horizontal.y as int, SCALE as int);
            lemma_tdiv_abs(u as int * self.horizontal.z as int, SCALE as int);
            lemma_tdiv_abs(v as int * self.vertical.x as int, SCALE as int);
            lemma_tdiv_abs(v as int * self.vertical.y as int, SCALE as int);
            lemma_tdiv_abs(v as int * self.vertical.z as int, SCALE as int);
            lemma_div_is_ordered(iabs(u as int * self.horizontal.x as int), 4456448, 1024);
            lemma_div_is_ordered(iabs(u as int * self.horizontal.y as int), 4456448, 1024);
            lemma_div_is_ordered(iabs(u as int * self.horizontal.z as int), 4456448, 1024);
            lemma_div_is_ordered(iabs(v as int * self.vertical.x as int), 4456448, 1024);
            lemma_div_is_ordered(iabs(v as int * self.vertical.y as int), 4456448, 1024);
            lemma_div_is_ordered(iabs(v as int * self.vertical.z as int), 4456448, 1024);
        }
        let direction = self.lower_left_corner.add(self.horizontal.scale(u)).add(
            self.vertical.scale(v),
        ).sub(self.origin);
        Ray { origin: self.origin, direction }
    }
}

} // verus!
