//! Rays as parametric lines, and the record a surface hit produces.

use vstd::prelude::*;
use vstd::arithmetic::div_mod::lemma_div_is_ordered;
use crate::fixed::SCALE;
use crate::fixed::iabs;
use crate::fixed::lemma_mul_abs_bound;
use crate::fixed::lemma_tdiv_abs;
use crate::fixed::tdiv;
use crate::vec3::Vec3;

verus! {

#[derive(Clone, Copy, PartialEq, Eq, Structural, Debug)]
pub struct Ray {
    pub origin: Vec3,
    pub direction: Vec3,
}

/// Components of the point `origin + t * direction`.
pub open spec fn at_x(r: Ray, t: int) -> int {
    r.origin.x + tdiv(t * r.direction.x, SCALE as int)
}

pub open spec fn at_y(r: Ray, t: int) -> int {
    r.origin.y + tdiv(t * r.direction.y, SCALE as int)
}

pub open spec fn at_z(r: Ray, t: int) -> int {
    r.origin.z + tdiv(t * r.direction.z, SCALE as int)
}

impl Ray {
    /// The ray's origin and direction are small enough for intersection
    /// arithmetic; the origin's budget varies with the bounce depth.
    pub open spec fn wf(self, origin_bound: int) -> bool {
        self.origin.in_range(origin_bound) && self.direction.in_range(16384)
    }

    /// The point the ray reaches at parameter `t`.
    pub fn at(&self, t: i64) -> (p: Vec3)
        requires
            self.origin.in_range(0x3000000000000000),
            self.direction.in_range(0x100000000),
            iabs(t as int) <= 0x100000000,
        ensures
            p.x == at_x(*self, t as int),
            p.y == at_y(*self, t as int),
            p.z == at_z(*self, t as int),
    {
        let step = self.direction.scale(t);
        proof {
            lemma_mul_abs_bound(t as int, self.direction.x as int, 0x100000000, 0x100000000);
            lemma_mul_abs_bound(t as int, self.direction.y as int, 0x100000000, 0x100000000);
            lemma_mul_abs_bound(t as int, self.direction.z as int, 0x100000000, 0x100000000);
            lemma_tdiv_abs(t as int * self.direction.x as int, SCALE as int);
            lemma_tdiv_abs(t as int * self.direction.y as int, SCALE as int);
            lemma_tdiv_abs(t as int * self.direction.z as int, SCALE as int);
            lemma_div_is_ordered(
                iabs(t as int * self.direction.x as int),
                0x10000000000000000,
                1024,
            );
            lemma_div_is_ordered(
                iabs(t as int * self.direction.y as int),
                0x10000000000000000,
                1024,
            );
            lemma_div_is_ordered(
                iabs(t as int * self.direction.z as int),
                0x10000000000000000,
                1024,
            );
        }
        self.origin.add(step)
    }
}

#[derive(Clone, Copy, PartialEq, Eq, Structural, Debug)]
pub struct HitRecord {
    pub t: i64,
    pub p: Vec3,
    pub normal: Vec3,
    pub outward_normal: bool,
}

/// A surface a ray can strike: `hit` returns the nearest accepted
/// intersection inside `[t_min, t_max]`, exactly as the surface's own
/// root and record specifications describe it.
pub trait Hittable: Sized {
    /// The surface's geometry is well formed.
    spec fn surface_wf(&self) -> bool;

    /// The intersection parameter the surface accepts inside the window.
    spec fn hit_root_spec(&self, r: Ray, t_min: int, t_max: int) -> Option<int>;

    /// The record a hit at parameter `t` carries.
    spec fn hit_record_spec(&self, r: Ray, t: int, h: HitRecord) -> bool;

    fn hit(&self, r: &Ray, t_min: i64, t_max: i64) -> (result: Option<HitRecord>)
        requires
            self.surface_wf(),
            r.wf(0x40000000000),
            0 <= t_min <= t_max <= 0x80000000,
        ensures
            match result {
                None => self.hit_root_spec(*r, t_min as int, t_max as int) is None,
                Some(h) => {
                    &&& self.hit_root_spec(*r, t_min as int, t_max as int) == Some(h.t as int)
                    &&& self.hit_record_spec(*r, h.t as int, h)
                    &&& t_min <= h.t <= t_max
                    &&& h.normal.in_range(2048)
                    &&& iabs(h.p.x as int) <= iabs(r.origin.x as int) + 0x800000000
                    &&& iabs(h.p.y as int) <= iabs(r.origin.y as int) + 0x800000000
                    &&& iabs(h.p.z as int) <= iabs(r.origin.z as int) + 0x800000000
                },
            },
    ;
}

} // verus!
