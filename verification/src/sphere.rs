//! Sphere geometry: the quadratic ray-sphere intersection test.

use vstd::prelude::*;
use vstd::arithmetic::div_mod::lemma_div_is_ordered;
use vstd::arithmetic::div_mod::lemma_div_multiples_vanish;
use crate::fixed::lemma_sqrt_spec_bracket;
use crate::fixed::lemma_tdiv_mono;
use crate::fixed::SCALE;
use crate::fixed::iabs;
use crate::fixed::isqrt;
use crate::fixed::lemma_mul_abs_bound;
use crate::fixed::lemma_tdiv_abs;
use crate::fixed::lemma_sqrt_unique;
use crate::fixed::lemma_tdiv_exact;
use crate::fixed::sqrt_spec;
use crate::fixed::tdiv;
use crate::fixed::div_trunc;
use crate::ray::HitRecord;
use crate::ray::Hittable;
use crate::ray::Ray;
use crate::ray::at_x;
use crate::ray::at_y;
use crate::ray::at_z;
use crate::utils::clamp;
use crate::utils::clamp_spec;
use crate::vec3::Vec3;
use crate::vec3::dot3;
use crate::vec3::lemma_dot3_bound;

verus! {

#[derive(Clone, Copy, PartialEq, Eq, Structural, Debug)]
pub struct Sphere {
    pub center: Vec3,
    pub radius: i64,
}

impl Sphere {
    /// Scene geometry stays within a modest world box and has positive radius.
    pub open spec fn wf(self) -> bool {
        self.center.in_range(0x400000) && 1 <= self.radius <= 0x400000
    }

    /// Raw quadratic coefficient `a`: the direction's squared length.
    pub open spec fn a_raw(self, r: Ray) -> int {
        dot3(
            r.direction.x as int,
            r.direction.y as int,
            r.direction.z as int,
            r.direction.x as int,
            r.direction.y as int,
            r.direction.z as int,
        )
    }

    /// Raw half `b` coefficient: offset-to-center dotted with the direction.
    pub open spec fn hb_raw(self, r: Ray) -> int {
        dot3(
            r.origin.x - self.center.x,
            r.origin.y - self.center.y,
            r.origin.z - self.center.z,
            r.direction.x as int,
            r.direction.y as int,
            r.direction.z as int,
        )
    }

    /// Raw `c` coefficient: the offset's squared length less the squared radius.
    pub open spec fn c_raw(self, r: Ray) -> int {
        dot3(
            r.origin.x - self.center.x,
            r.origin.y - self.center.y,
            r.origin.z - self.center.z,
            r.origin.x - self.center.x,
            r.origin.y - self.center.y,
            r.origin.z - self.center.z,
        ) - self.radius * self.radius
    }

    /// Raw discriminant of the quadratic.
    pub open spec fn disc_raw(self, r: Ray) -> int {
        self.hb_raw(r) * self.hb_raw(r) - self.a_raw(r) * self.c_raw(r)
    }

    pub open spec fn sqrt_disc(self, r: Ray) -> int {
        sqrt_spec(self.disc_raw(r))
    }

    /// The nearer intersection parameter, in fixed-point units.
    pub open spec fn root_near(self, r: Ray) -> int {
        tdiv((-self.hb_raw(r) - self.sqrt_disc(r)) * SCALE, self.a_raw(r))
    }

    /// The farther intersection parameter, in fixed-point units.
    pub open spec fn root_far(self, r: Ray) -> int {
        tdiv((-self.hb_raw(r) + self.sqrt_disc(r)) * SCALE, self.a_raw(r))
    }

    /// The accepted intersection parameter: the nearer root if it lies in
    /// `[t_min, t_max]`, else the farther root if that one does, else none.
    /// A degenerate (zero) direction or a negative discriminant is a miss.
    pub open spec fn hit_root(self, r: Ray, t_min: int, t_max: int) -> Option<int> {
        if self.a_raw(r) == 0 || self.disc_raw(r) < 0 {
            None
        } else if t_min <= self.root_near(r) <= t_max {
            Some(self.root_near(r))
        } else if t_min <= self.root_far(r) <= t_max {
            Some(self.root_far(r))
        } else {
            None
        }
    }

    /// Outward normal at the hit point: the offset from the center, divided
    /// by the radius, with each component held to twice unit length.
    pub open spec fn outn_x(self, r: Ray, t: int) -> int {
        clamp_spec(tdiv((at_x(r, t) - self.center.x) * SCALE, self.radius as int), -2048, 2048)
    }

    pub open spec fn outn_y(self, r: Ray, t: int) -> int {
        clamp_spec(tdiv((at_y(r, t) - self.center.y) * SCALE, self.radius as int), -2048, 2048)
    }

    pub open spec fn outn_z(self, r: Ray, t: int) -> int {
        clamp_spec(tdiv((at_z(r, t) - self.center.z) * SCALE, self.radius as int), -2048, 2048)
    }

    /// Whether the ray strikes the outward-facing side: its direction runs
    /// against the outward normal.
    pub open spec fn front_face(self, r: Ray, t: int) -> bool {
        dot3(
            r.direction.x as int,
            r.direction.y as int,
            r.direction.z as int,
            self.outn_x(r, t),
            self.outn_y(r, t),
            self.outn_z(r, t),
        ) < 0
    }

    /// The record a hit at parameter `t` carries: the hit point, and the
    /// outward normal flipped against the ray if the inside was struck.
    pub open spec fn record_matches(self, r: Ray, t: int, h: HitRecord) -> bool {
        &&& h.t == t
        &&& h.p.x == at_x(r, t)
        &&& h.p.y == at_y(r, t)
        &&& h.p.z == at_z(r, t)
        &&& h.outward_normal == self.front_face(r, t)
        &&& h.normal.x == if self.front_face(r, t) {
            self.outn_x(r, t)
        } else {
            -self.outn_x(r, t)
        }
        &&& h.normal.y == if self.front_face(r, t) {
            self.outn_y(r, t)
        } else {
            -self.outn_y(r, t)
        }
        &&& h.normal.z == if self.front_face(r, t) {
            self.outn_z(r, t)
        } else {
            -self.outn_z(r, t)
        }
    }

}

impl Hittable for Sphere {
    open spec fn surface_wf(&self) -> bool {
        self.wf()
    }

    open spec fn hit_root_spec(&self, r: Ray, t_min: int, t_max: int) -> Option<int> {
        self.hit_root(r, t_min, t_max)
    }

    open spec fn hit_record_spec(&self, r: Ray, t: int, h: HitRecord) -> bool {
        self.record_matches(r, t, h)
    }

    /// Nearest intersection of the ray with this sphere inside `[t_min, t_max]`.
    fn hit(&self, r: &Ray, t_min: i64, t_max: i64) -> (result: Option<HitRecord>) {
        let ocx: i64 = r.origin.x - self.center.x;
        let ocy: i64 = r.origin.y - self.center.y;
        let ocz: i64 = r.origin.z - self.center.z;
        let dx: i128 = r.direction.x as i128;
        let dy: i128 = r.direction.y as i128;
        let dz: i128 = r.direction.z as i128;
        proof {
            lemma_dot3_bound(
                r.direction.x as int,
                r.direction.y as int,
                r.direction.z as int,
                r.direction.x as int,
                r.direction.y as int,
                r.direction.z as int,
                16384,
                16384,
            );
            lemma_dot3_bound(
                ocx as int,
                ocy as int,
                ocz as int,
                r.direction.x as int,
                r.direction.y as int,
                r.direction.z as int,
                0x80000000000,
                16384,
            );
            lemma_dot3_bound(
                ocx as int,
                ocy as int,
                ocz as int,
                ocx as int,
                ocy as int,
                ocz as int,
                0x80000000000,
                0x80000000000,
            );
            lemma_mul_abs_bound(self.radius as int, self.radius as int, 0x400000, 0x400000);
        }
        let a: i128 = dx * dx + dy * dy + dz * dz;
        let hb: i128 = (ocx as i128) * dx + (ocy as i128) * dy + (ocz as i128) * dz;
        let c: i128 = (ocx as i128) * (ocx as i128) + (ocy as i128) * (ocy as i128) + (
        ocz as i128) * (ocz as i128) - (self.radius as i128) * (self.radius as i128);
        proof {
            assert(a as int == self.a_raw(*r));
            assert(hb as int == self.hb_raw(*r));
            assert(c as int == self.c_raw(*r));
            lemma_mul_abs_bound(hb as int, hb as int, 0x600000000000000, 0x600000000000000);
            lemma_mul_abs_bound(a as int, c as int, 0x40000000, 0x10000000000000000000000);
            assert(iabs(
                self.hb_raw(*r) * self.hb_raw(*r) - self.a_raw(*r) * self.c_raw(*r),
            ) <= 0x640000000000000000000000000000);
        }
        let disc: i128 = hb * hb - a * c;
        if a == 0 {
            return None;
        }
        if disc < 0 {
            return None;
        }
        let sd: i128 = isqrt(disc as u128) as i128;
        proof {
            assert(sd as int == self.sqrt_disc(*r));
            assert(iabs((-hb - sd) * 1024) <= 0x4000000000000000000) by (nonlinear_arith)
                requires
                    iabs(hb as int) <= 0x600000000000000,
                    0 <= sd < 0x2000000000000000,
            ;
            assert(iabs((-hb + sd) * 1024) <= 0x4000000000000000000) by (nonlinear_arith)
                requires
                    iabs(hb as int) <= 0x600000000000000,
                    0 <= sd < 0x2000000000000000,
            ;
        }
        let root_n: i128 = div_trunc((-hb - sd) * 1024, a);
        proof {
            assert(root_n as int == self.root_near(*r));
        }
        let root: i128;
        if t_min as i128 <= root_n && root_n <= t_max as i128 {
            root = root_n;
        } else {
            let root_f: i128 = div_trunc((-hb + sd) * 1024, a);
            proof {
                assert(root_f as int == self.root_far(*r));
            }
            if t_min as i128 <= root_f && root_f <= t_max as i128 {
                root = root_f;
            } else {
                return None;
            }
        }
        let t: i64 = root as i64;
        proof {
            lemma_mul_abs_bound(t as int, r.direction.x as int, 0x80000000, 16384);
            lemma_mul_abs_bound(t as int, r.direction.y as int, 0x80000000, 16384);
            lemma_mul_abs_bound(t as int, r.direction.z as int, 0x80000000, 16384);
            lemma_tdiv_abs(t as int * r.direction.x as int, SCALE as int);
            lemma_tdiv_abs(t as int * r.direction.y as int, SCALE as int);
            lemma_tdiv_abs(t as int * r.direction.z as int, SCALE as int);
            lemma_div_is_ordered(
                iabs(t as int * r.direction.x as int),
                0x200000000000,
                1024,
            );
            lemma_div_is_ordered(
                iabs(t as int * r.direction.y as int),
                0x200000000000,
                1024,
            );
            lemma_div_is_ordered(
                iabs(t as int * r.direction.z as int),
                0x200000000000,
                1024,
            );
        }
        let hit_point = r.at(t);
        proof {
            lemma_tdiv_abs((hit_point.x as int - self.center.x as int) * SCALE, self.radius as int);
            lemma_tdiv_abs((hit_point.y as int - self.center.y as int) * SCALE, self.radius as int);
            lemma_tdiv_abs((hit_point.z as int - self.center.z as int) * SCALE, self.radius as int);
        }
        let qx = div_trunc(((hit_point.x - self.center.x) as i128) * 1024, self.radius as i128);
        let qy = div_trunc(((hit_point.y - self.center.y) as i128) * 1024, self.radius as i128);
        let qz = div_trunc(((hit_point.z - self.center.z) as i128) * 1024, self.radius as i128);
        let nx = clamp(qx as i64, -2048, 2048);
        let ny = clamp(qy as i64, -2048, 2048);
        let nz = clamp(qz as i64, -2048, 2048);
        proof {
            assert(nx as int == self.outn_x(*r, t as int));
            assert(ny as int == self.outn_y(*r, t as int));
            assert(nz as int == self.outn_z(*r, t as int));
            lemma_dot3_bound(
                r.direction.x as int,
                r.direction.y as int,
                r.direction.z as int,
                nx as int,
                ny as int,
                nz as int,
                16384,
                2048,
            );
        }
        let f: i128 = (r.direction.x as i128) * (nx as i128) + (r.direction.y as i128) * (
        ny as i128) + (r.direction.z as i128) * (nz as i128);
        let front = f < 0;
        let n = Vec3 { x: nx, y: ny, z: nz };
        let normal = if front {
            n
        } else {
            n.neg()
        };
        Some(HitRecord { t, p: hit_point, normal, outward_normal: front })
    }
}

/// For a ray cast along `-z` from a point offset `d` along `+z` from the
/// sphere's center, the quadratic's quantities take closed forms.
proof fn lemma_axial_quadratic(s: Sphere, r: Ray, d: int)
    requires
        s.wf(),
        r.direction.x == 0,
        r.direction.y == 0,
        r.direction.z == -1024,
        r.origin.x == s.center.x,
        r.origin.y == s.center.y,
        r.origin.z == s.center.z + d,
    ensures
        s.a_raw(r) == 1048576,
        s.hb_raw(r) == -1024 * d,
        s.c_raw(r) == d * d - s.radius * s.radius,
        s.disc_raw(r) == 1048576 * (s.radius * s.radius),
        s.sqrt_disc(r) == 1024 * s.radius,
        s.root_near(r) == d - s.radius,
        s.root_far(r) == d + s.radius,
{
    let rad = s.radius as int;
    assert(s.a_raw(r) == 1048576 && s.hb_raw(r) == -1024 * d && s.c_raw(r) == d * d - rad * rad)
        by (nonlinear_arith)
        requires
            s.a_raw(r) == dot3(0, 0, -1024, 0, 0, -1024),
            s.hb_raw(r) == dot3(0, 0, d, 0, 0, -1024),
            s.c_raw(r) == dot3(0, 0, d, 0, 0, d) - s.radius * s.radius,
            rad == s.radius,
    ;
    assert(s.disc_raw(r) == 1048576 * (rad * rad)) by (nonlinear_arith)
        requires
            s.disc_raw(r) == (-1024 * d) * (-1024 * d) - 1048576 * (d * d - rad * rad),
    ;
    assert((1024 * rad) * (1024 * rad) == 1048576 * (rad * rad)) by (nonlinear_arith);
    assert(1048576 * (rad * rad) < (1024 * rad + 1) * (1024 * rad + 1)) by (nonlinear_arith)
        requires
            rad >= 1,
    ;
    lemma_sqrt_unique(s.disc_raw(r), 1024 * rad);
    assert((-s.hb_raw(r) - s.sqrt_disc(r)) * (SCALE as int) == (d - rad) * 1048576)
        by (nonlinear_arith)
        requires
            s.hb_raw(r) == -1024 * d,
            s.sqrt_disc(r) == 1024 * rad,
            (SCALE as int) == 1024,
    ;
    assert((-s.hb_raw(r) + s.sqrt_disc(r)) * (SCALE as int) == (d + rad) * 1048576)
        by (nonlinear_arith)
        requires
            s.hb_raw(r) == -1024 * d,
            s.sqrt_disc(r) == 1024 * rad,
            (SCALE as int) == 1024,
    ;
    lemma_tdiv_exact(d - rad, 1048576);
    lemma_tdiv_exact(d + rad, 1048576);
}

/// A ray cast along `-z` from a point farther than the radius along `+z`
/// from the center hits the sphere at exactly `d - radius`, striking the
/// outward face, with the outward normal `(0, 0, 1)`.
pub proof fn lemma_axial_outside_hit(s: Sphere, r: Ray, d: int, t_min: int, t_max: int)
    requires
        s.wf(),
        r.direction.x == 0,
        r.direction.y == 0,
        r.direction.z == -1024,
        r.origin.x == s.center.x,
        r.origin.y == s.center.y,
        r.origin.z == s.center.z + d,
        d > s.radius,
        t_min <= d - s.radius <= t_max,
    ensures
        s.hit_root(r, t_min, t_max) == Some(d - s.radius),
        s.front_face(r, d - s.radius),
        s.outn_x(r, d - s.radius) == 0,
        s.outn_y(r, d - s.radius) == 0,
        s.outn_z(r, d - s.radius) == 1024,
{
    let rad = s.radius as int;
    let t = d - rad;
    lemma_axial_quadratic(s, r, d);
    lemma_axial_point_and_normal(s, r, d, t);
    assert(at_z(r, t) - s.center.z == d - t);
    assert(s.outn_z(r, t) == 1024) by {
        assert((d - t) * (SCALE as int) == 1024 * rad) by (nonlinear_arith)
            requires
                d - t == rad,
                (SCALE as int) == 1024,
        ;
        lemma_tdiv_exact(1024, rad);
    }
    assert(dot3(0, 0, -1024, 0, 0, 1024) < 0) by (nonlinear_arith);
}

/// A ray cast along `-z` from a point strictly inside the sphere, offset
/// `d` along `+z` from the center, exits at exactly `d + radius`, striking
/// the inward face; the stored normal points back toward the ray's origin.
pub proof fn lemma_axial_inside_hit(s: Sphere, r: Ray, d: int, t_min: int, t_max: int)
    requires
        s.wf(),
        r.direction.x == 0,
        r.direction.y == 0,
        r.direction.z == -1024,
        r.origin.x == s.center.x,
        r.origin.y == s.center.y,
        r.origin.z == s.center.z + d,
        -s.radius < d < s.radius,
        1 <= t_min <= d + s.radius <= t_max,
    ensures
        s.hit_root(r, t_min, t_max) == Some(d + s.radius),
        !s.front_face(r, d + s.radius),
        s.outn_z(r, d + s.radius) == -1024,
        dot3(
            -s.outn_x(r, d + s.radius),
            -s.outn_y(r, d + s.radius),
            -s.outn_z(r, d + s.radius),
            r.origin.x - at_x(r, d + s.radius),
            r.origin.y - at_y(r, d + s.radius),
            r.origin.z - at_z(r, d + s.radius),
        ) > 0,
{
    let rad = s.radius as int;
    let t = d + rad;
    lemma_axial_quadratic(s, r, d);
    lemma_axial_point_and_normal(s, r, d, t);
    assert(s.root_near(r) == d - rad < t_min);
    assert(at_z(r, t) - s.center.z == d - t);
    assert(s.outn_z(r, t) == -1024) by {
        assert((d - t) * (SCALE as int) == (-1024) * rad) by (nonlinear_arith)
            requires
                d - t == -rad,
                (SCALE as int) == 1024,
        ;
        lemma_tdiv_exact(-1024, rad);
    }
    assert(dot3(0, 0, -1024, 0, 0, -1024) > 0) by (nonlinear_arith);
    assert(r.origin.z - at_z(r, t) == t);
    assert(dot3(0, 0, 1024, 0, 0, t) > 0) by (nonlinear_arith)
        requires
            t >= 1,
    ;
}

/// From an origin strictly inside the sphere, whatever the direction, the
/// nearer root lies at or below zero, so any hit a positive window accepts
/// is the exit intersection: the farther root.
pub proof fn lemma_inside_hit_is_exit(s: Sphere, r: Ray, t_min: int, t_max: int)
    requires
        s.a_raw(r) != 0,
        s.c_raw(r) < 0,
        1 <= t_min <= t_max,
    ensures
        s.disc_raw(r) > 0,
        s.root_near(r) <= 0,
        s.hit_root(r, t_min, t_max) == (if t_min <= s.root_far(r) <= t_max {
            Some(s.root_far(r))
        } else {
            None::<int>
        }),
{
    let dx = r.direction.x as int;
    let dy = r.direction.y as int;
    let dz = r.direction.z as int;
    assert(dx * dx + dy * dy + dz * dz >= 0) by (nonlinear_arith);
    assert(s.a_raw(r) == dx * dx + dy * dy + dz * dz);
    let a = s.a_raw(r);
    let hb = s.hb_raw(r);
    let c = s.c_raw(r);
    assert(hb * hb >= 0) by (nonlinear_arith);
    assert(hb * hb - a * c > hb * hb) by (nonlinear_arith)
        requires
            a >= 1,
            c < 0,
    ;
    lemma_sqrt_spec_bracket(s.disc_raw(r));
    let sd = s.sqrt_disc(r);
    assert(sd >= iabs(hb)) by (nonlinear_arith)
        requires
            sd >= 0,
            s.disc_raw(r) < (sd + 1) * (sd + 1),
            hb * hb < s.disc_raw(r),
    ;
    assert((-hb - sd) * (SCALE as int) <= 0) by (nonlinear_arith)
        requires
            -hb - sd <= 0,
            (SCALE as int) == 1024,
    ;
    lemma_tdiv_mono((-hb - sd) * (SCALE as int), 0, a);
    lemma_div_multiples_vanish(0, a);
    assert(a * 0 == 0) by (nonlinear_arith);
}

/// Along the axial ray, the hit point keeps the origin's `x` and `y` and
/// moves `t` units down the `z` axis, so the normal's `x` and `y` vanish.
proof fn lemma_axial_point_and_normal(s: Sphere, r: Ray, d: int, t: int)
    requires
        s.wf(),
        r.direction.x == 0,
        r.direction.y == 0,
        r.direction.z == -1024,
        r.origin.x == s.center.x,
        r.origin.y == s.center.y,
        r.origin.z == s.center.z + d,
    ensures
        at_x(r, t) == r.origin.x,
        at_y(r, t) == r.origin.y,
        at_z(r, t) == r.origin.z - t,
        s.outn_x(r, t) == 0,
        s.outn_y(r, t) == 0,
{
    let rad = s.radius as int;
    assert(t * 0 == 0 * 1024) by (nonlinear_arith);
    lemma_tdiv_exact(0, 1024);
    assert(t * -1024 == (-t) * 1024) by (nonlinear_arith);
    lemma_tdiv_exact(-t, 1024);
    assert((at_x(r, t) - s.center.x) * (SCALE as int) == 0 * rad) by (nonlinear_arith)
        requires
            at_x(r, t) == s.center.x,
    ;
    assert((at_y(r, t) - s.center.y) * (SCALE as int) == 0 * rad) by (nonlinear_arith)
        requires
            at_y(r, t) == s.center.y,
    ;
    lemma_tdiv_exact(0, rad);
}

} // verus!
