//! Three-component fixed-point vectors: positions, directions and colors.

use vstd::prelude::*;
use crate::fixed::SCALE;
use crate::fixed::div_trunc;
use crate::fixed::iabs;
use crate::fixed::tdiv;

verus! {

/// Raw componentwise dot product, before fixed-point rescaling.
pub open spec fn dot3(ax: int, ay: int, az: int, bx: int, by: int, bz: int) -> int {
    ax * bx + ay * by + az * bz
}

#[derive(Clone, Copy, PartialEq, Eq, Structural, Debug)]
pub struct Vec3 {
    pub x: i64,
    pub y: i64,
    pub z: i64,
}

impl Vec3 {
    /// Every component has magnitude at most `bound`.
    pub open spec fn in_range(self, bound: int) -> bool {
        iabs(self.x as int) <= bound && iabs(self.y as int) <= bound && iabs(self.z as int)
            <= bound
    }

    pub fn new(x: i64, y: i64, z: i64) -> (v: Vec3)
        ensures
            v.x == x && v.y == y && v.z == z,
    {
        Vec3 { x, y, z }
    }

    pub fn zero() -> (v: Vec3)
        ensures
            v.x == 0 && v.y == 0 && v.z == 0,
    {
        Vec3 { x: 0, y: 0, z: 0 }
    }

    pub fn one() -> (v: Vec3)
        ensures
            v.x == SCALE && v.y == SCALE && v.z == SCALE,
    {
        Vec3 { x: SCALE, y: SCALE, z: SCALE }
    }

    pub fn add(self, o: Vec3) -> (v: Vec3)
        requires
            self.in_range(0x3fffffffffffffff),
            o.in_range(0x3fffffffffffffff),
        ensures
            v.x == self.x + o.x,
            v.y == self.y + o.y,
            v.z == self.z + o.z,
    {
        Vec3 { x: self.x + o.x, y: self.y + o.y, z: self.z + o.z }
    }

    pub fn sub(self, o: Vec3) -> (v: Vec3)
        requires
            self.in_range(0x3fffffffffffffff),
            o.in_range(0x3fffffffffffffff),
        ensures
            v.x == self.x - o.x,
            v.y == self.y - o.y,
            v.z == self.z - o.z,
    {
        Vec3 { x: self.x - o.x, y: self.y - o.y, z: self.z - o.z }
    }

    pub fn neg(self) -> (v: Vec3)
        requires
            self.in_range(0x7fffffffffffffff),
        ensures
            v.x == -self.x,
            v.y == -self.y,
            v.z == -self.z,
    {
        Vec3 { x: -self.x, y: -self.y, z: -self.z }
    }

    /// Fixed-point multiplication by the scalar `t`.
    pub fn scale(self, t: i64) -> (v: Vec3)
        requires
            self.in_range(0x100000000),
            iabs(t as int) <= 0x100000000,
        ensures
            v.x == tdiv(t * self.x, SCALE as int),
            v.y == tdiv(t * self.y, SCALE as int),
            v.z == tdiv(t * self.z, SCALE as int),
    {
        proof {
            lemma_scale_prod(t as int, self.x as int);
            lemma_scale_prod(t as int, self.y as int);
            lemma_scale_prod(t as int, self.z as int);
        }
        let x = div_trunc((t as i128) * (self.x as i128), SCALE as i128);
        let y = div_trunc((t as i128) * (self.y as i128), SCALE as i128);
        let z = div_trunc((t as i128) * (self.z as i128), SCALE as i128);
        proof {
            lemma_quot_scale(t as int * self.x as int, 0x10000000000000000);
            lemma_quot_scale(t as int * self.y as int, 0x10000000000000000);
            lemma_quot_scale(t as int * self.z as int, 0x10000000000000000);
        }
        Vec3 { x: x as i64, y: y as i64, z: z as i64 }
    }

    /// Fixed-point division by the scalar `d`.
    pub fn vdiv(self, d: i64) -> (v: Vec3)
        requires
            d != 0,
            self.in_range(0x10000000000),
        ensures
            v.x == tdiv(self.x * SCALE, d as int),
            v.y == tdiv(self.y * SCALE, d as int),
            v.z == tdiv(self.z * SCALE, d as int),
    {
        let x = div_trunc((self.x as i128) * (SCALE as i128), d as i128);
        let y = div_trunc((self.y as i128) * (SCALE as i128), d as i128);
        let z = div_trunc((self.z as i128) * (SCALE as i128), d as i128);
        proof {
            crate::fixed::lemma_tdiv_abs(self.x as int * SCALE as int, d as int);
            crate::fixed::lemma_tdiv_abs(self.y as int * SCALE as int, d as int);
            crate::fixed::lemma_tdiv_abs(self.z as int * SCALE as int, d as int);
        }
        Vec3 { x: x as i64, y: y as i64, z: z as i64 }
    }

    /// Fixed-point dot product.
    pub fn dot(self, o: Vec3) -> (r: i64)
        requires
            self.in_range(0x800000000),
            o.in_range(0x800000000),
        ensures
            r == tdiv(
                dot3(
                    self.x as int,
                    self.y as int,
                    self.z as int,
                    o.x as int,
                    o.y as int,
                    o.z as int,
                ),
                SCALE as int,
            ),
    {
        proof {
            lemma_dot3_bound(
                self.x as int,
                self.y as int,
                self.z as int,
                o.x as int,
                o.y as int,
                o.z as int,
                0x800000000,
                0x800000000,
            );
        }
        let raw: i128 = (self.x as i128) * (o.x as i128) + (self.y as i128) * (o.y as i128) + (
        self.z as i128) * (o.z as i128);
        let r = div_trunc(raw, SCALE as i128);
        proof {
            lemma_quot_scale(raw as int, 0xc00000000000000000);
        }
        r as i64
    }

    /// Fixed-point squared length.
    pub fn length_squared(self) -> (r: i64)
        requires
            self.in_range(0x800000000),
        ensures
            r == tdiv(
                dot3(
                    self.x as int,
                    self.y as int,
                    self.z as int,
                    self.x as int,
                    self.y as int,
                    self.z as int,
                ),
                SCALE as int,
            ),
    {
        self.dot(self)
    }
}

/// The magnitude of `t * c` is within the product of the factors' bounds.
proof fn lemma_scale_prod(t: int, c: int)
    requires
        iabs(t) <= 0x100000000,
        iabs(c) <= 0x100000000,
    ensures
        iabs(t * c) <= 0x10000000000000000,
{
    assert(iabs(t * c) <= 0x10000000000000000) by (nonlinear_arith)
        requires
            iabs(t) <= 0x100000000,
            iabs(c) <= 0x100000000,
    ;
}

/// A quotient by `SCALE` shrinks a magnitude bound by `SCALE`.
proof fn lemma_quot_scale(a: int, bound: int)
    requires
        iabs(a) <= bound,
        0 <= bound,
    ensures
        iabs(tdiv(a, SCALE as int)) <= bound / 1024,
{
    crate::fixed::lemma_tdiv_abs(a, SCALE as int);
    vstd::arithmetic::div_mod::lemma_div_is_ordered(iabs(a), bound, 1024);
}

/// Componentwise magnitude bounds limit the raw dot product.
pub proof fn lemma_dot3_bound(
    ax: int,
    ay: int,
    az: int,
    bx: int,
    by: int,
    bz: int,
    ba: int,
    bb: int,
)
    requires
        iabs(ax) <= ba && iabs(ay) <= ba && iabs(az) <= ba,
        iabs(bx) <= bb && iabs(by) <= bb && iabs(bz) <= bb,
        0 <= ba,
        0 <= bb,
    ensures
        iabs(dot3(ax, ay, az, bx, by, bz)) <= 3 * ba * bb,
        iabs(ax * bx) <= ba * bb,
        iabs(ay * by) <= ba * bb,
        iabs(az * bz) <= ba * bb,
{
    assert(iabs(ax * bx) <= ba * bb) by (nonlinear_arith)
        requires
            iabs(ax) <= ba,
            iabs(bx) <= bb,
            0 <= ba,
            0 <= bb,
    ;
    assert(iabs(ay * by) <= ba * bb) by (nonlinear_arith)
        requires
            iabs(ay) <= ba,
            iabs(by) <= bb,
            0 <= ba,
            0 <= bb,
    ;
    assert(iabs(az * bz) <= ba * bb) by (nonlinear_arith)
        requires
            iabs(az) <= ba,
            iabs(bz) <= bb,
            0 <= ba,
            0 <= bb,
    ;
    assert(iabs(ax * bx + ay * by + az * bz) <= 3 * ba * bb) by (nonlinear_arith)
        requires
            iabs(ax * bx) <= ba * bb,
            iabs(ay * by) <= ba * bb,
            iabs(az * bz) <= ba * bb,
    ;
}

} // verus!
