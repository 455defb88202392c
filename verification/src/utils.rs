//! Scalar helpers (range mapping, interpolation, clamping) and the random
//! direction samplers used for diffuse scattering.

use vstd::prelude::*;
use vstd::arithmetic::div_mod::lemma_div_is_ordered;
use vstd::arithmetic::div_mod::lemma_div_multiples_vanish;
use crate::fixed::SCALE;
use crate::fixed::div_trunc;
use crate::fixed::iabs;
use crate::fixed::isqrt;
use crate::fixed::lemma_sqrt_unique;
use crate::fixed::lemma_tdiv_abs;
use crate::fixed::lemma_tdiv_exact;
use crate::fixed::sqrt_spec;
use crate::fixed::lemma_tdiv_mono;
use crate::fixed::lemma_tdiv_neg;
use crate::fixed::tdiv;
use crate::rng::random_scalar;
use crate::vec3::Vec3;
use crate::vec3::dot3;

verus! {

pub open spec fn clamp_spec(x: int, min: int, max: int) -> int {
    if x < min {
        min
    } else if x > max {
        max
    } else {
        x
    }
}

/// Clamps `input` into `[min, max]`; the bounds must be ordered.
pub fn clamp(input: i64, min: i64, max: i64) -> (r: i64)
    requires
        min <= max,
    ensures
        r == clamp_spec(input as int, min as int, max as int),
        min <= r <= max,
{
    if input < min {
        min
    } else if input > max {
        max
    } else {
        input
    }
}

pub open spec fn map_range_spec(s: int, f0: int, f1: int, t0: int, t1: int) -> int {
    t0 + tdiv((s - f0) * (t1 - t0), f1 - f0)
}

/// Maps `s` linearly from `from_range` onto `to_range`.
pub fn map_range(s: i64, from_range: (i64, i64), to_range: (i64, i64)) -> (r: i64)
    requires
        from_range.0 != from_range.1,
        iabs(s as int) <= 0x2000000,
        iabs(from_range.0 as int) <= 0x2000000,
        iabs(from_range.1 as int) <= 0x2000000,
        iabs(to_range.0 as int) <= 0x2000000,
        iabs(to_range.1 as int) <= 0x2000000,
    ensures
        r == map_range_spec(
            s as int,
            from_range.0 as int,
            from_range.1 as int,
            to_range.0 as int,
            to_range.1 as int,
        ),
{
    proof {
        assert(iabs((s - from_range.0) * (to_range.1 - to_range.0)) <= 0x10000000000000)
            by (nonlinear_arith)
            requires
                iabs(s as int - from_range.0 as int) <= 0x4000000,
                iabs(to_range.1 as int - to_range.0 as int) <= 0x4000000,
        ;
    }
    let num: i128 = ((s - from_range.0) as i128) * ((to_range.1 - to_range.0) as i128);
    let q = div_trunc(num, (from_range.1 - from_range.0) as i128);
    proof {
        lemma_tdiv_abs(num as int, from_range.1 as int - from_range.0 as int);
    }
    to_range.0 + (q as i64)
}

/// Mapping a value back onto the range it came from returns it unchanged.
pub proof fn lemma_map_range_identity(x: int, a: int, b: int)
    requires
        a != b,
    ensures
        map_range_spec(x, a, b, a, b) == x,
{
    lemma_tdiv_exact(x - a, b - a);
}

pub open spec fn lerp_spec(t: int, a: int, b: int) -> int {
    tdiv((SCALE - t) * a + t * b, SCALE as int)
}

/// The magnitude of a product of a value in `[0, SCALE]` and a bounded value.
proof fn lemma_lerp_term(u: int, a: int)
    requires
        0 <= u <= SCALE,
        iabs(a) <= 0x10000000000,
    ensures
        iabs(u * a) <= 0x4000000000000,
{
    assert(iabs(u * a) <= 0x4000000000000) by (nonlinear_arith)
        requires
            0 <= u <= 1024,
            iabs(a) <= 0x10000000000,
    ;
}

/// Linear interpolation from `start_value` (at `t == 0`) to `end_value`
/// (at `t == SCALE`), componentwise, with a single truncating division.
pub fn lerp(t: i64, start_value: Vec3, end_value: Vec3) -> (v: Vec3)
    requires
        0 <= t <= SCALE,
        start_value.in_range(0x10000000000),
        end_value.in_range(0x10000000000),
    ensures
        v.x == lerp_spec(t as int, start_value.x as int, end_value.x as int),
        v.y == lerp_spec(t as int, start_value.y as int, end_value.y as int),
        v.z == lerp_spec(t as int, start_value.z as int, end_value.z as int),
{
    proof {
        lemma_lerp_term(SCALE - t, start_value.x as int);
        lemma_lerp_term(SCALE - t, start_value.y as int);
        lemma_lerp_term(SCALE - t, start_value.z as int);
        lemma_lerp_term(t as int, end_value.x as int);
        lemma_lerp_term(t as int, end_value.y as int);
        lemma_lerp_term(t as int, end_value.z as int);
    }
    let u: i128 = (SCALE - t) as i128;
    let tt: i128 = t as i128;
    let nx: i128 = u * (start_value.x as i128) + tt * (end_value.x as i128);
    let ny: i128 = u * (start_value.y as i128) + tt * (end_value.y as i128);
    let nz: i128 = u * (start_value.z as i128) + tt * (end_value.z as i128);
    let x = div_trunc(nx, SCALE as i128);
    let y = div_trunc(ny, SCALE as i128);
    let z = div_trunc(nz, SCALE as i128);
    proof {
        lemma_tdiv_abs(nx as int, SCALE as int);
        lemma_tdiv_abs(ny as int, SCALE as int);
        lemma_tdiv_abs(nz as int, SCALE as int);
    }
    Vec3 { x: x as i64, y: y as i64, z: z as i64 }
}

/// Interpolation returns the first value at `t == 0` and the second at
/// `t == SCALE`, exactly.
pub proof fn lemma_lerp_endpoints(a: int, b: int)
    ensures
        lerp_spec(0, a, b) == a,
        lerp_spec(SCALE as int, a, b) == b,
{
    assert((SCALE - 0) * a + 0 * b == a * SCALE) by (nonlinear_arith);
    assert((SCALE - SCALE) * a + SCALE * b == b * SCALE) by (nonlinear_arith);
    lemma_tdiv_exact(a, SCALE as int);
    lemma_tdiv_exact(b, SCALE as int);
}

/// Interpolating between a value and itself returns it, for every `t`.
pub proof fn lemma_lerp_constant(t: int, a: int)
    ensures
        lerp_spec(t, a, a) == a,
{
    assert((SCALE - t) * a + t * a == a * SCALE) by (nonlinear_arith);
    lemma_tdiv_exact(a, SCALE as int);
}

/// The interpolated value stays between its two endpoints.
pub proof fn lemma_lerp_between(t: int, a: int, b: int)
    requires
        0 <= t <= SCALE,
    ensures
        a <= b ==> a <= lerp_spec(t, a, b) <= b,
        b <= a ==> b <= lerp_spec(t, a, b) <= a,
{
    let lo = if a <= b { a } else { b };
    let hi = if a <= b { b } else { a };
    assert(lo * SCALE <= (SCALE - t) * a + t * b) by (nonlinear_arith)
        requires
            0 <= t <= 1024,
            lo <= a,
            lo <= b,
            SCALE == 1024,
    ;
    assert((SCALE - t) * a + t * b <= hi * SCALE) by (nonlinear_arith)
        requires
            0 <= t <= 1024,
            a <= hi,
            b <= hi,
            SCALE == 1024,
    ;
    lemma_tdiv_mono(lo * SCALE, (SCALE - t) * a + t * b, SCALE as int);
    lemma_tdiv_mono((SCALE - t) * a + t * b, hi * SCALE, SCALE as int);
    lemma_tdiv_exact(lo, SCALE as int);
    lemma_tdiv_exact(hi, SCALE as int);
}

/// A unit draw mapped onto `[min, max]` lands inside it.
proof fn lemma_map_sample_range(draw: int, min: int, max: int)
    requires
        0 <= draw < 1024,
        min <= max,
    ensures
        min <= map_range_spec(draw, 0, 1024, min, max) <= max,
{
    assert(0 <= (draw - 0) * (max - min) <= (max - min) * 1024) by (nonlinear_arith)
        requires
            0 <= draw < 1024,
            min <= max,
    ;
    lemma_tdiv_mono((draw - 0) * (max - min), (max - min) * 1024, 1024);
    lemma_tdiv_exact(max - min, 1024);
    lemma_tdiv_mono(0, (draw - 0) * (max - min), 1024);
    lemma_div_multiples_vanish(0, 1024);
}

/// A random vector with each component drawn uniformly and mapped onto
/// `[min, max]`.
pub fn random_vec3(min: i64, max: i64) -> (v: Vec3)
    requires
        min <= max,
        iabs(min as int) <= 0x2000000,
        iabs(max as int) <= 0x2000000,
    ensures
        min <= v.x <= max,
        min <= v.y <= max,
        min <= v.z <= max,
{
    let dx = random_scalar();
    let dy = random_scalar();
    let dz = random_scalar();
    proof {
        lemma_map_sample_range(dx as int, min as int, max as int);
        lemma_map_sample_range(dy as int, min as int, max as int);
        lemma_map_sample_range(dz as int, min as int, max as int);
    }
    let x = map_range(dx, (0, 1024), (min, max));
    let y = map_range(dy, (0, 1024), (min, max));
    let z = map_range(dz, (0, 1024), (min, max));
    Vec3 { x, y, z }
}

/// The square of a bounded value is bounded by the squared bound.
proof fn lemma_sq_bound(x: int, b: int)
    requires
        iabs(x) <= b,
        0 <= b,
    ensures
        0 <= x * x <= b * b,
{
    assert(0 <= x * x <= b * b) by (nonlinear_arith)
        requires
            iabs(x) <= b,
            0 <= b,
    ;
}

/// A nonzero random vector of raw squared length below `SCALE * SCALE`
/// (a point strictly inside the unit sphere). Rejection sampling with a
/// bounded number of draws; a fixed in-sphere point stands in if every
/// draw is rejected.
pub fn random_in_unit_sphere() -> (v: Vec3)
    ensures
        v.in_range(SCALE as int),
        0 < dot3(v.x as int, v.y as int, v.z as int, v.x as int, v.y as int, v.z as int)
            < 1048576,
{
    let mut i: u64 = 0;
    while i < 64
        invariant
            i <= 64,
        decreases 64 - i,
    {
        let p = random_vec3(-1024, 1024);
        proof {
            lemma_sq_bound(p.x as int, 1024);
            lemma_sq_bound(p.y as int, 1024);
            lemma_sq_bound(p.z as int, 1024);
        }
        let q: i64 = p.x * p.x + p.y * p.y + p.z * p.z;
        if 0 < q && q < 1048576 {
            return p;
        }
        i = i + 1;
    }
    let v = Vec3 { x: 512, y: 0, z: 0 };
    proof {
        assert(dot3(512, 0, 0, 512, 0, 0) == 262144) by (nonlinear_arith);
    }
    v
}

/// Componentwise bound on a vector divided by its own length floor.
pub proof fn lemma_unit_comp(c: int, l: int)
    requires
        l >= 1,
        iabs(c) <= l,
    ensures
        iabs(tdiv(c * 1024, l)) <= 1024,
{
    lemma_tdiv_abs(c * 1024, l);
    assert(iabs(c * 1024) == iabs(c) * 1024) by (nonlinear_arith);
    lemma_div_is_ordered(iabs(c) * 1024, l * 1024, l);
    lemma_div_multiples_vanish(1024, l);
}

/// A component is no longer than the floor square root of the squared length.
pub proof fn lemma_comp_le_len(c: int, n2: int, l: int)
    requires
        c * c <= n2,
        n2 < (l + 1) * (l + 1),
        l >= 0,
    ensures
        iabs(c) <= l,
    decreases 0int,
{
    assert(iabs(c) <= l) by (nonlinear_arith)
        requires
            c * c <= n2,
            n2 < (l + 1) * (l + 1),
            l >= 0,
    ;
}

/// The result is the fixed-point normalization of a draw whose raw squared
/// norm lies in `[SCALE * SCALE / 4, SCALE * SCALE)`: each component is the
/// draw's component scaled by `SCALE` and divided by the floor square root
/// of the draw's raw squared norm.
pub open spec fn is_normalized_draw(v: Vec3, q: Vec3) -> bool {
    let n2 = dot3(q.x as int, q.y as int, q.z as int, q.x as int, q.y as int, q.z as int);
    &&& q.in_range(1024)
    &&& 262144 <= n2 < 1048576
    &&& v.x == tdiv(q.x * 1024, sqrt_spec(n2))
    &&& v.y == tdiv(q.y * 1024, sqrt_spec(n2))
    &&& v.z == tdiv(q.z * 1024, sqrt_spec(n2))
}

/// A random direction of fixed-point length approximately `SCALE`: the
/// normalization of an in-ball draw whose length is at least half a unit,
/// so the division cannot magnify the rounding. Rejection sampling with a
/// bounded number of draws; a fixed unit point stands in if every draw is
/// rejected.
pub fn random_unit_vector() -> (v: Vec3)
    ensures
        v.in_range(SCALE as int),
        exists|q: Vec3| #[trigger] is_normalized_draw(v, q),
{
    let mut i: u64 = 0;
    while i < 64
        invariant
            i <= 64,
        decreases 64 - i,
    {
        let p = random_vec3(-1024, 1024);
        proof {
            lemma_sq_bound(p.x as int, 1024);
            lemma_sq_bound(p.y as int, 1024);
            lemma_sq_bound(p.z as int, 1024);
        }
        let n2: i64 = p.x * p.x + p.y * p.y + p.z * p.z;
        if 262144 <= n2 && n2 < 1048576 {
            let l: u128 = isqrt(n2 as u128);
            proof {
                assert(l >= 1) by (nonlinear_arith)
                    requires
                        n2 >= 1,
                        n2 < (l + 1) * (l + 1),
                        l >= 0,
                ;
                assert(l <= 1024) by (nonlinear_arith)
                    requires
                        l * l <= n2 < 1048576,
                        l >= 0,
                ;
                lemma_comp_le_len(p.x as int, n2 as int, l as int);
                lemma_comp_le_len(p.y as int, n2 as int, l as int);
                lemma_comp_le_len(p.z as int, n2 as int, l as int);
                lemma_unit_comp(p.x as int, l as int);
                lemma_unit_comp(p.y as int, l as int);
                lemma_unit_comp(p.z as int, l as int);
            }
            let x = div_trunc((p.x as i128) * 1024, l as i128);
            let y = div_trunc((p.y as i128) * 1024, l as i128);
            let z = div_trunc((p.z as i128) * 1024, l as i128);
            let v = Vec3 { x: x as i64, y: y as i64, z: z as i64 };
            proof {
                assert(is_normalized_draw(v, p));
            }
            return v;
        }
        i = i + 1;
    }
    let v = Vec3 { x: 1024, y: 0, z: 0 };
    proof {
        let q = Vec3 { x: 512i64, y: 0i64, z: 0i64 };
        assert(dot3(512, 0, 0, 512, 0, 0) == 262144) by (nonlinear_arith);
        assert(262144 == 512 * 512) by (nonlinear_arith);
        assert(262144 < (512 + 1) * (512 + 1)) by (nonlinear_arith);
        lemma_sqrt_unique(262144, 512);
        assert(512i64 * 1024 == 1024 * 512) by (nonlinear_arith);
        lemma_tdiv_exact(1024, 512);
        assert(0i64 * 1024 == 0 * 512) by (nonlinear_arith);
        lemma_tdiv_exact(0, 512);
        assert(is_normalized_draw(v, q));
    }
    v
}

/// A random in-sphere direction flipped, if needed, onto the side of the
/// given normal: it stays strictly inside the unit ball, and its
/// fixed-point dot product with the normal is nonnegative.
pub fn random_in_hemisphere(normal: Vec3) -> (v: Vec3)
    requires
        normal.in_range(0x800000000),
    ensures
        v.in_range(SCALE as int),
        0 < dot3(v.x as int, v.y as int, v.z as int, v.x as int, v.y as int, v.z as int)
            < 1048576,
        tdiv(
            dot3(
                v.x as int,
                v.y as int,
                v.z as int,
                normal.x as int,
                normal.y as int,
                normal.z as int,
            ),
            SCALE as int,
        ) >= 0,
{
    let in_unit_sphere = random_in_unit_sphere();
    let d = in_unit_sphere.dot(normal);
    if d > 0 {
        in_unit_sphere
    } else {
        let flipped = in_unit_sphere.neg();
        proof {
            assert(dot3(
                -in_unit_sphere.x as int,
                -in_unit_sphere.y as int,
                -in_unit_sphere.z as int,
                -in_unit_sphere.x as int,
                -in_unit_sphere.y as int,
                -in_unit_sphere.z as int,
            ) == dot3(
                in_unit_sphere.x as int,
                in_unit_sphere.y as int,
                in_unit_sphere.z as int,
                in_unit_sphere.x as int,
                in_unit_sphere.y as int,
                in_unit_sphere.z as int,
            )) by (nonlinear_arith);
            assert(dot3(
                -in_unit_sphere.x as int,
                -in_unit_sphere.y as int,
                -in_unit_sphere.z as int,
                normal.x as int,
                normal.y as int,
                normal.z as int,
            ) == -dot3(
                in_unit_sphere.x as int,
                in_unit_sphere.y as int,
                in_unit_sphere.z as int,
                normal.x as int,
                normal.y as int,
                normal.z as int,
            )) by (nonlinear_arith);
            lemma_tdiv_neg(
                dot3(
                    in_unit_sphere.x as int,
                    in_unit_sphere.y as int,
                    in_unit_sphere.z as int,
                    normal.x as int,
                    normal.y as int,
                    normal.z as int,
                ),
                SCALE as int,
            );
        }
        flipped
    }
}

} // verus!
