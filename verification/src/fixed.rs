//! Fixed-point scalar arithmetic: truncating division and integer square
//! roots, with the spec functions the rest of the crate's contracts use.

use vstd::prelude::*;
use vstd::arithmetic::div_mod::lemma_div_is_ordered;
use vstd::arithmetic::div_mod::lemma_div_multiples_vanish;

verus! {

/// Number of fixed-point units per world unit.
pub const SCALE: i64 = 1024;

/// Absolute value of a mathematical integer.
pub open spec fn iabs(a: int) -> int {
    if a >= 0 { a } else { -a }
}

/// Division truncating toward zero, as Rust's `/` rounds.
pub open spec fn tdiv(a: int, b: int) -> int
    recommends
        b != 0,
{
    if (a >= 0) == (b >= 0) {
        iabs(a) / iabs(b)
    } else {
        -(iabs(a) / iabs(b))
    }
}

/// Floor of the square root of a nonnegative integer.
pub open spec fn sqrt_spec(n: int) -> int
    decreases n,
{
    if n <= 0 {
        0
    } else {
        let s = sqrt_spec(n - 1);
        if (s + 1) * (s + 1) <= n {
            s + 1
        } else {
            s
        }
    }
}

pub proof fn lemma_sqrt_spec_bracket(n: int)
    requires
        n >= 0,
    ensures
        sqrt_spec(n) >= 0,
        sqrt_spec(n) * sqrt_spec(n) <= n,
        n < (sqrt_spec(n) + 1) * (sqrt_spec(n) + 1),
    decreases n,
{
    if n == 0 {
    } else {
        lemma_sqrt_spec_bracket(n - 1);
        let s = sqrt_spec(n - 1);
        if (s + 1) * (s + 1) <= n {
            assert(n < (s + 2) * (s + 2)) by (nonlinear_arith)
                requires
                    n - 1 < (s + 1) * (s + 1),
                    s >= 0,
            ;
        }
    }
}

pub proof fn lemma_sqrt_unique(n: int, r: int)
    requires
        n >= 0,
        r >= 0,
        r * r <= n,
        n < (r + 1) * (r + 1),
    ensures
        r == sqrt_spec(n),
{
    lemma_sqrt_spec_bracket(n);
    let s = sqrt_spec(n);
    assert(r == s) by (nonlinear_arith)
        requires
            r >= 0,
            s >= 0,
            r * r <= n,
            n < (r + 1) * (r + 1),
            s * s <= n,
            n < (s + 1) * (s + 1),
    ;
}

/// Truncating division on machine integers; the divisor must be nonzero.
pub fn div_trunc(a: i128, b: i128) -> (r: i128)
    requires
        b != 0,
        a > i128::MIN,
        b > i128::MIN,
    ensures
        r == tdiv(a as int, b as int),
{
    let an: u128 = if a >= 0 { a as u128 } else { (-a) as u128 };
    let bn: u128 = if b >= 0 { b as u128 } else { (-b) as u128 };
    let q: u128 = an / bn;
    assert(q <= an);
    if (a >= 0) == (b >= 0) {
        q as i128
    } else {
        -(q as i128)
    }
}

pub proof fn lemma_tdiv_exact(a: int, b: int)
    requires
        b != 0,
    ensures
        tdiv(a * b, b) == a,
{
    lemma_div_multiples_vanish(iabs(a), iabs(b));
    assert(iabs(a * b) == iabs(a) * iabs(b)) by (nonlinear_arith);
    assert((iabs(a) * iabs(b)) / iabs(b) == iabs(a)) by {
        assert(iabs(b) * iabs(a) == iabs(a) * iabs(b)) by (nonlinear_arith);
    }
    if a == 0 {
        assert(a * b == 0) by (nonlinear_arith)
            requires
                a == 0,
        ;
    } else {
        assert(((a * b) >= 0) == ((a >= 0) == (b >= 0))) by (nonlinear_arith)
            requires
                a != 0,
                b != 0,
        ;
    }
}

pub proof fn lemma_tdiv_mono(a1: int, a2: int, b: int)
    requires
        a1 <= a2,
        b > 0,
    ensures
        tdiv(a1, b) <= tdiv(a2, b),
{
    if a1 >= 0 {
        lemma_div_is_ordered(a1, a2, b);
    } else if a2 < 0 {
        lemma_div_is_ordered(-a2, -a1, b);
    } else {
        assert(iabs(a1) / b >= 0) by (nonlinear_arith)
            requires
                b > 0,
                iabs(a1) >= 0,
        ;
        assert(iabs(a2) / b >= 0) by (nonlinear_arith)
            requires
                b > 0,
                iabs(a2) >= 0,
        ;
    }
}

pub proof fn lemma_tdiv_abs(a: int, b: int)
    requires
        b != 0,
    ensures
        iabs(tdiv(a, b)) == iabs(a) / iabs(b),
        iabs(tdiv(a, b)) <= iabs(a),
{
    assert(iabs(a) / iabs(b) >= 0) by (nonlinear_arith)
        requires
            iabs(a) >= 0,
            iabs(b) >= 1,
    ;
    assert(iabs(a) / iabs(b) <= iabs(a)) by (nonlinear_arith)
        requires
            iabs(a) >= 0,
            iabs(b) >= 1,
    ;
}

pub proof fn lemma_mul_abs_bound(a: int, b: int, ba: int, bb: int)
    requires
        iabs(a) <= ba,
        iabs(b) <= bb,
        0 <= ba,
        0 <= bb,
    ensures
        iabs(a * b) <= ba * bb,
{
    assert(iabs(a * b) <= ba * bb) by (nonlinear_arith)
        requires
            iabs(a) <= ba,
            iabs(b) <= bb,
            0 <= ba,
            0 <= bb,
    ;
}

pub proof fn lemma_tdiv_neg(a: int, b: int)
    requires
        b != 0,
    ensures
        tdiv(-a, b) == -tdiv(a, b),
{
}

/// Floor of the square root, by bisection.
pub fn isqrt(n: u128) -> (r: u128)
    requires
        n < 0x1000000000000000000000000000000,
    ensures
        r * r <= n,
        n < (r + 1) * (r + 1),
        r == sqrt_spec(n as int),
        r < 0x2000000000000000,
{
    let mut lo: u128 = 0;
    let mut hi: u128 = 0x2000000000000000;
    assert(n < hi * hi) by (nonlinear_arith)
        requires
            n < 0x1000000000000000000000000000000,
            hi == 0x2000000000000000,
    ;
    while lo + 1 < hi
        invariant
            lo < hi,
            hi <= 0x2000000000000000,
            lo * lo <= n,
            n < hi * hi,
        decreases hi - lo,
    {
        let mid = lo + (hi - lo) / 2;
        assert(lo < mid < hi);
        assert(mid * mid < 0x10000000000000000000000000000000) by (nonlinear_arith)
            requires
                mid < 0x2000000000000000,
        ;
        if mid * mid <= n {
            lo = mid;
        } else {
            hi = mid;
        }
    }
    proof {
        lemma_sqrt_unique(n as int, lo as int);
    }
    lo
}

} // verus!
