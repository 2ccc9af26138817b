//! Fixed-point arithmetic for the simulation.
//!
//! A coordinate is an `i64` counting `SCALE`-ths of a pixel. Factors such
//! as damping and restitution are fixed-point fractions in `[0, SCALE]`
//! (`SCALE` standing for 1.0). Every operation here is exact integer
//! arithmetic with a proved absence of overflow.

use vstd::prelude::*;
use vstd::math::abs;

verus! {

/// Sub-units per pixel: the fixed-point scale (2^16).
pub const SCALE: i64 = 65536;

/// Largest coordinate magnitude the simulation works with (2^30 sub-units,
/// 16384 pixels). Every stored position stays within this world box.
pub const WORLD_LIMIT: i64 = 1073741824;

/// Truncating division (round toward zero), the rounding used throughout
/// the simulation. Only defined for positive divisors.
pub open spec fn div_trunc(a: int, b: int) -> int {
    if a >= 0 {
        a / b
    } else {
        -((-a) / b)
    }
}

/// The product of a coordinate and a fixed-point fraction.
pub open spec fn mul_frac(a: int, f: int) -> int {
    div_trunc(a * f, SCALE as int)
}

/// `v` clamped into `[lo, hi]`.
pub open spec fn clamp_spec(v: int, lo: int, hi: int) -> int {
    if v < lo {
        lo
    } else if v > hi {
        hi
    } else {
        v
    }
}

/// `v` clamped into the world box.
pub open spec fn world_clamp_spec(v: int) -> int {
    clamp_spec(v, -WORLD_LIMIT as int, WORLD_LIMIT as int)
}

/// Truncating division of `a` by a positive divisor `b`.
pub fn div_trunc_i64(a: i64, b: i64) -> (r: i64)
    requires
        b > 0,
        a > i64::MIN,
    ensures
        r == div_trunc(a as int, b as int),
        -abs(a as int) <= r <= abs(a as int),
{
    if a >= 0 {
        proof {
            vstd::arithmetic::div_mod::lemma_div_nonincreasing(a as int, b as int);
            vstd::arithmetic::div_mod::lemma_div_is_ordered_by_denominator(a as int, 1, b as int);
        }
        a / b
    } else {
        let neg = -a;
        proof {
            vstd::arithmetic::div_mod::lemma_div_nonincreasing(neg as int, b as int);
            vstd::arithmetic::div_mod::lemma_div_is_ordered_by_denominator(neg as int, 1, b as int);
        }
        -(neg / b)
    }
}

/// Multiplies a value by a fixed-point fraction in `[0, SCALE]`, rounding
/// toward zero. The result never exceeds the magnitude of `a`.
pub fn mul_frac_i64(a: i64, f: i64) -> (r: i64)
    requires
        0 <= f <= SCALE,
        -WORLD_LIMIT * 4 <= a <= WORLD_LIMIT * 4,
    ensures
        r == mul_frac(a as int, f as int),
        -abs(a as int) <= r <= abs(a as int),
{
    proof {
        assert(-WORLD_LIMIT * 4 * SCALE <= a * f <= WORLD_LIMIT * 4 * SCALE)
            by (nonlinear_arith)
            requires
                0 <= f <= SCALE,
                -WORLD_LIMIT * 4 <= a <= WORLD_LIMIT * 4,
        ;
    }
    let p = a * f;
    let r = div_trunc_i64(p, SCALE);
    proof {
        lemma_mul_frac_bound(a as int, f as int);
    }
    r
}

/// Scaling by a fraction in `[0, SCALE]` keeps the result between 0 and `a`:
/// it never overshoots `a` and never flips its sign.
pub proof fn lemma_mul_frac_bound(a: int, f: int)
    requires
        0 <= f <= SCALE,
    ensures
        -abs(a) <= mul_frac(a, f) <= abs(a),
        a >= 0 ==> 0 <= mul_frac(a, f) <= a,
        a < 0 ==> a <= mul_frac(a, f) <= 0,
{
    if a >= 0 {
        assert(a * f <= a * SCALE) by (nonlinear_arith)
            requires 0 <= f <= SCALE, a >= 0;
        assert(a * f >= 0) by (nonlinear_arith)
            requires f >= 0, a >= 0;
        vstd::arithmetic::div_mod::lemma_div_is_ordered(a * f, a * (SCALE as int), SCALE as int);
        vstd::arithmetic::div_mod::lemma_div_multiples_vanish(a, SCALE as int);
        vstd::arithmetic::div_mod::lemma_div_pos_is_pos(a * f, SCALE as int);
    } else {
        let n = -a;
        assert(n * f <= n * SCALE) by (nonlinear_arith)
            requires 0 <= f <= SCALE, n >= 0;
        assert(n * f >= 0) by (nonlinear_arith)
            requires f >= 0, n >= 0;
        vstd::arithmetic::div_mod::lemma_div_is_ordered(n * f, n * (SCALE as int), SCALE as int);
        vstd::arithmetic::div_mod::lemma_div_multiples_vanish(n, SCALE as int);
        vstd::arithmetic::div_mod::lemma_div_pos_is_pos(n * f, SCALE as int);
        assert(a * f == -(n * f)) by (nonlinear_arith)
            requires n == -a;
    }
}

/// A quotient by a positive divisor is bounded by any bound on the
/// dividend divided by that divisor: `|a| <= c * b` gives `|a / b| <= c`.
pub proof fn lemma_div_trunc_bound(a: int, b: int, c: int)
    requires
        b > 0,
        0 <= c,
        -c * b <= a <= c * b,
    ensures
        -c <= div_trunc(a, b) <= c,
{
    assert(-c * b == -(c * b)) by (nonlinear_arith);
    if a >= 0 {
        vstd::arithmetic::div_mod::lemma_div_is_ordered(a, c * b, b);
        vstd::arithmetic::div_mod::lemma_div_multiples_vanish(c, b);
        vstd::arithmetic::div_mod::lemma_div_pos_is_pos(a, b);
    } else {
        vstd::arithmetic::div_mod::lemma_div_is_ordered(-a, c * b, b);
        vstd::arithmetic::div_mod::lemma_div_multiples_vanish(c, b);
        vstd::arithmetic::div_mod::lemma_div_pos_is_pos(-a, b);
    }
}

/// The integer square root: the greatest `r` with `r * r <= n`.
pub open spec fn is_isqrt(n: int, r: int) -> bool {
    &&& 0 <= r
    &&& r * r <= n
    &&& n < (r + 1) * (r + 1)
}

/// Computes the integer square root of a nonnegative `i64` by binary
/// search.
pub fn isqrt_i64(n: i64) -> (r: i64)
    requires
        0 <= n,
    ensures
        is_isqrt(n as int, r as int),
        0 <= r <= n,
{
    let mut lo: i64 = 0;
    let mut hi: i64 = 3037000500;
    proof {
        assert((3037000500int) * 3037000500 > i64::MAX);
    }
    while lo + 1 < hi
        invariant
            0 <= lo < hi <= 3037000500,
            lo * lo <= n,
            (n as int) < (hi as int) * (hi as int),
        decreases hi - lo,
    {
        let mid = lo + (hi - lo) / 2;
        proof {
            assert((mid as int) * (mid as int) <= (3037000499int) * 3037000499)
                by (nonlinear_arith)
                requires 0 <= mid <= 3037000499int;
        }
        if mid * mid <= n {
            lo = mid;
        } else {
            hi = mid;
        }
    }
    proof {
        assert(lo <= n) by (nonlinear_arith)
            requires 0 <= lo, (lo as int) * (lo as int) <= n;
    }
    lo
}

/// The integer square root as a mathematical value (well defined for
/// nonnegative arguments by `lemma_isqrt_exists` and
/// `lemma_isqrt_unique`).
pub open spec fn sqrt_val(n: int) -> int {
    choose|r: int| is_isqrt(n, r)
}

/// A nonnegative integer has an integer square root, so `sqrt_val` picks
/// a genuine one.
pub proof fn lemma_isqrt_exists(n: int)
    requires
        0 <= n,
    ensures
        is_isqrt(n, sqrt_val(n)),
    decreases n,
{
    if n == 0 {
        assert(is_isqrt(0, 0));
    } else {
        lemma_isqrt_exists(n - 1);
        let r = sqrt_val(n - 1);
        if n < (r + 1) * (r + 1) {
            assert(is_isqrt(n, r));
        } else {
            assert(n == (r + 1) * (r + 1));
            assert((r + 2) * (r + 2) > (r + 1) * (r + 1)) by (nonlinear_arith)
                requires r >= 0;
            assert(is_isqrt(n, r + 1));
        }
    }
}

/// There is only one integer square root.
pub proof fn lemma_isqrt_unique(n: int, r1: int, r2: int)
    requires
        is_isqrt(n, r1),
        is_isqrt(n, r2),
    ensures
        r1 == r2,
{
    if r1 < r2 {
        assert((r1 + 1) * (r1 + 1) <= r2 * r2) by (nonlinear_arith)
            requires 0 <= r1, r1 + 1 <= r2;
    }
    if r2 < r1 {
        assert((r2 + 1) * (r2 + 1) <= r1 * r1) by (nonlinear_arith)
            requires 0 <= r2, r2 + 1 <= r1;
    }
}

/// The integer square root never exceeds the magnitude of either
/// component of the sum of squares it was taken from.
pub proof fn lemma_isqrt_component_bound(x: int, y: int, r: int)
    requires
        is_isqrt(x * x + y * y, r),
    ensures
        abs(x) <= r,
        abs(y) <= r,
{
    if abs(x) > r {
        assert((r + 1) * (r + 1) <= abs(x) * abs(x)) by (nonlinear_arith)
            requires 0 <= r, r + 1 <= abs(x);
        assert(abs(x) * abs(x) == x * x) by (nonlinear_arith);
        assert(y * y >= 0) by (nonlinear_arith);
    }
    if abs(y) > r {
        assert((r + 1) * (r + 1) <= abs(y) * abs(y)) by (nonlinear_arith)
            requires 0 <= r, r + 1 <= abs(y);
        assert(abs(y) * abs(y) == y * y) by (nonlinear_arith);
        assert(x * x >= 0) by (nonlinear_arith);
    }
}

/// Clamps `v` into `[lo, hi]`.
pub fn clamp_i64(v: i64, lo: i64, hi: i64) -> (r: i64)
    requires
        lo <= hi,
    ensures
        r == clamp_spec(v as int, lo as int, hi as int),
{
    if v < lo {
        lo
    } else if v > hi {
        hi
    } else {
        v
    }
}

/// Clamps `v` into the world box.
pub fn world_clamp_i64(v: i64) -> (r: i64)
    ensures
        r == world_clamp_spec(v as int),
        -WORLD_LIMIT <= r <= WORLD_LIMIT,
{
    clamp_i64(v, -WORLD_LIMIT, WORLD_LIMIT)
}

} // verus!
