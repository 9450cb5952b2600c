//! Fixed-point trigonometry for the engine.
//!
//! Angles are radians in the `FP_ONE` scale of `crate::fixed`.  The
//! quarter-turn constant is chosen first and the half and full turns are
//! exact doublings of it, so that the sine and cosine below are exact at
//! every multiple of a quarter turn.  `sin_fp` uses Bhaskara's rational
//! approximation, whose error stays below 0.0017 of the unit; `atan2_fp`
//! uses a quadratic arctangent approximation of similar accuracy.

use vstd::prelude::*;
use vstd::arithmetic::div_mod::lemma_fundamental_div_mod;
use vstd::arithmetic::div_mod::lemma_fundamental_div_mod_converse_mod;
use vstd::arithmetic::div_mod::lemma_div_is_ordered;
use vstd::arithmetic::div_mod::lemma_div_by_multiple;

verus! {

/// A quarter turn, pi/2, in fixed-point radians.
pub const FP_HALF_PI: i64 = 102944;

/// A half turn, pi, in fixed-point radians.
pub const FP_PI: i64 = 205888;

/// A full turn, 2*pi, in fixed-point radians.
pub const FP_TAU: i64 = 411776;

/// Euclidean remainder of an angle by a full turn, in `[0, FP_TAU)`.
pub open spec fn spec_reduce(a: int) -> int {
    a % 411776
}

/// Bhaskara's sine approximation on `[0, FP_PI]`, scaled by `FP_ONE`.
pub open spec fn spec_bhaskara(x: int) -> int {
    (16 * (x * (205888 - x)) * 65536) / (5 * 205888 * 205888 - 4 * (x * (205888 - x)))
}

/// Fixed-point sine of a fixed-point angle.
pub open spec fn spec_sin_fp(a: int) -> int {
    if spec_reduce(a) <= 205888 {
        spec_bhaskara(spec_reduce(a))
    } else {
        -spec_bhaskara(spec_reduce(a) - 205888)
    }
}

/// Fixed-point cosine of a fixed-point angle.
pub open spec fn spec_cos_fp(a: int) -> int {
    spec_sin_fp(a + 102944)
}

/// Reduces an angle to `[0, FP_TAU)` by whole turns.
pub fn reduce_angle(a: i64) -> (r: i64)
    requires
        -0x1000_0000_0000_0000 <= a <= 0x1000_0000_0000_0000,
    ensures
        r == spec_reduce(a as int),
        0 <= r < 411776,
{
    if a >= 0 {
        ((a as u64) % 411776) as i64
    } else {
        let n: u64 = (-a) as u64;
        let m: u64 = n % 411776;
        proof {
            lemma_fundamental_div_mod(n as int, 411776);
            let q = n as int / 411776;
            if m == 0 {
                assert(a as int == 411776 * (-q) + 0);
                lemma_fundamental_div_mod_converse_mod(a as int, 411776, -q, 0);
            } else {
                assert(a as int == 411776 * (-q - 1) + (411776 - m));
                lemma_fundamental_div_mod_converse_mod(a as int, 411776, -q - 1, 411776 - m);
            }
        }
        if m == 0 {
            0
        } else {
            411776 - (m as i64)
        }
    }
}

/// Bhaskara's sine on `[0, FP_PI]`; exact at `0`, `FP_HALF_PI` and `FP_PI`.
pub fn bhaskara(x: i64) -> (r: i64)
    requires
        0 <= x <= 205888,
    ensures
        r == spec_bhaskara(x as int),
        0 <= r <= 65536,
{
    proof {
        assert(x as int * (205888 - x as int) <= 102944 * 102944) by (nonlinear_arith)
            requires 0 <= x as int <= 205888;
        assert(x as int * (205888 - x as int) >= 0) by (nonlinear_arith)
            requires 0 <= x as int <= 205888;
    }
    let t: u64 = (x as u64) * (205888 - x as u64);
    proof {
        assert(t as int == x as int * (205888 - x as int));
    }
    let num: u64 = 16 * t * 65536;
    let den: u64 = 5 * 205888 * 205888 - 4 * t;
    proof {
        // 4 * t <= FP_PI^2, so the denominator stays above 4 * FP_PI^2 > 0
        // and the quotient stays at or below FP_ONE.
        assert(4 * (x as int * (205888 - x as int)) <= 205888 * 205888) by (nonlinear_arith)
            requires 0 <= x as int <= 205888;
        assert(num as int <= 65536 * den as int);
        lemma_div_is_ordered(num as int, 65536 * den as int, den as int);
        lemma_div_by_multiple(65536, den as int);
        assert((65536 * den as int) / den as int == 65536);
    }
    (num / den) as i64
}

/// Fixed-point sine; the result stays within one fixed-point unit.
pub fn sin_fp(a: i64) -> (r: i64)
    requires
        -0x1000_0000_0000_0000 <= a <= 0x1000_0000_0000_0000,
    ensures
        r == spec_sin_fp(a as int),
        -65536 <= r <= 65536,
{
    let red: i64 = reduce_angle(a);
    if red <= 205888 {
        bhaskara(red)
    } else {
        -bhaskara(red - 205888)
    }
}

/// Fixed-point cosine; the result stays within one fixed-point unit.
pub fn cos_fp(a: i64) -> (r: i64)
    requires
        -0x800_0000_0000_0000 <= a <= 0x800_0000_0000_0000,
    ensures
        r == spec_cos_fp(a as int),
        -65536 <= r <= 65536,
{
    sin_fp(a + 102944)
}

/// Quadratic arctangent approximation on `[0, FP_ONE]`, in fixed-point
/// radians; exact at `0`, close to a one-eighth turn at `FP_ONE`.
pub open spec fn spec_atan_small(z: int) -> int {
    (51472 * z + 17891 * ((z * (65536 - z)) / 65536)) / 65536
}

/// Arctangent of a ratio in `[0, FP_ONE]`.
pub fn atan_small(z: i64) -> (r: i64)
    requires
        0 <= z <= 65536,
    ensures
        r == spec_atan_small(z as int),
        0 <= r <= 55945,
{
    let zu: u64 = z as u64;
    proof {
        assert(z as int * (65536 - z as int) <= 32768 * 32768) by (nonlinear_arith)
            requires 0 <= z as int <= 65536;
        assert(z as int * (65536 - z as int) >= 0) by (nonlinear_arith)
            requires 0 <= z as int <= 65536;
    }
    let t: u64 = (zu * (65536 - zu)) / 65536;
    proof {
        lemma_div_is_ordered(zu as int * (65536 - zu as int), (32768 * 32768) as int, 65536);
        assert(t <= 16384);
    }
    let num: u64 = 51472 * zu + 17891 * t;
    proof {
        assert(num as int <= 51472 * 65536 + 17891 * 16384);
        lemma_div_is_ordered(num as int, (51472 * 65536 + 17891 * 16384) as int, 65536);
    }
    (num / 65536) as i64
}

/// Fixed-point two-argument arctangent, mirrored by `atan2_fp`.
pub open spec fn spec_atan2_fp(y: int, x: int) -> int {
    let ax = crate::fixed::iabs(x);
    let ay = crate::fixed::iabs(y);
    if ay <= ax {
        let b = spec_atan_small((ay * 65536) / ax);
        if x >= 0 {
            if y >= 0 { b } else { -b }
        } else {
            if y >= 0 { 205888 - b } else { -(205888 - b) }
        }
    } else {
        let b = spec_atan_small((ax * 65536) / ay);
        let m = if x >= 0 { 102944 - b } else { 102944 + b };
        if y >= 0 { m } else { -m }
    }
}

/// Angle of the vector `(x, y)` from the positive x axis, in
/// `[-FP_PI, FP_PI]`, positive toward positive y.
pub fn atan2_fp(y: i64, x: i64) -> (r: i64)
    requires
        -0x4000_0000 <= y <= 0x4000_0000,
        -0x4000_0000 <= x <= 0x4000_0000,
        !(y == 0 && x == 0),
    ensures
        r == spec_atan2_fp(y as int, x as int),
        -205888 <= r <= 205888,
{
    let ax: u64 = (if x < 0 { -x } else { x }) as u64;
    let ay: u64 = (if y < 0 { -y } else { y }) as u64;
    if ay <= ax {
        proof {
            assert(ay as int * 65536 <= ax as int * 65536) by (nonlinear_arith)
                requires ay as int <= ax as int;
            lemma_div_is_ordered(ay as int * 65536, ax as int * 65536, ax as int);
            lemma_div_by_multiple(65536, ax as int);
        }
        let z: u64 = (ay * 65536) / ax;
        let b: i64 = atan_small(z as i64);
        if x >= 0 {
            if y >= 0 { b } else { -b }
        } else {
            if y >= 0 { 205888 - b } else { -(205888 - b) }
        }
    } else {
        proof {
            assert(ax as int * 65536 <= ay as int * 65536) by (nonlinear_arith)
                requires ax as int <= ay as int;
            lemma_div_is_ordered(ax as int * 65536, ay as int * 65536, ay as int);
            lemma_div_by_multiple(65536, ay as int);
        }
        let z: u64 = (ax * 65536) / ay;
        let b: i64 = atan_small(z as i64);
        let m: i64 = if x >= 0 { 102944 - b } else { 102944 + b };
        if y >= 0 { m } else { -m }
    }
}

/// Integer square root: the greatest `r` with `r * r <= n`.
pub fn isqrt(n: u64) -> (r: u64)
    ensures
        r * r <= n,
        n < (r + 1) * (r + 1),
        r <= 0xFFFF_FFFF,
{
    let mut lo: u64 = 0;
    let mut hi: u64 = 0x1_0000_0000;
    while lo + 1 < hi
        invariant
            lo < hi <= 0x1_0000_0000,
            lo * lo <= n,
            n < hi * hi,
        decreases hi - lo,
    {
        let mid: u64 = lo + (hi - lo) / 2;
        proof {
            assert((mid as int) * (mid as int) < 0x1_0000_0000 * 0x1_0000_0000) by (nonlinear_arith)
                requires 0 <= mid as int && (mid as int) < 0x1_0000_0000;
        }
        if mid * mid <= n {
            lo = mid;
        } else {
            hi = mid;
        }
    }
    lo
}

} // verus!
