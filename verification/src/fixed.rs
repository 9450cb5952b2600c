//! Fixed-point arithmetic for tile-space coordinates and angles.
//!
//! One tile unit (and the value 1.0 of any dimensionless ratio) is
//! represented as `FP_ONE` = 2^16.  All quantities of the engine --
//! positions, distances, angles in radians, trigonometric ratios -- are
//! `i64` values in this scale.  Products and quotients truncate toward
//! zero, like the hardware operations they stand in for.

use vstd::prelude::*;

verus! {

/// The fixed-point unit: 1.0 in tile units.
pub const FP_ONE: i64 = 65536;

/// Absolute value of a mathematical integer.
pub open spec fn iabs(a: int) -> int {
    if a < 0 {
        -a
    } else {
        a
    }
}

/// Truncating fixed-point product: `a * b / FP_ONE`, rounded toward zero.
pub open spec fn spec_fp_mul(a: int, b: int) -> int {
    if a * b >= 0 {
        (a * b) / 65536
    } else {
        -((-(a * b)) / 65536)
    }
}

/// Truncating fixed-point quotient: `a * FP_ONE / b`, rounded toward zero.
pub open spec fn spec_fp_div(a: int, b: int) -> int {
    if (a >= 0) == (b >= 0) {
        (iabs(a) * 65536) / iabs(b)
    } else {
        -((iabs(a) * 65536) / iabs(b))
    }
}

/// Fixed-point multiplication, truncated toward zero.
pub fn fp_mul(a: i64, b: i64) -> (r: i64)
    requires
        -0x4000_0000 <= a <= 0x4000_0000,
        -0x4000_0000 <= b <= 0x4000_0000,
    ensures
        r == spec_fp_mul(a as int, b as int),
        -0x4000_0000_0000 <= r <= 0x4000_0000_0000,
{
    let ua: u64 = (if a < 0 { -a } else { a }) as u64;
    let ub: u64 = (if b < 0 { -b } else { b }) as u64;
    proof {
        assert(ua as int * ub as int <= 0x4000_0000 * 0x4000_0000) by (nonlinear_arith)
            requires
                0 <= ua as int <= 0x4000_0000,
                0 <= ub as int <= 0x4000_0000;
        assert(ua as int * ub as int == iabs(a as int * b as int)) by (nonlinear_arith)
            requires
                ua as int == iabs(a as int),
                ub as int == iabs(b as int);
    }
    let m: u64 = (ua * ub) / 65536;
    let mi: i64 = m as i64;
    proof {
        assert(m as int <= 0x4000_0000_0000) by (nonlinear_arith)
            requires
                m as int == (ua as int * ub as int) / 65536,
                ua as int * ub as int <= 0x4000_0000 * 0x4000_0000;
        assert(iabs(a as int * b as int) / 65536 == if a as int * b as int >= 0 {
            (a as int * b as int) / 65536
        } else {
            (-(a as int * b as int)) / 65536
        });
    }
    if (a < 0) != (b < 0) {
        proof {
            assert(a as int * b as int <= 0) by (nonlinear_arith)
                requires (a < 0 && b >= 0) || (a >= 0 && b < 0);
        }
        -mi
    } else {
        proof {
            assert(a as int * b as int >= 0) by (nonlinear_arith)
                requires (a < 0 && b < 0) || (a >= 0 && b >= 0);
            assert((-(a as int * b as int)) / 65536 == 0 ==> mi == 0);
        }
        mi
    }
}

/// Fixed-point multiplication for a wide first factor and a factor of
/// at most one unit; the magnitude cannot grow.
pub fn fp_mul_wide(a: i64, b: i64) -> (r: i64)
    requires
        -0x2000_0000_0000 <= a <= 0x2000_0000_0000,
        -65536 <= b <= 65536,
    ensures
        r == spec_fp_mul(a as int, b as int),
        iabs(r as int) <= iabs(a as int),
{
    let ua: u64 = (if a < 0 { -a } else { a }) as u64;
    let ub: u64 = (if b < 0 { -b } else { b }) as u64;
    proof {
        assert(ua as int * ub as int <= 0x2000_0000_0000 * 65536) by (nonlinear_arith)
            requires
                0 <= ua as int <= 0x2000_0000_0000,
                0 <= ub as int <= 65536;
        assert(ua as int * ub as int == iabs(a as int * b as int)) by (nonlinear_arith)
            requires
                ua as int == iabs(a as int),
                ub as int == iabs(b as int);
    }
    let m: u64 = (ua * ub) / 65536;
    proof {
        assert(ua as int * ub as int <= ua as int * 65536) by (nonlinear_arith)
            requires
                0 <= ua as int,
                0 <= ub as int <= 65536;
        assert(m as int <= (ua as int * 65536) / 65536) by {
            vstd::arithmetic::div_mod::lemma_div_is_ordered(
                ua as int * ub as int,
                ua as int * 65536,
                65536,
            );
        }
        assert((ua as int * 65536) / 65536 == ua as int) by {
            vstd::arithmetic::div_mod::lemma_div_by_multiple(ua as int, 65536);
        }
    }
    let mi: i64 = m as i64;
    if (a < 0) != (b < 0) {
        proof {
            assert(a as int * b as int <= 0) by (nonlinear_arith)
                requires (a < 0 && b >= 0) || (a >= 0 && b < 0);
        }
        -mi
    } else {
        proof {
            assert(a as int * b as int >= 0) by (nonlinear_arith)
                requires (a < 0 && b < 0) || (a >= 0 && b >= 0);
            assert((-(a as int * b as int)) / 65536 == 0 ==> mi == 0);
        }
        mi
    }
}

/// Fixed-point division, truncated toward zero.
pub fn fp_div(a: i64, b: i64) -> (r: i64)
    requires
        -0x100_0000_0000 <= a <= 0x100_0000_0000,
        b != 0,
        -0x4000_0000 <= b <= 0x4000_0000,
    ensures
        r == spec_fp_div(a as int, b as int),
        iabs(r as int) <= iabs(a as int) * 65536,
{
    let ua: u64 = (if a < 0 { -a } else { a }) as u64;
    let ub: u64 = (if b < 0 { -b } else { b }) as u64;
    proof {
        assert(ua * 65536 <= 0x100_0000_0000 * 65536) by (nonlinear_arith)
            requires ua <= 0x100_0000_0000;
    }
    let q: u64 = (ua * 65536) / ub;
    proof {
        assert(q as int <= ua as int * 65536) by (nonlinear_arith)
            requires
                q as int == (ua as int * 65536) / (ub as int),
                ub as int >= 1,
                ua as int >= 0;
        assert(q as int >= 0);
        assert(ua as int == iabs(a as int));
    }
    let qi: i64 = q as i64;
    if (a < 0) != (b < 0) {
        -qi
    } else {
        qi
    }
}

/// Tile-cell index of a nonnegative fixed-point coordinate.
pub fn fp_cell(v: i64) -> (c: i64)
    requires
        0 <= v,
    ensures
        c == v as int / 65536,
        0 <= c,
{
    ((v as u64) / 65536) as i64
}

/// Fractional part of a nonnegative fixed-point coordinate, in `[0, FP_ONE)`.
pub fn fp_fract(v: i64) -> (f: i64)
    requires
        0 <= v,
    ensures
        f == v as int % 65536,
        0 <= f < 65536,
{
    ((v as u64) % 65536) as i64
}

/// Fractional part of any fixed-point coordinate, in `[0, FP_ONE)`,
/// measured from the cell's low edge (Euclidean remainder).
pub fn fp_fract_any(v: i64) -> (f: i64)
    requires
        -0x4000_0000_0000_0000 <= v <= 0x4000_0000_0000_0000,
    ensures
        f == v as int % 65536,
        0 <= f < 65536,
{
    if v >= 0 {
        ((v as u64) % 65536) as i64
    } else {
        let n: u64 = (-v) as u64;
        let m: u64 = n % 65536;
        proof {
            vstd::arithmetic::div_mod::lemma_fundamental_div_mod(n as int, 65536);
            let q = n as int / 65536;
            if m == 0 {
                assert(v as int == 65536 * (-q) + 0);
                vstd::arithmetic::div_mod::lemma_fundamental_div_mod_converse_mod(
                    v as int,
                    65536,
                    -q,
                    0,
                );
            } else {
                assert(v as int == 65536 * (-q - 1) + (65536 - m));
                vstd::arithmetic::div_mod::lemma_fundamental_div_mod_converse_mod(
                    v as int,
                    65536,
                    -q - 1,
                    65536 - m,
                );
            }
        }
        if m == 0 {
            0
        } else {
            65536 - (m as i64)
        }
    }
}

/// Builds a fixed-point value from thousandths of a tile unit.
pub fn fp_from_milli(m: i64) -> (r: i64)
    requires
        0 <= m <= 0x1_0000_0000,
    ensures
        r == (m as int * 65536) / 1000,
        0 <= r,
{
    proof {
        assert(m as u64 * 65536 <= 0x1_0000_0000 * 65536) by (nonlinear_arith)
            requires m as u64 <= 0x1_0000_0000;
    }
    (((m as u64) * 65536) / 1000) as i64
}

} // verus!
