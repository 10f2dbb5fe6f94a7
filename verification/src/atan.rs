//! The arctangent: a quadratic on `[-1, 1]`, carried to all arguments by
//! `atan(x) = sign(x) * pi / 2 - atan(1 / x)`, and to two arguments by
//! quadrant.

use vstd::prelude::*;
use vstd::arithmetic::power2::{lemma2_to64, lemma_pow2_adds, pow2};
use crate::arith::{fadd, fadd_spec, fdiv, fdiv_spec, fmul, fmul_spec, fsub, fsub_spec};
use crate::float::{
    flip_sign_nonnan, flip_sign_spec, INFINITY, is_finite, is_infinite, is_nan, is_sign_negative,
    is_zero, magnitude, magnitude_of, NEG_INFINITY, NEG_ZERO, negate_spec, ONE, sign_of,
};
use crate::laws::{
    below_pow2, lemma_fadd_bound, lemma_fadd_class, lemma_fadd_le, lemma_fadd_negate,
    lemma_fdiv_class, lemma_fdiv_negate_divisor, lemma_fdiv_ratio, lemma_fmul_class, lemma_fmul_le,
    lemma_fmul_negate, lemma_fmul_zero, lemma_fsub_bound, lemma_fsub_le, lemma_fsub_zero,
    lemma_nan_propagates, lemma_negate, lemma_scaled_product,
};
use crate::model::{lemma_scaled_increases, lemma_scaled_pack};
use crate::order::{feq, feq_spec, fgt, flt, flt_spec, lemma_key_order};

verus! {

/// The pattern of `pi`.
pub const PI: u32 = 0x4049_0fdb;

/// The pattern of `pi / 2`.
pub const FRAC_PI_2: u32 = 0x3fc9_0fdb;

/// The pattern of `pi / 4`.
pub const FRAC_PI_4: u32 = 0x3f49_0fdb;

/// The coefficient of the quadratic.
pub const ATAN_N2: u32 = 0x3e8b_c6a8;

/// The quadratic `(add - mul * |x|) * x`.
pub open spec fn atan_raw_with_spec(x: u32, add: u32, mul: u32) -> u32 {
    fmul_spec(fsub_spec(add, fmul_spec(mul, magnitude_of(x))), x)
}

/// The quadratic `(pi / 4 + n2 - n2 * |x|) * x`.
pub open spec fn atan_raw_spec(x: u32) -> u32 {
    atan_raw_with_spec(x, fadd_spec(FRAC_PI_4, ATAN_N2), ATAN_N2)
}

/// The arctangent over all patterns: the quadratic up to magnitude one,
/// beyond it `sign(x) * pi / 2` less the quadratic of `1 / x`.
pub open spec fn atan_spec(x: u32) -> u32 {
    if flt_spec(ONE, magnitude_of(x)) {
        fsub_spec(flip_sign_spec(x, FRAC_PI_2), atan_raw_spec(fdiv_spec(ONE, x)))
    } else {
        atan_raw_spec(x)
    }
}

/// The arctangent of `y / x` in the quadrant of the point `(x, y)`.
///
/// - `|y| < |x|`: the quadratic of `y / x`, with `pi` added for a negative
///   `x`, the `pi` taking the sign of `y`;
/// - `x` zero: for `y` zero, zero (positive `x`) or `pi` (negative `x`)
///   with the sign of `y`; for a NaN `y`, `y`; else `pi / 2` with the sign
///   of `y`;
/// - both infinite: `pi / 4` (positive `x`) or `3 pi / 4` (negative `x`)
///   with the sign of `y`;
/// - else: `pi / 2` with the sign of `y`, less the quadratic of `x / y`.
pub open spec fn atan2_spec(y: u32, x: u32) -> u32 {
    if flt_spec(magnitude_of(y), magnitude_of(x)) {
        let bias: u32 = if flt_spec(0, x) {
            0u32
        } else {
            PI
        };
        fadd_spec(flip_sign_spec(y, bias), atan_raw_spec(fdiv_spec(y, x)))
    } else if feq_spec(x, 0) {
        if feq_spec(y, 0) {
            let bias: u32 = if sign_of(x) {
                PI
            } else {
                0u32
            };
            flip_sign_spec(y, bias)
        } else if is_nan(y) {
            y
        } else {
            flip_sign_spec(y, FRAC_PI_2)
        }
    } else if is_infinite(y) && is_infinite(x) {
        flip_sign_spec(y, fsub_spec(FRAC_PI_2, flip_sign_spec(x, FRAC_PI_4)))
    } else {
        fsub_spec(flip_sign_spec(y, FRAC_PI_2), atan_raw_spec(fdiv_spec(x, y)))
    }
}

/// The constant term `pi / 4 + n2` of the quadratic is finite and
/// positive.
pub proof fn lemma_atan_offset()
    ensures
        is_finite(fadd_spec(FRAC_PI_4, ATAN_N2)),
        !sign_of(fadd_spec(FRAC_PI_4, ATAN_N2)),
{
    lemma_fadd_bound(FRAC_PI_4, ATAN_N2, 0);
    lemma_fadd_class(FRAC_PI_4, ATAN_N2);
}

/// The quadratic takes a zero to itself, and a NaN to a NaN.
pub proof fn lemma_atan_raw_special(x: u32)
    ensures
        is_zero(x) ==> atan_raw_spec(x) == x,
        is_nan(x) ==> is_nan(atan_raw_spec(x)),
{
    if is_zero(x) {
        let k: u32 = fadd_spec(FRAC_PI_4, ATAN_N2);
        lemma_atan_offset();
        lemma_fmul_zero(ATAN_N2, magnitude_of(x));
        assert(fmul_spec(ATAN_N2, magnitude_of(x)) == 0);
        lemma_fsub_zero(k, 0);
        lemma_fmul_zero(k, x);
    }
    if is_nan(x) {
        lemma_nan_propagates(fsub_spec(fadd_spec(FRAC_PI_4, ATAN_N2), fmul_spec(ATAN_N2, magnitude_of(x))), x);
    }
}

/// What the arctangent does at the special values: a NaN gives a NaN, a
/// zero gives the same zero, and the infinities give `pi / 2` with their
/// sign.
pub proof fn lemma_atan_special(x: u32)
    ensures
        is_nan(x) ==> is_nan(atan_spec(x)),
        is_zero(x) ==> atan_spec(x) == x,
        x == INFINITY ==> atan_spec(x) == FRAC_PI_2,
        x == NEG_INFINITY ==> atan_spec(x) == negate_spec(FRAC_PI_2),
{
    lemma_key_order(ONE, magnitude_of(x));
    lemma_atan_raw_special(x);
    if is_infinite(x) {
        let q: u32 = fdiv_spec(ONE, x);
        lemma_fdiv_class(ONE, x);
        lemma_atan_raw_special(q);
        lemma_fsub_zero(flip_sign_spec(x, FRAC_PI_2), q);
    }
}

/// A NaN in either argument gives a NaN.
pub proof fn lemma_atan2_nan(y: u32, x: u32)
    requires
        is_nan(y) || is_nan(x),
    ensures
        is_nan(atan2_spec(y, x)),
{
    lemma_key_order(magnitude_of(y), magnitude_of(x));
    if !(feq_spec(x, 0) && is_nan(y)) {
        let q: u32 = fdiv_spec(x, y);
        lemma_nan_propagates(x, y);
        lemma_atan_raw_special(q);
        lemma_nan_propagates(flip_sign_spec(y, FRAC_PI_2), atan_raw_spec(q));
    }
}

/// On the vertical axis: with `x` a zero, two zeros give zero (positive
/// `x`) or `pi` (negative `x`) with the sign of `y`, and any other `y`
/// that is no NaN gives `pi / 2` with its sign.
pub proof fn lemma_atan2_axis(y: u32, x: u32)
    requires
        is_zero(x),
        !is_nan(y),
    ensures
        atan2_spec(y, x) == if is_zero(y) {
            flip_sign_spec(
                y,
                if sign_of(x) {
                    PI
                } else {
                    0u32
                },
            )
        } else {
            flip_sign_spec(y, FRAC_PI_2)
        },
        atan2_spec(0, 0) == 0,
        atan2_spec(0, NEG_ZERO) == PI,
        atan2_spec(NEG_ZERO, 0) == NEG_ZERO,
        atan2_spec(NEG_ZERO, NEG_ZERO) == negate_spec(PI),
{
    lemma_key_order(magnitude_of(y), magnitude_of(x));
    lemma_key_order(x, 0);
    lemma_key_order(y, 0);
    lemma_key_order(0, 0);
    lemma_key_order(NEG_ZERO, 0);
    lemma_key_order(magnitude_of(0), magnitude_of(0));
    lemma_key_order(magnitude_of(0), magnitude_of(NEG_ZERO));
    lemma_key_order(magnitude_of(NEG_ZERO), magnitude_of(0));
    lemma_key_order(magnitude_of(NEG_ZERO), magnitude_of(NEG_ZERO));
}

/// The pattern of `1.34375`, which bounds the quadratic up to magnitude
/// one and lies below `pi / 2`.
pub const ATAN_RAW_BOUND: u32 = 0x3fac_0000;

/// Up to magnitude one the quadratic stays below `pi / 2`: `1.34375`
/// bounds it.
pub proof fn lemma_atan_raw_bound(x: u32)
    requires
        below_pow2(x, 0),
    ensures
        magnitude_of(atan_raw_spec(x)) <= ATAN_RAW_BOUND,
        below_pow2(atan_raw_spec(x), 1),
{
    let k: u32 = fadd_spec(FRAC_PI_4, ATAN_N2);
    let t: u32 = fmul_spec(ATAN_N2, magnitude_of(x));
    let c: u32 = fsub_spec(k, t);
    lemma2_to64();
    // the patterns that bound the steps, each a significand at a quantum
    lemma_scaled_pack(125, 0xc9_0fdb);
    lemma_scaled_pack(124, 0x8b_c6a8);
    lemma_scaled_pack(126, 0x88_0000);
    lemma_scaled_pack(126, 0x80_0000);
    lemma_scaled_pack(126, 0xac_0000);
    let kp: nat = 126 * 0x80_0000 + 0x88_0000;
    let one: nat = 126 * 0x80_0000 + 0x80_0000;
    let bound: nat = 126 * 0x80_0000 + 0xac_0000;
    assert(FRAC_PI_4 == 125 * 0x80_0000 + 0xc9_0fdb && ATAN_N2 == 124 * 0x80_0000 + 0x8b_c6a8
        && one == ONE && bound == ATAN_RAW_BOUND);
    lemma_pow2_adds(124, 1);
    lemma_pow2_adds(124, 2);
    let p: nat = pow2(124);
    // pi / 4 + n2 <= 1.0625
    assert(0xc9_0fdb * (p * 2) + 0x8b_c6a8 * p <= 0x88_0000 * (p * 4)) by (nonlinear_arith);
    lemma_fadd_le(FRAC_PI_4, ATAN_N2, FRAC_PI_4 as nat, ATAN_N2 as nat, kp);
    // n2 * |x| <= n2
    lemma_scaled_product(124, 0x8b_c6a8, 126, 0x80_0000, 124, 0x8b_c6a8, 23);
    lemma_fmul_le(ATAN_N2, magnitude_of(x), ATAN_N2 as nat, one, ATAN_N2 as nat);
    // the difference <= 1.34375
    assert(0x88_0000 * (p * 4) + 0x8b_c6a8 * p <= 0xac_0000 * (p * 4)) by (nonlinear_arith);
    lemma_fsub_le(k, t, kp, ATAN_N2 as nat, bound);
    // times x, of magnitude one at most
    lemma_scaled_product(126, 0xac_0000, 126, 0x80_0000, 126, 0xac_0000, 23);
    lemma_fmul_le(c, x, bound, one, bound);
}

/// The quadratic is odd: it changes its sign with its argument.
pub proof fn lemma_atan_raw_odd(x: u32)
    requires
        !is_nan(x),
    ensures
        !is_nan(atan_raw_spec(x)),
        atan_raw_spec(negate_spec(x)) == negate_spec(atan_raw_spec(x)),
{
    let k: u32 = fadd_spec(FRAC_PI_4, ATAN_N2);
    let t: u32 = fmul_spec(ATAN_N2, magnitude_of(x));
    let c: u32 = fsub_spec(k, t);
    lemma_negate(x);
    lemma_atan_offset();
    lemma_fmul_class(ATAN_N2, magnitude_of(x));
    lemma_negate(t);
    lemma_fadd_class(k, negate_spec(t));
    if is_zero(x) {
        assert(t == 0);
        lemma_fsub_zero(k, t);
    }
    lemma_fmul_class(c, x);
    lemma_fmul_negate(c, x);
}

/// The arctangent is odd: it changes its sign with its argument.
pub proof fn lemma_atan_odd(x: u32)
    requires
        !is_nan(x),
    ensures
        atan_spec(negate_spec(x)) == negate_spec(atan_spec(x)),
{
    lemma_negate(x);
    lemma_atan_raw_odd(x);
    lemma_key_order(ONE, magnitude_of(x));
    if flt_spec(ONE, magnitude_of(x)) {
        let f: u32 = flip_sign_spec(x, FRAC_PI_2);
        let q: u32 = fdiv_spec(ONE, x);
        let r: u32 = atan_raw_spec(q);
        let nr: u32 = negate_spec(r);
        lemma_fdiv_ratio(ONE, x);
        lemma_fdiv_negate_divisor(ONE, x);
        lemma_atan_raw_odd(q);
        lemma_atan_raw_bound(q);
        lemma_negate(r);
        lemma_negate(nr);
        lemma_negate(f);
        // the quadratic stays below pi / 2, so the difference is no zero
        lemma_scaled_increases(magnitude_of(r) as nat, magnitude_of(f) as nat);
        lemma_fadd_class(f, nr);
        lemma_fadd_negate(f, nr);
        assert(flip_sign_spec(negate_spec(x), FRAC_PI_2) == negate_spec(f));
    }
}

/// The arctangent of anything but a NaN is finite.
pub proof fn lemma_atan_finite(x: u32)
    requires
        !is_nan(x),
    ensures
        is_finite(atan_spec(x)),
{
    lemma_key_order(ONE, magnitude_of(x));
    if flt_spec(ONE, magnitude_of(x)) {
        let q: u32 = fdiv_spec(ONE, x);
        lemma_fdiv_ratio(ONE, x);
        lemma_atan_raw_bound(q);
        lemma_fsub_bound(flip_sign_spec(x, FRAC_PI_2), atan_raw_spec(q), 1);
    } else {
        lemma_atan_raw_bound(x);
    }
}

/// The four-quadrant arctangent of anything but NaNs is finite.
pub proof fn lemma_atan2_finite(y: u32, x: u32)
    requires
        !is_nan(y),
        !is_nan(x),
    ensures
        is_finite(atan2_spec(y, x)),
{
    lemma_key_order(magnitude_of(y), magnitude_of(x));
    lemma_key_order(x, 0);
    lemma_key_order(y, 0);
    if flt_spec(magnitude_of(y), magnitude_of(x)) {
        let q: u32 = fdiv_spec(y, x);
        let bias: u32 = if flt_spec(0, x) {
            0u32
        } else {
            PI
        };
        lemma_fdiv_ratio(y, x);
        lemma_atan_raw_bound(q);
        lemma_fadd_bound(flip_sign_spec(y, bias), atan_raw_spec(q), 2);
    } else if feq_spec(x, 0) {
    } else if is_infinite(y) && is_infinite(x) {
        lemma_fsub_bound(FRAC_PI_2, flip_sign_spec(x, FRAC_PI_4), 1);
    } else {
        let q: u32 = fdiv_spec(x, y);
        lemma_fdiv_ratio(x, y);
        lemma_atan_raw_bound(q);
        lemma_fsub_bound(flip_sign_spec(y, FRAC_PI_2), atan_raw_spec(q), 1);
    }
}

/// Computes the quadratic `(add - mul * |x|) * x`, the form of the
/// approximation with free coefficients.
pub fn atan_raw_with(x: u32, add: u32, mul: u32) -> (r: u32)
    ensures
        r == atan_raw_with_spec(x, add, mul),
{
    fmul(fsub(add, fmul(mul, magnitude(x))), x)
}

/// Computes an approximation of the arctangent for `|x| <= 1`.
///
/// Beyond that range the result is the same quadratic, and means
/// nothing: use [`atan`] where the argument is not known to be in range.
pub fn atan_raw(x: u32) -> (r: u32)
    ensures
        r == atan_raw_spec(x),
        magnitude_of(x) <= ONE ==> magnitude_of(r) <= ATAN_RAW_BOUND,
        is_nan(x) <==> is_nan(r),
        is_zero(x) ==> r == x,
{
    proof {
        lemma_atan_raw_special(x);
        if !is_nan(x) {
            lemma_atan_raw_odd(x);
        }
        if magnitude_of(x) <= ONE {
            lemma_atan_raw_bound(x);
        }
    }
    atan_raw_with(x, fadd(FRAC_PI_4, ATAN_N2), ATAN_N2)
}

/// Computes an approximation of the arctangent of `x`.
pub fn atan(x: u32) -> (r: u32)
    ensures
        r == atan_spec(x),
        is_nan(x) <==> is_nan(r),
        !is_nan(x) ==> is_finite(r),
        is_zero(x) ==> r == x,
        x == INFINITY ==> r == FRAC_PI_2,
        x == NEG_INFINITY ==> r == negate_spec(FRAC_PI_2),
{
    proof {
        lemma_atan_special(x);
        if !is_nan(x) {
            lemma_atan_finite(x);
        }
    }
    if fgt(magnitude(x), ONE) {
        // a NaN is not above one, so `x` is none here
        fsub(flip_sign_nonnan(x, FRAC_PI_2), atan_raw(fdiv(ONE, x)))
    } else {
        atan_raw(x)
    }
}

/// Computes an approximation of the four-quadrant arctangent of `y`
/// and `x`.
pub fn atan2(y: u32, x: u32) -> (r: u32)
    ensures
        r == atan2_spec(y, x),
        is_nan(y) || is_nan(x) <==> is_nan(r),
        !is_nan(y) && !is_nan(x) ==> is_finite(r),
        is_zero(y) && is_zero(x) ==> r == flip_sign_spec(
            y,
            if sign_of(x) {
                PI
            } else {
                0u32
            },
        ),
        is_zero(x) && !is_zero(y) && !is_nan(y) ==> r == flip_sign_spec(y, FRAC_PI_2),
{
    proof {
        if is_nan(y) || is_nan(x) {
            lemma_atan2_nan(y, x);
        } else {
            lemma_atan2_finite(y, x);
            if is_zero(x) {
                lemma_atan2_axis(y, x);
            }
        }
    }
    if flt(magnitude(y), magnitude(x)) {
        // `x` is no NaN and `y` is finite: no NaN comes of `y / x`
        let bias: u32 = if fgt(x, 0) {
            0
        } else {
            PI
        };
        fadd(flip_sign_nonnan(y, bias), atan_raw(fdiv(y, x)))
    } else if feq(x, 0) {
        if feq(y, 0) {
            let bias: u32 = if is_sign_negative(x) {
                PI
            } else {
                0
            };
            flip_sign_nonnan(y, bias)
        } else if is_nan(y) {
            y
        } else {
            flip_sign_nonnan(y, FRAC_PI_2)
        }
    } else if is_infinite(y) && is_infinite(x) {
        // no quotient to take, and the answer is a multiple of `pi / 4`
        flip_sign_nonnan(y, fsub(FRAC_PI_2, flip_sign_nonnan(x, FRAC_PI_4)))
    } else {
        // one of the two is a NaN, which goes through the quadratic, or
        // `|y| >= |x|`: take the arctangent of the inverse quotient
        fsub(flip_sign_nonnan(y, FRAC_PI_2), atan_raw(fdiv(x, y)))
    }
}

} // verus!
