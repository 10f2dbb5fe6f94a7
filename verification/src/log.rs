//! The base-2 logarithm: the exponent of the argument, and a quadratic in
//! its significand.

use vstd::prelude::*;
use vstd::arithmetic::power2::{lemma2_to64, lemma_pow2_adds, lemma_pow2_pos, pow2};
use crate::arith::{fadd, fadd_spec, fmul, fmul_spec, fsub, fsub_spec, normalize, value_of};
use crate::convert::{
    from_i32, from_i32_spec, lemma_from_i32_bound, lemma_from_i32_exact, lemma_normalise,
};
use crate::float::{
    decompose, exponent_of, INFINITY, is_finite, is_nan, is_zero, lemma_fields,
    lemma_recompose_fields, lemma_recompose_normalised, NAN, NEG_INFINITY, NEG_ZERO, negate_spec,
    ONE, recompose, recompose_spec, sign_of, significand_of,
};
use crate::laws::{
    below_pow2, lemma_fadd_bound, lemma_fadd_exact, lemma_fadd_zero, lemma_fmul_bound,
    lemma_fmul_zero, lemma_fsub_bound, lemma_fsub_self, lemma_magnitude_zero,
};
use crate::model::{lemma_round_at, lemma_scaled_pack};
use crate::round::lemma_pow2_le;

verus! {

/// The fitted coefficient of the square of the normalised significand.
pub const LOG2_A: u32 = 0xbf21_3248;

/// The fitted coefficient of the normalised significand.
pub const LOG2_B: u32 = 0x3fbb_c593;

/// The pattern of `-126`, the exponent of the subnormal range.
pub const SUBNORMAL_EXPONENT: u32 = 0xc2fc_0000;

/// The pattern of `-149`, the exponent of the smallest subnormal.
pub const SMALLEST_EXPONENT: u32 = 0xc315_0000;

/// The fast path of the logarithm with the coefficients `a` and `b`.
///
/// With `h` the highest bit of the significand, the argument is
/// `2^(exponent - 127 + h) * v`, where `v` has the significand of the
/// argument and lies between one and one and a half (`h == 0`), or
/// between three quarters and one (`h == 1`). The result is
/// `exponent - 127 + h + n * (b + a * n)` with `n = v - 1`.
pub open spec fn log2_raw_with_spec(x: u32, a: u32, b: u32) -> u32 {
    let high_bit: u8 = if significand_of(x) >= 0x40_0000 {
        1u8
    } else {
        0u8
    };
    let add_exp: int = exponent_of(x) + high_bit - 127;
    let normalised: u32 = fsub_spec(
        recompose_spec(false, (0x7f - high_bit) as u8, significand_of(x)),
        ONE,
    );
    fadd_spec(
        from_i32_spec(add_exp as i32),
        fmul_spec(normalised, fadd_spec(b, fmul_spec(a, normalised))),
    )
}

/// The fast path of the logarithm, with the fitted coefficients.
pub open spec fn log2_raw_spec(x: u32) -> u32 {
    log2_raw_with_spec(x, LOG2_A, LOG2_B)
}

/// The number of doublings that bring a nonzero significand `m` of a
/// subnormal into the range of the normal ones, from `2^23` on.
pub open spec fn shift_to_normal(m: nat) -> nat
    decreases
        (if m < 0x80_0000 {
            0x80_0000 - m
        } else {
            0
        }),
{
    if m == 0 || m >= 0x80_0000 {
        0
    } else {
        1 + shift_to_normal(2 * m)
    }
}

/// The logarithm of the value with a zero exponent field and the
/// significand `signif`: minus infinity for zero; for a subnormal, the
/// exponent `-126 - shift` of its leading bit plus the logarithm of the
/// value between one and two that has its significand.
pub open spec fn log2_exp_0_spec(signif: u32) -> u32 {
    if signif == 0 {
        NEG_INFINITY
    } else {
        let zeros: nat = shift_to_normal(signif as nat);
        fadd_spec(
            fsub_spec(SUBNORMAL_EXPONENT, from_i32_spec(zeros as i32)),
            log2_raw_spec(recompose_spec(false, 127, (signif * pow2(zeros)) as u32)),
        )
    }
}

/// The logarithm over all patterns: minus infinity for a zero of either
/// sign, NaN for every other negative argument and for a NaN, infinity for
/// infinity, and the approximation for every positive finite value.
pub open spec fn log2_spec(x: u32) -> u32 {
    if is_zero(x) {
        NEG_INFINITY
    } else if sign_of(x) {
        NAN
    } else if exponent_of(x) == 0 {
        log2_exp_0_spec(significand_of(x))
    } else if exponent_of(x) == 0xff {
        if significand_of(x) == 0 {
            INFINITY
        } else {
            NAN
        }
    } else {
        log2_raw_spec(x)
    }
}

/// The shift that normalises `m` is the one that puts its leading bit
/// at bit 23.
pub proof fn lemma_shift_to_normal(m: nat, l: nat)
    requires
        m > 0,
        0x80_0000 <= m * pow2(l) < 0x100_0000,
    ensures
        shift_to_normal(m) == l,
    decreases l,
{
    lemma2_to64();
    if l == 0 {
        assert(m * pow2(0) == m);
    } else {
        lemma_pow2_adds(1, (l - 1) as nat);
        lemma_pow2_pos((l - 1) as nat);
        assert(m * pow2(l) == (2 * m) * pow2((l - 1) as nat)) by (nonlinear_arith)
            requires
                pow2(l) == 2 * pow2((l - 1) as nat),
        ;
        assert(m * pow2(l) >= 2 * m) by (nonlinear_arith)
            requires
                pow2(l) == 2 * pow2((l - 1) as nat),
                pow2((l - 1) as nat) >= 1,
                m > 0,
        ;
        lemma_shift_to_normal(2 * m, (l - 1) as nat);
    }
}

/// The fast path takes a value with a zero significand field, a power of
/// two, to the integer `exponent - 127`, exactly.
pub proof fn lemma_log2_raw_power_of_two(x: u32)
    requires
        significand_of(x) == 0,
    ensures
        log2_raw_spec(x) == from_i32_spec((exponent_of(x) - 127) as i32),
{
    let i: i32 = (exponent_of(x) - 127) as i32;
    let k: u32 = from_i32_spec(i);
    lemma_recompose_fields(false, 0x7f, 0);
    assert(recompose_spec(false, 0x7f, 0) == ONE);
    lemma_fsub_self(ONE);
    lemma_fmul_zero(LOG2_A, 0);
    assert(fmul_spec(LOG2_A, 0) == NEG_ZERO);
    lemma_fadd_zero(LOG2_B, NEG_ZERO);
    lemma_fmul_zero(LOG2_B, 0);
    assert(fmul_spec(0, LOG2_B) == 0);
    lemma_from_i32_exact(i);
    if i != 0 {
        lemma_pow2_pos(149);
        assert(i * pow2(149) != 0) by (nonlinear_arith)
            requires
                i != 0,
                pow2(149) > 0,
        ;
        assert(value_of(NEG_ZERO) == 0);
    }
    lemma_fadd_zero(k, 0);
}

/// The pattern of `-126` stands for that integer.
proof fn lemma_subnormal_exponent()
    ensures
        value_of(SUBNORMAL_EXPONENT) == -126 * pow2(149),
{
    lemma2_to64();
    lemma_scaled_pack(132, 0xfc_0000);
    lemma_pow2_adds(17, 132);
    let p: nat = pow2(132);
    assert(0xfc_0000 * p == 126 * (0x2_0000 * p)) by (nonlinear_arith);
}

/// The logarithm of a subnormal power of two, the significand `2^j`
/// alone, is the integer `j - 149`, exactly.
pub proof fn lemma_log2_subnormal_power_of_two(signif: u32, j: nat)
    requires
        j < 23,
        signif == pow2(j),
    ensures
        log2_exp_0_spec(signif) == from_i32_spec((j - 149) as i32),
{
    let l: nat = (23 - j) as nat;
    lemma2_to64();
    lemma_pow2_pos(j);
    lemma_pow2_adds(j, l);
    lemma_shift_to_normal(signif as nat, l);
    assert(signif * pow2(l) == 0x80_0000);
    lemma_recompose_normalised(false, 0x80_0000);
    let one: u32 = recompose_spec(false, 127, 0x80_0000);
    assert(one == ONE);
    lemma_fields(ONE);
    lemma_log2_raw_power_of_two(ONE);
    lemma_from_i32_exact(0);
    assert(log2_raw_spec(ONE) == 0);
    // -126 - l, exactly
    let shift: u32 = from_i32_spec(l as i32);
    let total: u32 = from_i32_spec((j - 149) as i32);
    lemma_from_i32_exact(l as i32);
    lemma_from_i32_exact((j - 149) as i32);
    lemma_subnormal_exponent();
    lemma_magnitude_zero(total);
    lemma_magnitude_zero(shift);
    lemma_fields(shift);
    let u: int = pow2(149) as int;
    assert(-126 * u + -(l * u) == (j - 149) * u) by (nonlinear_arith)
        requires
            l == 23 - j,
    ;
    assert((j - 149) * u != 0) by (nonlinear_arith)
        requires
            j < 23,
            u > 0,
    ;
    assert(value_of(negate_spec(shift)) == -(l * u));
    lemma_fadd_exact(SUBNORMAL_EXPONENT, negate_spec(shift), total);
    lemma_fadd_zero(total, 0);
}

/// The logarithm of the smallest subnormal is `-149`.
pub proof fn lemma_log2_smallest()
    ensures
        log2_spec(1) == SMALLEST_EXPONENT,
{
    lemma2_to64();
    lemma_log2_subnormal_power_of_two(1, 0);
    // the pattern of -149: 149 * 2^16 at the quantum 2^133
    let n: nat = 149 * pow2(149);
    let p: nat = pow2(133);
    lemma_pow2_adds(16, 133);
    lemma_pow2_pos(133);
    assert(0x95_0000 * p * 1 == n) by (nonlinear_arith)
        requires
            n == 149 * (0x1_0000 * p),
    ;
    assert((0x95_0000 + 1) * p * 1 > n) by (nonlinear_arith)
        requires
            0x95_0000 * p * 1 == n,
            p > 0,
    ;
    assert((2 * 0x95_0000 + 1) * p * 1 > 2 * n) by (nonlinear_arith)
        requires
            0x95_0000 * p * 1 == n,
            p > 0,
    ;
    lemma_round_at(n, 1, 0x95_0000, 133);
    assert(((0 - 149) as i32) == -149i32);
    assert((-(-149i32)) as nat * pow2(149) == n);
}

/// The logarithm of a positive power of two, normal or subnormal, is
/// its exponent, exactly: `exponent - 127` for a normal one, `j - 149`
/// for the subnormal with the significand `2^j`.
pub proof fn lemma_log2_power_of_two(x: u32)
    requires
        !sign_of(x),
        is_finite(x),
        !is_zero(x),
    ensures
        exponent_of(x) > 0 && significand_of(x) == 0 ==> log2_spec(x) == from_i32_spec(
            (exponent_of(x) - 127) as i32,
        ),
        forall|j: nat|
            j < 23 && exponent_of(x) == 0 && significand_of(x) == pow2(j) ==> log2_spec(x)
                == from_i32_spec((j - 149) as i32),
        x == ONE ==> log2_spec(x) == 0,
{
    lemma_fields(x);
    if exponent_of(x) > 0 && significand_of(x) == 0 {
        lemma_log2_raw_power_of_two(x);
    }
    if x == ONE {
        lemma_from_i32_exact(0);
    }
    assert forall|j: nat|
        j < 23 && exponent_of(x) == 0 && significand_of(x) == pow2(j) implies log2_spec(x)
        == from_i32_spec((j - 149) as i32) by {
        lemma_log2_subnormal_power_of_two(significand_of(x), j);
    }
}

/// The fast path gives a finite value, whatever the pattern: `2^9`
/// bounds it.
pub proof fn lemma_log2_raw_finite(x: u32)
    ensures
        below_pow2(log2_raw_spec(x), 9),
{
    let high_bit: u8 = if significand_of(x) >= 0x40_0000 {
        1u8
    } else {
        0u8
    };
    let add_exp: int = exponent_of(x) + high_bit - 127;
    let v: u32 = recompose_spec(false, (0x7f - high_bit) as u8, significand_of(x));
    let n: u32 = fsub_spec(v, ONE);
    lemma2_to64();
    lemma_recompose_fields(false, (0x7f - high_bit) as u8, significand_of(x));
    assert(below_pow2(v, 1));
    lemma_fsub_bound(v, ONE, 1);
    lemma_fmul_bound(LOG2_A, n, 0, 2);
    lemma_fadd_bound(LOG2_B, fmul_spec(LOG2_A, n), 2);
    lemma_fmul_bound(n, fadd_spec(LOG2_B, fmul_spec(LOG2_A, n)), 2, 3);
    lemma_from_i32_bound(add_exp as i32, 8);
    lemma_fadd_bound(
        from_i32_spec(add_exp as i32),
        fmul_spec(n, fadd_spec(LOG2_B, fmul_spec(LOG2_A, n))),
        8,
    );
}

/// The logarithm of a positive finite value is finite.
pub proof fn lemma_log2_finite(x: u32)
    requires
        !sign_of(x),
        is_finite(x),
        !is_zero(x),
    ensures
        is_finite(log2_spec(x)),
{
    lemma_fields(x);
    if exponent_of(x) == 0 {
        let signif: u32 = significand_of(x);
        let zeros: nat = shift_to_normal(signif as nat);
        lemma_shift_bound(signif as nat);
        lemma2_to64();
        lemma_pow2_le(zeros, 23);
        lemma_from_i32_bound(zeros as i32, 5);
        lemma_fsub_bound(SUBNORMAL_EXPONENT, from_i32_spec(zeros as i32), 7);
        lemma_log2_raw_finite(recompose_spec(false, 127, (signif * pow2(zeros)) as u32));
        lemma_fadd_bound(
            fsub_spec(SUBNORMAL_EXPONENT, from_i32_spec(zeros as i32)),
            log2_raw_spec(recompose_spec(false, 127, (signif * pow2(zeros)) as u32)),
            9,
        );
    } else {
        lemma_log2_raw_finite(x);
    }
}

/// The shift that normalises a significand is 23 at most.
pub proof fn lemma_shift_bound(m: nat)
    ensures
        shift_to_normal(m) <= 23,
        m >= 1 ==> shift_to_normal(m) >= 0 && m * pow2(shift_to_normal(m)) >= 0x80_0000,
{
    if 0 < m < 0x80_0000 {
        let l: nat = lemma_normalise(m);
        lemma_shift_to_normal(m, l);
    } else if m >= 0x80_0000 {
        lemma2_to64();
        assert(m * pow2(0) == m);
    }
}

/// Computes the fast path of the logarithm with the coefficients `a` and
/// `b` in place of the fitted ones.
///
/// Meant for positive, finite, normal `x`; for any other pattern the
/// result is the same expression, and means nothing.
pub fn log2_raw_with(x: u32, a: u32, b: u32) -> (r: u32)
    ensures
        r == log2_raw_with_spec(x, a, b),
{
    let (_sign, exp, signif) = decompose(x);
    let high_bit: u8 = if signif >= 0x40_0000 {
        1
    } else {
        0
    };
    let add_exp: i32 = exp as i32 + high_bit as i32 - 127;
    let normalised: u32 = fsub(recompose(false, 0x7f - high_bit, signif), ONE);
    fadd(from_i32(add_exp), fmul(normalised, fadd(b, fmul(a, normalised))))
}

/// Computes an approximation of the base-2 logarithm of a positive,
/// finite, normal `x`.
///
/// For any other pattern the result is the same expression, and means
/// nothing: use [`log2`] where the argument is not known to be in range.
pub fn log2_raw(x: u32) -> (r: u32)
    ensures
        r == log2_raw_spec(x),
{
    log2_raw_with(x, LOG2_A, LOG2_B)
}

/// The logarithm of a value with a zero exponent field.
fn log2_exp_0(signif: u32) -> (r: u32)
    requires
        signif < 0x80_0000,
    ensures
        r == log2_exp_0_spec(signif),
{
    if signif == 0 {
        NEG_INFINITY
    } else {
        let (shifted, zeros) = normalize(signif as u64);
        proof {
            lemma_shift_to_normal(signif as nat, zeros as nat);
        }
        let renormalised: u32 = recompose(false, 127, shifted as u32);
        fadd(fsub(SUBNORMAL_EXPONENT, from_i32(zeros as i32)), log2_raw(renormalised))
    }
}

/// Computes an approximation of the base-2 logarithm of `x`.
///
/// A zero of either sign gives minus infinity, any other negative
/// argument and a NaN give a NaN, infinity gives infinity. A subnormal
/// argument is brought into the normal range first.
pub fn log2(x: u32) -> (r: u32)
    ensures
        r == log2_spec(x),
        is_zero(x) ==> r == NEG_INFINITY,
        !is_zero(x) && (sign_of(x) || is_nan(x)) <==> is_nan(r),
        x == INFINITY ==> r == INFINITY,
        !sign_of(x) && is_finite(x) && !is_zero(x) ==> is_finite(r),
        x == ONE ==> r == 0,
        x == 1 ==> r == SMALLEST_EXPONENT,
        !sign_of(x) && 0 < exponent_of(x) < 0xff && significand_of(x) == 0 ==> r == from_i32_spec(
            (exponent_of(x) - 127) as i32,
        ),
{
    proof {
        if !sign_of(x) && is_finite(x) && !is_zero(x) {
            lemma_log2_power_of_two(x);
            lemma_log2_finite(x);
        }
        if x == 1 {
            lemma_log2_smallest();
        }
    }
    let (sign, exp, signif) = decompose(x);
    if exp == 0 && signif == 0 {
        NEG_INFINITY
    } else if sign {
        NAN
    } else if exp == 0 {
        log2_exp_0(signif)
    } else if exp == 0xff {
        if signif == 0 {
            INFINITY
        } else {
            NAN
        }
    } else {
        log2_raw(x)
    }
}

} // verus!
