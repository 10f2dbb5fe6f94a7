//! The exponential family: `2^x`, `e^x`, and both less one.
//!
//! The product of the argument and `2^23 * log2(base)`, cut to an integer,
//! has the exponent of the result in its high bits, where the exponent
//! field of a pattern lies, and a fraction in its low 23 bits. A quadratic
//! in the fraction gives a pattern between one and two, and adding the
//! high bits to that pattern as integers moves it to the exponent wanted.

use vstd::prelude::*;
use vstd::arithmetic::power2::{lemma_pow2_pos, pow2};
use crate::arith::{fadd, fadd_spec, fdiv, fdiv_spec, fmul, fmul_spec, fsub, fsub_spec};
use crate::convert::{from_i32, from_i32_spec, lemma_from_i32_exact, to_i32, to_i32_spec};
use crate::exp_bounds::{lemma_exp_m1_not_nan, lemma_exp_nonnegative, lemma_exp_raw_range};
use crate::float::{
    INFINITY, is_finite, is_nan, is_zero, magnitude, magnitude_of, NEG_INFINITY, negate_spec, ONE,
    sign_of,
};
use crate::laws::{
    lemma_above_pow2, lemma_fadd_infinite, lemma_fadd_zero, lemma_fdiv_above, lemma_fdiv_bound,
    lemma_fmul_bound, lemma_fmul_zero, lemma_magnitude_zero, lemma_nan_propagates,
};
use crate::order::{fle, fle_spec, flt, flt_spec, lemma_infinity_order, lemma_key_order};

verus! {

/// The base of an exponential.
#[derive(Clone, Copy, Debug)]
pub enum Base {
    /// Euler's number.
    E,
    /// Two.
    Two,
}

/// The pattern of `log2(e)`.
pub const LOG2_E: u32 = 0x3fb8_aa3b;

/// The pattern of `ln(2)`.
pub const LN_2: u32 = 0x3f31_7218;

/// The pattern of `-1`.
pub const MINUS_ONE: u32 = 0xbf80_0000;

/// The pattern of `2^23`.
pub const TWO_POW_23: u32 = 0x4b00_0000;

/// The pattern of `128`, the exponent from which `2^x` is infinite.
pub const UPPER_EXPONENT: u32 = 0x4300_0000;

/// The pattern of `-127`, the exponent down to which `2^x` is zero.
pub const LOWER_EXPONENT: u32 = 0xc2fe_0000;

/// The pattern of `2^-23`, the weight of the lowest bit of the fraction.
pub const TWO_POW_MINUS_23: u32 = 0x3400_0000;

/// The fitted coefficient of the square of the fraction.
pub const EXP_C0: u32 = 0x3eac_a418;

/// The fitted coefficient of the fraction.
pub const EXP_C1: u32 = 0x3f28_5ada;

/// The fitted constant term.
pub const EXP_C2: u32 = 0x3f80_3884;

/// The magnitude, in units of `1 / ln(base)`, up to which the "less one"
/// variants use their own polynomial.
pub const EXP_M1_THRESHOLD: u32 = 0x3e80_c9b9;

/// The fitted linear coefficient of that polynomial, for base `e`.
pub const EXP_M1_ADD: u32 = 0x3f80_ae3c;

/// The fitted quadratic coefficient of that polynomial, for base `e`.
pub const EXP_M1_MUL: u32 = 0x3f00_1d23;

impl Base {
    /// The base-2 logarithm of the base.
    pub open spec fn log2_spec(self) -> u32 {
        match self {
            Base::E => LOG2_E,
            Base::Two => ONE,
        }
    }

    /// The natural logarithm of the base.
    pub open spec fn ln_spec(self) -> u32 {
        match self {
            Base::E => ONE,
            Base::Two => LN_2,
        }
    }

    /// The argument from which the exponential is infinite.
    pub open spec fn upper_limit_spec(self) -> u32 {
        fdiv_spec(UPPER_EXPONENT, self.log2_spec())
    }

    /// The argument down to which the exponential is zero.
    pub open spec fn lower_limit_spec(self) -> u32 {
        fdiv_spec(LOWER_EXPONENT, self.log2_spec())
    }

    /// The base-2 logarithm of the base.
    pub fn log2(self) -> (r: u32)
        ensures
            r == self.log2_spec(),
    {
        match self {
            Base::E => LOG2_E,
            Base::Two => ONE,
        }
    }

    /// The natural logarithm of the base.
    pub fn ln(self) -> (r: u32)
        ensures
            r == self.ln_spec(),
    {
        match self {
            Base::E => ONE,
            Base::Two => LN_2,
        }
    }

    /// The argument from which the exponential is infinite:
    /// `128 / log2(base)`.
    pub fn upper_limit(self) -> (r: u32)
        ensures
            r == self.upper_limit_spec(),
    {
        fdiv(UPPER_EXPONENT, self.log2())
    }

    /// The argument down to which the exponential is zero:
    /// `-127 / log2(base)`.
    pub fn lower_limit(self) -> (r: u32)
        ensures
            r == self.lower_limit_spec(),
    {
        fdiv(LOWER_EXPONENT, self.log2())
    }
}

/// The low 23 bits of `mul`, read in two's complement.
pub open spec fn low_bits(mul: i32) -> i32 {
    (mul % 0x80_0000) as i32
}

/// The pattern of `mul` in two's complement, with the low 23 bits cleared.
pub open spec fn high_bits(mul: i32) -> u32 {
    ((mul - low_bits(mul)) % 0x1_0000_0000) as u32
}

/// The sum of two patterns as integers, modulo `2^32`.
pub open spec fn add_patterns(a: u32, b: u32) -> u32 {
    ((a + b) % 0x1_0000_0000) as u32
}

/// The exponential without range check, with the coefficients `p0`, `p1`
/// and `p2` of the quadratic in the fraction.
///
/// `mul` is `2^23 * log2(base) * x` cut to an integer, `frac` its low 23
/// bits and `floor` the rest. With `c0 = p0 * 2^-23 * 2^-23`,
/// `c1 = p1 * 2^-23` and `c2 = p2`, the coefficients for a fraction
/// counted in units of `2^-23`, the result is the pattern of
/// `(c0 * frac + c1) * frac + c2` with the pattern of `floor` added to it
/// as an integer.
pub open spec fn exp_raw_with_spec(x: u32, base: Base, p0: u32, p1: u32, p2: u32) -> u32 {
    let c0: u32 = fmul_spec(fmul_spec(p0, TWO_POW_MINUS_23), TWO_POW_MINUS_23);
    let c1: u32 = fmul_spec(p1, TWO_POW_MINUS_23);
    let a: u32 = fmul_spec(TWO_POW_23, base.log2_spec());
    let mul: i32 = to_i32_spec(fmul_spec(a, x));
    let f: u32 = from_i32_spec(low_bits(mul));
    let approx: u32 = fadd_spec(fmul_spec(fadd_spec(fmul_spec(c0, f), c1), f), p2);
    add_patterns(approx, high_bits(mul))
}

/// The exponential without range check, with the fitted coefficients.
pub open spec fn exp_raw_impl_spec(x: u32, base: Base) -> u32 {
    exp_raw_with_spec(x, base, EXP_C0, EXP_C1, EXP_C2)
}

/// The exponential over all patterns: zero down from the lower limit,
/// `x + infinity` (infinity, or a NaN for a NaN) from the upper limit on
/// and for a NaN, and the approximation between the limits.
pub open spec fn exp_impl_spec(x: u32, base: Base) -> u32 {
    if fle_spec(x, base.lower_limit_spec()) {
        0
    } else if flt_spec(x, base.upper_limit_spec()) {
        exp_raw_impl_spec(x, base)
    } else {
        fadd_spec(x, INFINITY)
    }
}

/// `x` is close enough to zero for the polynomial of the "less one"
/// variants: `|x| <= threshold / ln(base)`.
pub open spec fn near_zero(x: u32, base: Base) -> bool {
    fle_spec(magnitude_of(x), fdiv_spec(EXP_M1_THRESHOLD, base.ln_spec()))
}

/// The polynomial of the "less one" variants:
/// `x * (add * ln(base) + mul * ln(base)^2 * x)`.
pub open spec fn exp_m1_poly_spec(x: u32, base: Base) -> u32 {
    let add: u32 = fmul_spec(EXP_M1_ADD, base.ln_spec());
    let mul: u32 = fmul_spec(fmul_spec(EXP_M1_MUL, base.ln_spec()), base.ln_spec());
    fmul_spec(x, fadd_spec(add, fmul_spec(mul, x)))
}

/// The exponential less one, without range check: the polynomial near
/// zero, elsewhere the exponential without range check, less one.
pub open spec fn exp_m1_raw_impl_spec(x: u32, base: Base) -> u32 {
    if near_zero(x, base) {
        exp_m1_poly_spec(x, base)
    } else {
        fsub_spec(exp_raw_impl_spec(x, base), ONE)
    }
}

/// The exponential less one over all patterns: the polynomial near zero,
/// elsewhere the exponential, less one.
pub open spec fn exp_m1_impl_spec(x: u32, base: Base) -> u32 {
    if near_zero(x, base) {
        exp_m1_poly_spec(x, base)
    } else {
        fsub_spec(exp_impl_spec(x, base), ONE)
    }
}

/// Both limits of the exponential are finite.
pub proof fn lemma_limits_finite(base: Base)
    ensures
        is_finite(base.upper_limit_spec()),
        is_finite(base.lower_limit_spec()),
{
    lemma_fdiv_bound(UPPER_EXPONENT, base.log2_spec(), 7, 0);
    lemma_fdiv_bound(LOWER_EXPONENT, base.log2_spec(), 7, 0);
}

/// What the exponential does at the ends of its domain: a NaN gives a
/// NaN, minus infinity gives zero, infinity gives infinity.
pub proof fn lemma_exp_special(x: u32, base: Base)
    ensures
        is_nan(x) ==> is_nan(exp_impl_spec(x, base)),
        x == NEG_INFINITY ==> exp_impl_spec(x, base) == 0,
        x == INFINITY ==> exp_impl_spec(x, base) == INFINITY,
{
    lemma_limits_finite(base);
    lemma_infinity_order(base.upper_limit_spec());
    lemma_infinity_order(base.lower_limit_spec());
    lemma_key_order(INFINITY, base.upper_limit_spec());
    lemma_key_order(INFINITY, base.lower_limit_spec());
    if is_nan(x) {
        lemma_nan_propagates(x, INFINITY);
    }
    if x == INFINITY {
        lemma_fadd_infinite(INFINITY, INFINITY);
    }
}

/// At the fraction zero the quadratic is its constant term.
pub proof fn lemma_quadratic_zero()
    ensures
        ({
            let c0: u32 = fmul_spec(fmul_spec(EXP_C0, TWO_POW_MINUS_23), TWO_POW_MINUS_23);
            let c1: u32 = fmul_spec(EXP_C1, TWO_POW_MINUS_23);
            let f: u32 = from_i32_spec(0);
            fadd_spec(fmul_spec(fadd_spec(fmul_spec(c0, f), c1), f), EXP_C2) == EXP_C2
        }),
{
    let c0: u32 = fmul_spec(fmul_spec(EXP_C0, TWO_POW_MINUS_23), TWO_POW_MINUS_23);
    let c1: u32 = fmul_spec(EXP_C1, TWO_POW_MINUS_23);
    lemma_fmul_bound(EXP_C0, TWO_POW_MINUS_23, 0, -23);
    lemma_fmul_bound(fmul_spec(EXP_C0, TWO_POW_MINUS_23), TWO_POW_MINUS_23, -23, -23);
    lemma_fmul_bound(EXP_C1, TWO_POW_MINUS_23, 0, -23);
    lemma_from_i32_exact(0);
    lemma_fmul_zero(c0, 0);
    assert(fmul_spec(c0, 0) == 0);
    lemma_fadd_zero(c1, 0);
    lemma_fmul_zero(c1, 0);
    assert(fmul_spec(c1, 0) == 0);
    lemma_fadd_zero(EXP_C2, 0);
}

/// Without range check the exponential of zero is the constant term of
/// the quadratic: the integer product is zero, and so are the fraction
/// and the exponent.
pub proof fn lemma_exp_raw_zero(x: u32, base: Base)
    requires
        is_zero(x),
    ensures
        exp_raw_impl_spec(x, base) == EXP_C2,
{
    let a: u32 = fmul_spec(TWO_POW_23, base.log2_spec());
    lemma_fmul_bound(TWO_POW_23, base.log2_spec(), 23, 1);
    lemma_fmul_zero(a, x);
    let p: u32 = fmul_spec(a, x);
    assert(is_zero(p));
    assert(to_i32_spec(p) == 0) by {
        lemma_magnitude_zero(p);
        lemma_pow2_pos(149);
        assert(0nat / pow2(149) == 0) by (nonlinear_arith)
            requires
                pow2(149) > 0,
        ;
    }
    assert(low_bits(0) == 0);
    assert(high_bits(0) == 0);
    lemma_quadratic_zero();
}

/// The exponential of zero is the constant term of the quadratic, which
/// lies within `0.002` of one.
pub proof fn lemma_exp_zero(x: u32, base: Base)
    requires
        is_zero(x),
    ensures
        exp_impl_spec(x, base) == EXP_C2,
        ONE <= EXP_C2 <= 0x3f80_4189,
{
    let lower: u32 = base.lower_limit_spec();
    let upper: u32 = base.upper_limit_spec();
    lemma_fdiv_above(LOWER_EXPONENT, base.log2_spec(), 6, 1);
    lemma_fdiv_above(UPPER_EXPONENT, base.log2_spec(), 7, 1);
    lemma_above_pow2(lower, 5);
    lemma_above_pow2(upper, 6);
    lemma_pow2_pos(154);
    lemma_pow2_pos(155);
    lemma_magnitude_zero(x);
    lemma_exp_raw_zero(x, base);
}

/// The threshold of the "less one" variants is finite and not negative.
pub proof fn lemma_threshold(base: Base)
    ensures
        is_finite(fdiv_spec(EXP_M1_THRESHOLD, base.ln_spec())),
        !sign_of(fdiv_spec(EXP_M1_THRESHOLD, base.ln_spec())),
{
    lemma_fdiv_bound(EXP_M1_THRESHOLD, base.ln_spec(), -1, -1);
}

/// Infinities and NaNs are not near zero; zeros are.
pub proof fn lemma_near_zero(x: u32, base: Base)
    ensures
        !is_finite(x) ==> !near_zero(x, base),
        is_zero(x) ==> near_zero(x, base),
{
    let t: u32 = fdiv_spec(EXP_M1_THRESHOLD, base.ln_spec());
    lemma_threshold(base);
    lemma_key_order(magnitude_of(x), t);
}

/// The polynomial of the "less one" variants takes a zero to itself.
pub proof fn lemma_exp_m1_poly_zero(x: u32, base: Base)
    requires
        is_zero(x),
    ensures
        exp_m1_poly_spec(x, base) == x,
{
    let ln: u32 = base.ln_spec();
    let add: u32 = fmul_spec(EXP_M1_ADD, ln);
    let m1: u32 = fmul_spec(EXP_M1_MUL, ln);
    let mul: u32 = fmul_spec(m1, ln);
    lemma_fmul_bound(EXP_M1_ADD, ln, 1, 0);
    lemma_fmul_bound(EXP_M1_MUL, ln, 0, 0);
    lemma_fmul_bound(m1, ln, 0, 0);
    assert(is_finite(add) && !sign_of(add));
    assert(is_finite(mul) && !sign_of(mul));
    lemma_fmul_zero(mul, x);
    let z: u32 = fmul_spec(mul, x);
    assert(z == x);
    lemma_fadd_zero(add, z);
    assert(fadd_spec(add, z) == add);
    lemma_fmul_zero(add, x);
}

/// One less than a NaN is a NaN, one less than infinity is infinity,
/// and one less than zero is minus one.
pub proof fn lemma_less_one(e: u32)
    ensures
        is_nan(e) ==> is_nan(fsub_spec(e, ONE)),
        e == INFINITY ==> fsub_spec(e, ONE) == INFINITY,
        e == 0 ==> fsub_spec(e, ONE) == MINUS_ONE,
{
    assert(negate_spec(ONE) == MINUS_ONE);
    if e == 0 {
        lemma_fadd_zero(MINUS_ONE, 0);
    }
    if is_nan(e) {
        lemma_nan_propagates(e, ONE);
    }
    if e == INFINITY {
        lemma_fadd_infinite(e, ONE);
    }
}

/// What the exponential less one does at the ends of its domain and at
/// zero: a NaN gives a NaN, minus infinity gives minus one, infinity
/// gives infinity, and a zero gives the same zero.
pub proof fn lemma_exp_m1_special(x: u32, base: Base)
    ensures
        is_nan(x) ==> is_nan(exp_m1_impl_spec(x, base)),
        x == NEG_INFINITY ==> exp_m1_impl_spec(x, base) == MINUS_ONE,
        x == INFINITY ==> exp_m1_impl_spec(x, base) == INFINITY,
        is_zero(x) ==> exp_m1_impl_spec(x, base) == x,
{
    lemma_near_zero(x, base);
    if is_zero(x) {
        lemma_exp_m1_poly_zero(x, base);
    } else if !is_finite(x) {
        lemma_exp_special(x, base);
        lemma_less_one(exp_impl_spec(x, base));
    }
}

/// Splits `mul` into its low 23 bits and the pattern of the rest.
fn split_integer(mul: i32) -> (r: (i32, u32))
    ensures
        r.0 == low_bits(mul),
        r.1 == high_bits(mul),
{
    // the pattern of `mul`, in two's complement
    let bits: u32 = if mul < 0 {
        (mul as i64 + 0x1_0000_0000) as u32
    } else {
        mul as u32
    };
    let frac: u32 = bits % 0x80_0000;
    (frac as i32, bits - frac)
}

/// Adds two patterns as integers, modulo `2^32`.
fn wrapping_sum(a: u32, b: u32) -> (r: u32)
    ensures
        r == add_patterns(a, b),
{
    ((a as u64 + b as u64) % 0x1_0000_0000) as u32
}

/// Computes the exponential without range check, with the coefficients
/// `p0`, `p1` and `p2` in place of the fitted ones.
pub fn exp_raw_with(x: u32, base: Base, p0: u32, p1: u32, p2: u32) -> (r: u32)
    ensures
        r == exp_raw_with_spec(x, base, p0, p1, p2),
{
    let c0: u32 = fmul(fmul(p0, TWO_POW_MINUS_23), TWO_POW_MINUS_23);
    let c1: u32 = fmul(p1, TWO_POW_MINUS_23);
    let a: u32 = fmul(TWO_POW_23, base.log2());
    let mul: i32 = to_i32(fmul(a, x));
    let (frac, floor) = split_integer(mul);
    let f: u32 = from_i32(frac);
    let approx: u32 = fadd(fmul(fadd(fmul(c0, f), c1), f), p2);
    wrapping_sum(approx, floor)
}

/// The exponential without range check.
fn exp_raw_impl(x: u32, base: Base) -> (r: u32)
    ensures
        r == exp_raw_impl_spec(x, base),
{
    exp_raw_with(x, base, EXP_C0, EXP_C1, EXP_C2)
}

/// The exponential over all patterns.
fn exp_impl(x: u32, base: Base) -> (r: u32)
    ensures
        r == exp_impl_spec(x, base),
{
    if fle(x, base.lower_limit()) {
        0
    } else if flt(x, base.upper_limit()) {
        exp_raw_impl(x, base)
    } else {
        // too big, or a NaN: the sum is infinite, or a NaN again
        fadd(x, INFINITY)
    }
}

/// Tells whether `|x| <= threshold / ln(base)`.
fn is_near_zero(x: u32, base: Base) -> (r: bool)
    ensures
        r == near_zero(x, base),
{
    fle(magnitude(x), fdiv(EXP_M1_THRESHOLD, base.ln()))
}

/// The polynomial of the "less one" variants.
fn exp_m1_poly(x: u32, base: Base) -> (r: u32)
    ensures
        r == exp_m1_poly_spec(x, base),
{
    let add: u32 = fmul(EXP_M1_ADD, base.ln());
    let mul: u32 = fmul(fmul(EXP_M1_MUL, base.ln()), base.ln());
    fmul(x, fadd(add, fmul(mul, x)))
}

/// The exponential less one, without range check.
fn exp_m1_raw_impl(x: u32, base: Base) -> (r: u32)
    ensures
        r == exp_m1_raw_impl_spec(x, base),
{
    if is_near_zero(x, base) {
        exp_m1_poly(x, base)
    } else {
        fsub(exp_raw_impl(x, base), ONE)
    }
}

/// The exponential less one over all patterns.
fn exp_m1_impl(x: u32, base: Base) -> (r: u32)
    ensures
        r == exp_m1_impl_spec(x, base),
{
    if is_near_zero(x, base) {
        exp_m1_poly(x, base)
    } else {
        fsub(exp_impl(x, base), ONE)
    }
}

/// Computes an approximation of `2^x` without range check.
///
/// Between the limits, `-127` and `128`, the result is finite and not
/// negative. Elsewhere the result is the same expression, and means
/// nothing: use [`exp2`] where the argument is not known to be in range.
pub fn exp2_raw(x: u32) -> (r: u32)
    ensures
        r == exp_raw_impl_spec(x, Base::Two),
        flt_spec(Base::Two.lower_limit_spec(), x) && flt_spec(x, Base::Two.upper_limit_spec())
            ==> is_finite(r) && !sign_of(r),
{
    proof {
        lemma_key_order(Base::Two.lower_limit_spec(), x);
        lemma_key_order(x, Base::Two.lower_limit_spec());
        if flt_spec(Base::Two.lower_limit_spec(), x) && flt_spec(x, Base::Two.upper_limit_spec()) {
            lemma_exp_raw_range(x, Base::Two);
        }
    }
    exp_raw_impl(x, Base::Two)
}

/// Computes an approximation of `2^x`.
///
/// The result is zero for `x <= -127`, infinite for `x >= 128`, and a
/// NaN for a NaN.
pub fn exp2(x: u32) -> (r: u32)
    ensures
        r == exp_impl_spec(x, Base::Two),
        is_nan(x) <==> is_nan(r),
        !is_nan(x) ==> !sign_of(r),
        x == NEG_INFINITY ==> r == 0,
        x == INFINITY ==> r == INFINITY,
        is_zero(x) ==> r == EXP_C2,
{
    proof {
        if !is_nan(x) {
            lemma_exp_nonnegative(x, Base::Two);
        }
        lemma_exp_special(x, Base::Two);
        if is_zero(x) {
            lemma_exp_zero(x, Base::Two);
        }
    }
    exp_impl(x, Base::Two)
}

/// Computes an approximation of `2^x - 1` without range check.
///
/// Beyond the limits of [`exp2_raw`] the result is the same expression,
/// and means nothing: use [`exp2_m1`] where the argument is not known to
/// be in range.
pub fn exp2_m1_raw(x: u32) -> (r: u32)
    ensures
        r == exp_m1_raw_impl_spec(x, Base::Two),
{
    exp_m1_raw_impl(x, Base::Two)
}

/// Computes an approximation of `2^x - 1`.
pub fn exp2_m1(x: u32) -> (r: u32)
    ensures
        r == exp_m1_impl_spec(x, Base::Two),
        is_nan(x) <==> is_nan(r),
        x == NEG_INFINITY ==> r == MINUS_ONE,
        x == INFINITY ==> r == INFINITY,
        is_zero(x) ==> r == x,
{
    proof {
        if !is_nan(x) {
            lemma_exp_m1_not_nan(x, Base::Two);
        }
        lemma_exp_m1_special(x, Base::Two);
    }
    exp_m1_impl(x, Base::Two)
}

/// Computes an approximation of `e^x` without range check.
///
/// Between the limits, `-127 / log2(e)` and `128 / log2(e)`, the result
/// is finite and not negative. Elsewhere the result is the same
/// expression, and means nothing: use [`exp`] where the argument is not
/// known to be in range.
pub fn exp_raw(x: u32) -> (r: u32)
    ensures
        r == exp_raw_impl_spec(x, Base::E),
        flt_spec(Base::E.lower_limit_spec(), x) && flt_spec(x, Base::E.upper_limit_spec())
            ==> is_finite(r) && !sign_of(r),
{
    proof {
        lemma_key_order(Base::E.lower_limit_spec(), x);
        lemma_key_order(x, Base::E.lower_limit_spec());
        if flt_spec(Base::E.lower_limit_spec(), x) && flt_spec(x, Base::E.upper_limit_spec()) {
            lemma_exp_raw_range(x, Base::E);
        }
    }
    exp_raw_impl(x, Base::E)
}

/// Computes an approximation of `e^x`.
///
/// The result is zero for `x <= -127 / log2(e)`, infinite for
/// `x >= 128 / log2(e)`, and a NaN for a NaN.
pub fn exp(x: u32) -> (r: u32)
    ensures
        r == exp_impl_spec(x, Base::E),
        is_nan(x) <==> is_nan(r),
        !is_nan(x) ==> !sign_of(r),
        x == NEG_INFINITY ==> r == 0,
        x == INFINITY ==> r == INFINITY,
        is_zero(x) ==> r == EXP_C2,
{
    proof {
        if !is_nan(x) {
            lemma_exp_nonnegative(x, Base::E);
        }
        lemma_exp_special(x, Base::E);
        if is_zero(x) {
            lemma_exp_zero(x, Base::E);
        }
    }
    exp_impl(x, Base::E)
}

/// Computes an approximation of `e^x - 1` without range check.
///
/// Beyond the limits of [`exp_raw`] the result is the same expression,
/// and means nothing: use [`exp_m1`] where the argument is not known to
/// be in range.
pub fn exp_m1_raw(x: u32) -> (r: u32)
    ensures
        r == exp_m1_raw_impl_spec(x, Base::E),
{
    exp_m1_raw_impl(x, Base::E)
}

/// Computes an approximation of `e^x - 1`.
pub fn exp_m1(x: u32) -> (r: u32)
    ensures
        r == exp_m1_impl_spec(x, Base::E),
        is_nan(x) <==> is_nan(r),
        x == NEG_INFINITY ==> r == MINUS_ONE,
        x == INFINITY ==> r == INFINITY,
        is_zero(x) ==> r == x,
{
    proof {
        if !is_nan(x) {
            lemma_exp_m1_not_nan(x, Base::E);
        }
        lemma_exp_m1_special(x, Base::E);
    }
    exp_m1_impl(x, Base::E)
}

} // verus!
