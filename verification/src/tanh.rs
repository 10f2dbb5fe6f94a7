//! The hyperbolic tangent: the quotient of two polynomials, from
//! Lambert's continued fraction, cut to `[-1, 1]`.

use vstd::prelude::*;
use crate::arith::{fadd, fadd_spec, fdiv, fdiv_spec, fmul, fmul_spec};
use crate::float::{
    flip_sign_nonnan, flip_sign_spec, INFINITY, is_finite, is_infinite, is_nan, is_zero, magnitude,
    magnitude_of, NEG_INFINITY, negate_spec, ONE,
};
use crate::laws::{
    is_nonnegative, lemma_fadd_infinite, lemma_fadd_nonnegative, lemma_fadd_zero, lemma_fdiv_class,
    lemma_fdiv_negate, lemma_fmul_class, lemma_fmul_negate, lemma_fmul_negate_both, lemma_negate,
};
use crate::order::{fgt, flt_spec, lemma_key_order};

verus! {

/// The pattern of `378`.
pub const NUM_C2: u32 = 0x43bd_0000;

/// The pattern of `17325`.
pub const NUM_C1: u32 = 0x4687_5a00;

/// The pattern of `135135`.
pub const NUM_C0: u32 = 0x4803_f7c0;

/// The pattern of `28`.
pub const DEN_C3: u32 = 0x41e0_0000;

/// The pattern of `3150`.
pub const DEN_C2: u32 = 0x4544_e000;

/// The pattern of `62370`.
pub const DEN_C1: u32 = 0x4773_a200;

/// The pattern of `135135`.
pub const DEN_C0: u32 = 0x4803_f7c0;

/// The numerator `(((x^2 + 378) x^2 + 17325) x^2 + 135135) x`.
pub open spec fn numerator_spec(x: u32) -> u32 {
    let x2: u32 = fmul_spec(x, x);
    fmul_spec(
        fadd_spec(fmul_spec(fadd_spec(fmul_spec(fadd_spec(x2, NUM_C2), x2), NUM_C1), x2), NUM_C0),
        x,
    )
}

/// The denominator `((28 x^2 + 3150) x^2 + 62370) x^2 + 135135`.
pub open spec fn denominator_spec(x: u32) -> u32 {
    let x2: u32 = fmul_spec(x, x);
    fadd_spec(
        fmul_spec(fadd_spec(fmul_spec(fadd_spec(fmul_spec(DEN_C3, x2), DEN_C2), x2), DEN_C1), x2),
        DEN_C0,
    )
}

/// The quotient of numerator and denominator.
pub open spec fn tanh_raw_spec(x: u32) -> u32 {
    fdiv_spec(numerator_spec(x), denominator_spec(x))
}

/// The hyperbolic tangent over all patterns: a NaN is handed back; where
/// the numerator is not finite, one with its sign; else the quotient,
/// replaced by one with its sign where its magnitude exceeds one.
pub open spec fn tanh_spec(x: u32) -> u32 {
    if is_nan(x) {
        x
    } else if !is_finite(numerator_spec(x)) {
        flip_sign_spec(numerator_spec(x), ONE)
    } else if flt_spec(ONE, magnitude_of(tanh_raw_spec(x))) {
        flip_sign_spec(tanh_raw_spec(x), ONE)
    } else {
        tanh_raw_spec(x)
    }
}

/// One step of the evaluation of a polynomial in `x2` with positive
/// coefficients: `t * x2 + c` is positive with `t` and `c`, and is `c`
/// where `x2` is zero.
pub proof fn lemma_horner_step(t: u32, x2: u32, c: u32)
    requires
        is_nonnegative(t),
        !is_zero(t),
        is_nonnegative(x2),
        is_zero(x2) ==> is_finite(t),
        is_nonnegative(c),
        is_finite(c),
        !is_zero(c),
    ensures
        is_nonnegative(fadd_spec(fmul_spec(t, x2), c)),
        !is_zero(fadd_spec(fmul_spec(t, x2), c)),
        is_zero(x2) ==> is_finite(fadd_spec(fmul_spec(t, x2), c)),
        is_infinite(x2) ==> fadd_spec(fmul_spec(t, x2), c) == INFINITY,
{
    let p: u32 = fmul_spec(t, x2);
    lemma_fmul_class(t, x2);
    lemma_fadd_nonnegative(p, c);
    if is_zero(x2) {
        assert(p == 0);
        lemma_fadd_zero(c, p);
    }
}

/// The denominator is positive, whatever the argument, if it is no NaN.
pub proof fn lemma_denominator_positive(x: u32)
    requires
        !is_nan(x),
    ensures
        is_nonnegative(denominator_spec(x)),
        !is_zero(denominator_spec(x)),
{
    let x2: u32 = fmul_spec(x, x);
    lemma_fmul_class(x, x);
    lemma_horner_step(DEN_C3, x2, DEN_C2);
    let t2: u32 = fadd_spec(fmul_spec(DEN_C3, x2), DEN_C2);
    lemma_horner_step(t2, x2, DEN_C1);
    let t4: u32 = fadd_spec(fmul_spec(t2, x2), DEN_C1);
    lemma_horner_step(t4, x2, DEN_C0);
}

/// The numerator of an infinity is that infinity.
pub proof fn lemma_numerator_infinite(x: u32)
    requires
        is_infinite(x),
    ensures
        numerator_spec(x) == x,
{
    let x2: u32 = fmul_spec(x, x);
    lemma_fmul_class(x, x);
    assert(x2 == INFINITY);
    let t1: u32 = fadd_spec(x2, NUM_C2);
    lemma_fadd_infinite(x2, NUM_C2);
    assert(t1 == INFINITY);
    lemma_horner_step(t1, x2, NUM_C1);
    let t3: u32 = fadd_spec(fmul_spec(t1, x2), NUM_C1);
    lemma_horner_step(t3, x2, NUM_C0);
    let t5: u32 = fadd_spec(fmul_spec(t3, x2), NUM_C0);
    assert(t5 == INFINITY);
    lemma_fmul_class(t5, x);
}

/// The numerator is odd: it changes its sign with the argument, and is
/// no NaN.
pub proof fn lemma_numerator_odd(x: u32)
    requires
        !is_nan(x),
    ensures
        !is_nan(numerator_spec(x)),
        numerator_spec(negate_spec(x)) == negate_spec(numerator_spec(x)),
{
    let x2: u32 = fmul_spec(x, x);
    lemma_fmul_class(x, x);
    lemma_fmul_negate_both(x, x);
    let t1: u32 = fadd_spec(x2, NUM_C2);
    lemma_fadd_nonnegative(x2, NUM_C2);
    if is_zero(x2) {
        assert(x2 == 0);
        lemma_fadd_zero(NUM_C2, x2);
    }
    lemma_horner_step(t1, x2, NUM_C1);
    let t3: u32 = fadd_spec(fmul_spec(t1, x2), NUM_C1);
    lemma_horner_step(t3, x2, NUM_C0);
    let p: u32 = fadd_spec(fmul_spec(t3, x2), NUM_C0);
    lemma_fmul_class(p, x);
    lemma_fmul_negate(p, x);
}

/// The denominator is even: it is the same for an argument and its
/// negative.
pub proof fn lemma_denominator_even(x: u32)
    ensures
        denominator_spec(negate_spec(x)) == denominator_spec(x),
{
    lemma_fmul_negate_both(x, x);
}

/// The hyperbolic tangent is odd: it changes its sign with its argument.
pub proof fn lemma_tanh_odd(x: u32)
    requires
        !is_nan(x),
    ensures
        tanh_spec(negate_spec(x)) == negate_spec(tanh_spec(x)),
{
    let a: u32 = numerator_spec(x);
    let b: u32 = denominator_spec(x);
    lemma_negate(x);
    lemma_numerator_odd(x);
    lemma_denominator_even(x);
    lemma_negate(a);
    if is_finite(a) {
        let q: u32 = fdiv_spec(a, b);
        lemma_denominator_positive(x);
        lemma_fdiv_class(a, b);
        lemma_fdiv_negate(a, b);
        lemma_negate(q);
    }
}

/// The hyperbolic tangent of an infinity is one with its sign.
pub proof fn lemma_tanh_infinite(x: u32)
    requires
        is_infinite(x),
    ensures
        tanh_spec(x) == flip_sign_spec(x, ONE),
        x == INFINITY ==> tanh_spec(x) == ONE,
        x == NEG_INFINITY ==> tanh_spec(x) == negate_spec(ONE),
{
    lemma_numerator_infinite(x);
}

/// The hyperbolic tangent of anything but a NaN is no NaN, and lies
/// between minus one and one.
pub proof fn lemma_tanh_range(x: u32)
    requires
        !is_nan(x),
    ensures
        magnitude_of(tanh_spec(x)) <= ONE,
{
    let a: u32 = numerator_spec(x);
    if is_finite(a) {
        let q: u32 = tanh_raw_spec(x);
        lemma_denominator_positive(x);
        lemma_fdiv_class(a, denominator_spec(x));
        lemma_key_order(ONE, magnitude_of(q));
    }
}

/// Computes the numerator of the approximation.
fn numerator(x: u32) -> (r: u32)
    ensures
        r == numerator_spec(x),
{
    let x2: u32 = fmul(x, x);
    fmul(fadd(fmul(fadd(fmul(fadd(x2, NUM_C2), x2), NUM_C1), x2), NUM_C0), x)
}

/// Computes the denominator of the approximation.
fn denominator(x: u32) -> (r: u32)
    ensures
        r == denominator_spec(x),
{
    let x2: u32 = fmul(x, x);
    fadd(fmul(fadd(fmul(fadd(fmul(DEN_C3, x2), DEN_C2), x2), DEN_C1), x2), DEN_C0)
}

/// Computes an approximation of the hyperbolic tangent of `x`.
///
/// For a large `|x|` the result may lie outside `[-1, 1]`, and it is a
/// NaN once numerator and denominator are both infinite: use [`tanh`]
/// where the argument is not known to be moderate.
pub fn tanh_raw(x: u32) -> (r: u32)
    ensures
        r == tanh_raw_spec(x),
{
    fdiv(numerator(x), denominator(x))
}

/// Computes an approximation of the hyperbolic tangent of `x`.
pub fn tanh(x: u32) -> (r: u32)
    ensures
        r == tanh_spec(x),
        is_nan(x) ==> r == x,
        !is_nan(x) ==> magnitude_of(r) <= ONE,
        x == INFINITY ==> r == ONE,
        x == NEG_INFINITY ==> r == negate_spec(ONE),
{
    proof {
        if is_infinite(x) {
            lemma_tanh_infinite(x);
        }
        if !is_nan(x) {
            lemma_tanh_range(x);
        }
    }
    if is_nan(x) {
        return x;
    }
    let a: u32 = numerator(x);
    if !is_finite(a) {
        return flip_sign_nonnan(a, ONE);
    }
    let result: u32 = fdiv(a, denominator(x));
    if fgt(magnitude(result), ONE) {
        return flip_sign_nonnan(result, ONE);
    }
    result
}

} // verus!
