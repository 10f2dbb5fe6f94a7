//! The bit view of a single-precision value: sign, biased exponent and
//! significand, and the classes that the three fields distinguish.

use vstd::prelude::*;

verus! {

/// Width of the sign field in bits.
pub const SIGN: usize = 1;

/// Width of the biased exponent field in bits.
pub const EXP: usize = 8;

/// Width of the significand field in bits.
pub const SIGNIF: usize = 23;

/// The pattern of positive infinity.
pub const INFINITY: u32 = 0x7f80_0000;

/// The pattern of negative infinity.
pub const NEG_INFINITY: u32 = 0xff80_0000;

/// The quiet NaN that the arithmetic produces.
pub const NAN: u32 = 0x7fc0_0000;

/// The pattern of negative zero.
pub const NEG_ZERO: u32 = 0x8000_0000;

/// The pattern of one.
pub const ONE: u32 = 0x3f80_0000;

/// The sign of `x`: `true` for a set sign bit.
pub open spec fn sign_of(x: u32) -> bool {
    x >= 0x8000_0000
}

/// The pattern of `x` without its sign bit.
pub open spec fn magnitude_of(x: u32) -> u32 {
    (x % 0x8000_0000) as u32
}

/// The biased exponent of `x`, in `0..=255`.
pub open spec fn exponent_of(x: u32) -> u8 {
    (x / 0x80_0000 % 0x100) as u8
}

/// The significand field of `x`, below `2^23`.
pub open spec fn significand_of(x: u32) -> u32 {
    (x % 0x80_0000) as u32
}

/// The three fields of `x`.
pub open spec fn decompose_spec(x: u32) -> (bool, u8, u32) {
    (sign_of(x), exponent_of(x), significand_of(x))
}

/// The pattern assembled from three fields: each field moved to its place
/// and the three joined by bitwise or.
pub open spec fn recompose_spec(sign: bool, exponent: u8, significand: u32) -> u32 {
    (if sign { 0x8000_0000u32 } else { 0u32 }) | ((exponent as u32) << 23) | significand
}

/// The pattern of `x` without its sign bit.
pub fn magnitude(x: u32) -> (r: u32)
    ensures
        r == magnitude_of(x),
{
    assert(x & 0x7fff_ffff == x % 0x8000_0000) by (bit_vector);
    x & 0x7fff_ffff
}

/// `x` is a NaN: all exponent bits set and a nonzero significand.
pub open spec fn is_nan_spec(x: u32) -> bool {
    magnitude_of(x) > 0x7f80_0000
}

/// `x` is positive or negative infinity.
pub open spec fn is_infinite_spec(x: u32) -> bool {
    magnitude_of(x) == 0x7f80_0000
}

/// `x` is neither infinite nor a NaN.
pub open spec fn is_finite_spec(x: u32) -> bool {
    magnitude_of(x) < 0x7f80_0000
}

/// `x` is positive or negative zero.
pub open spec fn is_zero_spec(x: u32) -> bool {
    magnitude_of(x) == 0
}

/// `x` is subnormal: exponent field zero, significand nonzero.
pub open spec fn is_subnormal(x: u32) -> bool {
    0 < magnitude_of(x) < 0x80_0000
}

/// `x` is normal: exponent field neither zero nor all ones.
pub open spec fn is_normal(x: u32) -> bool {
    0x80_0000 <= magnitude_of(x) < 0x7f80_0000
}

/// Tells whether `x` is a NaN.
#[verifier::when_used_as_spec(is_nan_spec)]
pub fn is_nan(x: u32) -> (r: bool)
    ensures
        r == is_nan_spec(x),
{
    magnitude(x) > INFINITY
}

/// Tells whether `x` is positive or negative infinity.
#[verifier::when_used_as_spec(is_infinite_spec)]
pub fn is_infinite(x: u32) -> (r: bool)
    ensures
        r == is_infinite_spec(x),
{
    magnitude(x) == INFINITY
}

/// Tells whether `x` is neither infinite nor a NaN.
#[verifier::when_used_as_spec(is_finite_spec)]
pub fn is_finite(x: u32) -> (r: bool)
    ensures
        r == is_finite_spec(x),
{
    magnitude(x) < INFINITY
}

/// Tells whether `x` is positive or negative zero.
#[verifier::when_used_as_spec(is_zero_spec)]
pub fn is_zero(x: u32) -> (r: bool)
    ensures
        r == is_zero_spec(x),
{
    magnitude(x) == 0
}

/// Tells whether the sign bit of `x` is set.
#[verifier::when_used_as_spec(sign_of)]
pub fn is_sign_negative(x: u32) -> (r: bool)
    ensures
        r == sign_of(x),
{
    x >= 0x8000_0000
}

/// The integer significand of a finite `x`: the significand field, with
/// the leading one in front for a normal `x`.
pub open spec fn mantissa_of(x: u32) -> nat {
    if exponent_of(x) == 0 {
        significand_of(x) as nat
    } else {
        (significand_of(x) + 0x80_0000) as nat
    }
}

/// The exponent of the last place of a finite `x`, counted from that of
/// the subnormals: `x` has the magnitude `mantissa_of(x) * 2^quantum_of(x)`
/// in units of `2^-149`.
pub open spec fn quantum_of(x: u32) -> nat {
    if exponent_of(x) == 0 {
        0
    } else {
        (exponent_of(x) - 1) as nat
    }
}

/// `x` with its sign bit inverted.
pub open spec fn negate_spec(x: u32) -> u32 {
    if x >= 0x8000_0000 {
        (x - 0x8000_0000) as u32
    } else {
        (x + 0x8000_0000) as u32
    }
}

/// `magnitude` with its sign inverted where `sign` is negative.
pub open spec fn flip_sign_spec(sign: u32, magnitude: u32) -> u32 {
    if sign_of(sign) {
        negate_spec(magnitude)
    } else {
        magnitude
    }
}

/// A pattern is the sum of its three fields, each at its place.
pub proof fn lemma_fields(x: u32)
    ensures
        significand_of(x) < 0x80_0000,
        magnitude_of(x) == exponent_of(x) * 0x80_0000 + significand_of(x),
        x == (if sign_of(x) { 0x8000_0000int } else { 0int }) + magnitude_of(x),
{
    let q: int = x as int / 0x80_0000;
    assert(x == q * 0x80_0000 + significand_of(x));
    assert(0 <= q < 0x200);
    if q >= 0x100 {
        assert(q % 0x100 == q - 0x100);
    } else {
        assert(q % 0x100 == q);
    }
}

/// The classes, told by exponent and significand: a zero exponent field
/// with a zero significand is a zero, with any other a subnormal; an
/// exponent field of all ones with a zero significand is an infinity, with
/// any other a NaN; every other exponent is that of a normal value.
pub proof fn lemma_classes(x: u32)
    ensures
        is_zero(x) <==> exponent_of(x) == 0 && significand_of(x) == 0,
        is_subnormal(x) <==> exponent_of(x) == 0 && significand_of(x) != 0,
        is_normal(x) <==> 0 < exponent_of(x) < 0xff,
        is_infinite(x) <==> exponent_of(x) == 0xff && significand_of(x) == 0,
        is_nan(x) <==> exponent_of(x) == 0xff && significand_of(x) != 0,
{
    lemma_fields(x);
}

/// Splits `x` into sign, biased exponent and significand. Defined for every
/// pattern, NaN included.
pub fn decompose(x: u32) -> (r: (bool, u8, u32))
    ensures
        r == decompose_spec(x),
        r.2 < 0x80_0000,
        magnitude_of(x) == r.1 * 0x80_0000 + r.2,
        recompose_spec(r.0, r.1, r.2) == x,
{
    proof {
        lemma_fields(x);
        lemma_round_trip(x);
    }
    assert((x >> 31 != 0) == (x >= 0x8000_0000) && ((x >> 23) & 0xff) == x / 0x80_0000 % 0x100
        && (x & 0x7f_ffff) == x % 0x80_0000) by (bit_vector);
    (x >> 31 != 0, ((x >> 23) & 0xff) as u8, x & 0x7f_ffff)
}

/// Assembles a pattern from sign, biased exponent and significand.
///
/// A significand with bit 23 set (the leading one of a normalised value,
/// written out) is accepted: that bit falls on the lowest exponent bit.
pub fn recompose(sign: bool, exponent: u8, significand: u32) -> (r: u32)
    requires
        significand < 0x100_0000,
    ensures
        r == recompose_spec(sign, exponent, significand),
        significand < 0x80_0000 ==> decompose_spec(r) == (sign, exponent, significand),
        significand < 0x80_0000 ==> r == (if sign { 0x8000_0000int } else { 0int }) + exponent
            * 0x80_0000 + significand,
        significand >= 0x80_0000 && exponent == 127 ==> r == (if sign { 0x8000_0000int } else { 0int })
            + 0x3f00_0000 + significand,
{
    let s: u32 = if sign { 0x8000_0000 } else { 0 };
    let e: u32 = exponent as u32;
    proof {
        if significand < 0x80_0000 {
            lemma_recompose_fields(sign, exponent, significand);
        } else if exponent == 127 {
            lemma_recompose_normalised(sign, significand);
        }
    }
    s | (e << 23) | significand
}

/// With a significand below `2^23` the three fields do not overlap: the
/// assembled pattern is their sum, and it splits into the same fields again.
pub proof fn lemma_recompose_fields(sign: bool, exponent: u8, significand: u32)
    requires
        significand < 0x80_0000,
    ensures
        recompose_spec(sign, exponent, significand) == (if sign { 0x8000_0000int } else { 0int })
            + exponent * 0x80_0000 + significand,
        decompose_spec(recompose_spec(sign, exponent, significand)) == (
            sign,
            exponent,
            significand,
        ),
{
    let s: u32 = if sign { 0x8000_0000 } else { 0 };
    let e: u32 = exponent as u32;
    assert(e < 0x100 && significand < 0x80_0000 && (s == 0 || s == 0x8000_0000) ==> (s | (e << 23)
        | significand) == s + e * 0x80_0000 + significand) by (bit_vector);
}

/// A significand with its leading one written out at bit 23, assembled
/// with the exponent of one, gives the value between one and two with
/// that significand.
pub proof fn lemma_recompose_normalised(sign: bool, significand: u32)
    requires
        0x80_0000 <= significand < 0x100_0000,
    ensures
        recompose_spec(sign, 127, significand) == (if sign { 0x8000_0000int } else { 0int })
            + 0x3f00_0000 + significand,
{
    let s: u32 = if sign { 0x8000_0000 } else { 0 };
    assert(0x80_0000 <= significand < 0x100_0000 && (s == 0 || s == 0x8000_0000) ==> (s | (127u32
        << 23) | significand) == s + 0x3f00_0000 + significand) by (bit_vector);
}

/// Splitting a pattern and assembling the fields again gives the pattern
/// back, bit for bit, whatever the pattern.
pub proof fn lemma_round_trip(x: u32)
    ensures
        recompose_spec(sign_of(x), exponent_of(x), significand_of(x)) == x,
{
    lemma_fields(x);
    lemma_recompose_fields(sign_of(x), exponent_of(x), significand_of(x));
}

/// Inverts the sign of `magnitude` when `sign` is negative.
///
/// Only the sign bit of `sign` is read, so the result is meaningful for
/// every non-NaN `sign`, and `magnitude` keeps its exponent and significand.
pub fn flip_sign_nonnan(sign: u32, magnitude: u32) -> (r: u32)
    ensures
        r == flip_sign_spec(sign, magnitude),
        magnitude_of(r) == magnitude_of(magnitude),
        sign_of(r) == (sign_of(sign) != sign_of(magnitude)),
{
    let (s1, _, _) = decompose(sign);
    let (s2, e2, m2) = decompose(magnitude);
    proof {
        lemma_recompose_fields(s1 ^ s2, e2, m2);
    }
    recompose(s1 ^ s2, e2, m2)
}

} // verus!
