//! The order of single-precision values, read off their patterns.

use vstd::prelude::*;
use crate::arith::{magnitude_value, value_of};
use crate::float::{INFINITY, is_finite, is_nan, magnitude, magnitude_of, NEG_INFINITY, sign_of};
use crate::model::lemma_scaled_increases;

verus! {

/// `a` is less than `b`; false where either is a NaN.
pub open spec fn flt_spec(a: u32, b: u32) -> bool {
    !is_nan(a) && !is_nan(b) && value_of(a) < value_of(b)
}

/// `a` is less than or equal to `b`; false where either is a NaN.
pub open spec fn fle_spec(a: u32, b: u32) -> bool {
    !is_nan(a) && !is_nan(b) && value_of(a) <= value_of(b)
}

/// `a` equals `b`; false where either is a NaN, true of the two zeros.
pub open spec fn feq_spec(a: u32, b: u32) -> bool {
    !is_nan(a) && !is_nan(b) && value_of(a) == value_of(b)
}

/// The magnitude pattern of `x`, negative for a negative `x`.
pub open spec fn key_of(x: u32) -> int {
    if sign_of(x) {
        -(magnitude_of(x) as int)
    } else {
        magnitude_of(x) as int
    }
}

/// Signed magnitude patterns are ordered as the values they stand for.
pub proof fn lemma_key_order(a: u32, b: u32)
    ensures
        key_of(a) < key_of(b) <==> value_of(a) < value_of(b),
        key_of(a) == key_of(b) <==> value_of(a) == value_of(b),
{
    let ma: nat = magnitude_of(a) as nat;
    let mb: nat = magnitude_of(b) as nat;
    if ma < mb {
        lemma_scaled_increases(ma, mb);
    }
    if mb < ma {
        lemma_scaled_increases(mb, ma);
    }
    if 0 < ma {
        lemma_scaled_increases(0, ma);
    }
    if 0 < mb {
        lemma_scaled_increases(0, mb);
    }
    assert(magnitude_value(a) == 0 <==> ma == 0);
    assert(magnitude_value(b) == 0 <==> mb == 0);
}

/// No value is below minus infinity or above infinity, and every finite
/// value lies strictly between the two.
pub proof fn lemma_infinity_order(y: u32)
    requires
        !is_nan(y),
    ensures
        fle_spec(NEG_INFINITY, y),
        fle_spec(y, INFINITY),
        is_finite(y) ==> flt_spec(NEG_INFINITY, y) && flt_spec(y, INFINITY),
{
    lemma_key_order(NEG_INFINITY, y);
    lemma_key_order(y, INFINITY);
}

/// The magnitude pattern of `x`, negated for a negative `x`.
fn key(x: u32) -> (r: i64)
    ensures
        r == key_of(x),
{
    let m: i64 = magnitude(x) as i64;
    if x >= 0x8000_0000 {
        -m
    } else {
        m
    }
}

/// Tells whether `a < b`.
pub fn flt(a: u32, b: u32) -> (r: bool)
    ensures
        r == flt_spec(a, b),
{
    proof {
        lemma_key_order(a, b);
    }
    !is_nan(a) && !is_nan(b) && key(a) < key(b)
}

/// Tells whether `a <= b`.
pub fn fle(a: u32, b: u32) -> (r: bool)
    ensures
        r == fle_spec(a, b),
{
    proof {
        lemma_key_order(a, b);
    }
    !is_nan(a) && !is_nan(b) && key(a) <= key(b)
}

/// Tells whether `a > b`.
pub fn fgt(a: u32, b: u32) -> (r: bool)
    ensures
        r == flt_spec(b, a),
{
    flt(b, a)
}

/// Tells whether `a == b` as values: the two zeros are equal, and a NaN
/// equals nothing.
pub fn feq(a: u32, b: u32) -> (r: bool)
    ensures
        r == feq_spec(a, b),
{
    proof {
        lemma_key_order(a, b);
    }
    !is_nan(a) && !is_nan(b) && key(a) == key(b)
}

} // verus!
