//! Laws of the arithmetic: which results are NaNs, what zeros and
//! infinities do, and how a result compares with its operands.

use vstd::prelude::*;
use vstd::arithmetic::power2::{lemma2_to64, lemma_pow2_adds, lemma_pow2_pos, pow2};
use crate::arith::{
    fadd_spec, fdiv_spec, fmul_spec, fsub_spec, lemma_magnitude_value, magnitude_value, value_of,
};
use crate::float::{
    is_finite, is_infinite, is_nan, is_zero, lemma_fields, magnitude_of, mantissa_of, NAN,
    NEG_ZERO, negate_spec, quantum_of, sign_of,
};
use crate::model::{
    infinity_pattern, lemma_round_at, lemma_round_bounded, lemma_round_ge, lemma_round_le,
    lemma_round_representable, lemma_scaled_increases, lemma_scaled_monotone, lemma_scaled_pack,
    round_magnitude, scaled, with_sign,
};
use crate::round::{lemma_round_tiny, lemma_scale_le, lemma_scale_lt};

verus! {

/// `x` is no NaN and has no sign bit: zero, positive or infinite.
pub open spec fn is_nonnegative(x: u32) -> bool {
    !sign_of(x) && !is_nan(x)
}

/// Only zero has the magnitude zero.
pub proof fn lemma_magnitude_zero(x: u32)
    ensures
        magnitude_value(x) == 0 <==> is_zero(x),
{
    if magnitude_of(x) > 0 {
        lemma_scaled_increases(0, magnitude_of(x) as nat);
    }
}

/// A sum is a NaN only where a term is one, or where the terms are
/// infinities of opposite sign.
pub proof fn lemma_fadd_class(a: u32, b: u32)
    requires
        !is_nan(a),
        !is_nan(b),
        !(is_infinite(a) && is_infinite(b) && sign_of(a) != sign_of(b)),
    ensures
        !is_nan(fadd_spec(a, b)),
        is_infinite(a) || is_infinite(b) ==> is_infinite(fadd_spec(a, b)),
        sign_of(a) == sign_of(b) ==> sign_of(fadd_spec(a, b)) == sign_of(a),
{
    reveal(fadd_spec);
    if !is_infinite(a) && !is_infinite(b) {
        let s: int = value_of(a) + value_of(b);
        if s < 0 {
            lemma_round_bounded((-s) as nat, 1);
        } else if s > 0 {
            lemma_round_bounded(s as nat, 1);
        }
    }
}

/// A NaN among the operands makes the result the NaN of the arithmetic.
pub proof fn lemma_nan_propagates(a: u32, b: u32)
    requires
        is_nan(a) || is_nan(b),
    ensures
        fadd_spec(a, b) == NAN,
        fsub_spec(a, b) == NAN,
        fmul_spec(a, b) == NAN,
        fdiv_spec(a, b) == NAN,
        is_nan(NAN),
{
    reveal(fadd_spec);
    reveal(fmul_spec);
    reveal(fdiv_spec);
}

/// An infinity plus or minus anything finite is that infinity, and so
/// is an infinity plus itself.
pub proof fn lemma_fadd_infinite(a: u32, b: u32)
    requires
        is_infinite(a),
        is_finite(b) || b == a,
    ensures
        fadd_spec(a, b) == a,
        fadd_spec(b, a) == a,
        is_finite(b) ==> fsub_spec(a, b) == a,
{
    reveal(fadd_spec);
}

/// The sum of two nonnegative values is nonnegative, and not below
/// either in magnitude.
pub proof fn lemma_fadd_nonnegative(a: u32, b: u32)
    requires
        is_nonnegative(a),
        is_nonnegative(b),
    ensures
        is_nonnegative(fadd_spec(a, b)),
        magnitude_of(fadd_spec(a, b)) >= magnitude_of(a),
        magnitude_of(fadd_spec(a, b)) >= magnitude_of(b),
{
    reveal(fadd_spec);
    lemma_fadd_class(a, b);
    if !is_infinite(a) && !is_infinite(b) {
        let s: int = value_of(a) + value_of(b);
        lemma_magnitude_zero(a);
        lemma_magnitude_zero(b);
        if s > 0 {
            lemma_round_bounded(s as nat, 1);
            assert(scaled(magnitude_of(a) as nat) * 1 <= s);
            assert(scaled(magnitude_of(b) as nat) * 1 <= s);
            lemma_round_ge(s as nat, 1, magnitude_of(a) as nat);
            lemma_round_ge(s as nat, 1, magnitude_of(b) as nat);
        }
    }
}

/// Adding a zero changes nothing, but for negative zero plus positive
/// zero, which is positive.
pub proof fn lemma_fadd_zero(a: u32, z: u32)
    requires
        !is_nan(a),
        is_zero(z),
        !(a == NEG_ZERO && z == 0),
    ensures
        fadd_spec(a, z) == a,
        fadd_spec(z, a) == a,
{
    reveal(fadd_spec);
    lemma_fields(a);
    lemma_fields(z);
    lemma_magnitude_zero(z);
    if !is_infinite(a) {
        lemma_magnitude_zero(a);
        let v: nat = magnitude_value(a);
        if v != 0 {
            assert(scaled(magnitude_of(a) as nat) * 1 == v);
            lemma_round_representable(magnitude_of(a) as nat, 1);
        }
    }
}

/// Subtracting a zero changes nothing, but for negative zero less
/// negative zero, which is positive.
pub proof fn lemma_fsub_zero(a: u32, z: u32)
    requires
        !is_nan(a),
        is_zero(z),
        !(a == NEG_ZERO && z == NEG_ZERO),
    ensures
        fsub_spec(a, z) == a,
{
    lemma_fields(z);
    lemma_fadd_zero(a, negate_spec(z));
}

/// The product of a zero and a finite value is the zero with the product
/// of the signs.
pub proof fn lemma_fmul_zero(a: u32, z: u32)
    requires
        is_finite(a),
        is_zero(z),
    ensures
        fmul_spec(a, z) == with_sign(sign_of(a) != sign_of(z), 0),
        fmul_spec(z, a) == with_sign(sign_of(a) != sign_of(z), 0),
{
    reveal(fmul_spec);
    lemma_magnitude_zero(z);
    let n: nat = magnitude_value(a) * magnitude_value(z);
    assert(n == 0 && magnitude_value(z) * magnitude_value(a) == 0) by (nonlinear_arith)
        requires
            n == magnitude_value(a) * magnitude_value(z),
            magnitude_value(z) == 0,
    ;
    lemma_pow2_pos(149);
    lemma_round_tiny(0, pow2(149));
}

/// A product is a NaN only where a factor is one, or where the factors
/// are zero and infinity. Its sign is the product of the signs.
pub proof fn lemma_fmul_class(a: u32, b: u32)
    requires
        !is_nan(a),
        !is_nan(b),
        !(is_infinite(a) && is_zero(b)),
        !(is_zero(a) && is_infinite(b)),
    ensures
        !is_nan(fmul_spec(a, b)),
        sign_of(fmul_spec(a, b)) == (sign_of(a) != sign_of(b)),
        is_infinite(a) || is_infinite(b) ==> is_infinite(fmul_spec(a, b)),
        (is_zero(a) || is_zero(b)) ==> is_zero(fmul_spec(a, b)),
{
    reveal(fmul_spec);
    if !is_infinite(a) && !is_infinite(b) {
        let n: nat = magnitude_value(a) * magnitude_value(b);
        lemma_pow2_pos(149);
        lemma_round_bounded(n, pow2(149));
        lemma_magnitude_zero(a);
        lemma_magnitude_zero(b);
        if is_zero(a) || is_zero(b) {
            assert(n == 0) by (nonlinear_arith)
                requires
                    n == magnitude_value(a) * magnitude_value(b),
                    magnitude_value(a) == 0 || magnitude_value(b) == 0,
            ;
            lemma_round_tiny(0, pow2(149));
        }
    }
}

/// A quotient is a NaN only where an operand is one, or where both are
/// zero or both infinite. Its sign is the product of the signs; it is
/// zero for a zero dividend or an infinite divisor, and infinite for an
/// infinite dividend or a zero divisor.
pub proof fn lemma_fdiv_class(a: u32, b: u32)
    requires
        !is_nan(a),
        !is_nan(b),
        !(is_infinite(a) && is_infinite(b)),
        !(is_zero(a) && is_zero(b)),
    ensures
        !is_nan(fdiv_spec(a, b)),
        sign_of(fdiv_spec(a, b)) == (sign_of(a) != sign_of(b)),
        is_zero(a) || is_infinite(b) ==> is_zero(fdiv_spec(a, b)),
        is_infinite(a) || is_zero(b) ==> is_infinite(fdiv_spec(a, b)),
{
    reveal(fdiv_spec);
    if !is_infinite(a) && !is_infinite(b) && !is_zero(b) {
        let n: nat = magnitude_value(a) * pow2(149);
        let d: nat = magnitude_value(b);
        lemma_magnitude_zero(a);
        lemma_magnitude_zero(b);
        lemma_round_bounded(n, d);
        if is_zero(a) {
            assert(n == 0) by (nonlinear_arith)
                requires
                    n == magnitude_value(a) * pow2(149),
                    magnitude_value(a) == 0,
            ;
            lemma_round_tiny(0, d);
        }
    }
}

/// The magnitude pattern of `2^k`, for `k` from `-126` to `128`; that of
/// infinity for `k == 128`.
pub open spec fn pow2_pattern(k: int) -> nat {
    ((k + 127) * 0x80_0000) as nat
}

/// The magnitude of `x` is `2^k` at most.
pub open spec fn below_pow2(x: u32, k: int) -> bool {
    magnitude_of(x) <= pow2_pattern(k)
}

/// The magnitude of `x` is `2^k` at least, and `x` is no NaN.
pub open spec fn above_pow2(x: u32, k: int) -> bool {
    pow2_pattern(k) <= magnitude_of(x) <= infinity_pattern()
}

/// The pattern of `2^k` stands for `2^(k + 149)` units.
pub proof fn lemma_scaled_pow2(k: int)
    requires
        -126 <= k <= 128,
    ensures
        scaled(pow2_pattern(k)) == pow2((k + 149) as nat),
        pow2_pattern(k) <= infinity_pattern(),
{
    lemma2_to64();
    lemma_scaled_pack((k + 126) as nat, 0x80_0000);
    lemma_pow2_adds(23, (k + 126) as nat);
}

/// The magnitude of a value that `2^k` bounds is `2^(k + 149)` units at
/// most.
pub proof fn lemma_below_pow2(x: u32, k: int)
    requires
        -126 <= k <= 128,
        below_pow2(x, k),
    ensures
        magnitude_value(x) <= pow2((k + 149) as nat),
        !is_nan(x),
        k <= 127 ==> is_finite(x),
{
    lemma_scaled_pow2(k);
    lemma_scaled_monotone(magnitude_of(x) as nat, pow2_pattern(k));
}

/// The magnitude of a value that reaches `2^k` is `2^(k + 149)` units at
/// least.
pub proof fn lemma_above_pow2(x: u32, k: int)
    requires
        -126 <= k <= 128,
        above_pow2(x, k),
    ensures
        magnitude_value(x) >= pow2((k + 149) as nat),
        !is_zero(x),
{
    lemma_scaled_pow2(k);
    lemma_scaled_monotone(pow2_pattern(k), magnitude_of(x) as nat);
}

/// Where `2^k` bounds both terms, `2^(k + 1)` bounds their sum.
pub proof fn lemma_fadd_bound(a: u32, b: u32, k: int)
    requires
        -126 <= k <= 127,
        below_pow2(a, k),
        below_pow2(b, k),
    ensures
        below_pow2(fadd_spec(a, b), k + 1),
        !is_nan(fadd_spec(a, b)),
{
    reveal(fadd_spec);
    lemma_below_pow2(a, k);
    lemma_below_pow2(b, k);
    lemma_scaled_pow2(k + 1);
    lemma_pow2_adds((k + 149) as nat, 1);
    lemma2_to64();
    let s: int = value_of(a) + value_of(b);
    if s < 0 {
        lemma_round_le((-s) as nat, 1, pow2_pattern(k + 1));
    } else if s > 0 {
        lemma_round_le(s as nat, 1, pow2_pattern(k + 1));
    }
}

/// Where `2^k` bounds both terms, `2^(k + 1)` bounds their difference.
pub proof fn lemma_fsub_bound(a: u32, b: u32, k: int)
    requires
        -126 <= k <= 127,
        below_pow2(a, k),
        below_pow2(b, k),
    ensures
        below_pow2(fsub_spec(a, b), k + 1),
        !is_nan(fsub_spec(a, b)),
{
    lemma_fadd_bound(a, negate_spec(b), k);
}

/// Where `2^i` and `2^j` bound the factors, `2^(i + j)` bounds their
/// product.
pub proof fn lemma_fmul_bound(a: u32, b: u32, i: int, j: int)
    requires
        -126 <= i <= 127,
        -126 <= j <= 127,
        -126 <= i + j <= 128,
        below_pow2(a, i),
        below_pow2(b, j),
    ensures
        below_pow2(fmul_spec(a, b), i + j),
        !is_nan(fmul_spec(a, b)),
        sign_of(fmul_spec(a, b)) == (sign_of(a) != sign_of(b)),
{
    reveal(fmul_spec);
    lemma_below_pow2(a, i);
    lemma_below_pow2(b, j);
    lemma_scaled_pow2(i + j);
    lemma_pow2_adds((i + 149) as nat, (j + 149) as nat);
    lemma_pow2_adds((i + j + 149) as nat, 149);
    let va: nat = magnitude_value(a);
    let vb: nat = magnitude_value(b);
    let pa: nat = pow2((i + 149) as nat);
    let pb: nat = pow2((j + 149) as nat);
    assert(va * vb <= pa * pb) by (nonlinear_arith)
        requires
            va <= pa,
            vb <= pb,
    ;
    lemma_pow2_pos(149);
    lemma_round_le(va * vb, pow2(149), pow2_pattern(i + j));
}

/// Where `2^i` bounds the dividend and the divisor reaches `2^j`,
/// `2^(i - j)` bounds the quotient.
pub proof fn lemma_fdiv_bound(a: u32, b: u32, i: int, j: int)
    requires
        -126 <= i <= 127,
        -126 <= j <= 127,
        -126 <= i - j <= 128,
        below_pow2(a, i),
        above_pow2(b, j),
    ensures
        below_pow2(fdiv_spec(a, b), i - j),
        !is_nan(fdiv_spec(a, b)),
        sign_of(fdiv_spec(a, b)) == (sign_of(a) != sign_of(b)),
{
    reveal(fdiv_spec);
    lemma_below_pow2(a, i);
    lemma_above_pow2(b, j);
    lemma_scaled_pow2(i - j);
    if !is_infinite(b) {
        lemma_pow2_adds((i + 149) as nat, 149);
        lemma_pow2_adds((i - j + 149) as nat, (j + 149) as nat);
        let va: nat = magnitude_value(a);
        let vb: nat = magnitude_value(b);
        let pa: nat = pow2((i + 149) as nat);
        let pb: nat = pow2((j + 149) as nat);
        let pc: nat = pow2((i - j + 149) as nat);
        let u: nat = pow2(149);
        lemma_pow2_pos((j + 149) as nat);
        assert(va * u <= pc * vb) by (nonlinear_arith)
            requires
                va <= pa,
                vb >= pb,
                pa * u == pc * pb,
        ;
        lemma_round_le(va * u, vb, pow2_pattern(i - j));
    }
}

/// Where the dividend reaches `2^i` and `2^j` bounds the divisor, the
/// quotient reaches `2^(i - j)`.
pub proof fn lemma_fdiv_above(a: u32, b: u32, i: int, j: int)
    requires
        -126 <= i <= 127,
        -126 <= j <= 127,
        -126 <= i - j <= 127,
        above_pow2(a, i),
        below_pow2(b, j),
    ensures
        above_pow2(fdiv_spec(a, b), i - j),
        sign_of(fdiv_spec(a, b)) == (sign_of(a) != sign_of(b)),
{
    reveal(fdiv_spec);
    lemma_above_pow2(a, i);
    lemma_below_pow2(b, j);
    lemma_scaled_pow2(i - j);
    if !is_infinite(a) && !is_zero(b) {
        lemma_magnitude_zero(b);
        lemma_pow2_adds((i + 149) as nat, 149);
        lemma_pow2_adds((i - j + 149) as nat, (j + 149) as nat);
        let va: nat = magnitude_value(a);
        let vb: nat = magnitude_value(b);
        let pa: nat = pow2((i + 149) as nat);
        let pb: nat = pow2((j + 149) as nat);
        let pc: nat = pow2((i - j + 149) as nat);
        let u: nat = pow2(149);
        assert(va * u >= pc * vb) by (nonlinear_arith)
            requires
                va >= pa,
                vb <= pb,
                pa * u == pc * pb,
        ;
        lemma_round_bounded(va * u, vb);
        lemma_round_ge(va * u, vb, pow2_pattern(i - j));
    }
}

/// The quotient of a value by one of no smaller magnitude lies between
/// minus one and one.
pub proof fn lemma_fdiv_ratio(a: u32, b: u32)
    requires
        is_finite(a),
        !is_nan(b),
        !is_zero(b),
        magnitude_of(a) <= magnitude_of(b),
    ensures
        below_pow2(fdiv_spec(a, b), 0),
        sign_of(fdiv_spec(a, b)) == (sign_of(a) != sign_of(b)),
{
    reveal(fdiv_spec);
    if !is_infinite(b) {
        lemma_scaled_pow2(0);
        lemma_scaled_monotone(magnitude_of(a) as nat, magnitude_of(b) as nat);
        lemma_magnitude_zero(b);
        let va: nat = magnitude_value(a);
        let vb: nat = magnitude_value(b);
        lemma_scale_le(va as int, vb as int, pow2(149) as int);
        assert(vb * pow2(149) == pow2(149) * vb) by (nonlinear_arith);
        lemma_round_le(va * pow2(149), vb, pow2_pattern(0));
    }
}

/// Patterns whose magnitudes are ordered are ordered alike.
pub proof fn lemma_magnitude_order(a: u32, b: u32)
    requires
        magnitude_value(a) <= magnitude_value(b),
    ensures
        magnitude_of(a) <= magnitude_of(b),
{
    if magnitude_of(b) < magnitude_of(a) {
        lemma_scaled_increases(magnitude_of(b) as nat, magnitude_of(a) as nat);
    }
}

/// Where the patterns `ca` and `cb` bound the factors in magnitude, every
/// pattern `c` with a magnitude of the product of theirs or more bounds
/// the product.
pub proof fn lemma_fmul_le(a: u32, b: u32, ca: nat, cb: nat, c: nat)
    requires
        magnitude_of(a) <= ca < infinity_pattern(),
        magnitude_of(b) <= cb < infinity_pattern(),
        c <= infinity_pattern(),
        scaled(ca) * scaled(cb) <= scaled(c) * pow2(149),
    ensures
        magnitude_of(fmul_spec(a, b)) <= c,
        sign_of(fmul_spec(a, b)) == (sign_of(a) != sign_of(b)),
{
    reveal(fmul_spec);
    let va: nat = magnitude_value(a);
    let vb: nat = magnitude_value(b);
    lemma_scaled_monotone(magnitude_of(a) as nat, ca);
    lemma_scaled_monotone(magnitude_of(b) as nat, cb);
    assert(va * vb <= scaled(ca) * scaled(cb)) by (nonlinear_arith)
        requires
            va <= scaled(ca),
            vb <= scaled(cb),
    ;
    lemma_pow2_pos(149);
    lemma_round_le(va * vb, pow2(149), c);
}

/// Where the patterns `ca` and `cb` bound the terms in magnitude, every
/// pattern `c` with a magnitude of the sum of theirs or more bounds the
/// sum.
pub proof fn lemma_fadd_le(a: u32, b: u32, ca: nat, cb: nat, c: nat)
    requires
        magnitude_of(a) <= ca < infinity_pattern(),
        magnitude_of(b) <= cb < infinity_pattern(),
        c <= infinity_pattern(),
        scaled(ca) + scaled(cb) <= scaled(c),
    ensures
        magnitude_of(fadd_spec(a, b)) <= c,
{
    reveal(fadd_spec);
    lemma_scaled_monotone(magnitude_of(a) as nat, ca);
    lemma_scaled_monotone(magnitude_of(b) as nat, cb);
    let s: int = value_of(a) + value_of(b);
    let bound: nat = scaled(c);
    assert(-bound <= s <= bound);
    if s < 0 {
        assert(((-s) as nat) <= bound * 1);
        lemma_round_le((-s) as nat, 1, c);
    } else if s > 0 {
        assert((s as nat) <= bound * 1);
        lemma_round_le(s as nat, 1, c);
    }
}

/// Where the patterns `ca` and `cb` bound the terms in magnitude, every
/// pattern `c` with a magnitude of the sum of theirs or more bounds the
/// difference.
pub proof fn lemma_fsub_le(a: u32, b: u32, ca: nat, cb: nat, c: nat)
    requires
        magnitude_of(a) <= ca < infinity_pattern(),
        magnitude_of(b) <= cb < infinity_pattern(),
        c <= infinity_pattern(),
        scaled(ca) + scaled(cb) <= scaled(c),
    ensures
        magnitude_of(fsub_spec(a, b)) <= c,
{
    lemma_fadd_le(a, negate_spec(b), ca, cb, c);
}

/// A product that a pattern stands for exactly is that pattern: nothing
/// is rounded.
pub proof fn lemma_fmul_exact(a: u32, b: u32, c: nat)
    requires
        is_finite(a),
        is_finite(b),
        c < infinity_pattern(),
        magnitude_value(a) * magnitude_value(b) == scaled(c) * pow2(149),
    ensures
        fmul_spec(a, b) == with_sign(sign_of(a) != sign_of(b), c),
{
    reveal(fmul_spec);
    lemma_pow2_pos(149);
    lemma_round_representable(c, pow2(149));
}

/// The product of two magnitudes, each an integer significand at a
/// quantum, compared with a third: the exponents are taken out of the
/// comparison.
pub proof fn lemma_scaled_product(
    ea: nat,
    fa: nat,
    eb: nat,
    fb: nat,
    ec: nat,
    fc: nat,
    s: nat,
)
    requires
        ea + eb + s == ec + 149,
    ensures
        fa * fb <= fc * pow2(s) ==> (fa * pow2(ea)) * (fb * pow2(eb)) <= (fc * pow2(ec)) * pow2(
            149,
        ),
        fa * fb == fc * pow2(s) ==> (fa * pow2(ea)) * (fb * pow2(eb)) == (fc * pow2(ec)) * pow2(
            149,
        ),
{
    let pa: nat = pow2(ea);
    let pb: nat = pow2(eb);
    let pc: nat = pow2(ec);
    let ps: nat = pow2(s);
    let u: nat = pow2(149);
    lemma_pow2_adds(ea, eb);
    lemma_pow2_adds(ec, 149);
    lemma_pow2_adds(ea + eb, s);
    lemma_pow2_pos(ea + eb);
    let x: nat = pa * pb;
    let y: nat = pc * u;
    assert(y == x * ps);
    assert((fa * pa) * (fb * pb) == (fa * fb) * x) by (nonlinear_arith)
        requires
            x == pa * pb,
    ;
    assert((fc * pc) * u == (fc * ps) * x) by (nonlinear_arith)
        requires
            y == pc * u,
            y == x * ps,
    ;
    if fa * fb <= fc * ps {
        lemma_scale_le((fa * fb) as int, (fc * ps) as int, x as int);
    }
}

/// A quotient, from the integer part `fc` of the quotient of the
/// significands `ma` and `mb`: with `ec` the quantum of the quotient and
/// `s` the shift of the dividend, the quotient is the pattern of `fc` or
/// the next one, decided by the remainder.
pub proof fn lemma_fdiv_floor(a: u32, b: u32, ma: nat, mb: nat, ec: nat, fc: nat, s: nat)
    requires
        is_finite(a),
        is_finite(b),
        ma == mantissa_of(a),
        mb == mantissa_of(b),
        mb > 0,
        quantum_of(a) + 149 == ec + quantum_of(b) + s,
        ec <= 253,
        fc < 0x100_0000,
        ec > 0 ==> fc >= 0x80_0000,
        fc * mb <= ma * pow2(s) < (fc + 1) * mb,
    ensures
        fdiv_spec(a, b) == with_sign(
            sign_of(a) != sign_of(b),
            if 2 * (ma * pow2(s)) < (2 * fc + 1) * mb || (2 * (ma * pow2(s)) == (2 * fc + 1) * mb
                && fc % 2 == 0) {
                ec * 0x80_0000 + fc
            } else {
                ec * 0x80_0000 + fc + 1
            },
        ),
{
    reveal(fdiv_spec);
    let ta: nat = quantum_of(a);
    let tb: nat = quantum_of(b);
    let ps: nat = pow2(s);
    let w: nat = pow2(ec + tb);
    lemma_magnitude_value(a);
    lemma_magnitude_value(b);
    lemma_magnitude_zero(b);
    let n: nat = magnitude_value(a) * pow2(149);
    let d: nat = magnitude_value(b);
    lemma_pow2_adds(ta, 149);
    lemma_pow2_adds(s, ec + tb);
    lemma_pow2_adds(ec, tb);
    lemma_pow2_pos(ec + tb);
    lemma_pow2_pos(tb);
    assert(d > 0) by (nonlinear_arith)
        requires
            d == mb * pow2(tb),
            mb > 0,
            pow2(tb) > 0,
    ;
    assert(n == (ma * ps) * w) by (nonlinear_arith)
        requires
            n == (ma * pow2(ta)) * pow2(149),
            pow2(ta) * pow2(149) == ps * w,
    ;
    assert(fc * pow2(ec) * d == (fc * mb) * w) by (nonlinear_arith)
        requires
            d == mb * pow2(tb),
            w == pow2(ec) * pow2(tb),
    ;
    assert((fc + 1) * pow2(ec) * d == ((fc + 1) * mb) * w) by (nonlinear_arith)
        requires
            d == mb * pow2(tb),
            w == pow2(ec) * pow2(tb),
    ;
    assert((2 * fc + 1) * pow2(ec) * d == ((2 * fc + 1) * mb) * w) by (nonlinear_arith)
        requires
            d == mb * pow2(tb),
            w == pow2(ec) * pow2(tb),
    ;
    lemma_scale_le((fc * mb) as int, (ma * ps) as int, w as int);
    lemma_scale_lt((ma * ps) as int, ((fc + 1) * mb) as int, w as int);
    let x: int = (2 * (ma * ps)) as int;
    let y: int = ((2 * fc + 1) * mb) as int;
    assert(2 * n == x * w) by (nonlinear_arith)
        requires
            n == (ma * ps) * w,
            x == 2 * (ma * ps),
    ;
    if x < y {
        lemma_scale_lt(x, y, w as int);
    } else if x > y {
        lemma_scale_lt(y, x, w as int);
    }
    lemma_round_at(n, d, fc, ec);
}

/// Inverting the sign keeps magnitude and class, and twice gives the
/// pattern back.
pub proof fn lemma_negate(x: u32)
    ensures
        magnitude_of(negate_spec(x)) == magnitude_of(x),
        sign_of(negate_spec(x)) != sign_of(x),
        negate_spec(negate_spec(x)) == x,
        value_of(negate_spec(x)) == -value_of(x),
{
}

/// A product keeps its sign where the signs of both factors change.
pub proof fn lemma_fmul_negate_both(a: u32, b: u32)
    ensures
        fmul_spec(negate_spec(a), negate_spec(b)) == fmul_spec(a, b),
{
    reveal(fmul_spec);
    lemma_negate(a);
    lemma_negate(b);
}

/// A product changes its sign with the sign of its second factor.
pub proof fn lemma_fmul_negate(a: u32, b: u32)
    requires
        !is_nan(fmul_spec(a, b)),
    ensures
        fmul_spec(a, negate_spec(b)) == negate_spec(fmul_spec(a, b)),
{
    reveal(fmul_spec);
    let nb: u32 = negate_spec(b);
    let sign: bool = sign_of(a) != sign_of(b);
    assert(magnitude_of(nb) == magnitude_of(b));
    assert((sign_of(a) != sign_of(nb)) == !sign);
    if is_nan(a) || is_nan(b) {
    } else if is_infinite(a) || is_infinite(b) {
        lemma_with_sign_negate(sign, infinity_pattern());
    } else {
        let n: nat = magnitude_value(a) * magnitude_value(b);
        lemma_pow2_pos(149);
        lemma_round_bounded(n, pow2(149));
        lemma_with_sign_negate(sign, round_magnitude(n, pow2(149)));
    }
}

/// A magnitude pattern with the other sign in front is the pattern with
/// its sign inverted.
pub(crate) proof fn lemma_with_sign_negate(sign: bool, mag: nat)
    requires
        mag <= 0x7fff_ffff,
    ensures
        with_sign(!sign, mag) == negate_spec(with_sign(sign, mag)),
{
}

/// A quotient changes its sign with the sign of the dividend.
pub proof fn lemma_fdiv_negate(a: u32, b: u32)
    requires
        !is_nan(fdiv_spec(a, b)),
    ensures
        fdiv_spec(negate_spec(a), b) == negate_spec(fdiv_spec(a, b)),
{
    reveal(fdiv_spec);
    let na: u32 = negate_spec(a);
    let sign: bool = sign_of(a) != sign_of(b);
    assert(magnitude_of(na) == magnitude_of(a));
    assert((sign_of(na) != sign_of(b)) == !sign);
    if is_nan(a) || is_nan(b) {
    } else if is_infinite(a) {
        lemma_with_sign_negate(sign, infinity_pattern());
    } else if is_infinite(b) {
        lemma_with_sign_negate(sign, 0);
    } else if is_zero(b) {
        lemma_with_sign_negate(sign, infinity_pattern());
    } else {
        lemma_magnitude_zero(b);
        let m: nat = round_magnitude(magnitude_value(a) * pow2(149), magnitude_value(b));
        lemma_round_bounded(magnitude_value(a) * pow2(149), magnitude_value(b));
        lemma_with_sign_negate(sign, m);
    }
}

/// A quotient changes its sign with the sign of the divisor.
pub proof fn lemma_fdiv_negate_divisor(a: u32, b: u32)
    requires
        !is_nan(fdiv_spec(a, b)),
    ensures
        fdiv_spec(a, negate_spec(b)) == negate_spec(fdiv_spec(a, b)),
{
    reveal(fdiv_spec);
    let nb: u32 = negate_spec(b);
    let sign: bool = sign_of(a) != sign_of(b);
    assert(magnitude_of(nb) == magnitude_of(b));
    assert((sign_of(a) != sign_of(nb)) == !sign);
    if is_nan(a) || is_nan(b) {
    } else if is_infinite(a) {
        lemma_with_sign_negate(sign, infinity_pattern());
    } else if is_infinite(b) {
        lemma_with_sign_negate(sign, 0);
    } else if is_zero(b) {
        lemma_with_sign_negate(sign, infinity_pattern());
    } else {
        lemma_magnitude_zero(b);
        let m: nat = round_magnitude(magnitude_value(a) * pow2(149), magnitude_value(b));
        lemma_round_bounded(magnitude_value(a) * pow2(149), magnitude_value(b));
        lemma_with_sign_negate(sign, m);
    }
}

/// A sum changes its sign with the signs of both terms, unless it is an
/// exact zero of two terms that differ in sign, which is positive either
/// way.
pub proof fn lemma_fadd_negate(a: u32, b: u32)
    requires
        !is_nan(fadd_spec(a, b)),
        is_finite(a) && is_finite(b) ==> value_of(a) + value_of(b) != 0 || sign_of(a) == sign_of(b),
    ensures
        fadd_spec(negate_spec(a), negate_spec(b)) == negate_spec(fadd_spec(a, b)),
{
    reveal(fadd_spec);
    let na: u32 = negate_spec(a);
    let nb: u32 = negate_spec(b);
    lemma_negate(a);
    lemma_negate(b);
    if is_nan(a) || is_nan(b) {
    } else if is_infinite(a) {
    } else if is_infinite(b) {
    } else {
        let s: int = value_of(a) + value_of(b);
        assert(value_of(na) + value_of(nb) == -s);
        lemma_magnitude_zero(a);
        lemma_magnitude_zero(b);
        if s < 0 {
            let m: nat = round_magnitude((-s) as nat, 1);
            lemma_round_bounded((-s) as nat, 1);
            lemma_with_sign_negate(true, m);
        } else if s > 0 {
            let m: nat = round_magnitude(s as nat, 1);
            lemma_round_bounded(s as nat, 1);
            lemma_with_sign_negate(false, m);
        }
    }
}

/// A sum that a pattern stands for exactly is that pattern: nothing is
/// rounded.
pub proof fn lemma_fadd_exact(a: u32, b: u32, c: u32)
    requires
        is_finite(a),
        is_finite(b),
        is_finite(c),
        value_of(c) == value_of(a) + value_of(b),
        !is_zero(c),
    ensures
        fadd_spec(a, b) == c,
{
    reveal(fadd_spec);
    lemma_fields(c);
    lemma_magnitude_zero(c);
    let m: nat = magnitude_of(c) as nat;
    assert(scaled(m) * 1 == scaled(m));
    lemma_round_representable(m, 1);
}

/// A value less itself is positive zero.
pub proof fn lemma_fsub_self(a: u32)
    requires
        is_finite(a),
    ensures
        fsub_spec(a, a) == 0,
{
    reveal(fadd_spec);
}

} // verus!
