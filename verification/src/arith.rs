//! Correctly rounded arithmetic on single-precision patterns: each result
//! is the pattern nearest to the exact result, ties to even.

use vstd::prelude::*;
use vstd::arithmetic::power2::{
    lemma2_to64, lemma2_to64_rest, lemma_pow2_adds, lemma_pow2_pos, pow2,
};
use crate::float::{
    decompose, INFINITY, is_finite, is_infinite, is_nan, is_zero, magnitude, magnitude_of,
    mantissa_of, NAN, NEG_ZERO, negate_spec, quantum_of, sign_of,
};
use crate::model::{
    infinity_pattern, lemma_scaled_increases, lemma_scaled_pack, round_magnitude, scaled,
    with_sign,
};
use crate::round::{
    highest_bit, lemma_pow2_le, lemma_round_tiny, lemma_scale_le, lemma_scale_lt, round_pack,
    shift_left, shift_right, stands_for,
};

verus! {

/// The magnitude of a pattern, in units of `2^-149`; `2^128` for an
/// infinity.
pub open spec fn magnitude_value(x: u32) -> nat {
    scaled(magnitude_of(x) as nat)
}

/// A finite magnitude is its integer significand times a power of two.
pub proof fn lemma_magnitude_value(x: u32)
    requires
        is_finite(x),
    ensures
        magnitude_value(x) == mantissa_of(x) * pow2(quantum_of(x)),
        magnitude_of(x) == quantum_of(x) * 0x80_0000 + mantissa_of(x),
        mantissa_of(x) < 0x100_0000,
        quantum_of(x) <= 253,
        quantum_of(x) > 0 ==> mantissa_of(x) >= 0x80_0000,
        is_zero(x) <==> mantissa_of(x) == 0,
{
    lemma_scaled_pack(quantum_of(x), mantissa_of(x));
}

/// Integer significand and quantum exponent of a finite pattern.
pub(crate) fn unpack(x: u32) -> (r: (u64, u32))
    requires
        is_finite(x),
    ensures
        r.0 == mantissa_of(x),
        r.1 == quantum_of(x),
        magnitude_value(x) == r.0 * pow2(r.1 as nat),
        r.0 < 0x100_0000,
        r.1 <= 253,
        r.1 > 0 ==> r.0 >= 0x80_0000,
        is_zero(x) <==> r.0 == 0,
{
    let (_, e, f) = decompose(x);
    proof {
        lemma_magnitude_value(x);
    }
    if e == 0 {
        (f as u64, 0)
    } else {
        (f as u64 + 0x80_0000, e as u32 - 1)
    }
}

/// The product of `a` and `b`, rounded to nearest.
#[verifier::opaque]
pub open spec fn fmul_spec(a: u32, b: u32) -> u32 {
    let sign: bool = sign_of(a) != sign_of(b);
    if is_nan(a) || is_nan(b) {
        NAN
    } else if is_infinite(a) || is_infinite(b) {
        if is_zero(a) || is_zero(b) {
            NAN
        } else {
            with_sign(sign, infinity_pattern())
        }
    } else {
        with_sign(sign, round_magnitude(magnitude_value(a) * magnitude_value(b), pow2(149)))
    }
}

/// The exact product of two finite magnitudes, handed to the rounding with
/// nothing dropped.
proof fn lemma_product_exact(ma: nat, ta: nat, mb: nat, tb: nat)
    requires
        ta + tb >= 148,
    ensures
        stands_for(
            ma * mb,
            (ta + tb - 148) as nat,
            false,
            (ma * pow2(ta)) * (mb * pow2(tb)),
            pow2(149),
        ),
{
    let t: nat = (ta + tb - 148) as nat;
    let x: nat = pow2(ta);
    let y: nat = pow2(tb);
    let d: nat = pow2(149);
    lemma2_to64();
    lemma_pow2_pos(149);
    lemma_pow2_pos(ta);
    lemma_pow2_pos(tb);
    lemma_pow2_adds(t, 149);
    lemma_pow2_adds(ta, tb);
    lemma_pow2_adds(ta + tb, 1);
    let td: nat = pow2(t) * d;
    assert(td == 2 * (x * y));
    assert((ma * mb) * td == 2 * ((ma * x) * (mb * y))) by (nonlinear_arith)
        requires
            td == 2 * (x * y),
    ;
    assert(td > 0) by (nonlinear_arith)
        requires
            td == 2 * (x * y),
            x > 0,
            y > 0,
    ;
    assert((ma * mb + 1) * td == (ma * mb) * td + td) by (nonlinear_arith);
}

/// The exact product of two finite magnitudes, where it has bits below
/// half the smallest unit: those are dropped and remembered as `sticky`.
proof fn lemma_product_shifted(ma: nat, ta: nat, mb: nat, tb: nat, f: nat, rem: nat)
    requires
        ta + tb < 148,
        ma * mb == f * pow2((148 - ta - tb) as nat) + rem,
        rem < pow2((148 - ta - tb) as nat),
    ensures
        stands_for(f, 0, rem != 0, (ma * pow2(ta)) * (mb * pow2(tb)), pow2(149)),
{
    let sh: nat = (148 - ta - tb) as nat;
    let x: nat = pow2(ta);
    let y: nat = pow2(tb);
    let z: nat = pow2(ta + tb + 1);
    let ps: nat = pow2(sh);
    let d: nat = pow2(149);
    lemma2_to64();
    lemma_pow2_pos(149);
    lemma_pow2_pos(ta + tb + 1);
    lemma_pow2_adds(sh, ta + tb + 1);
    lemma_pow2_adds(ta, tb);
    lemma_pow2_adds(ta + tb, 1);
    assert(d == ps * z);
    assert(z == 2 * (x * y));
    let n: nat = (ma * x) * (mb * y);
    assert(2 * n == (f * ps + rem) * z) by (nonlinear_arith)
        requires
            n == (ma * x) * (mb * y),
            z == 2 * (x * y),
            ma * mb == f * ps + rem,
    ;
    assert(pow2(0) * d == d);
    assert(f * d == (f * ps) * z) by (nonlinear_arith)
        requires
            d == ps * z,
    ;
    assert((f + 1) * d == (f * ps + ps) * z) by (nonlinear_arith)
        requires
            d == ps * z,
    ;
    lemma_scale_le((f * ps) as int, (f * ps + rem) as int, z as int);
    lemma_scale_lt((f * ps + rem) as int, (f * ps + ps) as int, z as int);
    if rem != 0 {
        lemma_scale_lt((f * ps) as int, (f * ps + rem) as int, z as int);
    }
}

/// Multiplies `a` by `b`.
pub fn fmul(a: u32, b: u32) -> (r: u32)
    ensures
        r == fmul_spec(a, b),
{
    proof {
        reveal(fmul_spec);
    }
    let sign: bool = (a >= 0x8000_0000) != (b >= 0x8000_0000);
    let s: u32 = if sign { 0x8000_0000 } else { 0 };
    let mag_a: u32 = magnitude(a);
    let mag_b: u32 = magnitude(b);
    if mag_a > INFINITY || mag_b > INFINITY {
        return NAN;
    }
    if mag_a == INFINITY || mag_b == INFINITY {
        if mag_a == 0 || mag_b == 0 {
            return NAN;
        }
        return s + INFINITY;
    }
    let (ma, ta) = unpack(a);
    let (mb, tb) = unpack(b);
    assert(ma * mb < 0x1_0000_0000_0000) by (nonlinear_arith)
        requires
            ma < 0x100_0000,
            mb < 0x100_0000,
    ;
    let p: u64 = ma * mb;
    let ghost n: nat = magnitude_value(a) * magnitude_value(b);
    let ghost d: nat = pow2(149);
    let total: u32 = ta + tb;
    if total >= 148 {
        proof {
            lemma_product_exact(ma as nat, ta as nat, mb as nat, tb as nat);
        }
        round_pack(sign, p, total - 148, false, Ghost(n), Ghost(d))
    } else {
        let sh: u32 = 148 - total;
        let (f, rem) = if sh >= 48 {
            proof {
                lemma2_to64_rest();
                lemma_pow2_le(48, sh as nat);
                assert(p == 0 * pow2(sh as nat) + p);
            }
            (0u64, p)
        } else {
            shift_right(p, sh)
        };
        proof {
            lemma_product_shifted(ma as nat, ta as nat, mb as nat, tb as nat, f as nat, rem as nat);
        }
        round_pack(sign, f, 0, rem != 0, Ghost(n), Ghost(d))
    }
}

/// The value of a pattern, in units of `2^-149`, with its sign; `2^128`
/// with its sign for an infinity.
pub open spec fn value_of(x: u32) -> int {
    if sign_of(x) {
        -(magnitude_value(x) as int)
    } else {
        magnitude_value(x) as int
    }
}

/// The sum of `a` and `b`, rounded to nearest. An exact zero is positive,
/// unless both terms are negative.
#[verifier::opaque]
pub open spec fn fadd_spec(a: u32, b: u32) -> u32 {
    if is_nan(a) || is_nan(b) {
        NAN
    } else if is_infinite(a) {
        if is_infinite(b) && sign_of(a) != sign_of(b) {
            NAN
        } else {
            a
        }
    } else if is_infinite(b) {
        b
    } else {
        let s: int = value_of(a) + value_of(b);
        if s == 0 {
            if sign_of(a) && sign_of(b) {
                NEG_ZERO
            } else {
                0
            }
        } else if s < 0 {
            with_sign(true, round_magnitude((-s) as nat, 1))
        } else {
            with_sign(false, round_magnitude(s as nat, 1))
        }
    }
}

/// The difference of `a` and `b`, rounded to nearest.
pub open spec fn fsub_spec(a: u32, b: u32) -> u32 {
    fadd_spec(a, negate_spec(b))
}

/// Sum or difference of two magnitudes whose quanta are close: the
/// larger one is brought to the quantum of the smaller, and nothing is
/// dropped.
proof fn lemma_sum_aligned(ml: nat, tl: nat, ms: nat, ts: nat, subtract: bool, m: nat)
    requires
        ts <= tl,
        subtract ==> ml * pow2((tl - ts) as nat) >= ms,
        m == if subtract {
            (ml * pow2((tl - ts) as nat) - ms) as nat
        } else {
            ml * pow2((tl - ts) as nat) + ms
        },
    ensures
        subtract ==> ml * pow2(tl) >= ms * pow2(ts),
        stands_for(
            m,
            ts + 1,
            false,
            if subtract {
                (ml * pow2(tl) - ms * pow2(ts)) as nat
            } else {
                ml * pow2(tl) + ms * pow2(ts)
            },
            1,
        ),
{
    let dl: nat = (tl - ts) as nat;
    let pd: nat = pow2(dl);
    let ps: nat = pow2(ts);
    lemma2_to64();
    lemma_pow2_adds(dl, ts);
    lemma_pow2_adds(ts, 1);
    lemma_pow2_pos(ts);
    let td: nat = pow2(ts + 1) * 1;
    assert(td == 2 * ps);
    assert(ml * pow2(tl) == (ml * pd) * ps) by (nonlinear_arith)
        requires
            pow2(tl) == pd * ps,
    ;
    if subtract {
        lemma_scale_le(ms as int, (ml * pd) as int, ps as int);
        assert(m * td == 2 * ((ml * pd) * ps - ms * ps)) by (nonlinear_arith)
            requires
                m == ml * pd - ms,
                td == 2 * ps,
        ;
    } else {
        assert(m * td == 2 * ((ml * pd) * ps + ms * ps)) by (nonlinear_arith)
            requires
                m == ml * pd + ms,
                td == 2 * ps,
        ;
    }
    assert((m + 1) * td == m * td + td) by (nonlinear_arith);
}

/// Sum or difference of two magnitudes whose quanta are far apart: the
/// smaller one lies below a quarter of the larger one's quantum, and all
/// that is kept of it is whether it is zero.
proof fn lemma_sum_far(ml: nat, tl: nat, ms: nat, ts: nat, subtract: bool, m: nat)
    requires
        tl >= ts + 26,
        ms < 0x100_0000,
        ml >= 1,
        m == if subtract && ms != 0 {
            (4 * ml - 1) as nat
        } else {
            4 * ml
        },
    ensures
        ml * pow2(tl) > ms * pow2(ts),
        stands_for(
            m,
            (tl - 1) as nat,
            ms != 0,
            if subtract {
                (ml * pow2(tl) - ms * pow2(ts)) as nat
            } else {
                ml * pow2(tl) + ms * pow2(ts)
            },
            1,
        ),
{
    let pl: nat = pow2(tl);
    let ps: nat = pow2(ts);
    let h: nat = pow2((tl - 1) as nat);
    lemma2_to64();
    lemma_pow2_adds((tl - 1) as nat, 1);
    lemma_pow2_adds(ts, 25);
    lemma_pow2_le(ts + 25, (tl - 1) as nat);
    lemma_pow2_pos(ts);
    assert(pl == 2 * h);
    let vs: nat = ms * ps;
    let vl: nat = ml * pl;
    // the smaller term is below half of h
    lemma_scale_lt(ms as int, 0x100_0000, ps as int);
    assert(2 * vs < h);
    if ms != 0 {
        lemma_scale_lt(0, ms as int, ps as int);
        assert(vs > 0);
    } else {
        assert(vs == 0);
    }
    assert(vl == (2 * ml) * h) by (nonlinear_arith)
        requires
            vl == ml * pl,
            pl == 2 * h,
    ;
    assert(vl >= 2 * h) by (nonlinear_arith)
        requires
            vl == (2 * ml) * h,
            ml >= 1,
    ;
    let td: nat = h * 1;
    assert((4 * ml) * td == 2 * vl) by (nonlinear_arith)
        requires
            vl == (2 * ml) * h,
            td == h,
    ;
    assert((4 * ml - 1) * td == 2 * vl - h) by (nonlinear_arith)
        requires
            vl == (2 * ml) * h,
            td == h,
    ;
    assert((4 * ml + 1) * td == 2 * vl + h) by (nonlinear_arith)
        requires
            vl == (2 * ml) * h,
            td == h,
    ;
    assert((m + 1) * td == m * td + td) by (nonlinear_arith);
}

/// Adds the magnitudes of two finite patterns and gives the sum the sign
/// `sign`.
fn add_magnitudes(sign: bool, a: u32, b: u32) -> (r: u32)
    requires
        is_finite(a),
        is_finite(b),
    ensures
        r == with_sign(sign, round_magnitude(magnitude_value(a) + magnitude_value(b), 1)),
{
    let (l, s) = if magnitude(a) >= magnitude(b) {
        (a, b)
    } else {
        (b, a)
    };
    let (ml, tl) = unpack(l);
    let (ms, ts) = unpack(s);
    let ghost n: nat = magnitude_value(a) + magnitude_value(b);
    proof {
        lemma_magnitude_value(l);
        lemma_magnitude_value(s);
    }
    let d: u32 = tl - ts;
    if d <= 38 {
        proof {
            lemma2_to64_rest();
            lemma_pow2_le(d as nat, 38);
            lemma_scale_le(ml as int, 0x100_0000, pow2(d as nat) as int);
            lemma_scale_le(pow2(d as nat) as int, pow2(38) as int, 0x100_0000);
        }
        let m: u64 = shift_left(ml, d) + ms;
        proof {
            lemma_sum_aligned(ml as nat, tl as nat, ms as nat, ts as nat, false, m as nat);
        }
        round_pack(sign, m, ts + 1, false, Ghost(n), Ghost(1))
    } else {
        let m: u64 = 4 * ml;
        proof {
            lemma_sum_far(ml as nat, tl as nat, ms as nat, ts as nat, false, m as nat);
        }
        round_pack(sign, m, tl - 1, ms != 0, Ghost(n), Ghost(1))
    }
}

/// Subtracts the smaller of two finite magnitudes from the larger one and
/// gives the difference the sign of the larger one; the magnitudes differ.
fn sub_magnitudes(l: u32, s: u32) -> (r: u32)
    requires
        is_finite(l),
        is_finite(s),
        magnitude_of(l) > magnitude_of(s),
    ensures
        magnitude_value(l) > magnitude_value(s),
        r == with_sign(
            sign_of(l),
            round_magnitude((magnitude_value(l) - magnitude_value(s)) as nat, 1),
        ),
{
    let sign: bool = l >= 0x8000_0000;
    let (ml, tl) = unpack(l);
    let (ms, ts) = unpack(s);
    let ghost n: nat = (magnitude_value(l) - magnitude_value(s)) as nat;
    proof {
        lemma_magnitude_value(l);
        lemma_magnitude_value(s);
        lemma_scaled_increases(magnitude_of(s) as nat, magnitude_of(l) as nat);
    }
    let d: u32 = tl - ts;
    if d <= 38 {
        proof {
            lemma2_to64_rest();
            lemma_pow2_le(d as nat, 38);
            lemma_pow2_adds(d as nat, ts as nat);
            lemma_pow2_pos(ts as nat);
            lemma_scale_le(ml as int, 0x100_0000, pow2(d as nat) as int);
            lemma_scale_le(pow2(d as nat) as int, pow2(38) as int, 0x100_0000);
            // the order of the magnitudes is that of the aligned significands
            let pd: nat = pow2(d as nat);
            let ps: nat = pow2(ts as nat);
            assert(ml * pow2(tl as nat) == (ml * pd) * ps) by (nonlinear_arith)
                requires
                    pow2(tl as nat) == pd * ps,
            ;
            assert(ml * pd >= ms) by (nonlinear_arith)
                requires
                    (ml * pd) * ps > ms * ps,
                    ps > 0,
            ;
        }
        let m: u64 = shift_left(ml, d) - ms;
        proof {
            lemma_sum_aligned(ml as nat, tl as nat, ms as nat, ts as nat, true, m as nat);
        }
        round_pack(sign, m, ts + 1, false, Ghost(n), Ghost(1))
    } else {
        let m: u64 = if ms != 0 {
            4 * ml - 1
        } else {
            4 * ml
        };
        proof {
            lemma_sum_far(ml as nat, tl as nat, ms as nat, ts as nat, true, m as nat);
        }
        round_pack(sign, m, tl - 1, ms != 0, Ghost(n), Ghost(1))
    }
}

/// Adds `a` and `b`.
pub fn fadd(a: u32, b: u32) -> (r: u32)
    ensures
        r == fadd_spec(a, b),
{
    proof {
        reveal(fadd_spec);
    }
    let sa: bool = a >= 0x8000_0000;
    let sb: bool = b >= 0x8000_0000;
    let mag_a: u32 = magnitude(a);
    let mag_b: u32 = magnitude(b);
    if mag_a > INFINITY || mag_b > INFINITY {
        return NAN;
    }
    if mag_a == INFINITY {
        if mag_b == INFINITY && sa != sb {
            return NAN;
        }
        return a;
    }
    if mag_b == INFINITY {
        return b;
    }
    if sa == sb {
        let r: u32 = add_magnitudes(sa, a, b);
        proof {
            lemma_round_tiny(0, 1);
            if mag_a != 0 {
                lemma_scaled_increases(0, mag_a as nat);
            }
            if mag_b != 0 {
                lemma_scaled_increases(0, mag_b as nat);
            }
        }
        r
    } else if mag_a == mag_b {
        0
    } else if mag_a > mag_b {
        sub_magnitudes(a, b)
    } else {
        sub_magnitudes(b, a)
    }
}

/// Inverts the sign of `a`, whatever `a` is.
pub fn fneg(a: u32) -> (r: u32)
    ensures
        r == negate_spec(a),
        magnitude_of(r) == magnitude_of(a),
        sign_of(r) != sign_of(a),
{
    assert(a ^ 0x8000_0000 == if a >= 0x8000_0000 {
        (a - 0x8000_0000) as u32
    } else {
        (a + 0x8000_0000) as u32
    }) by (bit_vector);
    a ^ 0x8000_0000
}

/// Subtracts `b` from `a`.
pub fn fsub(a: u32, b: u32) -> (r: u32)
    ensures
        r == fsub_spec(a, b),
{
    fadd(a, fneg(b))
}

/// The quotient of `a` by `b`, rounded to nearest.
#[verifier::opaque]
pub open spec fn fdiv_spec(a: u32, b: u32) -> u32 {
    let sign: bool = sign_of(a) != sign_of(b);
    if is_nan(a) || is_nan(b) {
        NAN
    } else if is_infinite(a) {
        if is_infinite(b) {
            NAN
        } else {
            with_sign(sign, infinity_pattern())
        }
    } else if is_infinite(b) {
        with_sign(sign, 0)
    } else if is_zero(b) {
        if is_zero(a) {
            NAN
        } else {
            with_sign(sign, infinity_pattern())
        }
    } else {
        with_sign(sign, round_magnitude(magnitude_value(a) * pow2(149), magnitude_value(b)))
    }
}

/// A bracket that holds after scaling by `k` holds before it: where one
/// unit `u`, taken `k` times, is `p`, and `big`, the magnitude taken `k`
/// times, lies between `m * p` and `(m + 1) * p`, the magnitude `n / d`
/// has the integer part `m` in units of `u`.
proof fn lemma_bracket_unscaled(m: nat, t: nat, n: nat, d: nat, k: nat, p: nat, big: nat)
    requires
        d > 0,
        k > 0,
        pow2(t) * d * k == p,
        2 * n * k == big,
        m * p <= big < (m + 1) * p,
    ensures
        stands_for(m, t, big != m * p, n, d),
{
    let u: nat = pow2(t) * d;
    assert(m * u <= 2 * n && 2 * n < (m + 1) * u && (2 * n == m * u <==> big == m * p))
        by (nonlinear_arith)
        requires
            k > 0,
            u * k == p,
            2 * n * k == big,
            m * p <= big < (m + 1) * p,
    ;
}

/// `m * 2^x * 2^y == m * 2^(x + y)`.
proof fn lemma_pow2_merge(m: nat, x: nat, y: nat)
    ensures
        m * pow2(x) * pow2(y) == m * pow2(x + y),
        pow2(x) * pow2(y) == pow2(x + y),
        pow2(x + y) > 0,
{
    lemma_pow2_adds(x, y);
    lemma_pow2_pos(x + y);
    assert(m * pow2(x) * pow2(y) == m * (pow2(x) * pow2(y))) by (nonlinear_arith);
}

/// The quotient of two normalised significands, handed to the rounding
/// with the remainder of the division as `sticky`.
proof fn lemma_quotient_exact(
    ma: nat,
    ta: nat,
    la: nat,
    mb: nat,
    tb: nat,
    lb: nat,
    q: nat,
    r0: nat,
)
    requires
        mb > 0,
        ma * pow2(la) * 0x400_0000 == q * (mb * pow2(lb)) + r0,
        r0 < mb * pow2(lb),
        124 + ta + lb >= la + tb,
    ensures
        stands_for(
            q,
            (124 + ta + lb - la - tb) as nat,
            r0 != 0,
            (ma * pow2(ta)) * pow2(149),
            mb * pow2(tb),
        ),
{
    let t: nat = (124 + ta + lb - la - tb) as nat;
    let n: nat = (ma * pow2(ta)) * pow2(149);
    let d: nat = mb * pow2(tb);
    let k: nat = pow2(lb);
    let b: nat = mb * pow2(lb);
    let w: nat = pow2(t + tb);
    let a: nat = ma * pow2(la) * 0x400_0000;
    lemma2_to64();
    lemma_pow2_pos(tb);
    lemma_pow2_pos(lb);
    assert(d > 0) by (nonlinear_arith)
        requires
            d == mb * pow2(tb),
            mb > 0,
            pow2(tb) > 0,
    ;
    // one unit, scaled
    lemma_pow2_merge(1, t, tb);
    assert(pow2(t) * d * k == b * w) by (nonlinear_arith)
        requires
            d == mb * pow2(tb),
            b == mb * k,
            w == pow2(t) * pow2(tb),
    ;
    // the magnitude, scaled
    lemma_pow2_merge(ma, ta, 149);
    lemma_pow2_merge(ma, ta + 149, 1);
    lemma_pow2_merge(ma, ta + 150, lb);
    lemma_pow2_merge(ma, la, 26);
    lemma_pow2_merge(ma, la + 26, t + tb);
    assert(la + 26 + (t + tb) == ta + 150 + lb);
    assert(2 * n * k == (ma * pow2(ta + 149)) * 2 * k);
    assert((ma * pow2(ta + 149)) * 2 * k == a * w);
    // the bracket of the division
    assert(q * (b * w) <= a * w && a * w < (q + 1) * (b * w) && (a * w != q * (b * w) <==> r0
        != 0)) by (nonlinear_arith)
        requires
            a == q * b + r0,
            r0 < b,
            w > 0,
    ;
    lemma_bracket_unscaled(q, t, n, d, k, b * w, a * w);
}

/// The quotient of two normalised significands, where it has bits below
/// half the smallest unit: those are dropped and remembered as `sticky`.
proof fn lemma_quotient_shifted(
    ma: nat,
    ta: nat,
    la: nat,
    mb: nat,
    tb: nat,
    lb: nat,
    q: nat,
    r0: nat,
    f: nat,
    rem: nat,
)
    requires
        mb > 0,
        ma * pow2(la) * 0x400_0000 == q * (mb * pow2(lb)) + r0,
        r0 < mb * pow2(lb),
        124 + ta + lb < la + tb,
        q == f * pow2((la + tb - 124 - ta - lb) as nat) + rem,
        rem < pow2((la + tb - 124 - ta - lb) as nat),
    ensures
        stands_for(f, 0, r0 != 0 || rem != 0, (ma * pow2(ta)) * pow2(149), mb * pow2(tb)),
{
    let sh: nat = (la + tb - 124 - ta - lb) as nat;
    let ps: nat = pow2(sh);
    let n: nat = (ma * pow2(ta)) * pow2(149);
    let d: nat = mb * pow2(tb);
    let k: nat = pow2(lb) * ps;
    let b: nat = mb * pow2(lb);
    let w: nat = pow2(tb);
    let a: nat = ma * pow2(la) * 0x400_0000;
    lemma2_to64();
    lemma_pow2_pos(tb);
    lemma_pow2_pos(lb);
    lemma_pow2_pos(sh);
    assert(d > 0) by (nonlinear_arith)
        requires
            d == mb * w,
            mb > 0,
            w > 0,
    ;
    assert(k > 0) by (nonlinear_arith)
        requires
            k == pow2(lb) * ps,
            pow2(lb) > 0,
            ps > 0,
    ;
    // one unit, scaled
    assert(pow2(0) * d * k == (ps * b) * w) by (nonlinear_arith)
        requires
            pow2(0) == 1,
            d == mb * w,
            b == mb * pow2(lb),
            k == pow2(lb) * ps,
    ;
    // the magnitude, scaled
    lemma_pow2_merge(ma, ta, 149);
    lemma_pow2_merge(ma, ta + 149, 1);
    lemma_pow2_merge(ma, ta + 150, lb);
    lemma_pow2_merge(ma, ta + 150 + lb, sh);
    lemma_pow2_merge(ma, la, 26);
    lemma_pow2_merge(ma, la + 26, tb);
    assert(la + 26 + tb == ta + 150 + lb + sh);
    assert(2 * n * k == ((ma * pow2(ta + 149)) * 2 * pow2(lb)) * ps) by (nonlinear_arith)
        requires
            n == ma * pow2(ta + 149),
            k == pow2(lb) * ps,
    ;
    assert(2 * n * k == a * w);
    // the bracket of the division, after the shift
    assert(f * ((ps * b) * w) <= a * w && a * w < (f + 1) * ((ps * b) * w) && (a * w != f * ((ps
        * b) * w) <==> (r0 != 0 || rem != 0))) by (nonlinear_arith)
        requires
            a == q * b + r0,
            q == f * ps + rem,
            rem < ps,
            r0 < b,
            w > 0,
    ;
    lemma_bracket_unscaled(f, 0, n, d, k, (ps * b) * w, a * w);
}

/// Moves the highest set bit of a significand to bit 23.
pub(crate) fn normalize(m: u64) -> (r: (u64, u32))
    requires
        0 < m < 0x100_0000,
    ensures
        r.0 == m * pow2(r.1 as nat),
        0x80_0000 <= r.0 < 0x100_0000,
        r.1 <= 23,
{
    let p: u32 = highest_bit(m);
    proof {
        lemma2_to64();
        if p >= 24 {
            lemma_pow2_le(24, p as nat);
        }
        let l: nat = (23 - p) as nat;
        lemma_pow2_adds(p as nat, l);
        lemma_pow2_adds((p + 1) as nat, l);
        lemma_pow2_pos(l);
        lemma_scale_le(pow2(p as nat) as int, m as int, pow2(l) as int);
        lemma_scale_lt(m as int, pow2((p + 1) as nat) as int, pow2(l) as int);
    }
    let l: u32 = 23 - p;
    (shift_left(m, l), l)
}

/// Divides `a` by `b`.
pub fn fdiv(a: u32, b: u32) -> (r: u32)
    ensures
        r == fdiv_spec(a, b),
{
    proof {
        reveal(fdiv_spec);
    }
    let sign: bool = (a >= 0x8000_0000) != (b >= 0x8000_0000);
    let s: u32 = if sign { 0x8000_0000 } else { 0 };
    let mag_a: u32 = magnitude(a);
    let mag_b: u32 = magnitude(b);
    if mag_a > INFINITY || mag_b > INFINITY {
        return NAN;
    }
    if mag_a == INFINITY {
        if mag_b == INFINITY {
            return NAN;
        }
        return s + INFINITY;
    }
    if mag_b == INFINITY {
        return s;
    }
    if mag_b == 0 {
        if mag_a == 0 {
            return NAN;
        }
        return s + INFINITY;
    }
    let (ma, ta) = unpack(a);
    let (mb, tb) = unpack(b);
    let ghost n: nat = magnitude_value(a) * pow2(149);
    let ghost d: nat = magnitude_value(b);
    proof {
        lemma_pow2_pos(tb as nat);
        lemma_scale_lt(0, mb as int, pow2(tb as nat) as int);
    }
    if mag_a == 0 {
        proof {
            assert(n == 0) by (nonlinear_arith)
                requires
                    n == (ma * pow2(ta as nat)) * pow2(149),
                    ma == 0,
            ;
            lemma_round_tiny(n, d);
        }
        return s;
    }
    let (na, la) = normalize(ma);
    let (nb, lb) = normalize(mb);
    let num: u64 = na * 0x400_0000;
    let q: u64 = num / nb;
    let r0: u64 = num % nb;
    proof {
        assert(num == q * nb + r0 && q >= 0x200_0000) by (nonlinear_arith)
            requires
                q == num / nb,
                r0 == num % nb,
                nb > 0,
                nb < 0x100_0000,
                num >= 0x80_0000 * 0x400_0000,
        ;
    }
    let up: u32 = 124 + ta + lb;
    let down: u32 = la + tb;
    if up >= down {
        proof {
            lemma_quotient_exact(
                ma as nat,
                ta as nat,
                la as nat,
                mb as nat,
                tb as nat,
                lb as nat,
                q as nat,
                r0 as nat,
            );
        }
        round_pack(sign, q, up - down, r0 != 0, Ghost(n), Ghost(d))
    } else {
        let sh: u32 = down - up;
        let (f, rem) = if sh >= 28 {
            proof {
                lemma2_to64();
                lemma_pow2_le(28, sh as nat);
                assert(q < 0x1000_0000) by (nonlinear_arith)
                    requires
                        num == q * nb + r0,
                        nb >= 0x80_0000,
                        num < 0x100_0000 * 0x400_0000,
                ;
                assert(q == 0 * pow2(sh as nat) + q);
            }
            (0u64, q)
        } else {
            shift_right(q, sh)
        };
        proof {
            lemma_quotient_shifted(
                ma as nat,
                ta as nat,
                la as nat,
                mb as nat,
                tb as nat,
                lb as nat,
                q as nat,
                r0 as nat,
                f as nat,
                rem as nat,
            );
        }
        round_pack(sign, f, 0, r0 != 0 || rem != 0, Ghost(n), Ghost(d))
    }
}

} // verus!
