//! Conversions between 32-bit integers and single-precision patterns.

use vstd::prelude::*;
use vstd::arithmetic::div_mod::lemma_fundamental_div_mod_converse;
use vstd::arithmetic::power2::{lemma2_to64, lemma_pow2_adds, lemma_pow2_pos, pow2};
use crate::arith::{magnitude_value, unpack, value_of};
use crate::float::{INFINITY, is_finite, is_nan, magnitude, magnitude_of, sign_of};
use crate::laws::{below_pow2, lemma_scaled_pow2, pow2_pattern};
use crate::model::{
    lemma_round_at, lemma_round_bounded, lemma_round_le, lemma_scaled_pack, round_magnitude,
    scaled, with_sign,
};
use crate::round::{
    lemma_pow2_le, lemma_round_tiny, lemma_scale_le, lemma_scale_lt, round_pack, shift_left,
    shift_right,
};

verus! {

/// The pattern nearest to the integer `i`.
pub open spec fn from_i32_spec(i: i32) -> u32 {
    if i < 0 {
        with_sign(true, round_magnitude((-i) as nat * pow2(149), 1))
    } else {
        with_sign(false, round_magnitude(i as nat * pow2(149), 1))
    }
}

/// The integer part of the magnitude of `x`; `2^128` for an infinity.
pub open spec fn integer_part(x: u32) -> nat {
    magnitude_value(x) / pow2(149)
}

/// The integer that `x` is cut to: the value of `x` without its
/// fraction, the nearest bound of the integer range where that is
/// outside the range, and zero for a NaN.
pub open spec fn to_i32_spec(x: u32) -> i32 {
    if is_nan(x) {
        0
    } else if sign_of(x) {
        if integer_part(x) >= 0x8000_0000 {
            i32::MIN
        } else {
            (-(integer_part(x) as int)) as i32
        }
    } else {
        if integer_part(x) >= 0x7fff_ffff {
            i32::MAX
        } else {
            integer_part(x) as i32
        }
    }
}

/// Converts the integer `i`, rounding to nearest.
pub fn from_i32(i: i32) -> (r: u32)
    ensures
        r == from_i32_spec(i),
{
    let m: u64 = if i < 0 {
        (-(i as i64)) as u64
    } else {
        i as u64
    };
    let ghost n: nat = m as nat * pow2(149);
    proof {
        lemma2_to64();
        lemma_pow2_adds(149, 1);
        lemma_pow2_pos(149);
        let x: nat = pow2(149);
        assert(m * (pow2(150) * 1) == 2 * (m * x)) by (nonlinear_arith)
            requires
                pow2(150) == x * 2,
        ;
        assert((m + 1) * (pow2(150) * 1) > 2 * (m * x)) by (nonlinear_arith)
            requires
                pow2(150) == x * 2,
                x > 0,
        ;
    }
    round_pack(i < 0, m, 150, false, Ghost(n), Ghost(1))
}

/// Some shift brings a nonzero significand below `2^24` into the range
/// from `2^23` on.
pub(crate) proof fn lemma_normalise(m: nat) -> (l: nat)
    requires
        0 < m < 0x100_0000,
    ensures
        l <= 23,
        0x80_0000 <= m * pow2(l) < 0x100_0000,
    decreases 0x100_0000 - m,
{
    lemma2_to64();
    if m >= 0x80_0000 {
        assert(m * pow2(0) == m);
        0
    } else {
        let l: nat = lemma_normalise(2 * m);
        lemma_pow2_adds(1, l);
        assert((2 * m) * pow2(l) == m * pow2(l + 1)) by (nonlinear_arith)
            requires
                pow2(l + 1) == 2 * pow2(l),
        ;
        if l == 23 {
            assert((2 * m) * pow2(23) >= 2 * 0x80_0000) by (nonlinear_arith)
                requires
                    m >= 1,
                    pow2(23) == 0x80_0000,
            ;
        }
        l + 1
    }
}

/// An integer of 24 bits at most converts exactly, and zero converts to
/// positive zero.
pub proof fn lemma_from_i32_exact(i: i32)
    requires
        -0x100_0000 < i < 0x100_0000,
    ensures
        is_finite(from_i32_spec(i)),
        value_of(from_i32_spec(i)) == i * pow2(149),
        sign_of(from_i32_spec(i)) == (i < 0),
        i == 0 ==> from_i32_spec(i) == 0,
        to_i32_spec(from_i32_spec(i)) == i,
{
    let m: nat = if i < 0 {
        (-i) as nat
    } else {
        i as nat
    };
    let n: nat = m * pow2(149);
    lemma_pow2_pos(149);
    let u: int = pow2(149) as int;
    assert(i * u == if i < 0 {
        -(n as int)
    } else {
        n as int
    }) by (nonlinear_arith)
        requires
            n == m * u,
            m == if i < 0 {
                -i
            } else {
                i as int
            },
    ;
    if m == 0 {
        assert(n == 0);
        lemma_round_tiny(0, 1);
        assert(scaled(0) == 0);
        assert(0nat / pow2(149) == 0) by (nonlinear_arith)
            requires
                pow2(149) > 0,
        ;
    } else {
        let l: nat = lemma_normalise(m);
        let f: nat = m * pow2(l);
        let e: nat = (149 - l) as nat;
        lemma_pow2_adds(l, e);
        lemma_pow2_pos(e);
        assert(f * pow2(e) * 1 == n) by (nonlinear_arith)
            requires
                f == m * pow2(l),
                pow2(149) == pow2(l) * pow2(e),
                n == m * pow2(149),
        ;
        assert((f + 1) * pow2(e) * 1 > n) by (nonlinear_arith)
            requires
                f * pow2(e) * 1 == n,
                pow2(e) > 0,
        ;
        assert((2 * f + 1) * pow2(e) * 1 > 2 * n) by (nonlinear_arith)
            requires
                f * pow2(e) * 1 == n,
                pow2(e) > 0,
        ;
        lemma_round_at(n, 1, f, e);
        lemma_scaled_pack(e, f);
        let r: u32 = from_i32_spec(i);
        assert(magnitude_of(r) == e * 0x80_0000 + f);
        assert(magnitude_value(r) == n);
        lemma_fundamental_div_mod_converse(n as int, pow2(149) as int, m as int, 0);
    }
}

/// An integer of magnitude `2^k` at most converts to a value of
/// magnitude `2^k` at most.
pub proof fn lemma_from_i32_bound(i: i32, k: int)
    requires
        0 <= k <= 24,
        -pow2(k as nat) <= i <= pow2(k as nat),
    ensures
        below_pow2(from_i32_spec(i), k),
        sign_of(from_i32_spec(i)) == (i < 0),
{
    lemma2_to64();
    lemma_pow2_le(k as nat, 24);
    lemma_pow2_pos(149);
    lemma_scaled_pow2(k);
    lemma_pow2_adds(k as nat, 149);
    let m: nat = if i < 0 {
        (-i) as nat
    } else {
        i as nat
    };
    lemma_scale_le(m as int, pow2(k as nat) as int, pow2(149) as int);
    lemma_round_le(m * pow2(149), 1, pow2_pattern(k));
    lemma_round_bounded(m * pow2(149), 1);
}

/// The integer part of `m * 2^t` units of `2^-149`, where it is below
/// `2^31`.
proof fn lemma_integer_part(m: nat, t: nat, q: nat, rem: nat)
    requires
        if t >= 149 {
            q == m * pow2((t - 149) as nat) && rem == 0
        } else {
            m == q * pow2((149 - t) as nat) + rem && rem < pow2((149 - t) as nat)
        },
    ensures
        (m * pow2(t)) / pow2(149) == q,
{
    let d: nat = pow2(149);
    lemma_pow2_pos(149);
    lemma_pow2_pos(t);
    if t >= 149 {
        let k: nat = pow2((t - 149) as nat);
        lemma_pow2_adds((t - 149) as nat, 149);
        assert(m * pow2(t) == q * d + 0) by (nonlinear_arith)
            requires
                q == m * k,
                pow2(t) == k * d,
        ;
        lemma_fundamental_div_mod_converse((m * pow2(t)) as int, d as int, q as int, 0);
    } else {
        let k: nat = pow2((149 - t) as nat);
        let pt: nat = pow2(t);
        lemma_pow2_adds((149 - t) as nat, t);
        assert(m * pt == q * d + rem * pt) by (nonlinear_arith)
            requires
                m == q * k + rem,
                d == k * pt,
        ;
        lemma_scale_lt(rem as int, k as int, pt as int);
        lemma_scale_le(0, rem as int, pt as int);
        lemma_fundamental_div_mod_converse(
            (m * pt) as int,
            d as int,
            q as int,
            (rem * pt) as int,
        );
    }
}

/// An integer significand of at least `2^23` with a quantum of `2^8` or
/// more stands for `2^31` or more.
proof fn lemma_integer_part_large(m: nat, t: nat)
    requires
        m >= 0x80_0000,
        t >= 157,
    ensures
        (m * pow2(t)) / pow2(149) >= 0x8000_0000,
{
    let d: nat = pow2(149);
    let k: nat = pow2((t - 149) as nat);
    lemma2_to64();
    lemma_pow2_pos(149);
    lemma_pow2_adds((t - 149) as nat, 149);
    lemma_pow2_le(8, (t - 149) as nat);
    assert(m * pow2(t) == (m * k) * d + 0) by (nonlinear_arith)
        requires
            pow2(t) == k * d,
    ;
    lemma_fundamental_div_mod_converse((m * pow2(t)) as int, d as int, (m * k) as int, 0);
    assert(m * k >= 0x8000_0000) by (nonlinear_arith)
        requires
            m >= 0x80_0000,
            k >= 0x100,
    ;
}

/// Cuts `x` to an integer: the fraction is dropped, a value outside the
/// integer range gives the nearest bound of the range, a NaN gives zero.
pub fn to_i32(x: u32) -> (r: i32)
    ensures
        r == to_i32_spec(x),
{
    let negative: bool = x >= 0x8000_0000;
    let mag: u32 = magnitude(x);
    if mag > INFINITY {
        return 0;
    }
    if mag == INFINITY {
        proof {
            lemma_scaled_pack(253, 0x100_0000);
            lemma_integer_part_large(0x100_0000, 253);
        }
        return if negative { i32::MIN } else { i32::MAX };
    }
    let (m, t) = unpack(x);
    if t >= 157 {
        proof {
            lemma_integer_part_large(m as nat, t as nat);
        }
        return if negative { i32::MIN } else { i32::MAX };
    }
    let q: u64 = if t >= 149 {
        proof {
            lemma2_to64();
            lemma_pow2_le((t - 149) as nat, 7);
            lemma_scale_le(pow2((t - 149) as nat) as int, 0x80, m as int);
            assert(m * pow2((t - 149) as nat) == pow2((t - 149) as nat) * m) by (nonlinear_arith);
            lemma_integer_part(m as nat, t as nat, m as nat * pow2((t - 149) as nat), 0);
        }
        shift_left(m, t - 149)
    } else if 149 - t >= 24 {
        proof {
            lemma2_to64();
            lemma_pow2_le(24, (149 - t) as nat);
            assert(m == 0 * pow2((149 - t) as nat) + m);
            lemma_integer_part(m as nat, t as nat, 0, m as nat);
        }
        0
    } else {
        let (f, rem) = shift_right(m, 149 - t);
        proof {
            lemma_integer_part(m as nat, t as nat, f as nat, rem as nat);
        }
        f
    };
    if negative {
        (-(q as i64)) as i32
    } else {
        q as i32
    }
}

} // verus!
