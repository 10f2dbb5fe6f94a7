//! Rounding an exact magnitude to the nearest pattern.

use vstd::prelude::*;
use vstd::arithmetic::power2::{
    lemma2_to64, lemma2_to64_rest, lemma_pow2_adds, lemma_pow2_pos, lemma_pow2_strictly_increases,
    pow2,
};
use vstd::bits::{lemma_u64_shl_is_mul, lemma_u64_shr_is_div};
use vstd::std_specs::bits::u64_leading_zeros;
use crate::model::{
    infinity_pattern, lemma_round_at, lemma_scaled_pack, round_magnitude, scaled, with_sign,
};

verus! {

/// Products with a common nonnegative factor keep their order.
pub(crate) proof fn lemma_scale_le(a: int, b: int, c: int)
    by (nonlinear_arith)
    requires
        a <= b,
        c >= 0,
    ensures
        a * c <= b * c,
{
}

/// Products with a common positive factor keep their strict order.
pub(crate) proof fn lemma_scale_lt(a: int, b: int, c: int)
    by (nonlinear_arith)
    requires
        a < b,
        c > 0,
    ensures
        a * c < b * c,
{
}

/// Powers of two are ordered as their exponents.
pub(crate) proof fn lemma_pow2_le(a: nat, b: nat)
    requires
        a <= b,
    ensures
        pow2(a) <= pow2(b),
        pow2(a) > 0,
{
    lemma_pow2_pos(a);
    if a < b {
        lemma_pow2_strictly_increases(a, b);
    }
}

/// The highest set bit of `m` is bit `63 - leading_zeros(m)`.
proof fn lemma_leading_zeros(m: u64)
    requires
        m > 0,
    ensures
        0 <= u64_leading_zeros(m) <= 63,
        pow2((63 - u64_leading_zeros(m)) as nat) <= m < pow2((64 - u64_leading_zeros(m)) as nat),
    decreases m,
{
    reveal(u64_leading_zeros);
    lemma2_to64();
    if m == 1 {
        assert(u64_leading_zeros(0) == 64);
        assert(u64_leading_zeros(1) == u64_leading_zeros(0) - 1);
    } else {
        let h: u64 = m / 2;
        lemma_leading_zeros(h);
        let k: nat = (63 - u64_leading_zeros(h)) as nat;
        lemma_pow2_adds(k, 1);
        lemma_pow2_adds(k + 1, 1);
        assert(u64_leading_zeros(m) == u64_leading_zeros(h) - 1);
        if u64_leading_zeros(h) == 0 {
            assert(pow2(64) == 0x1_0000_0000_0000_0000);
            assert(k == 63);
            lemma_pow2_adds(63, 1);
        }
    }
}

/// The position of the highest set bit of `m`.
pub(crate) fn highest_bit(m: u64) -> (p: u32)
    requires
        m > 0,
    ensures
        p <= 63,
        pow2(p as nat) <= m < pow2((p + 1) as nat),
{
    proof {
        lemma_leading_zeros(m);
    }
    63 - m.leading_zeros()
}

/// `m * 2^k`, where that fits.
pub(crate) fn shift_left(m: u64, k: u32) -> (r: u64)
    requires
        k < 64,
        m * pow2(k as nat) <= u64::MAX,
    ensures
        r == m * pow2(k as nat),
{
    let k64: u64 = k as u64;
    proof {
        lemma_u64_shl_is_mul(m, k64);
    }
    m << k64
}

/// Quotient and remainder of `m` by `2^k`.
pub(crate) fn shift_right(m: u64, k: u32) -> (r: (u64, u64))
    requires
        k < 64,
    ensures
        m == r.0 * pow2(k as nat) + r.1,
        r.1 < pow2(k as nat),
        r.0 == m as nat / pow2(k as nat),
{
    let k64: u64 = k as u64;
    proof {
        lemma_u64_shr_is_div(m, k64);
        lemma_pow2_le(k as nat, 63);
        lemma2_to64_rest();
        let pk: int = pow2(k as nat) as int;
        let f: int = m as int / pk;
        assert(f * pk <= m && m - f * pk < pk) by (nonlinear_arith)
            requires
                f == m as int / pk,
                pk > 0,
                m >= 0,
        ;
        assert(f * pk <= u64::MAX);
        lemma_u64_shl_is_mul(f as u64, k64);
    }
    let f: u64 = m >> k64;
    (f, m - (f << k64))
}

/// `(m, t, sticky)` stands for the magnitude `n / d`: counted in units of
/// `2^-150`, `n / d` is `(m + r) * 2^t` with `0 <= r < 1`, and `sticky`
/// tells whether `r` is nonzero.
pub open spec fn stands_for(m: nat, t: nat, sticky: bool, n: nat, d: nat) -> bool {
    &&& d > 0
    &&& m * (pow2(t) * d) <= 2 * n < (m + 1) * (pow2(t) * d)
    &&& sticky <==> 2 * n != m * (pow2(t) * d)
}

/// A magnitude below half the smallest unit rounds to zero.
pub proof fn lemma_round_tiny(n: nat, d: nat)
    requires
        d > 0,
        2 * n < d,
    ensures
        round_magnitude(n, d) == 0,
{
    lemma2_to64();
    assert(0 * pow2(0) * d == 0) by (nonlinear_arith);
    assert((0 + 1) * pow2(0) * d == d) by (nonlinear_arith)
        requires
            pow2(0) == 1,
    ;
    assert((2 * 0 + 1) * pow2(0) * d == d) by (nonlinear_arith)
        requires
            pow2(0) == 1,
    ;
    lemma_round_at(n, d, 0, 0);
}

/// A magnitude of `2^128` or more rounds to infinity.
proof fn lemma_round_huge(n: nat, d: nat, m: nat, t: nat, p: nat)
    requires
        d > 0,
        m * (pow2(t) * d) <= 2 * n,
        pow2(p) <= m,
        p + t >= 278,
    ensures
        round_magnitude(n, d) == infinity_pattern(),
{
    lemma_scaled_pack(253, 0x100_0000);
    assert(253 * 0x80_0000 + 0x100_0000 == infinity_pattern());
    lemma2_to64();
    lemma_pow2_adds(24, 253);
    assert(scaled(infinity_pattern()) == pow2(277));
    lemma_pow2_adds(p, t);
    lemma_pow2_adds(277, 1);
    lemma_pow2_le(278, p + t);
    let pt: nat = pow2(t);
    let pp: nat = pow2(p);
    assert(pow2(277) * d * 2 <= m * (pt * d)) by (nonlinear_arith)
        requires
            pow2(277) * 2 <= pp * pt,
            pp <= m,
    ;
}

/// Rounding where the magnitude is a multiple of its quantum: nothing is
/// lost, and the pattern is that of the integer significand `m * 2^l`.
proof fn lemma_round_exact(n: nat, d: nat, m: nat, t: nat, l: nat, p: nat)
    requires
        stands_for(m, t, false, n, d),
        pow2(p) <= m < pow2(p + 1),
        l <= t,
        1 <= t - l <= 254,
        p + l <= 23,
        t - l > 1 ==> p + l == 23,
    ensures
        m * pow2(l) < 0x100_0000,
        round_magnitude(n, d) == (t - l - 1) * 0x80_0000 + m * pow2(l),
{
    let e: nat = (t - l - 1) as nat;
    let pl: nat = pow2(l);
    let pe: nat = pow2(e);
    let f: nat = m * pl;
    lemma2_to64();
    lemma_pow2_adds(l, e + 1);
    lemma_pow2_adds(e, 1);
    lemma_pow2_adds(p + 1, l);
    lemma_pow2_adds(p, l);
    lemma_pow2_le(p + 1 + l, 24);
    lemma_pow2_pos(l);
    lemma_pow2_pos(e);
    lemma_scale_lt(m as int, pow2(p + 1) as int, pl as int);
    lemma_scale_le(pow2(p) as int, m as int, pl as int);
    assert(f < 0x100_0000);
    assert(pow2(t) == pl * (2 * pe));
    assert(m * (pow2(t) * d) == 2 * (f * pe * d)) by (nonlinear_arith)
        requires
            pow2(t) == pl * (2 * pe),
            f == m * pl,
    ;
    assert(n == f * pe * d);
    assert((f + 1) * pe * d == f * pe * d + pe * d) by (nonlinear_arith);
    assert((2 * f + 1) * pe * d == 2 * (f * pe * d) + pe * d) by (nonlinear_arith);
    assert(pe * d > 0) by (nonlinear_arith)
        requires
            pe > 0,
            d > 0,
    ;
    if e > 0 {
        assert(pow2(p) * pl == 0x80_0000);
    }
    lemma_round_at(n, d, f, e);
}

/// Rounding where `sh` low bits of `m` fall below the quantum: the
/// integer significand is the quotient `f`, and the remainder `rem`,
/// compared with half the quantum, decides between `f` and `f + 1`.
proof fn lemma_round_inexact(
    n: nat,
    d: nat,
    m: nat,
    t: nat,
    sticky: bool,
    sh: nat,
    f: nat,
    rem: nat,
    p: nat,
)
    requires
        stands_for(m, t, sticky, n, d),
        pow2(p) <= m < pow2(p + 1),
        sh >= 1,
        sh + t <= 254,
        m == f * pow2(sh) + rem,
        rem < pow2(sh),
        p < sh + 24,
        sh + t > 1 ==> p == sh + 23,
    ensures
        f < 0x100_0000,
        round_magnitude(n, d) == (sh + t - 1) * 0x80_0000 + f + if rem > pow2((sh - 1) as nat) || (
        rem == pow2((sh - 1) as nat) && (sticky || f % 2 == 1)) {
            1nat
        } else {
            0nat
        },
{
    let e: nat = (sh + t - 1) as nat;
    let ps: nat = pow2(sh);
    let pt: nat = pow2(t);
    let pe: nat = pow2(e);
    let half: nat = pow2((sh - 1) as nat);
    let td: nat = pt * d;
    lemma2_to64();
    lemma_pow2_pos(t);
    lemma_pow2_pos(sh);
    lemma_pow2_adds((sh - 1) as nat, 1);
    lemma_pow2_adds((sh - 1) as nat, t);
    assert(ps == 2 * half);
    assert(pe == half * pt);
    assert(td > 0) by (nonlinear_arith)
        requires
            td == pt * d,
            pt > 0,
            d > 0,
    ;
    // f is an integer significand of 24 bits at most
    lemma_pow2_adds(sh, 24);
    lemma_pow2_le(p + 1, sh + 24);
    assert(m < ps * 0x100_0000);
    assert(f < 0x100_0000) by (nonlinear_arith)
        requires
            m == f * ps + rem,
            m < ps * 0x100_0000,
    ;
    if e > 0 {
        lemma_pow2_adds(sh, 23);
        assert(m >= ps * 0x80_0000);
        assert(f >= 0x80_0000) by (nonlinear_arith)
            requires
                m == f * ps + rem,
                rem < ps,
                m >= ps * 0x80_0000,
        ;
    }
    // the bracket of n / d at quantum e
    assert(f * pe * d * 2 == (f * ps) * td) by (nonlinear_arith)
        requires
            pe == half * pt,
            ps == 2 * half,
            td == pt * d,
    ;
    assert((f + 1) * pe * d * 2 == (f * ps + ps) * td) by (nonlinear_arith)
        requires
            pe == half * pt,
            ps == 2 * half,
            td == pt * d,
    ;
    assert((2 * f + 1) * pe * d == (f * ps + half) * td) by (nonlinear_arith)
        requires
            pe == half * pt,
            ps == 2 * half,
            td == pt * d,
    ;
    lemma_scale_le((f * ps) as int, m as int, td as int);
    lemma_scale_le((m + 1) as int, (f * ps + ps) as int, td as int);
    if rem > half {
        lemma_scale_lt((f * ps + half) as int, m as int, td as int);
    } else if rem < half {
        lemma_scale_le((m + 1) as int, (f * ps + half) as int, td as int);
    }
    lemma_round_at(n, d, f, e);
}

/// Rounds the magnitude `n / d` (in units of `2^-149`) to the nearest
/// pattern, ties to even, and puts the sign in front.
///
/// The magnitude is handed over as `(m, t, sticky)`, see [`stands_for`].
/// Where a remainder was dropped, `m` keeps at least 25 bits or counts
/// halves of the smallest unit, so that the dropped part never decides a
/// tie.
pub(crate) fn round_pack(
    sign: bool,
    m: u64,
    t: u32,
    sticky: bool,
    Ghost(n): Ghost<nat>,
    Ghost(d): Ghost<nat>,
) -> (r: u32)
    requires
        stands_for(m as nat, t as nat, sticky, n, d),
        t <= 1024,
        sticky ==> m >= 0x100_0000 || t == 0,
    ensures
        r == with_sign(sign, round_magnitude(n, d)),
        round_magnitude(n, d) <= infinity_pattern(),
{
    let s: u32 = if sign { 0x8000_0000 } else { 0 };
    if m == 0 {
        proof {
            lemma2_to64();
            assert(1 * (pow2(t as nat) * d) == pow2(t as nat) * d);
            assert(0 * (pow2(t as nat) * d) == 0);
            if sticky {
                assert(1 * d == d);
            }
            lemma_round_tiny(n, d);
        }
        return s;
    }
    let p: u32 = highest_bit(m);
    let q: u32 = if p + t > 24 {
        p + t - 23
    } else {
        1
    };
    if q > 254 {
        proof {
            lemma_round_huge(n, d, m as nat, t as nat, p as nat);
        }
        return s + 0x7f80_0000;
    }
    if t >= q {
        let l: u32 = t - q;
        proof {
            lemma2_to64();
            lemma_round_exact(n, d, m as nat, t as nat, l as nat, p as nat);
        }
        let f: u64 = shift_left(m, l);
        let bits: u32 = (q - 1) * 0x80_0000 + f as u32;
        return s + bits;
    }
    let sh: u32 = q - t;
    let (f, rem) = shift_right(m, sh);
    proof {
        lemma_pow2_le((sh - 1) as nat, 62);
        lemma2_to64_rest();
    }
    let half: u64 = shift_left(1, sh - 1);
    let up: bool = rem > half || (rem == half && (sticky || f % 2 == 1));
    proof {
        lemma_round_inexact(
            n,
            d,
            m as nat,
            t as nat,
            sticky,
            sh as nat,
            f as nat,
            rem as nat,
            p as nat,
        );
    }
    let bits: u32 = (q - 1) * 0x80_0000 + f as u32 + if up {
        1u32
    } else {
        0u32
    };
    s + bits
}

} // verus!
