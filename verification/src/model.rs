//! The mathematical model of single-precision values: the magnitude that a
//! pattern stands for, and rounding to the nearest pattern, ties to even.
//!
//! Magnitudes are counted in units of `2^-149`, the smallest positive
//! value, so that the magnitude of every finite pattern is a natural number.

use vstd::prelude::*;
use vstd::arithmetic::power2::{
    lemma2_to64, lemma_pow2_adds, lemma_pow2_pos, lemma_pow2_strictly_increases, pow2,
};

verus! {

/// The magnitude pattern of infinity, one above the largest finite one.
pub open spec fn infinity_pattern() -> nat {
    0x7f80_0000
}

/// The magnitude, in units of `2^-149`, that the magnitude pattern `mag`
/// stands for. For the pattern of infinity this is `2^128`, the value one
/// step above the largest finite one.
pub open spec fn scaled(mag: nat) -> nat {
    let e: nat = mag / 0x80_0000;
    let f: nat = mag % 0x80_0000;
    if e == 0 {
        f
    } else {
        (f + 0x80_0000) * pow2((e - 1) as nat)
    }
}

/// The pattern with magnitude pattern `mag` and the given sign.
pub open spec fn with_sign(sign: bool, mag: nat) -> u32
    recommends
        mag <= 0x7fff_ffff,
{
    if sign {
        (mag + 0x8000_0000) as u32
    } else {
        mag as u32
    }
}

/// The finite magnitude pattern `b` is the largest one whose value does not
/// exceed `n / d`.
pub open spec fn brackets(b: nat, n: nat, d: nat) -> bool {
    b < infinity_pattern() && scaled(b) * d <= n < scaled(b + 1) * d
}

/// The largest finite magnitude pattern whose value does not exceed `n / d`.
pub open spec fn floor_pattern(n: nat, d: nat) -> nat {
    choose|b: nat| brackets(b, n, d)
}

/// The magnitude pattern nearest to `n / d` (in units of `2^-149`): of the
/// two neighbouring patterns the closer one, the even one when `n / d` lies
/// midway, and infinity from `2^128 - 2^103` on.
pub open spec fn round_magnitude(n: nat, d: nat) -> nat {
    if n >= scaled(infinity_pattern()) * d {
        infinity_pattern()
    } else {
        let lo: nat = floor_pattern(n, d);
        let twice_mid: nat = (scaled(lo) + scaled(lo + 1)) * d;
        if 2 * n < twice_mid || (2 * n == twice_mid && lo % 2 == 0) {
            lo
        } else {
            lo + 1
        }
    }
}

/// The pattern with quantum exponent `e` and integer significand `f` stands
/// for `f * 2^e`.
pub proof fn lemma_scaled_pack(e: nat, f: nat)
    requires
        f <= 0x100_0000,
        e > 0 ==> f >= 0x80_0000,
    ensures
        scaled(e * 0x80_0000 + f) == f * pow2(e),
{
    let b: nat = e * 0x80_0000 + f;
    lemma2_to64();
    if f < 0x80_0000 {
        assert(e == 0);
        assert(f * pow2(0) == f);
    } else if f < 0x100_0000 {
        assert(b / 0x80_0000 == e + 1);
        assert(b % 0x80_0000 == f - 0x80_0000);
        assert((e + 1 - 1) as nat == e);
    } else {
        assert(b == (e + 2) * 0x80_0000);
        assert(b / 0x80_0000 == e + 2);
        assert(b % 0x80_0000 == 0);
        assert((e + 2 - 1) as nat == e + 1);
        lemma_pow2_adds(e, 1);
        assert(pow2(e + 1) == pow2(e) * 2);
        assert(0x80_0000 * (pow2(e) * 2) == 0x100_0000 * pow2(e)) by (nonlinear_arith);
    }
}

/// A pattern splits into quantum exponent and integer significand.
pub proof fn lemma_scaled_split(b: nat) -> (r: (nat, nat))
    ensures
        b == r.0 * 0x80_0000 + r.1,
        r.1 < 0x100_0000,
        r.0 > 0 ==> r.1 >= 0x80_0000,
        scaled(b) == r.1 * pow2(r.0),
        b < 0x80_0000 ==> r.0 == 0,
        b >= 0x80_0000 ==> r.0 == b / 0x80_0000 - 1,
{
    let e: nat = b / 0x80_0000;
    let f: nat = b % 0x80_0000;
    let r: (nat, nat) = if e == 0 {
        (0, f)
    } else {
        ((e - 1) as nat, f + 0x80_0000)
    };
    lemma_scaled_pack(r.0, r.1);
    r
}

/// A larger pattern stands for a larger magnitude.
pub proof fn lemma_scaled_increases(b1: nat, b2: nat)
    requires
        b1 < b2,
    ensures
        scaled(b1) < scaled(b2),
{
    let (e1, f1) = lemma_scaled_split(b1);
    let (e2, f2) = lemma_scaled_split(b2);
    lemma_pow2_pos(e1);
    if e1 == e2 {
        assert(f1 < f2);
        assert(f1 * pow2(e1) < f2 * pow2(e1)) by (nonlinear_arith)
            requires
                f1 < f2,
                pow2(e1) > 0,
        ;
    } else {
        assert(e1 < e2);
        lemma_pow2_strictly_increases(e1, e2);
        lemma_pow2_adds(e1, 1);
        lemma2_to64();
        if e1 + 1 < e2 {
            lemma_pow2_strictly_increases(e1 + 1, e2);
        }
        assert(pow2(e1) * 2 <= pow2(e2));
        assert(f1 * pow2(e1) < f2 * pow2(e2)) by (nonlinear_arith)
            requires
                f1 < 0x100_0000,
                f2 >= 0x80_0000,
                pow2(e1) > 0,
                pow2(e1) * 2 <= pow2(e2),
        ;
    }
}

/// Patterns and the magnitudes they stand for are ordered alike.
pub proof fn lemma_scaled_monotone(b1: nat, b2: nat)
    requires
        b1 <= b2,
    ensures
        scaled(b1) <= scaled(b2),
{
    if b1 < b2 {
        lemma_scaled_increases(b1, b2);
    }
}

/// At most one pattern brackets a given magnitude.
pub proof fn lemma_brackets_unique(b: nat, c: nat, n: nat, d: nat)
    requires
        brackets(b, n, d),
        brackets(c, n, d),
    ensures
        b == c,
{
    if b < c {
        lemma_scaled_monotone(b + 1, c);
        assert(scaled(b + 1) * d <= scaled(c) * d) by (nonlinear_arith)
            requires
                scaled(b + 1) <= scaled(c),
        ;
    } else if c < b {
        lemma_scaled_monotone(c + 1, b);
        assert(scaled(c + 1) * d <= scaled(b) * d) by (nonlinear_arith)
            requires
                scaled(c + 1) <= scaled(b),
        ;
    }
}

/// Rounding, once the quantum is known: where `n / d` lies between `f * 2^e`
/// and `(f + 1) * 2^e`, with `e` the quantum exponent of that range, the
/// nearest pattern is that of `f` or the next one, decided by comparing
/// `n / d` with the midpoint `(2 f + 1) * 2^e / 2`.
pub proof fn lemma_round_at(n: nat, d: nat, f: nat, e: nat)
    requires
        d > 0,
        e <= 253,
        f < 0x100_0000,
        e > 0 ==> f >= 0x80_0000,
        f * pow2(e) * d <= n < (f + 1) * pow2(e) * d,
    ensures
        round_magnitude(n, d) == if 2 * n < (2 * f + 1) * pow2(e) * d || (2 * n == (2 * f + 1)
            * pow2(e) * d && f % 2 == 0) {
            e * 0x80_0000 + f
        } else {
            e * 0x80_0000 + f + 1
        },
{
    let lo: nat = e * 0x80_0000 + f;
    lemma_scaled_pack(e, f);
    lemma_scaled_pack(e, f + 1);
    assert(lo + 1 == e * 0x80_0000 + (f + 1));
    assert(brackets(lo, n, d));
    lemma_scaled_monotone(lo + 1, infinity_pattern());
    assert(scaled(lo + 1) * d <= scaled(infinity_pattern()) * d) by (nonlinear_arith)
        requires
            scaled(lo + 1) <= scaled(infinity_pattern()),
    ;
    let c: nat = floor_pattern(n, d);
    lemma_brackets_unique(lo, c, n, d);
    assert((f * pow2(e) + (f + 1) * pow2(e)) * d == (2 * f + 1) * pow2(e) * d)
        by (nonlinear_arith);
    assert(lo % 2 == f % 2);
}

/// Below `2^128` some finite pattern brackets the magnitude.
pub proof fn lemma_bracket_exists(n: nat, d: nat, k: nat)
    requires
        d > 0,
        k < infinity_pattern(),
        scaled(k) * d <= n < scaled(infinity_pattern()) * d,
    ensures
        exists|b: nat| brackets(b, n, d),
    decreases infinity_pattern() - k,
{
    if n < scaled(k + 1) * d {
        assert(brackets(k, n, d));
    } else {
        lemma_bracket_exists(n, d, k + 1);
    }
}

/// Below `2^128` the floor pattern brackets the magnitude.
pub proof fn lemma_floor_pattern(n: nat, d: nat)
    requires
        d > 0,
        n < scaled(infinity_pattern()) * d,
    ensures
        brackets(floor_pattern(n, d), n, d),
{
    assert(scaled(0) == 0);
    assert(scaled(0) * d == 0);
    lemma_bracket_exists(n, d, 0);
}

/// Rounding gives a finite pattern or that of infinity, never that of a
/// NaN.
pub proof fn lemma_round_bounded(n: nat, d: nat)
    requires
        d > 0,
    ensures
        round_magnitude(n, d) <= infinity_pattern(),
{
    if n < scaled(infinity_pattern()) * d {
        lemma_floor_pattern(n, d);
    }
}

/// The magnitude of a pattern rounds to that pattern.
pub proof fn lemma_round_representable(b: nat, d: nat)
    requires
        d > 0,
        b <= infinity_pattern(),
    ensures
        round_magnitude(scaled(b) * d, d) == b,
{
    if b < infinity_pattern() {
        let (e, f) = lemma_scaled_split(b);
        let n: nat = scaled(b) * d;
        let pe: nat = pow2(e);
        lemma_pow2_pos(e);
        assert((f + 1) * pe * d == f * pe * d + pe * d) by (nonlinear_arith);
        assert((2 * f + 1) * pe * d == 2 * (f * pe * d) + pe * d) by (nonlinear_arith);
        assert(pe * d > 0) by (nonlinear_arith)
            requires
                pe > 0,
                d > 0,
        ;
        lemma_round_at(n, d, f, e);
    }
}

/// A magnitude that does not exceed that of the pattern `c` rounds to `c`
/// at most.
pub proof fn lemma_round_le(n: nat, d: nat, c: nat)
    requires
        d > 0,
        c <= infinity_pattern(),
        n <= scaled(c) * d,
    ensures
        round_magnitude(n, d) <= c,
{
    lemma_round_bounded(n, d);
    if n == scaled(c) * d {
        lemma_round_representable(c, d);
    } else if c < infinity_pattern() {
        lemma_scaled_monotone(c, infinity_pattern());
        assert(scaled(c) * d <= scaled(infinity_pattern()) * d) by (nonlinear_arith)
            requires
                scaled(c) <= scaled(infinity_pattern()),
        ;
        lemma_floor_pattern(n, d);
        let lo: nat = floor_pattern(n, d);
        if lo >= c {
            lemma_scaled_monotone(c, lo);
            assert(scaled(c) * d <= scaled(lo) * d) by (nonlinear_arith)
                requires
                    scaled(c) <= scaled(lo),
            ;
        }
    }
}

/// A magnitude that reaches that of the pattern `c` rounds to `c` at
/// least.
pub proof fn lemma_round_ge(n: nat, d: nat, c: nat)
    requires
        d > 0,
        c <= infinity_pattern(),
        n >= scaled(c) * d,
    ensures
        round_magnitude(n, d) >= c,
{
    if n < scaled(infinity_pattern()) * d {
        lemma_floor_pattern(n, d);
        let lo: nat = floor_pattern(n, d);
        if lo + 1 <= c {
            lemma_scaled_monotone(lo + 1, c);
            assert(scaled(lo + 1) * d <= scaled(c) * d) by (nonlinear_arith)
                requires
                    scaled(lo + 1) <= scaled(c),
            ;
        }
    }
}

/// The distance between two magnitudes.
pub open spec fn distance(x: nat, y: nat) -> nat {
    if x >= y {
        (x - y) as nat
    } else {
        (y - x) as nat
    }
}

/// Rounding is to nearest, ties to even: no pattern, that of infinity
/// taken for `2^128`, stands for a magnitude nearer to `n / d` than the
/// rounded one, and where another is as near, the rounded one is even.
pub proof fn lemma_round_nearest(n: nat, d: nat, c: nat)
    requires
        d > 0,
        c <= infinity_pattern(),
    ensures
        distance(n, scaled(round_magnitude(n, d)) * d) <= distance(n, scaled(c) * d),
        c != round_magnitude(n, d) && distance(n, scaled(round_magnitude(n, d)) * d) == distance(
            n,
            scaled(c) * d,
        ) ==> round_magnitude(n, d) % 2 == 0,
{
    let r: nat = round_magnitude(n, d);
    let top: nat = infinity_pattern();
    if n >= scaled(top) * d {
        if c < top {
            lemma_scaled_increases(c, top);
            assert(scaled(c) * d < scaled(top) * d) by (nonlinear_arith)
                requires
                    scaled(c) < scaled(top),
                    d > 0,
            ;
        }
    } else {
        lemma_floor_pattern(n, d);
        let lo: nat = floor_pattern(n, d);
        let a: nat = scaled(lo) * d;
        let b: nat = scaled(lo + 1) * d;
        assert((scaled(lo) + scaled(lo + 1)) * d == a + b) by (nonlinear_arith)
            requires
                a == scaled(lo) * d,
                b == scaled(lo + 1) * d,
        ;
        if c < lo {
            lemma_scaled_increases(c, lo);
            assert(scaled(c) * d < a) by (nonlinear_arith)
                requires
                    scaled(c) < scaled(lo),
                    a == scaled(lo) * d,
                    d > 0,
            ;
        } else if c > lo + 1 {
            lemma_scaled_increases(lo + 1, c);
            assert(b < scaled(c) * d) by (nonlinear_arith)
                requires
                    scaled(lo + 1) < scaled(c),
                    b == scaled(lo + 1) * d,
                    d > 0,
            ;
        }
    }
}

} // verus!
