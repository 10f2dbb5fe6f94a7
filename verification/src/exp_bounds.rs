//! Why the exponential is safe: between its limits the integer that
//! carries the exponent stays within the exponents of the finite values,
//! so that the sum of the two patterns is the pattern of a finite value
//! that is not negative.

use vstd::prelude::*;
use vstd::arithmetic::div_mod::{lemma_div_is_ordered, lemma_fundamental_div_mod_converse};
use vstd::arithmetic::power2::{lemma2_to64, lemma_pow2_adds, lemma_pow2_pos, pow2};
use crate::arith::{fadd_spec, fdiv_spec, fmul_spec, magnitude_value};
use crate::convert::{
    from_i32_spec, integer_part, lemma_from_i32_bound, lemma_from_i32_exact, to_i32_spec,
};
use crate::exp::{
    add_patterns, Base, EXP_C0, EXP_C1, EXP_C2, exp_impl_spec, EXP_M1_ADD, exp_m1_impl_spec,
    EXP_M1_MUL, EXP_M1_THRESHOLD, exp_raw_impl_spec, high_bits, lemma_exp_raw_zero, lemma_exp_zero,
    lemma_quadratic_zero, LOG2_E, low_bits, LOWER_EXPONENT, near_zero, TWO_POW_23,
    TWO_POW_MINUS_23, UPPER_EXPONENT,
};
use crate::float::{
    INFINITY, is_finite, is_nan, lemma_fields, magnitude_of, mantissa_of, negate_spec, ONE,
    quantum_of, sign_of,
};
use crate::laws::{
    below_pow2, is_nonnegative, lemma_fadd_bound, lemma_fadd_class, lemma_fadd_infinite,
    lemma_fadd_le, lemma_fadd_nonnegative, lemma_fdiv_bound, lemma_fdiv_floor, lemma_fmul_bound,
    lemma_fmul_exact, lemma_fmul_le, lemma_magnitude_order, lemma_scaled_product,
};
use crate::model::{lemma_scaled_monotone, lemma_scaled_pack, lemma_scaled_split, scaled};
use crate::order::{fle_spec, flt_spec, lemma_key_order};
use crate::round::lemma_pow2_le;

verus! {

/// The pattern of `2^23 * log2(e)`.
pub const SCALE_E: u32 = 0x4b38_aa3b;

/// The pattern of `128 / log2(e)`, rounded.
pub const UPPER_LIMIT_E: u32 = 0x42b1_7218;

/// The pattern of `-127 / log2(e)`, rounded.
pub const LOWER_LIMIT_E: u32 = 0xc2b0_0f34;

/// The largest pattern below `2^30`.
pub const BELOW_TWO_POW_30: u32 = 0x4e7f_ffff;

/// The pattern of `127 * 2^23`.
pub const LOWEST_PRODUCT: u32 = 0x4e7e_0000;

/// The factor of the argument: `2^23 * log2(base)`, which is exact.
pub open spec fn scale_spec(base: Base) -> u32 {
    match base {
        Base::E => SCALE_E,
        Base::Two => TWO_POW_23,
    }
}

/// The factor of the argument is computed without rounding.
pub proof fn lemma_scale(base: Base)
    ensures
        fmul_spec(TWO_POW_23, base.log2_spec()) == scale_spec(base),
{
    let b: u32 = base.log2_spec();
    let m: nat = if base is E {
        0xb8_aa3b
    } else {
        0x80_0000
    };
    lemma2_to64();
    lemma_scaled_pack(149, 0x80_0000);
    lemma_scaled_pack(126, m);
    lemma_scaled_pack(149, m);
    assert(magnitude_of(TWO_POW_23) == 149 * 0x80_0000 + 0x80_0000);
    assert(magnitude_of(b) == 126 * 0x80_0000 + m);
    assert(scale_spec(base) == 149 * 0x80_0000 + m);
    lemma_scaled_product(149, 0x80_0000, 126, m, 149, m, 23);
    lemma_fmul_exact(TWO_POW_23, b, scale_spec(base) as nat);
}

/// The quotient of `2^7` or `127` by one or by `log2(e)`, from the
/// integer part `fc` of the quotient of the significands.
proof fn lemma_limit(a: u32, b: u32, ma: nat, mb: nat, ec: nat, fc: nat, s: nat, up: bool)
    requires
        a == UPPER_EXPONENT && ma == 0x80_0000 && ec + s == 156 || a == LOWER_EXPONENT && ma
            == 0xfe_0000 && ec + s == 155,
        b == ONE && mb == 0x80_0000 || b == LOG2_E && mb == 0xb8_aa3b,
        23 <= s <= 24,
        0x80_0000 <= fc < 0x100_0000,
        fc * mb <= ma * pow2(s) < (fc + 1) * mb,
        up == !(2 * (ma * pow2(s)) < (2 * fc + 1) * mb),
        2 * (ma * pow2(s)) != (2 * fc + 1) * mb,
    ensures
        magnitude_of(fdiv_spec(a, b)) == ec * 0x80_0000 + fc + if up {
            1nat
        } else {
            0nat
        },
        sign_of(fdiv_spec(a, b)) == sign_of(a),
{
    lemma_fields(a);
    lemma_fields(b);
    assert(mantissa_of(a) == ma);
    assert(mantissa_of(b) == mb);
    assert(quantum_of(b) == 126);
    assert(quantum_of(a) + 149 == ec + 126 + s);
    lemma_fdiv_floor(a, b, ma, mb, ec, fc, s);
}

/// The limits of the exponential, as patterns: `128` and `-127` for base
/// two, and their quotients by `log2(e)`, rounded, for base `e`.
pub proof fn lemma_limit_values(base: Base)
    ensures
        base.upper_limit_spec() == if base is E {
            UPPER_LIMIT_E
        } else {
            UPPER_EXPONENT
        },
        base.lower_limit_spec() == if base is E {
            LOWER_LIMIT_E
        } else {
            LOWER_EXPONENT
        },
{
    lemma2_to64();
    if base is E {
        lemma_limit(UPPER_EXPONENT, LOG2_E, 0x80_0000, 0xb8_aa3b, 132, 0xb1_7218, 24, false);
        lemma_limit(LOWER_EXPONENT, LOG2_E, 0xfe_0000, 0xb8_aa3b, 132, 0xb0_0f33, 23, true);
    } else {
        lemma_limit(UPPER_EXPONENT, ONE, 0x80_0000, 0x80_0000, 133, 0x80_0000, 23, false);
        lemma_limit(LOWER_EXPONENT, ONE, 0xfe_0000, 0x80_0000, 132, 0xfe_0000, 23, false);
    }
    lemma_fields(base.upper_limit_spec());
    lemma_fields(base.lower_limit_spec());
}

/// Between the limits the product of argument and factor stays below
/// `2^30` above zero, and reaches `-127 * 2^23` at most below it.
pub proof fn lemma_product_range(x: u32, base: Base)
    requires
        !is_nan(x),
        !fle_spec(x, base.lower_limit_spec()),
        flt_spec(x, base.upper_limit_spec()),
    ensures
        sign_of(fmul_spec(scale_spec(base), x)) == sign_of(x),
        !sign_of(x) ==> magnitude_of(fmul_spec(scale_spec(base), x)) <= BELOW_TWO_POW_30,
        sign_of(x) ==> magnitude_of(fmul_spec(scale_spec(base), x)) <= LOWEST_PRODUCT,
{
    let a: u32 = scale_spec(base);
    let upper: u32 = base.upper_limit_spec();
    let lower: u32 = base.lower_limit_spec();
    lemma_limit_values(base);
    lemma_key_order(x, upper);
    lemma_key_order(x, lower);
    lemma2_to64();
    let m: nat = if base is E {
        0xb8_aa3b
    } else {
        0x80_0000
    };
    lemma_scaled_pack(149, m);
    assert(a == 149 * 0x80_0000 + m);
    if sign_of(x) {
        // the largest magnitude above the lower limit
        let f: nat = if base is E {
            0xb0_0f33
        } else {
            0xfd_ffff
        };
        let cb: nat = 132 * 0x80_0000 + f;
        assert(magnitude_of(x) <= cb);
        lemma_scaled_pack(132, f);
        lemma_scaled_pack(155, 0xfe_0000);
        assert(LOWEST_PRODUCT == 155 * 0x80_0000 + 0xfe_0000);
        lemma_scaled_product(149, m, 132, f, 155, 0xfe_0000, 23);
        lemma_fmul_le(a, x, a as nat, cb, LOWEST_PRODUCT as nat);
    } else {
        // the largest magnitude below the upper limit
        let f: nat = if base is E {
            0xb1_7217
        } else {
            0xff_ffff
        };
        let cb: nat = 132 * 0x80_0000 + f;
        assert(magnitude_of(x) <= cb);
        lemma_scaled_pack(132, f);
        lemma_scaled_pack(155, 0xff_ffff);
        assert(BELOW_TWO_POW_30 == 155 * 0x80_0000 + 0xff_ffff);
        lemma_scaled_product(149, m, 132, f, 155, 0xff_ffff, 23);
        lemma_fmul_le(a, x, a as nat, cb, BELOW_TWO_POW_30 as nat);
    }
}

/// The integer part of a magnitude that the significand `f` at the
/// quantum `2^6` bounds is `64 f` at most.
proof fn lemma_integer_part_le(p: u32, f: nat)
    requires
        0x80_0000 <= f < 0x100_0000,
        magnitude_of(p) <= 155 * 0x80_0000 + f,
    ensures
        integer_part(p) <= 64 * f,
{
    let c: nat = 155 * 0x80_0000 + f;
    let d: nat = pow2(149);
    lemma2_to64();
    lemma_pow2_pos(149);
    lemma_pow2_adds(6, 149);
    lemma_scaled_pack(155, f);
    lemma_scaled_monotone(magnitude_of(p) as nat, c);
    assert(scaled(c) == (64 * f) * d + 0) by (nonlinear_arith)
        requires
            scaled(c) == f * pow2(155),
            pow2(155) == 64 * d,
    ;
    lemma_fundamental_div_mod_converse(scaled(c) as int, d as int, (64 * f) as int, 0);
    lemma_div_is_ordered(magnitude_value(p) as int, scaled(c) as int, d as int);
}

/// Between the limits the integer that the product is cut to lies from
/// `-127 * 2^23` to `2^30 - 64`.
pub proof fn lemma_integer_range(x: u32, base: Base)
    requires
        !is_nan(x),
        !fle_spec(x, base.lower_limit_spec()),
        flt_spec(x, base.upper_limit_spec()),
    ensures
        -0x3f80_0000 <= to_i32_spec(fmul_spec(scale_spec(base), x)) <= 0x3fff_ffc0,
{
    let p: u32 = fmul_spec(scale_spec(base), x);
    lemma_product_range(x, base);
    if sign_of(x) {
        lemma_integer_part_le(p, 0xfe_0000);
    } else {
        lemma_integer_part_le(p, 0xff_ffff);
    }
}

/// The quadratic in a fraction of 23 bits lies from one to below two, the
/// patterns of which differ in the exponent field alone.
pub proof fn lemma_quadratic_range(frac: i32)
    requires
        0 <= frac < 0x80_0000,
    ensures
        ({
            let c0: u32 = fmul_spec(fmul_spec(EXP_C0, TWO_POW_MINUS_23), TWO_POW_MINUS_23);
            let c1: u32 = fmul_spec(EXP_C1, TWO_POW_MINUS_23);
            let f: u32 = from_i32_spec(frac);
            let approx: u32 = fadd_spec(fmul_spec(fadd_spec(fmul_spec(c0, f), c1), f), EXP_C2);
            ONE <= approx <= 0x3fff_c000
        }),
{
    let t: u32 = TWO_POW_MINUS_23;
    let b0: u32 = fmul_spec(EXP_C0, t);
    let c0: u32 = fmul_spec(b0, t);
    let c1: u32 = fmul_spec(EXP_C1, t);
    let f: u32 = from_i32_spec(frac);
    let t1: u32 = fmul_spec(c0, f);
    let t2: u32 = fadd_spec(t1, c1);
    let t3: u32 = fmul_spec(t2, f);
    let approx: u32 = fadd_spec(t3, EXP_C2);
    lemma2_to64();
    // the patterns that bound the steps, each a significand at a quantum
    lemma_scaled_pack(124, 0xad_0000);
    lemma_scaled_pack(103, 0x80_0000);
    lemma_scaled_pack(101, 0xad_0000);
    lemma_scaled_pack(78, 0xad_0000);
    lemma_scaled_pack(149, 0x80_0000);
    lemma_scaled_pack(125, 0xa8_8000);
    lemma_scaled_pack(102, 0xa8_8000);
    lemma_scaled_pack(102, 0xff_0000);
    lemma_scaled_pack(125, 0xff_0000);
    lemma_scaled_pack(126, 0x80_4000);
    lemma_scaled_pack(126, 0xff_c000);
    let k0: nat = 124 * 0x80_0000 + 0xad_0000;
    let kt: nat = 103 * 0x80_0000 + 0x80_0000;
    let k1: nat = 101 * 0x80_0000 + 0xad_0000;
    let k2: nat = 78 * 0x80_0000 + 0xad_0000;
    let kf: nat = 149 * 0x80_0000 + 0x80_0000;
    let k3: nat = 125 * 0x80_0000 + 0xa8_8000;
    let k4: nat = 102 * 0x80_0000 + 0xa8_8000;
    let k5: nat = 102 * 0x80_0000 + 0xff_0000;
    let k6: nat = 125 * 0x80_0000 + 0xff_0000;
    let k7: nat = 126 * 0x80_0000 + 0x80_4000;
    let k8: nat = 126 * 0x80_0000 + 0xff_c000;
    assert(magnitude_of(EXP_C0) <= k0 && magnitude_of(t) == kt && magnitude_of(EXP_C1) <= k3
        && magnitude_of(EXP_C2) <= k7 && k8 == 0x3fff_c000);
    lemma_from_i32_bound(frac, 23);
    assert(magnitude_of(f) <= kf);
    // c0 = p0 * 2^-23 * 2^-23
    lemma_scaled_product(124, 0xad_0000, 103, 0x80_0000, 101, 0xad_0000, 23);
    lemma_fmul_le(EXP_C0, t, k0, kt, k1);
    lemma_scaled_product(101, 0xad_0000, 103, 0x80_0000, 78, 0xad_0000, 23);
    lemma_fmul_le(b0, t, k1, kt, k2);
    // c0 * frac
    lemma_scaled_product(78, 0xad_0000, 149, 0x80_0000, 101, 0xad_0000, 23);
    lemma_fmul_le(c0, f, k2, kf, k1);
    // c1 = p1 * 2^-23
    lemma_scaled_product(125, 0xa8_8000, 103, 0x80_0000, 102, 0xa8_8000, 23);
    lemma_fmul_le(EXP_C1, t, k3, kt, k4);
    // c0 * frac + c1
    lemma_pow2_adds(101, 1);
    let p101: nat = pow2(101);
    assert(0xad_0000 * p101 + 0xa8_8000 * (p101 * 2) <= 0xff_0000 * (p101 * 2))
        by (nonlinear_arith);
    lemma_fadd_le(t1, c1, k1, k4, k5);
    lemma_fadd_nonnegative(t1, c1);
    // (c0 * frac + c1) * frac
    lemma_scaled_product(102, 0xff_0000, 149, 0x80_0000, 125, 0xff_0000, 23);
    lemma_fmul_le(t2, f, k5, kf, k6);
    // ... + p2
    lemma_pow2_adds(125, 1);
    let p125: nat = pow2(125);
    assert(0xff_0000 * p125 + 0x80_4000 * (p125 * 2) <= 0xff_c000 * (p125 * 2))
        by (nonlinear_arith);
    lemma_fadd_le(t3, EXP_C2, k6, k7, k8);
    lemma_fadd_nonnegative(t3, EXP_C2);
}

/// Between the limits the exponential without range check is finite and
/// not negative.
pub proof fn lemma_exp_raw_range(x: u32, base: Base)
    requires
        !is_nan(x),
        !fle_spec(x, base.lower_limit_spec()),
        flt_spec(x, base.upper_limit_spec()),
    ensures
        is_finite(exp_raw_impl_spec(x, base)),
        !sign_of(exp_raw_impl_spec(x, base)),
{
    lemma_scale(base);
    let a: u32 = scale_spec(base);
    let mul: i32 = to_i32_spec(fmul_spec(a, x));
    lemma_integer_range(x, base);
    let frac: i32 = low_bits(mul);
    let floor: int = mul - frac;
    assert(0 <= frac < 0x80_0000);
    assert(-0x3f80_0000 <= floor <= 0x3f80_0000);
    lemma_quadratic_range(frac);
    let c0: u32 = fmul_spec(fmul_spec(EXP_C0, TWO_POW_MINUS_23), TWO_POW_MINUS_23);
    let c1: u32 = fmul_spec(EXP_C1, TWO_POW_MINUS_23);
    let f: u32 = from_i32_spec(frac);
    let approx: u32 = fadd_spec(fmul_spec(fadd_spec(fmul_spec(c0, f), c1), f), EXP_C2);
    let r: u32 = add_patterns(approx, high_bits(mul));
    assert(0 <= approx + floor < 0x7f80_0000);
    assert(r == approx + floor);
}

/// The exponential of anything but a NaN is no NaN and not negative:
/// zero, a finite positive value, or infinity.
pub proof fn lemma_exp_nonnegative(x: u32, base: Base)
    requires
        !is_nan(x),
    ensures
        is_nonnegative(exp_impl_spec(x, base)),
{
    let upper: u32 = base.upper_limit_spec();
    let lower: u32 = base.lower_limit_spec();
    lemma_limit_values(base);
    if fle_spec(x, lower) {
    } else if flt_spec(x, upper) {
        lemma_exp_raw_range(x, base);
    } else {
        lemma_key_order(x, upper);
        lemma_key_order(x, lower);
        if is_finite(x) {
            lemma_fadd_infinite(INFINITY, x);
        } else {
            assert(x == INFINITY);
            lemma_fadd_infinite(INFINITY, INFINITY);
        }
    }
}

/// The product of `2^23` and a nonzero integer `k` below `2^7` in
/// magnitude is exact, and is cut to the integer `k * 2^23`.
proof fn lemma_scaled_integer(k: i32)
    requires
        -128 < k < 128,
        k != 0,
    ensures
        to_i32_spec(fmul_spec(TWO_POW_23, from_i32_spec(k))) == k * 0x80_0000,
{
    let x: u32 = from_i32_spec(k);
    let m: nat = if k < 0 {
        (-k) as nat
    } else {
        k as nat
    };
    let u: nat = pow2(149);
    lemma2_to64();
    lemma_pow2_pos(149);
    lemma_from_i32_exact(k);
    assert(k * u == if k < 0 {
        -(m * u)
    } else {
        (m * u) as int
    }) by (nonlinear_arith)
        requires
            m == if k < 0 {
                -k
            } else {
                k as int
            },
    ;
    assert(magnitude_value(x) == m * u);
    let (q, f) = lemma_scaled_split(magnitude_of(x) as nat);
    // the quantum of x: above that of the subnormals, below that of 2^7
    lemma_pow2_adds(7, 149);
    lemma_pow2_adds(23, 126);
    lemma_pow2_pos(q);
    assert(m * u >= u && m * u < 128 * u) by (nonlinear_arith)
        requires
            1 <= m < 128,
            u > 0,
    ;
    assert(f >= 1 && f * pow2(q) >= pow2(q)) by (nonlinear_arith)
        requires
            f * pow2(q) == m * u,
            m * u >= 1,
            pow2(q) > 0,
    ;
    if q >= 156 {
        lemma_pow2_le(156, q);
    }
    if q == 0 {
        lemma_pow2_le(25, 149);
        assert(f * pow2(0) == f);
    }
    assert(pow2(156) == 128 * u);
    assert(0 < q < 156);
    // the pattern of the product: that of x, 23 exponents up
    let c: nat = (q + 23) * 0x80_0000 + f;
    lemma_scaled_pack(q + 23, f);
    lemma_pow2_adds(q, 23);
    lemma_scaled_pack(149, 0x80_0000);
    assert(magnitude_of(TWO_POW_23) == 149 * 0x80_0000 + 0x80_0000);
    let pq: nat = pow2(q);
    assert(scaled(c) == (m * 0x80_0000) * u) by (nonlinear_arith)
        requires
            scaled(c) == f * (pq * 0x80_0000),
            f * pq == m * u,
    ;
    assert((0x80_0000 * u) * (m * u) == scaled(c) * u) by (nonlinear_arith)
        requires
            scaled(c) == (m * 0x80_0000) * u,
    ;
    lemma_fmul_exact(TWO_POW_23, x, c);
    let p: u32 = fmul_spec(TWO_POW_23, x);
    assert(magnitude_of(p) == c);
    lemma_fundamental_div_mod_converse(scaled(c) as int, u as int, (m * 0x80_0000) as int, 0);
    assert(integer_part(p) == m * 0x80_0000);
}

/// At an integer between its limits the exponential of base two is the
/// constant term of the quadratic times the power of two, exactly: as
/// patterns, the constant term with the integer added to its exponent.
pub proof fn lemma_exp2_integer(k: i32)
    requires
        -127 < k < 128,
    ensures
        exp_raw_impl_spec(from_i32_spec(k), Base::Two) == EXP_C2 + k * 0x80_0000,
        exp_impl_spec(from_i32_spec(k), Base::Two) == EXP_C2 + k * 0x80_0000,
{
    let x: u32 = from_i32_spec(k);
    let u: nat = pow2(149);
    lemma_from_i32_exact(k);
    if k == 0 {
        lemma_exp_raw_zero(x, Base::Two);
        lemma_exp_zero(x, Base::Two);
    } else {
        lemma_scale(Base::Two);
        lemma_scaled_integer(k);
        let mul: i32 = to_i32_spec(fmul_spec(TWO_POW_23, x));
        assert(mul == k * 0x80_0000);
        assert(low_bits(mul) == 0);
        assert(high_bits(mul) == if k < 0 {
            k * 0x80_0000 + 0x1_0000_0000
        } else {
            k * 0x80_0000
        });
        lemma_quadratic_zero();
        // the argument lies between the limits
        lemma_limit_values(Base::Two);
        lemma2_to64();
        lemma_pow2_pos(149);
        lemma_scaled_pack(133, 0x80_0000);
        lemma_scaled_pack(132, 0xfe_0000);
        lemma_pow2_adds(133, 16);
        lemma_pow2_adds(132, 17);
        let p132: nat = pow2(132);
        let p133: nat = pow2(133);
        assert(0x80_0000 * p133 == 128 * u && 0xfe_0000 * p132 == 127 * u) by (nonlinear_arith)
            requires
                u == p133 * 0x1_0000,
                u == p132 * 0x2_0000,
        ;
        assert(magnitude_of(UPPER_EXPONENT) == 133 * 0x80_0000 + 0x80_0000);
        assert(magnitude_of(LOWER_EXPONENT) == 132 * 0x80_0000 + 0xfe_0000);
        assert(-127 * u < k * u && k * u < 128 * u) by (nonlinear_arith)
            requires
                -127 < k < 128,
                u > 0,
        ;
    }
}

/// The exponential less one of anything but a NaN is no NaN.
pub proof fn lemma_exp_m1_not_nan(x: u32, base: Base)
    requires
        !is_nan(x),
    ensures
        !is_nan(exp_m1_impl_spec(x, base)),
{
    let ln: u32 = base.ln_spec();
    if near_zero(x, base) {
        let t: u32 = fdiv_spec(EXP_M1_THRESHOLD, ln);
        lemma_fdiv_bound(EXP_M1_THRESHOLD, ln, -1, -1);
        lemma_key_order(magnitude_of(x), t);
        lemma_magnitude_order(magnitude_of(x), t);
        assert(below_pow2(x, 0));
        let add: u32 = fmul_spec(EXP_M1_ADD, ln);
        let m1: u32 = fmul_spec(EXP_M1_MUL, ln);
        let mul: u32 = fmul_spec(m1, ln);
        lemma_fmul_bound(EXP_M1_ADD, ln, 1, 0);
        lemma_fmul_bound(EXP_M1_MUL, ln, 0, 0);
        lemma_fmul_bound(m1, ln, 0, 0);
        lemma_fmul_bound(mul, x, 0, 0);
        lemma_fadd_bound(add, fmul_spec(mul, x), 1);
        lemma_fmul_bound(x, fadd_spec(add, fmul_spec(mul, x)), 0, 2);
    } else {
        lemma_exp_nonnegative(x, base);
        lemma_fadd_class(exp_impl_spec(x, base), negate_spec(ONE));
    }
}

} // verus!
