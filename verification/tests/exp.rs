use fast_math::exp::{
    exp as exp_bits, exp2 as exp2_bits, exp2_m1 as exp2_m1_bits, exp2_m1_raw as exp2_m1_raw_bits,
    exp2_raw as exp2_raw_bits, exp_m1 as exp_m1_bits, exp_m1_raw as exp_m1_raw_bits,
    exp_raw as exp_raw_bits, exp_raw_with, Base, EXP_C0, EXP_C1, EXP_C2,
};
use ieee754::Ieee754;
use std::{f32, num};

fn exp(x: f32) -> f32 {
    f32::from_bits(exp_bits(x.to_bits()))
}

fn exp2(x: f32) -> f32 {
    f32::from_bits(exp2_bits(x.to_bits()))
}

fn exp_m1(x: f32) -> f32 {
    f32::from_bits(exp_m1_bits(x.to_bits()))
}

fn exp2_m1(x: f32) -> f32 {
    f32::from_bits(exp2_m1_bits(x.to_bits()))
}

/// The exponential without range check as the machine's arithmetic
/// computes it.
fn machine_exp_raw(x: f32, log2_base: f32) -> f32 {
    const A: f32 = (1 << 23) as f32;
    const MASK: i32 = 0xff800000u32 as i32;
    const EXP2_23: f32 = 1.1920929e-7;
    const C0: f32 = 0.3371894346 * EXP2_23 * EXP2_23;
    const C1: f32 = 0.657636276 * EXP2_23;
    const C2: f32 = 1.00172476;

    let a = A * log2_base;
    let mul = (a * x) as i32;
    let floor = mul & MASK;
    let frac = (mul - floor) as f32;

    let approx = (C0 * frac + C1) * frac + C2;
    f32::from_bits(approx.to_bits().wrapping_add(floor as u32))
}

fn machine_exp(x: f32, log2_base: f32) -> f32 {
    if x <= -127.0 / log2_base {
        0.0
    } else if x < 128.0 / log2_base {
        machine_exp_raw(x, log2_base)
    } else {
        x + f32::INFINITY
    }
}

fn machine_exp_m1(x: f32, log2_base: f32, ln_base: f32, raw: bool) -> f32 {
    if x.abs() <= 0.25153902 / ln_base {
        let add = 1.0053172 * ln_base;
        let mul = 0.5004446 * ln_base * ln_base;
        x * (add + mul * x)
    } else if raw {
        machine_exp_raw(x, log2_base) - 1.0
    } else {
        machine_exp(x, log2_base) - 1.0
    }
}

fn same(soft: u32, hard: f32) -> bool {
    if hard.is_nan() {
        f32::from_bits(soft).is_nan()
    } else {
        soft == hard.to_bits()
    }
}

const PREC: u32 = 1 << 19;

#[test]
fn exp_rel_err_exhaustive() {
    let mut max = 0.0;
    for i in 0..PREC + 1 {
        for j in -5..6 {
            for &sign in &[-1.0, 1.0] {
                let x = sign * (1.0 + i as f32 / PREC as f32) * 2f32.powi(j * 2);
                let e = exp(x);
                let t = x.exp();
                let rel = e.rel_error(t).abs();

                if t.classify() == num::FpCategory::Subnormal {
                    // subnormal should be approximately right
                    assert!(rel <= 1.0, "{:.8}: e = {:.8e}, t = {:.8e}. {:.4}", x, e, t, rel);
                } else {
                    if rel > max {
                        max = rel
                    }
                    // e == t handles the infinity case
                    assert!(rel <= 0.002, "{:.8}: e = {:.8e}, t = {:.8e}. {:.4}", x, e, t, rel);
                }
            }
        }
    }
    println!("maximum {}", max);
}

#[test]
fn exp2_rel_err_exhaustive() {
    let mut max = 0.0;
    for i in 0..PREC + 1 {
        for j in -5..6 {
            for &sign in &[-1.0, 1.0] {
                let x = sign * (1.0 + i as f32 / PREC as f32) * 2f32.powi(j * 2);
                let e = exp2(x);
                let t = x.exp2();
                let rel = e.rel_error(t).abs();
                if t.classify() == num::FpCategory::Subnormal {
                    // subnormal should be approximately right
                    assert!(rel <= 1.0, "{:.8}: e = {:.8e}, t = {:.8e}. {:.4}", x, e, t, rel);
                } else {
                    if rel > max {
                        max = rel
                    }
                    // e == t handles the infinity case
                    assert!(rel <= 0.002, "{:.8}: e = {:.8e}, t = {:.8e}. {:.4}", x, e, t, rel);
                }
            }
        }
    }
    println!("maximum {}", max);
}

#[test]
fn exp_edge_cases() {
    assert!(exp(f32::NAN).is_nan());
    assert_eq!(exp(f32::NEG_INFINITY), 0.0);
    assert!((exp(0.0) - 1.0).abs() < 0.002);
    assert_eq!(exp(f32::INFINITY), f32::INFINITY);
}

#[test]
fn exp2_edge_cases() {
    assert!(exp2(f32::NAN).is_nan());
    assert_eq!(exp2(f32::NEG_INFINITY), 0.0);
    assert!((exp2(0.0) - 1.0).abs() < 0.002);
    assert_eq!(exp2(f32::INFINITY), f32::INFINITY);
}

const EXP_M1_REL_ERR: f32 = 0.0054;

#[test]
fn exp_m1_rel_err_exhaustive() {
    let mut max = 0.0;
    for i in 0..PREC + 1 {
        for j in -5..6 {
            for &sign in &[-1.0, 1.0] {
                let x = sign * (1.0 + i as f32 / PREC as f32) * 2f32.powi(j * 2);
                let e = exp_m1(x);
                let t = x.exp_m1();
                let rel = e.rel_error(t).abs();

                if t.classify() == num::FpCategory::Subnormal {
                    // subnormal should be approximately right
                    assert!(rel <= 1.0, "{:.8}: e = {:.8e}, t = {:.8e}. {:.4}", x, e, t, rel);
                } else {
                    if rel > max {
                        max = rel
                    }
                    // e == t handles the infinity case
                    assert!(
                        rel <= EXP_M1_REL_ERR,
                        "{:.8}: e = {:.8e}, t = {:.8e}. {:.4}",
                        x,
                        e,
                        t,
                        rel
                    );
                }
            }
        }
    }
    println!("maximum {}", max);
}

#[test]
fn exp2_m1_rel_err_exhaustive() {
    let mut max = 0.0;
    for i in 0..PREC + 1 {
        for j in -5..6 {
            for &sign in &[-1.0, 1.0] {
                let x = sign * (1.0 + i as f32 / PREC as f32) * 2f32.powi(j * 2);
                let e = exp2_m1(x);
                let t = (x * f32::consts::LN_2).exp_m1();
                let rel = e.rel_error(t).abs();
                if t.classify() == num::FpCategory::Subnormal {
                    // subnormal should be approximately right
                    assert!(rel <= 1.0, "{:.8}: e = {:.8e}, t = {:.8e}. {:.4}", x, e, t, rel);
                } else {
                    if rel > max {
                        max = rel
                    }
                    // e == t handles the infinity case
                    assert!(
                        rel <= EXP_M1_REL_ERR,
                        "{:.8}: e = {:.8e}, t = {:.8e}. {:.4}",
                        x,
                        e,
                        t,
                        rel
                    );
                }
            }
        }
    }
    println!("maximum {}", max);
}

#[test]
fn exp_m1_edge_cases() {
    assert!(exp_m1(f32::NAN).is_nan());
    assert_eq!(exp_m1(f32::NEG_INFINITY), -1.0);
    assert_eq!(exp_m1(0.0), 0.0);
    assert_eq!(exp_m1(f32::INFINITY), f32::INFINITY);
}

#[test]
fn exp2_m1_edge_cases() {
    assert!(exp2_m1(f32::NAN).is_nan());
    assert_eq!(exp2_m1(f32::NEG_INFINITY), -1.0);
    assert_eq!(exp2_m1(0.0), 0.0);
    assert_eq!(exp2_m1(f32::INFINITY), f32::INFINITY);
}

#[test]
fn exp_family_is_the_formula_of_the_machine() {
    let log2_e = f32::consts::LOG2_E;
    let ln_2 = f32::consts::LN_2;
    let mut bits: u32 = 0;
    loop {
        let x = f32::from_bits(bits);
        assert!(same(exp_bits(bits), machine_exp(x, log2_e)), "exp {:08x}", bits);
        assert!(same(exp2_bits(bits), machine_exp(x, 1.0)), "exp2 {:08x}", bits);
        assert!(same(exp_m1_bits(bits), machine_exp_m1(x, log2_e, 1.0, false)), "exp_m1 {:08x}", bits);
        assert!(same(exp2_m1_bits(bits), machine_exp_m1(x, 1.0, ln_2, false)), "exp2_m1 {:08x}", bits);
        if x.abs() <= 88.0 {
            assert!(same(exp_raw_bits(bits), machine_exp_raw(x, log2_e)), "exp_raw {:08x}", bits);
            assert!(same(exp2_raw_bits(bits), machine_exp_raw(x, 1.0)), "exp2_raw {:08x}", bits);
            assert!(
                same(exp_m1_raw_bits(bits), machine_exp_m1(x, log2_e, 1.0, true)),
                "exp_m1_raw {:08x}",
                bits
            );
            assert!(
                same(exp2_m1_raw_bits(bits), machine_exp_m1(x, 1.0, ln_2, true)),
                "exp2_m1_raw {:08x}",
                bits
            );
        }
        match bits.checked_add(1999) {
            Some(next) => bits = next,
            None => break,
        }
    }
}

#[test]
fn exp_limits() {
    // the first argument that gives zero, and the last that does not
    assert_eq!(exp2(-127.0), 0.0);
    assert!(exp2(f32::from_bits((-127.0f32).to_bits() - 1)) > 0.0);
    assert_eq!(exp2(128.0), f32::INFINITY);
    assert!(exp2(f32::from_bits(128.0f32.to_bits() - 1)) < f32::INFINITY);
    let lower = -127.0 / f32::consts::LOG2_E;
    let upper = 128.0 / f32::consts::LOG2_E;
    assert_eq!(exp(lower), 0.0);
    assert!(exp(f32::from_bits(lower.to_bits() - 1)) > 0.0);
    assert_eq!(exp(upper), f32::INFINITY);
    assert!(exp(f32::from_bits(upper.to_bits() - 1)) < f32::INFINITY);
    assert_eq!(exp(-1000.0), 0.0);
    assert_eq!(exp(1000.0), f32::INFINITY);
}

#[test]
fn exp_exact_values() {
    // 2^x at an integer x: the fraction is zero, the quadratic is its
    // constant term
    let c2 = f32::from_bits(EXP_C2);
    assert_eq!(exp2(0.0), c2);
    assert_eq!(exp2(1.0), 2.0 * c2);
    assert_eq!(exp2(-1.0), 0.5 * c2);
    assert_eq!(exp2(10.0), 1024.0 * c2);
    assert_eq!(exp2_raw_bits(3.0f32.to_bits()), (8.0 * c2).to_bits());
    assert_eq!(exp_raw_with(3.0f32.to_bits(), Base::Two, EXP_C0, EXP_C1, 1.0f32.to_bits()), 8.0f32.to_bits());
    assert_eq!(exp_raw_with(0.5f32.to_bits(), Base::Two, 0, 0, 1.0f32.to_bits()), 1.0f32.to_bits());
    // p1 = 1, p0 = 0, p2 = 1: linear in the fraction
    assert_eq!(exp_raw_with(0.5f32.to_bits(), Base::Two, 0, 1.0f32.to_bits(), 1.0f32.to_bits()), 1.5f32.to_bits());
    assert_eq!(exp_raw_with(2.25f32.to_bits(), Base::Two, 0, 1.0f32.to_bits(), 1.0f32.to_bits()), 5.0f32.to_bits());
    // p0 = 1: the square of the fraction
    assert_eq!(exp_raw_with(0.5f32.to_bits(), Base::Two, 1.0f32.to_bits(), 0, 1.0f32.to_bits()), 1.25f32.to_bits());
    assert_eq!(f32::from_bits(EXP_C1), 0.657636276);
}

#[test]
fn exp_m1_near_zero() {
    // the polynomial: x * (add + mul * x)
    let x = 0.125f32;
    assert_eq!(exp_m1(x), x * (1.0053172 + 0.5004446 * x));
    assert_eq!(exp_m1(-x), -x * (1.0053172 + 0.5004446 * -x));
    assert_eq!(exp_m1(0.0), 0.0);
    assert_eq!(exp_m1(-0.0).to_bits(), (-0.0f32).to_bits());
    // the threshold itself is still on the polynomial
    let t = 0.25153902f32;
    assert_eq!(exp_m1(t), t * (1.0053172 + 0.5004446 * t));
    let above = f32::from_bits(t.to_bits() + 1);
    assert_eq!(exp_m1(above), exp(above) - 1.0);
}

#[test]
fn exp_family_on_subnormals() {
    // halving a value at the bottom of the normal range, step by step
    for &signif in &[0u32, 1, 0x12_3456, 0x40_0000, 0x7f_ffff] {
        let mut x = f32::from_bits((1 << 23) | signif);
        for _ in 0..23 {
            assert!(x > 0.0);
            for &v in &[x, -x] {
                assert!(exp(v).rel_error(v.exp()).abs() < 0.002);
                assert!(exp2(v).rel_error(v.exp2()).abs() < 0.002);
                let t = v.exp_m1();
                if t.classify() != num::FpCategory::Subnormal {
                    assert!(exp_m1(v).rel_error(t).abs() <= EXP_M1_REL_ERR);
                } else {
                    assert!(exp_m1(v).rel_error(t).abs() <= 1.0);
                }
                let t = (v * f32::consts::LN_2).exp_m1();
                if t.classify() != num::FpCategory::Subnormal {
                    assert!(exp2_m1(v).rel_error(t).abs() <= EXP_M1_REL_ERR);
                } else {
                    assert!(exp2_m1(v).rel_error(t).abs() <= 1.0);
                }
            }
            x /= 2.0;
        }
    }
}

#[test]
fn exp_is_never_negative_nor_a_nan() {
    let mut bits: u32 = 0;
    loop {
        let x = f32::from_bits(bits);
        if !x.is_nan() {
            assert!(exp(x) >= 0.0, "{:08x}", bits);
            assert!(exp2(x) >= 0.0, "{:08x}", bits);
            assert!(exp_m1(x) >= -1.0, "{:08x}", bits);
            assert!(exp2_m1(x) >= -1.0, "{:08x}", bits);
        }
        match bits.checked_add(1021) {
            Some(next) => bits = next,
            None => break,
        }
    }
    // around the limits, pattern by pattern
    for &limit in &[128.0f32, -127.0, 128.0 / f32::consts::LOG2_E, -127.0 / f32::consts::LOG2_E] {
        let at = limit.to_bits();
        for b in at - 4096..at + 4096 {
            let x = f32::from_bits(b);
            assert!(exp(x) >= 0.0, "{:08x}", b);
            assert!(exp2(x) >= 0.0, "{:08x}", b);
        }
    }
}

#[test]
fn exp2_at_integers() {
    // the constant term of the quadratic, with the integer added to its exponent
    for k in -126..128i32 {
        let expected = (EXP_C2 as i64 + ((k as i64) << 23)) as u32;
        assert_eq!(exp2_bits((k as f32).to_bits()), expected, "{}", k);
        assert_eq!(exp2_raw_bits((k as f32).to_bits()), expected, "{}", k);
        assert_eq!(exp2(k as f32), f32::from_bits(EXP_C2) * 2f32.powi(k), "{}", k);
    }
}
