use fast_math::tanh::{tanh as tanh_bits, tanh_raw as tanh_raw_bits};
use ieee754::Ieee754;
use quickcheck as qc;
use std::f32 as f;

fn tanh(x: f32) -> f32 {
    f32::from_bits(tanh_bits(x.to_bits()))
}

fn tanh_raw(x: f32) -> f32 {
    f32::from_bits(tanh_raw_bits(x.to_bits()))
}

fn machine_a(x: f32) -> f32 {
    let x2 = x * x;
    (((x2 + 378.) * x2 + 17325.) * x2 + 135135.) * x
}

fn machine_b(x: f32) -> f32 {
    let x2 = x * x;
    ((28. * x2 + 3150.) * x2 + 62370.) * x2 + 135135.
}

/// The approximation as the machine's arithmetic computes it.
fn machine_tanh(x: f32) -> f32 {
    if x.is_nan() {
        return x;
    }
    let a = machine_a(x);
    if !a.is_finite() {
        return 1_f32.copysign(a);
    }
    let result = a / machine_b(x);
    if result.abs() > 1. {
        return 1_f32.copysign(result);
    }
    result
}

/// Maximal absolute error.
const TOL_ABS: f32 = 0.0001;

/// Maximal relative error.
const TOL_REL: f32 = 0.0001;

fn prop_tanh_err(x: f32) -> qc::TestResult {
    let e = tanh(x);
    let t = x.tanh();
    let abs = (e - t).abs();
    let rel = e.rel_error(t).abs();

    qc::TestResult::from_bool(abs < TOL_ABS && rel < TOL_REL)
}

#[test]
fn tanh_err_qc() {
    qc::quickcheck(prop_tanh_err as fn(f32) -> qc::TestResult)
}

const PREC: u32 = 1 << 20;

#[test]
fn tanh_err_exhaustive() {
    for i in 0..PREC + 1 {
        for j in -5..6 {
            let x = (1.0 + i as f32 / PREC as f32) * 2f32.powi(j * 20);
            {
                let e = tanh(x);
                let t = x.tanh();
                let abs = (e - t).abs();
                let rel = e.rel_error(t).abs();

                assert!(abs < TOL_ABS, "{:.8}: {:.8}, {:.8}. {:.4}", x, e, t, abs);
                assert!(rel < TOL_REL, "{:.8}: {:.8}, {:.8}. {:.4}", x, e, t, rel);
            }
            {
                let e = tanh(-x);
                let t = (-x).tanh();
                let abs = (e - t).abs();
                let rel = e.rel_error(t).abs();

                assert!(abs < TOL_ABS, "{:.8}: {:.8}, {:.8}. {:.4}", -x, e, t, abs);
                assert!(rel < TOL_REL, "{:.8}: {:.8}, {:.8}. {:.4}", x, e, t, rel);
            }
        }
    }
}

#[test]
fn tanh_edge_cases() {
    assert!(tanh(f::NAN).is_nan());
    assert_eq!(tanh(f::NEG_INFINITY), -1.);
    assert_eq!(tanh(f::INFINITY), 1.);
}

fn prop_tanh_denormals(x: u8, y: u16) -> bool {
    let signif = ((x as u32) << 16) | (y as u32);
    let mut x = f32::recompose_raw(false, 1, signif);

    for _ in 0..23 {
        {
            let e = tanh(x);
            let t = x.tanh();
            let abs = (e - t).abs();
            let rel = e.rel_error(t).abs();
            if abs >= TOL_ABS && rel >= TOL_REL {
                return false;
            }
        }
        {
            let e = tanh(-x);
            let t = (-x).tanh();
            let abs = (e - t).abs();
            let rel = e.rel_error(t).abs();
            if abs >= TOL_ABS && rel >= TOL_REL {
                return false;
            }
        }

        x /= 2.0;
    }
    true
}

#[test]
fn tanh_denormals() {
    qc::quickcheck(prop_tanh_denormals as fn(u8, u16) -> bool)
}

fn prop_tanh_raw_denormals(x: u8, y: u16) -> bool {
    let signif = ((x as u32) << 16) | (y as u32);
    let mut x = f32::recompose_raw(false, 1, signif);

    for _ in 0..23 {
        let e = tanh_raw(x);
        let t = x.tanh();
        let abs = (e - t).abs();
        let rel = e.rel_error(t).abs();
        if abs >= TOL_ABS && rel >= TOL_REL {
            return false;
        }

        x /= 2.0;
    }
    true
}

#[test]
fn tanh_raw_denormals() {
    qc::quickcheck(prop_tanh_raw_denormals as fn(u8, u16) -> bool)
}

#[test]
fn tanh_exact_values() {
    assert_eq!(tanh(f::INFINITY), 1.0);
    assert_eq!(tanh(f::NEG_INFINITY), -1.0);
    assert!(tanh(f::NAN).is_nan());
    // a NaN is handed back as it came
    assert_eq!(tanh_bits(0x7fc0_1234), 0x7fc0_1234);
    assert_eq!(tanh_bits(0xffff_ffff), 0xffff_ffff);
    assert_eq!(tanh(0.0).to_bits(), 0.0f32.to_bits());
    assert_eq!(tanh(-0.0).to_bits(), (-0.0f32).to_bits());
    // the numerator overflows before the quotient does
    assert_eq!(tanh(1.0e10), 1.0);
    assert_eq!(tanh(-1.0e10), -1.0);
    assert_eq!(tanh(f::MAX), 1.0);
    assert_eq!(tanh(f::MIN), -1.0);
    // the quotient exceeds one and is cut
    assert!(tanh_raw(20.0) > 1.0);
    assert_eq!(tanh(20.0), 1.0);
    assert_eq!(tanh(-20.0), -1.0);
    assert_eq!(tanh_raw(1.0), machine_a(1.0) / machine_b(1.0));
    assert_eq!(tanh_raw(1.0), 152839.0 / 200683.0);
}

#[test]
fn tanh_is_the_formula_of_the_machine() {
    let mut bits: u32 = 0;
    loop {
        let x = f32::from_bits(bits);
        let e = tanh(x);
        let t = machine_tanh(x);
        if t.is_nan() {
            assert!(e.is_nan(), "{:08x}", bits);
        } else {
            assert_eq!(e.to_bits(), t.to_bits(), "{:08x}", bits);
            assert!(e.abs() <= 1.0);
        }
        let r = machine_a(x) / machine_b(x);
        if !r.is_nan() {
            assert_eq!(tanh_raw(x).to_bits(), r.to_bits(), "raw {:08x}", bits);
        } else {
            assert!(tanh_raw(x).is_nan());
        }
        match bits.checked_add(1499) {
            Some(next) => bits = next,
            None => break,
        }
    }
}

#[test]
fn tanh_is_odd() {
    let mut bits: u32 = 0;
    while bits < 0x7f80_0000 {
        let x = f32::from_bits(bits);
        assert_eq!(tanh(-x).to_bits(), (-tanh(x)).to_bits(), "{:08x}", bits);
        bits += 7919;
    }
    assert_eq!(tanh(f::NEG_INFINITY).to_bits(), (-tanh(f::INFINITY)).to_bits());
}
