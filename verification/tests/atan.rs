use fast_math::atan::{atan as atan_bits, atan2 as atan2_bits, atan_raw as atan_raw_bits, atan_raw_with};
use ieee754::Ieee754;
use quickcheck as qc;
use std::f32 as f;
use std::f32::consts::{FRAC_PI_2, FRAC_PI_4, PI};

fn atan(x: f32) -> f32 {
    f32::from_bits(atan_bits(x.to_bits()))
}

fn atan_raw(x: f32) -> f32 {
    f32::from_bits(atan_raw_bits(x.to_bits()))
}

fn atan2(y: f32, x: f32) -> f32 {
    f32::from_bits(atan2_bits(y.to_bits(), x.to_bits()))
}

/// The quadratic as the machine's arithmetic computes it.
fn machine_atan_raw(x: f32) -> f32 {
    const N2: f32 = 0.273;
    (FRAC_PI_4 + N2 - N2 * x.abs()) * x
}

fn machine_atan(x: f32) -> f32 {
    if x.abs() > 1.0 {
        FRAC_PI_2.copysign(x) - machine_atan_raw(1. / x)
    } else {
        machine_atan_raw(x)
    }
}

fn machine_atan2(y: f32, x: f32) -> f32 {
    if y.abs() < x.abs() {
        let bias = if x > 0.0 { 0.0 } else { PI };
        bias.copysign(y) + machine_atan_raw(y / x)
    } else if x == 0. {
        if y == 0. {
            let bias = if x.is_sign_positive() { 0.0 } else { PI };
            bias.copysign(y)
        } else if y.is_nan() {
            y
        } else {
            FRAC_PI_2.copysign(y)
        }
    } else if y.abs() == f::INFINITY && x.abs() == f::INFINITY {
        (FRAC_PI_2 - FRAC_PI_4.copysign(x)).copysign(y)
    } else {
        FRAC_PI_2.copysign(y) - machine_atan_raw(x / y)
    }
}

fn same(soft: f32, hard: f32) -> bool {
    if hard.is_nan() {
        soft.is_nan()
    } else {
        soft.to_bits() == hard.to_bits()
    }
}

/// Maximal absolute error according to paper.
const TOL: f32 = 0.0038;

fn prop_atan_abs_err(x: f32) -> qc::TestResult {
    let e = atan(x);
    let t = x.atan();
    let abs = (e - t).abs();

    if x == 0.0 {
        qc::TestResult::from_bool(e == 0.0)
    } else {
        qc::TestResult::from_bool(abs < TOL)
    }
}

#[test]
fn atan_abs_err_qc() {
    qc::quickcheck(prop_atan_abs_err as fn(f32) -> qc::TestResult)
}

const PREC: u32 = 1 << 20;

#[test]
fn atan_abs_err_exhaustive() {
    for i in 0..PREC + 1 {
        for j in -5..6 {
            let x = (1.0 + i as f32 / PREC as f32) * 2f32.powi(j * 20);
            let e = atan(x);
            let t = x.atan();
            let abs = (e - t).abs();

            assert!((e == 0. && x == 0.) || abs < TOL, "{:.8}: {:.8}, {:.8}. {:.4}", x, e, t, abs);
        }
    }
}

#[test]
fn atan_edge_cases() {
    assert!(atan(f::NAN).is_nan());
    assert_eq!(atan(f::NEG_INFINITY), -PI / 2.);
    assert_eq!(atan(0.), 0.);
    assert_eq!(atan(f::INFINITY), PI / 2.);
}

fn prop_atan_denormals(x: u8, y: u16) -> bool {
    let signif = ((x as u32) << 16) | (y as u32);
    let mut x = f32::recompose_raw(false, 1, signif);

    for _ in 0..23 {
        assert!(x > 0.0);
        let e = atan(x);
        let t = x.atan();
        let abs = (e - t).abs();
        if abs >= TOL {
            return false;
        }

        x /= 2.0;
    }
    true
}

#[test]
fn atan_denormals() {
    qc::quickcheck(prop_atan_denormals as fn(u8, u16) -> bool)
}

fn prop_atan2_abs_err(y: f32, x: f32) -> qc::TestResult {
    let e = atan2(y, x);
    let t = y.atan2(x);
    let abs = (e - t).abs();

    qc::TestResult::from_bool(abs < 0.0038)
}

#[test]
fn atan2_abs_err_qc() {
    qc::quickcheck(prop_atan2_abs_err as fn(f32, f32) -> qc::TestResult)
}

#[test]
fn atan2_edge_cases() {
    let values = &[-2., -1., -0., 0., 1., 2., f::INFINITY, f::NEG_INFINITY, f::NAN];
    for &x in values {
        for &y in values {
            let e = atan2(x, y);
            let t = x.atan2(y);
            assert_eq!(e.is_nan(), t.is_nan());
            if !t.is_nan() {
                assert!(
                    (e - t).abs() < TOL
                        || (e - t - 2.0 * PI).abs() < TOL
                        || (e - t + 2.0 * PI).abs() < TOL
                );
            }
        }
    }
}

#[test]
fn atan_exact_values() {
    assert_eq!(atan(0.0).to_bits(), 0.0f32.to_bits());
    assert_eq!(atan(-0.0).to_bits(), (-0.0f32).to_bits());
    assert_eq!(atan(f::INFINITY), FRAC_PI_2);
    assert_eq!(atan(f::NEG_INFINITY), -FRAC_PI_2);
    assert!(atan(f::NAN).is_nan());
    assert_eq!(atan(1.0), machine_atan_raw(1.0));
    assert_eq!(atan(-1.0), -machine_atan_raw(1.0));
    assert_eq!(atan_raw(0.5), (FRAC_PI_4 + 0.273 - 0.273 * 0.5) * 0.5);
    // with mul = 0 and add = 1 the quadratic is the identity
    assert_eq!(f32::from_bits(atan_raw_with(0.75f32.to_bits(), 1.0f32.to_bits(), 0)), 0.75);
    assert_eq!(f32::from_bits(atan_raw_with((-0.5f32).to_bits(), 2.0f32.to_bits(), 1.0f32.to_bits())), -0.75);
}

#[test]
fn atan2_signed_zeros_and_nans() {
    assert_eq!(atan2(0.0, 0.0).to_bits(), 0.0f32.to_bits());
    assert_eq!(atan2(0.0, -0.0), PI);
    assert_eq!(atan2(-0.0, 0.0).to_bits(), (-0.0f32).to_bits());
    assert_eq!(atan2(-0.0, -0.0), -PI);
    for &v in &[-1.0, 0.0, 1.0, f::INFINITY, f::NEG_INFINITY] {
        assert!(atan2(f::NAN, v).is_nan());
        assert!(atan2(v, f::NAN).is_nan());
    }
    assert!(atan2(f::NAN, f::NAN).is_nan());
    assert_eq!(atan2(1.0, 0.0), FRAC_PI_2);
    assert_eq!(atan2(-1.0, 0.0), -FRAC_PI_2);
    assert_eq!(atan2(1.0, -0.0), FRAC_PI_2);
    assert_eq!(atan2(f::INFINITY, f::INFINITY), FRAC_PI_4);
    assert_eq!(atan2(f::NEG_INFINITY, f::INFINITY), -FRAC_PI_4);
    assert_eq!(atan2(f::INFINITY, f::NEG_INFINITY), FRAC_PI_2 + FRAC_PI_4);
    assert_eq!(atan2(f::NEG_INFINITY, f::NEG_INFINITY), -(FRAC_PI_2 + FRAC_PI_4));
    assert_eq!(atan2(0.0, 1.0).to_bits(), 0.0f32.to_bits());
    assert_eq!(atan2(0.0, -1.0), PI);
    assert_eq!(atan2(-0.0, -1.0), -PI);
    assert_eq!(atan2(1.0, f::INFINITY).to_bits(), 0.0f32.to_bits());
    assert_eq!(atan2(1.0, f::NEG_INFINITY), PI);
    assert_eq!(atan2(f::INFINITY, 1.0), FRAC_PI_2);
}

struct Patterns(u64);

impl Patterns {
    fn next(&mut self) -> u32 {
        self.0 ^= self.0 << 13;
        self.0 ^= self.0 >> 7;
        self.0 ^= self.0 << 17;
        let raw = (self.0 >> 16) as u32;
        match (self.0 >> 60) & 7 {
            0 => raw & 0x807f_ffff,
            1 => (raw & 0x807f_ffff) | 0x3f80_0000,
            2 => raw & 0x87ff_ffff,
            3 => raw | 0x7800_0000,
            4 => (raw & 0x81ff_ffff) | 0x3f00_0000,
            _ => raw,
        }
    }
}

#[test]
fn atan_family_is_the_formula_of_the_machine() {
    let mut g = Patterns(0x5bd1_e995_1234_5671);
    for _ in 0..1_000_000 {
        let a = f32::from_bits(g.next());
        let b = f32::from_bits(g.next());
        if a.abs() <= 1.0 {
            assert!(same(atan_raw(a), machine_atan_raw(a)), "atan_raw {:e}", a);
        }
        assert!(same(atan(a), machine_atan(a)), "atan {:e}", a);
        assert!(same(atan2(a, b), machine_atan2(a, b)), "atan2 {:e} {:e}", a, b);
    }
}

#[test]
fn atan2_abs_err_on_a_grid() {
    for i in -60..61 {
        for j in -60..61 {
            let y = i as f32 * 0.37;
            let x = j as f32 * 0.53;
            if i == 0 && j == 0 {
                continue;
            }
            let e = atan2(y, x);
            let t = y.atan2(x);
            assert!((e - t).abs() < TOL, "{} {}: {} {}", y, x, e, t);
        }
    }
}

#[test]
fn atan_is_odd_and_bounded() {
    let mut bits: u32 = 0;
    while bits <= 0x7f80_0000 {
        let x = f32::from_bits(bits);
        assert_eq!(atan(-x).to_bits(), (-atan(x)).to_bits(), "{:08x}", bits);
        assert!(atan(x).is_finite());
        if x <= 1.0 {
            assert_eq!(atan_raw(-x).to_bits(), (-atan_raw(x)).to_bits(), "{:08x}", bits);
            assert!(atan_raw(x) <= 1.34375);
        }
        bits += 7919;
    }
}

#[test]
fn atan2_is_finite_without_nans() {
    let mut g = Patterns(0x1357_9bdf_0246_8ace);
    for _ in 0..500_000 {
        let y = f32::from_bits(g.next());
        let x = f32::from_bits(g.next());
        let r = atan2(y, x);
        assert_eq!(r.is_nan(), y.is_nan() || x.is_nan());
        if !r.is_nan() {
            assert!(r.is_finite() && r.abs() < 4.0);
        }
    }
}
