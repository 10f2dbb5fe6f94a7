use fast_math::atan::{ATAN_N2, FRAC_PI_2, FRAC_PI_4, PI};
use fast_math::exp::{
    Base, EXP_C0, EXP_C1, EXP_C2, EXP_M1_ADD, EXP_M1_MUL, EXP_M1_THRESHOLD, LN_2, LOG2_E,
    LOWER_EXPONENT, TWO_POW_23, TWO_POW_MINUS_23, UPPER_EXPONENT,
};
use fast_math::float::{INFINITY, NAN, NEG_INFINITY, NEG_ZERO, ONE};
use fast_math::log::{LOG2_A, LOG2_B, SUBNORMAL_EXPONENT};
use fast_math::tanh::{DEN_C0, DEN_C1, DEN_C2, DEN_C3, NUM_C0, NUM_C1, NUM_C2};

#[test]
fn special_patterns() {
    assert_eq!(INFINITY, f32::INFINITY.to_bits());
    assert_eq!(NEG_INFINITY, f32::NEG_INFINITY.to_bits());
    assert!(f32::from_bits(NAN).is_nan());
    assert_eq!(NEG_ZERO, (-0.0f32).to_bits());
    assert_eq!(ONE, 1.0f32.to_bits());
}

#[test]
fn log2_coefficients() {
    assert_eq!(LOG2_A, (-0.6296735f32).to_bits());
    assert_eq!(LOG2_B, 1.466967f32.to_bits());
    assert_eq!(SUBNORMAL_EXPONENT, (-126.0f32).to_bits());
}

#[test]
fn exp_coefficients() {
    const EXP2_23: f32 = 1.1920929e-7;
    assert_eq!(LOG2_E, std::f32::consts::LOG2_E.to_bits());
    assert_eq!(LN_2, std::f32::consts::LN_2.to_bits());
    assert_eq!(TWO_POW_23, ((1 << 23) as f32).to_bits());
    assert_eq!(UPPER_EXPONENT, 128.0f32.to_bits());
    assert_eq!(LOWER_EXPONENT, (-127.0f32).to_bits());
    assert_eq!(TWO_POW_MINUS_23, EXP2_23.to_bits());
    assert_eq!(EXP_C0, 0.3371894346f32.to_bits());
    assert_eq!(EXP_C1, 0.657636276f32.to_bits());
    assert_eq!(EXP_C2, 1.00172476f32.to_bits());
    assert_eq!(EXP_M1_THRESHOLD, 0.25153902f32.to_bits());
    assert_eq!(EXP_M1_ADD, 1.0053172f32.to_bits());
    assert_eq!(EXP_M1_MUL, 0.5004446f32.to_bits());
}

#[test]
fn base_constants() {
    assert_eq!(Base::E.log2(), std::f32::consts::LOG2_E.to_bits());
    assert_eq!(Base::Two.log2(), 1.0f32.to_bits());
    assert_eq!(Base::E.ln(), 1.0f32.to_bits());
    assert_eq!(Base::Two.ln(), std::f32::consts::LN_2.to_bits());
    assert_eq!(Base::Two.upper_limit(), 128.0f32.to_bits());
    assert_eq!(Base::Two.lower_limit(), (-127.0f32).to_bits());
    assert_eq!(Base::E.upper_limit(), (128.0 / std::f32::consts::LOG2_E).to_bits());
    assert_eq!(Base::E.lower_limit(), (-127.0 / std::f32::consts::LOG2_E).to_bits());
}

#[test]
fn atan_coefficients() {
    assert_eq!(PI, std::f32::consts::PI.to_bits());
    assert_eq!(FRAC_PI_2, std::f32::consts::FRAC_PI_2.to_bits());
    assert_eq!(FRAC_PI_4, std::f32::consts::FRAC_PI_4.to_bits());
    assert_eq!(ATAN_N2, 0.273f32.to_bits());
}

#[test]
fn tanh_coefficients() {
    assert_eq!(NUM_C2, 378.0f32.to_bits());
    assert_eq!(NUM_C1, 17325.0f32.to_bits());
    assert_eq!(NUM_C0, 135135.0f32.to_bits());
    assert_eq!(DEN_C3, 28.0f32.to_bits());
    assert_eq!(DEN_C2, 3150.0f32.to_bits());
    assert_eq!(DEN_C1, 62370.0f32.to_bits());
    assert_eq!(DEN_C0, 135135.0f32.to_bits());
}
