use fast_math::float::{
    decompose, flip_sign_nonnan, is_finite, is_infinite, is_nan, is_sign_negative, is_zero,
    magnitude, recompose, EXP, SIGN, SIGNIF,
};
use ieee754::Ieee754;

fn flip(sign: f32, magnitude: f32) -> f32 {
    f32::from_bits(flip_sign_nonnan(sign.to_bits(), magnitude.to_bits()))
}

#[test]
fn test_flip_sign_nonnan() {
    assert_eq!(flip(2.0, 3.0), 3.0);
    assert_eq!(flip(2.0, -3.0), -3.0);
    assert_eq!(flip(-2.0, 3.0), -3.0);
    assert_eq!(flip(-2.0, -3.0), 3.0);

    assert_eq!(flip(1.0, f32::INFINITY), f32::INFINITY);
    assert_eq!(flip(1.0, f32::NEG_INFINITY), f32::NEG_INFINITY);
    assert_eq!(flip(-1.0, f32::INFINITY), f32::NEG_INFINITY);
    assert_eq!(flip(-1.0, f32::NEG_INFINITY), f32::INFINITY);
}

#[test]
fn flip_sign_of_zeros() {
    assert_eq!(flip(-0.0, 0.0).to_bits(), (-0.0f32).to_bits());
    assert_eq!(flip(-0.0, -0.0).to_bits(), 0.0f32.to_bits());
    assert_eq!(flip(0.0, -0.0).to_bits(), (-0.0f32).to_bits());
    assert_eq!(flip(-1.0, 0.0).to_bits(), (-0.0f32).to_bits());
}

#[test]
fn field_widths() {
    assert_eq!(SIGN + EXP + SIGNIF, 32);
    assert_eq!((SIGN, EXP, SIGNIF), (1, 8, 23));
}

#[test]
fn decompose_known_values() {
    assert_eq!(decompose(1.0f32.to_bits()), (false, 127, 0));
    assert_eq!(decompose((-1.0f32).to_bits()), (true, 127, 0));
    assert_eq!(decompose(0.0f32.to_bits()), (false, 0, 0));
    assert_eq!(decompose((-0.0f32).to_bits()), (true, 0, 0));
    assert_eq!(decompose(f32::INFINITY.to_bits()), (false, 255, 0));
    assert_eq!(decompose(f32::NEG_INFINITY.to_bits()), (true, 255, 0));
    assert_eq!(decompose(1.5f32.to_bits()), (false, 127, 0x40_0000));
    assert_eq!(decompose(f32::MIN_POSITIVE.to_bits()), (false, 1, 0));
    assert_eq!(decompose(1), (false, 0, 1));
    assert_eq!(decompose(0xffff_ffff), (true, 255, 0x7f_ffff));
    assert_eq!(decompose(std::f32::consts::PI.to_bits()), (false, 128, 0x49_0fdb));
}

#[test]
fn recompose_known_values() {
    assert_eq!(recompose(false, 127, 0), 1.0f32.to_bits());
    assert_eq!(recompose(true, 128, 0x40_0000), (-3.0f32).to_bits());
    assert_eq!(recompose(false, 0, 1), 1);
    assert_eq!(recompose(true, 255, 0), f32::NEG_INFINITY.to_bits());
    // a significand with its leading one written out, at the exponent of one
    assert_eq!(recompose(false, 127, 0x80_0000), 1.0f32.to_bits());
    assert_eq!(recompose(false, 127, 0xc0_0000), 1.5f32.to_bits());
    assert_eq!(recompose(false, 127, 0xff_ffff), 0x3fff_ffff);
}

#[test]
fn round_trip_on_a_grid() {
    let mut x: u32 = 0;
    loop {
        let (s, e, m) = decompose(x);
        assert!(m < 1 << 23);
        assert_eq!(recompose(s, e, m), x);
        match x.checked_add(12_347) {
            Some(y) => x = y,
            None => break,
        }
    }
    for &x in &[0u32, 1, 0x7f_ffff, 0x80_0000, 0x7f7f_ffff, 0x7f80_0000, 0x7f80_0001, 0x7fc0_0000, 0x8000_0000, 0xffff_ffff] {
        let (s, e, m) = decompose(x);
        assert_eq!(recompose(s, e, m), x);
    }
}

#[test]
fn fields_round_trip() {
    for &s in &[false, true] {
        for e in 0..=255u8 {
            for &m in &[0u32, 1, 2, 0x40_0000, 0x55_5555, 0x7f_fffe, 0x7f_ffff] {
                assert_eq!(decompose(recompose(s, e, m)), (s, e, m));
            }
        }
    }
}

#[test]
fn bit_view_agrees_with_ieee754() {
    let mut x: u32 = 0;
    loop {
        let v = f32::from_bits(x);
        let (s, e, m) = decompose(x);
        assert_eq!((s, e, m), v.decompose_raw());
        if !v.is_nan() {
            assert_eq!(recompose(s, e, m), f32::recompose_raw(s, e, m).bits());
        }
        match x.checked_add(99_991) {
            Some(y) => x = y,
            None => break,
        }
    }
    // the leading one written out
    assert_eq!(recompose(false, 127, 0x9a_bcde), f32::recompose_raw(false, 127, 0x9a_bcde).bits());
}

#[test]
fn classes() {
    let samples: [f32; 12] = [
        0.0,
        -0.0,
        1.0,
        -1.0,
        f32::MIN_POSITIVE,
        f32::MAX,
        f32::MIN,
        f32::INFINITY,
        f32::NEG_INFINITY,
        f32::NAN,
        1.0e-40,
        -1.0e-45,
    ];
    for &v in samples.iter() {
        let x = v.to_bits();
        assert_eq!(is_nan(x), v.is_nan());
        assert_eq!(is_infinite(x), v.is_infinite());
        assert_eq!(is_finite(x), v.is_finite());
        assert_eq!(is_zero(x), v == 0.0);
        assert_eq!(is_sign_negative(x), v.is_sign_negative());
        assert_eq!(magnitude(x), v.abs().to_bits());
    }
    assert!(is_nan(0x7f80_0001));
    assert!(is_nan(0xffc0_0000));
    assert!(!is_nan(0x7f80_0000));
}
