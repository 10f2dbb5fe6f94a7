use fast_math::arith::{fadd, fdiv, fmul, fneg, fsub};
use fast_math::convert::{from_i32, to_i32};
use fast_math::order::{feq, fgt, fle, flt};

/// A small generator of bit patterns that visits every class of value.
struct Patterns(u64);

impl Patterns {
    fn next(&mut self) -> u32 {
        self.0 ^= self.0 << 13;
        self.0 ^= self.0 >> 7;
        self.0 ^= self.0 << 17;
        let raw = (self.0 >> 16) as u32;
        match (self.0 >> 60) & 7 {
            // subnormals and zeros
            0 => raw & 0x807f_ffff,
            // values close to one
            1 => (raw & 0x807f_ffff) | 0x3f80_0000,
            // small exponents
            2 => raw & 0x87ff_ffff,
            // large exponents, infinities and NaNs
            3 => raw | 0x7800_0000,
            // few significant bits
            4 => raw & 0xfff0_0000,
            _ => raw,
        }
    }
}

fn same(soft: u32, hard: f32) -> bool {
    if hard.is_nan() {
        f32::from_bits(soft).is_nan()
    } else {
        soft == hard.to_bits()
    }
}

const SPECIAL: [u32; 16] = [
    0x0000_0000, 0x8000_0000, 0x0000_0001, 0x8000_0001, 0x007f_ffff, 0x0080_0000, 0x3f80_0000,
    0xbf80_0000, 0x3f00_0000, 0x4000_0000, 0x7f7f_ffff, 0xff7f_ffff, 0x7f80_0000, 0xff80_0000,
    0x7fc0_0000, 0x3fff_ffff,
];

#[test]
fn fmul_agrees_with_the_machine() {
    for &a in SPECIAL.iter() {
        for &b in SPECIAL.iter() {
            let hard = f32::from_bits(a) * f32::from_bits(b);
            assert!(same(fmul(a, b), hard), "{:08x} * {:08x}", a, b);
        }
    }
    let mut g = Patterns(0x9e37_79b9_7f4a_7c15);
    for _ in 0..2_000_000 {
        let a = g.next();
        let b = g.next();
        let hard = f32::from_bits(a) * f32::from_bits(b);
        assert!(same(fmul(a, b), hard), "{:08x} * {:08x}: {:08x} {:08x}", a, b, fmul(a, b), hard.to_bits());
    }
}

#[test]
fn fadd_agrees_with_the_machine() {
    for &a in SPECIAL.iter() {
        for &b in SPECIAL.iter() {
            let hard = f32::from_bits(a) + f32::from_bits(b);
            assert!(same(fadd(a, b), hard), "{:08x} + {:08x}", a, b);
        }
    }
    let mut g = Patterns(0x2545_f491_4f6c_dd1d);
    for i in 0..3_000_000 {
        let a = g.next();
        // every other pair has neighbouring exponents, where bits cancel
        let b = if i % 2 == 0 { g.next() } else { (a ^ (g.next() & 0x81ff_ffff)) };
        let hard = f32::from_bits(a) + f32::from_bits(b);
        assert!(same(fadd(a, b), hard), "{:08x} + {:08x}: {:08x} {:08x}", a, b, fadd(a, b), hard.to_bits());
    }
}

#[test]
fn fsub_agrees_with_the_machine() {
    for &a in SPECIAL.iter() {
        for &b in SPECIAL.iter() {
            let hard = f32::from_bits(a) - f32::from_bits(b);
            assert!(same(fsub(a, b), hard), "{:08x} - {:08x}", a, b);
        }
    }
    let mut g = Patterns(0x1234_5678_9abc_def1);
    for i in 0..3_000_000 {
        let a = g.next();
        let b = if i % 2 == 0 { g.next() } else { (a ^ (g.next() & 0x01ff_ffff)) };
        let hard = f32::from_bits(a) - f32::from_bits(b);
        assert!(same(fsub(a, b), hard), "{:08x} - {:08x}: {:08x} {:08x}", a, b, fsub(a, b), hard.to_bits());
    }
}

#[test]
fn fdiv_agrees_with_the_machine() {
    for &a in SPECIAL.iter() {
        for &b in SPECIAL.iter() {
            let hard = f32::from_bits(a) / f32::from_bits(b);
            assert!(same(fdiv(a, b), hard), "{:08x} / {:08x}", a, b);
        }
    }
    let mut g = Patterns(0x0123_4567_89ab_cdef);
    for _ in 0..3_000_000 {
        let a = g.next();
        let b = g.next();
        let hard = f32::from_bits(a) / f32::from_bits(b);
        assert!(same(fdiv(a, b), hard), "{:08x} / {:08x}: {:08x} {:08x}", a, b, fdiv(a, b), hard.to_bits());
    }
}

#[test]
fn conversions_agree_with_the_machine() {
    for &i in [0, 1, -1, 2, 3, 0x00ff_ffff, 0x0100_0000, 0x0100_0001, 0x0100_0003, i32::MAX, i32::MIN, i32::MIN + 1, i32::MAX - 63, i32::MAX - 64].iter() {
        assert_eq!(from_i32(i), (i as f32).to_bits(), "{}", i);
    }
    for &a in SPECIAL.iter() {
        assert_eq!(to_i32(a), f32::from_bits(a) as i32, "{:08x}", a);
    }
    let mut g = Patterns(0xfeed_face_cafe_beef);
    for _ in 0..2_000_000 {
        let a = g.next();
        assert_eq!(to_i32(a), f32::from_bits(a) as i32, "{:08x}", a);
        let i = a as i32;
        assert_eq!(from_i32(i), (i as f32).to_bits(), "{}", i);
        let j = i >> (a & 31);
        assert_eq!(from_i32(j), (j as f32).to_bits(), "{}", j);
        // values around the integer range
        let b = (a & 0x80ff_ffff) | 0x4e00_0000 | (a & 0x0100_0000);
        assert_eq!(to_i32(b), f32::from_bits(b) as i32, "{:08x}", b);
        let c = (a & 0x87ff_ffff) | 0x4800_0000;
        assert_eq!(to_i32(c), f32::from_bits(c) as i32, "{:08x}", c);
    }
}

#[test]
fn order_agrees_with_the_machine() {
    let check = |a: u32, b: u32| {
        let (x, y) = (f32::from_bits(a), f32::from_bits(b));
        assert_eq!(flt(a, b), x < y, "{:08x} < {:08x}", a, b);
        assert_eq!(fle(a, b), x <= y, "{:08x} <= {:08x}", a, b);
        assert_eq!(fgt(a, b), x > y, "{:08x} > {:08x}", a, b);
        assert_eq!(feq(a, b), x == y, "{:08x} == {:08x}", a, b);
    };
    for &a in SPECIAL.iter() {
        for &b in SPECIAL.iter() {
            check(a, b);
        }
    }
    let mut g = Patterns(0x0f0f_1234_5678_4321);
    for i in 0..1_000_000 {
        let a = g.next();
        let b = if i % 4 == 0 { a ^ (g.next() & 0x8000_0003) } else { g.next() };
        check(a, b);
    }
}

#[test]
fn ties_go_to_even() {
    let one = 1.0f32.to_bits();
    let half_ulp = 2f32.powi(-24).to_bits();
    // 1 + 2^-24 lies midway between 1 and its successor: the even one is 1
    assert_eq!(fadd(one, half_ulp), one);
    // from the odd successor of 1 the tie goes up
    assert_eq!(fadd(one + 1, half_ulp), one + 2);
    // just above the midpoint
    assert_eq!(fadd(one, half_ulp + 1), one + 1);
    // below one the spacing is half: 1 - 2^-25 is midway, and rounds to 1
    assert_eq!(fsub(one, 2f32.powi(-25).to_bits()), one);
    assert_eq!(fsub(one, 2f32.powi(-24).to_bits()), one - 1);
    // integers beyond 2^24
    assert_eq!(from_i32(0x0100_0001), 0x4b80_0000);
    assert_eq!(from_i32(0x0100_0003), 0x4b80_0002);
    assert_eq!(from_i32(0x0100_0002), 0x4b80_0001);
    assert_eq!(from_i32(-0x0100_0001), 0xcb80_0000);
    // a product and a quotient midway between two subnormals
    assert_eq!(fmul(3, 0.5f32.to_bits()), 2);
    assert_eq!(fmul(1, 0.5f32.to_bits()), 0);
    assert_eq!(fdiv(5, 2.0f32.to_bits()), 2);
    assert_eq!(fdiv(7, 2.0f32.to_bits()), 4);
}

#[test]
fn overflow_and_underflow() {
    let max = f32::MAX.to_bits();
    let inf = f32::INFINITY.to_bits();
    assert_eq!(fadd(max, max), inf);
    assert_eq!(fmul(max, 2.0f32.to_bits()), inf);
    assert_eq!(fmul(max | 0x8000_0000, 2.0f32.to_bits()), inf | 0x8000_0000);
    assert_eq!(fdiv(max, 0.5f32.to_bits()), inf);
    // half an ulp of the largest value: below it the sum stays finite
    assert_eq!(fadd(max, 2f32.powi(103).to_bits()), inf);
    assert_eq!(fadd(max, 2f32.powi(103).to_bits() - 1), max);
    assert_eq!(fmul(1, 1), 0);
    assert_eq!(fmul(1, 0x8000_0001), 0x8000_0000);
    assert_eq!(fdiv(1, max), 0);
    assert_eq!(fmul(f32::MIN_POSITIVE.to_bits(), 0.5f32.to_bits()), 0x0040_0000);
    assert_eq!(fsub(f32::MIN_POSITIVE.to_bits(), 1), 0x007f_ffff);
}

#[test]
fn zeros_and_signs() {
    let pz = 0.0f32.to_bits();
    let nz = (-0.0f32).to_bits();
    let one = 1.0f32.to_bits();
    assert_eq!(fadd(pz, pz), pz);
    assert_eq!(fadd(nz, nz), nz);
    assert_eq!(fadd(pz, nz), pz);
    assert_eq!(fadd(nz, pz), pz);
    assert_eq!(fsub(one, one), pz);
    assert_eq!(fsub(fneg(one), fneg(one)), pz);
    assert_eq!(fsub(pz, pz), pz);
    assert_eq!(fsub(nz, pz), nz);
    assert_eq!(fmul(nz, one), nz);
    assert_eq!(fmul(nz, fneg(one)), pz);
    assert_eq!(fdiv(pz, fneg(one)), nz);
    assert_eq!(fdiv(one, nz), f32::NEG_INFINITY.to_bits());
    assert_eq!(fneg(pz), nz);
    assert_eq!(fneg(f32::INFINITY.to_bits()), f32::NEG_INFINITY.to_bits());
    assert!(f32::from_bits(fdiv(pz, nz)).is_nan());
    assert!(f32::from_bits(fmul(pz, f32::INFINITY.to_bits())).is_nan());
    assert!(f32::from_bits(fsub(f32::INFINITY.to_bits(), f32::INFINITY.to_bits())).is_nan());
    assert!(f32::from_bits(fneg(f32::NAN.to_bits())).is_nan());
}

#[test]
fn conversions_at_the_edges() {
    assert_eq!(to_i32(f32::NAN.to_bits()), 0);
    assert_eq!(to_i32(f32::INFINITY.to_bits()), i32::MAX);
    assert_eq!(to_i32(f32::NEG_INFINITY.to_bits()), i32::MIN);
    assert_eq!(to_i32(2147483648.0f32.to_bits()), i32::MAX);
    assert_eq!(to_i32((-2147483648.0f32).to_bits()), i32::MIN);
    assert_eq!(to_i32(2147483520.0f32.to_bits()), 2147483520);
    assert_eq!(to_i32((-2147483904.0f32).to_bits()), i32::MIN);
    assert_eq!(to_i32(0.99999994f32.to_bits()), 0);
    assert_eq!(to_i32((-0.99999994f32).to_bits()), 0);
    assert_eq!(to_i32(1.5f32.to_bits()), 1);
    assert_eq!(to_i32((-1.5f32).to_bits()), -1);
    assert_eq!(to_i32(8388607.5f32.to_bits()), 8388607);
    assert_eq!(to_i32(1), 0);
    assert_eq!(from_i32(0), 0);
    assert_eq!(from_i32(i32::MIN), (-2147483648.0f32).to_bits());
    assert_eq!(from_i32(i32::MAX), 2147483648.0f32.to_bits());
    for i in -5000..5000 {
        assert_eq!(to_i32(from_i32(i)), i);
    }
}
