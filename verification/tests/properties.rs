use float_traits::binary32::Binary32;
use float_traits::binary64::Binary64;
use float_traits::traits::Abs;
use float_traits::traits::BinaryFloat;
use float_traits::traits::BoundedFloat;
use float_traits::traits::GeneralFloat;
use float_traits::traits::IEEE754Float;
use float_traits::traits::Infinite;
use float_traits::traits::Negate;
use float_traits::traits::NumCore;
use float_traits::traits::Overflow;
use float_traits::traits::Sqrt;
use float_traits::traits::Underflow;

fn b32(x: f32) -> Binary32 {
    Binary32 { bits: x.to_bits() }
}

fn b64(x: f64) -> Binary64 {
    Binary64 { bits: x.to_bits() }
}

#[test]
fn f64abs() {
    let m = b64(-1.0f64);
    assert!(b64((-1.0f64).abs()) == <&Binary64 as Abs>::abs(&m));
    assert!(b64((-1.0f64).abs()) == <Binary64 as Abs>::abs(m));
}

#[test]
fn radix_is_one_plus_one() {
    let one32 = Binary32::one();
    assert!(Binary32::radix() == Binary32::sum(one32, one32));
    let one64 = Binary64::one();
    assert!(Binary64::radix() == Binary64::sum(one64, one64));
}

#[test]
fn radix_is_two() {
    assert_eq!(Binary32::radix().bits, 2.0f32.to_bits());
    assert_eq!(Binary64::radix().bits, 2.0f64.to_bits());
    assert_eq!(f32::from_bits(Binary32::radix().bits) as i32, 2);
    assert_eq!(f64::from_bits(Binary64::radix().bits) as i32, 2);
}

#[test]
fn epsilon_matches_platform() {
    assert_eq!(Binary32::epsilon().bits, f32::EPSILON.to_bits());
    assert_eq!(Binary64::epsilon().bits, f64::EPSILON.to_bits());
    assert_eq!(Binary32::eps().bits, f32::EPSILON.to_bits());
    assert_eq!(Binary64::eps().bits, f64::EPSILON.to_bits());
}

#[test]
fn bit_size_values() {
    assert_eq!(<Binary32 as BinaryFloat>::bits(), 24);
    assert_eq!(<Binary64 as BinaryFloat>::bits(), 53);
    assert_eq!(Binary32::bit_size(), 24);
    assert_eq!(Binary64::bit_size(), 53);
}

#[test]
fn exponent_bounds() {
    assert_eq!(Binary32::min_exponent(), -126);
    assert_eq!(Binary32::max_exponent(), 127);
    assert_eq!(Binary64::min_exponent(), -1022);
    assert_eq!(Binary64::max_exponent(), 1023);
}

#[test]
fn overflow_is_infinity() {
    assert!(Binary32::overflow() == Binary32::infinity());
    assert!(Binary32::neg_overflow() == Binary32::neg_infinity());
    assert!(Binary64::overflow() == Binary64::infinity());
    assert!(Binary64::neg_overflow() == Binary64::neg_infinity());
    assert_eq!(Binary32::overflow().bits, f32::INFINITY.to_bits());
    assert_eq!(Binary32::neg_overflow().bits, f32::NEG_INFINITY.to_bits());
    assert_eq!(Binary64::overflow().bits, f64::INFINITY.to_bits());
    assert_eq!(Binary64::neg_overflow().bits, f64::NEG_INFINITY.to_bits());
}

#[test]
fn unit_underflow_is_min_positive_times_epsilon() {
    assert_eq!(
        Binary32::unit_underflow().bits,
        (f32::MIN_POSITIVE * f32::EPSILON).to_bits()
    );
    assert_eq!(
        Binary64::unit_underflow().bits,
        (f64::MIN_POSITIVE * f64::EPSILON).to_bits()
    );
    assert_eq!(Binary32::min_positive().bits, f32::MIN_POSITIVE.to_bits());
    assert_eq!(Binary64::min_positive().bits, f64::MIN_POSITIVE.to_bits());
}

#[test]
fn abs_symmetric_and_nonnegative() {
    for x in [0.0f32, -0.0, 1.5, -1.5, f32::MIN_POSITIVE, -3.25e-42, 1.0e38] {
        let v = b32(x);
        assert!(v.abs() == v.neg().abs());
        assert!(f32::from_bits(v.abs().bits) >= 0.0);
        assert_eq!(v.abs().bits, x.abs().to_bits());
    }
    for x in [0.0f64, -2.5, 4.0e300, -1.0e-320] {
        let v = b64(x);
        assert!(v.abs() == v.neg().abs());
        assert!(f64::from_bits(v.abs().bits) >= 0.0);
        assert_eq!(v.abs().bits, x.abs().to_bits());
    }
}

#[test]
fn sqrt_exact_squares() {
    assert_eq!(b32(4.0f32).sqrt().bits, 2.0f32.to_bits());
    assert_eq!(b32(9.0f32).sqrt().bits, 3.0f32.to_bits());
    assert_eq!(b32(0.25f32).sqrt().bits, 0.5f32.to_bits());
    assert_eq!(b64(4.0f64).sqrt().bits, 2.0f64.to_bits());
    assert_eq!(b64(2.25f64).sqrt().bits, 1.5f64.to_bits());
}

#[test]
fn sqrt_special_values() {
    assert!(f32::from_bits(b32(-1.0f32).sqrt().bits).is_nan());
    assert!(f64::from_bits(b64(-1.0f64).sqrt().bits).is_nan());
    assert!(f32::from_bits(b32(f32::NAN).sqrt().bits).is_nan());
    assert!(f32::from_bits(b32(f32::NEG_INFINITY).sqrt().bits).is_nan());
    assert_eq!(b32(f32::INFINITY).sqrt().bits, f32::INFINITY.to_bits());
    assert_eq!(b64(f64::INFINITY).sqrt().bits, f64::INFINITY.to_bits());
    assert_eq!(b32(0.0f32).sqrt().bits, 0.0f32.to_bits());
    assert_eq!(b32(-0.0f32).sqrt().bits, (-0.0f32).to_bits());
    assert_eq!(b64(-0.0f64).sqrt().bits, (-0.0f64).to_bits());
}

#[test]
fn sqrt_is_floor_of_exact_root_32() {
    // The result is the greatest representable value whose square does
    // not exceed the input; a 24-bit square is exact in f64.
    for x in [2.0f32, 3.0, 1.0e-8, 7.5e37, 1.2e-40, f32::MIN_POSITIVE] {
        let r = b32(x).sqrt();
        let rv = f32::from_bits(r.bits) as f64;
        let nx = f32::from_bits(r.bits + 1) as f64;
        assert!(rv * rv <= x as f64);
        assert!(nx * nx > x as f64);
    }
}

#[test]
fn sqrt_is_floor_of_exact_root_64() {
    // For the 64-bit format the squares are compared in 128-bit integer
    // arithmetic: with r = m * 2^g, r * r <= 2 exactly when m * m is at
    // most 2^(1 - 2 * g).
    let r = b64(2.0f64).sqrt();
    assert_eq!(r.bits >> 52, 1023);
    let m: u128 = ((r.bits & 0xF_FFFF_FFFF_FFFF) + (1 << 52)) as u128;
    // r = m * 2^-52, so r * r <= 2 means m * m <= 2^105.
    assert!(m * m <= 1u128 << 105);
    assert!((m + 1) * (m + 1) > 1u128 << 105);
}

#[test]
fn sqrt_by_reference() {
    let v = b32(16.0f32);
    assert_eq!(<&Binary32 as Sqrt>::sqrt(&v).bits, 4.0f32.to_bits());
}

#[test]
fn infinity_predicate() {
    assert!(Binary32::infinity().is_infinite());
    assert!(Binary32::neg_infinity().is_infinite());
    assert!(!Binary32::zero().is_infinite());
    assert!(!Binary32::nan().is_infinite());
    assert!(!b32(1.0).is_infinite());
    assert!(Binary64::infinity().is_infinite());
    assert!(Binary64::neg_infinity().is_infinite());
    assert!(!Binary64::zero().is_infinite());
    assert!(!Binary64::nan().is_infinite());
}

#[test]
fn nan_constructor() {
    assert!(f32::from_bits(Binary32::nan().bits).is_nan());
    assert!(f64::from_bits(Binary64::nan().bits).is_nan());
}

#[test]
fn constants_are_pure() {
    assert!(Binary32::radix() == Binary32::radix());
    assert!(Binary32::epsilon() == Binary32::epsilon());
    assert!(Binary32::infinity() == Binary32::infinity());
    assert!(Binary32::neg_infinity() == Binary32::neg_infinity());
    assert!(Binary32::min_positive() == Binary32::min_positive());
    assert!(Binary32::unit_underflow() == Binary32::unit_underflow());
    assert!(Binary32::nan() == Binary32::nan());
    assert_eq!(Binary32::bit_size(), Binary32::bit_size());
    assert_eq!(Binary32::min_exponent(), Binary32::min_exponent());
    assert_eq!(Binary32::max_exponent(), Binary32::max_exponent());
    assert!(Binary64::radix() == Binary64::radix());
    assert!(Binary64::epsilon() == Binary64::epsilon());
    assert!(Binary64::infinity() == Binary64::infinity());
    assert!(Binary64::nan() == Binary64::nan());
}

#[test]
fn radix_powi_values() {
    assert_eq!(Binary32::radix_powi(0).bits, 1.0f32.to_bits());
    assert_eq!(Binary32::radix_powi(3).bits, 8.0f32.to_bits());
    assert_eq!(Binary32::radix_powi(-1).bits, 0.5f32.to_bits());
    assert_eq!(Binary32::radix_powi(128).bits, f32::INFINITY.to_bits());
    assert_eq!(Binary32::radix_powi(-149).bits, 1);
    assert_eq!(Binary32::radix_powi(-150).bits, 0.0f32.to_bits());
    assert_eq!(Binary64::radix_powi(0).bits, 1.0f64.to_bits());
    assert_eq!(Binary64::radix_powi(-2).bits, 0.25f64.to_bits());
    assert_eq!(Binary64::radix_powi(1024).bits, f64::INFINITY.to_bits());
    assert_eq!(Binary64::radix_powi(-1074).bits, 1);
    assert_eq!(Binary64::radix_powi(-1075).bits, 0.0f64.to_bits());
}

#[test]
fn radix_powi_of_min_exponent() {
    let small32 = Binary32::radix_powi(Binary32::min_exponent());
    assert!(f32::from_bits(small32.bits) > 0.0);
    assert!(f32::from_bits(small32.bits).is_finite());
    assert_eq!(small32.bits, Binary32::min_positive().bits);
    let small64 = Binary64::radix_powi(Binary64::min_exponent());
    assert!(f64::from_bits(small64.bits) > 0.0);
    assert!(f64::from_bits(small64.bits).is_finite());
    assert_eq!(small64.bits, Binary64::min_positive().bits);
}

#[test]
fn sum_doubles_finite_values() {
    assert_eq!(Binary32::sum(b32(1.5), b32(1.5)).bits, 3.0f32.to_bits());
    assert_eq!(
        Binary32::sum(b32(f32::MAX), b32(f32::MAX)).bits,
        f32::INFINITY.to_bits()
    );
    let tiny = Binary32 { bits: 1 };
    assert_eq!(Binary32::sum(tiny, tiny).bits, 2);
    assert_eq!(Binary64::sum(b64(2.5), b64(2.5)).bits, 5.0f64.to_bits());
}

#[test]
fn zero_and_one_values() {
    assert_eq!(Binary32::zero().bits, 0.0f32.to_bits());
    assert_eq!(Binary32::one().bits, 1.0f32.to_bits());
    assert_eq!(Binary64::zero().bits, 0.0f64.to_bits());
    assert_eq!(Binary64::one().bits, 1.0f64.to_bits());
}
