//! The 32-bit IEEE-754 binary format.
//!
//! A value is carried as its raw bit pattern: one sign bit, eight biased
//! exponent bits, twenty-three fraction bits. The `spec` model reads those
//! fields arithmetically, and `scaled` gives every finite value exactly as
//! an integer multiple of the smallest positive magnitude, two to the
//! power of minus `149`; all contracts are stated over that model.

use vstd::arithmetic::div_mod::*;
use vstd::arithmetic::mul::*;
use vstd::arithmetic::power2::*;
use vstd::prelude::*;

use crate::sqrtcore::{pow2_u128, sqrt_norm};
use crate::traits::{
    Abs, BinaryFloat, BoundedFloat, GeneralFloat, IEEE754Float, Infinite, Negate, NumCore, Sqrt,
    Underflow,
};

verus! {

/// A 32-bit IEEE-754 binary floating-point value, as its bit pattern.
#[derive(Clone, Copy, Debug, PartialEq, Eq, Structural)]
pub struct Binary32 {
    pub bits: u32,
}

/// The bit pattern with the given sign, biased exponent and fraction
/// fields.
pub open spec fn pack32(s: bool, e: int, f: int) -> Binary32 {
    Binary32 { bits: ((if s {
        0x8000_0000int
    } else {
        0int
    }) + e * 0x80_0000 + f) as u32 }
}

impl Binary32 {
    /// Whether the sign bit is set.
    pub open spec fn sign_bit(self) -> bool {
        self.bits >= 0x8000_0000
    }

    /// The biased exponent field.
    pub open spec fn biased_exp(self) -> int {
        ((self.bits as int) / 0x80_0000) % 256
    }

    /// The fraction field.
    pub open spec fn fraction(self) -> int {
        (self.bits as int) % 0x80_0000
    }

    /// Whether the value is NaN.
    pub open spec fn is_nan_spec(self) -> bool {
        self.biased_exp() == 255 && self.fraction() != 0
    }

    /// Whether the value is neither NaN nor an infinity.
    pub open spec fn is_finite_spec(self) -> bool {
        self.biased_exp() != 255
    }

    /// Whether the value is a zero of either sign.
    pub open spec fn is_zero_spec(self) -> bool {
        self.biased_exp() == 0 && self.fraction() == 0
    }

    /// The magnitude of a finite value, scaled by two to the power of
    /// `149` so that it is an exact integer.
    pub open spec fn mag_scaled(self) -> int {
        if self.biased_exp() == 0 {
            self.fraction()
        } else {
            (self.fraction() + 0x80_0000) * pow2((self.biased_exp() - 1) as nat)
        }
    }

    /// The signed value of a finite bit pattern, scaled by two to the
    /// power of `149` so that it is an exact integer.
    pub open spec fn scaled(self) -> int {
        if self.sign_bit() {
            -self.mag_scaled()
        } else {
            self.mag_scaled()
        }
    }

    /// The distance to the next representable magnitude at this value's
    /// exponent, on the same scale as [`Binary32::scaled`].
    pub open spec fn ulp_scaled(self) -> int {
        if self.biased_exp() == 0 {
            1
        } else {
            pow2((self.biased_exp() - 1) as nat) as int
        }
    }

    /// The canonical quiet NaN pattern.
    pub open spec fn canonical_nan() -> Binary32 {
        Binary32 { bits: 0x7FC0_0000 }
    }
}

/// The three fields of a packed bit pattern are the packed arguments.
pub proof fn lemma_pack32(s: bool, e: int, f: int)
    requires
        0 <= e < 256,
        0 <= f < 0x80_0000,
    ensures
        pack32(s, e, f).sign_bit() == s,
        pack32(s, e, f).biased_exp() == e,
        pack32(s, e, f).fraction() == f,
{
    let sv: int = if s {
        256
    } else {
        0
    };
    let b: int = sv * 0x80_0000 + e * 0x80_0000 + f;
    let bb: int = (sv + e) * 0x80_0000 + f;
    assert(bb == b) by (nonlinear_arith)
        requires
            b == sv * 0x80_0000 + e * 0x80_0000 + f,
            bb == (sv + e) * 0x80_0000 + f,
    ;
    assert(0 <= b < 0x1_0000_0000);
    assert(pack32(s, e, f).bits == b);
    lemma_fundamental_div_mod_converse(b, 0x80_0000, sv + e, f);
    lemma_fundamental_div_mod_converse(sv + e, 256, if s {
        1int
    } else {
        0int
    }, e);
}

/// Every bit pattern is the packing of its three fields, and the fields
/// are in range.
pub proof fn lemma_unpack32(x: Binary32)
    ensures
        0 <= x.biased_exp() < 256,
        0 <= x.fraction() < 0x80_0000,
        x.bits == (if x.sign_bit() {
            0x8000_0000int
        } else {
            0int
        }) + x.biased_exp() * 0x80_0000 + x.fraction(),
{
    let b = x.bits as int;
    lemma_fundamental_div_mod(b, 0x80_0000);
    let q = b / 0x80_0000;
    lemma_div_pos_is_pos(b, 0x80_0000);
    assert(q < 512);
    lemma_fundamental_div_mod(q, 256);
    lemma_mod_division_less_than_divisor(q, 256);
    lemma_mod_division_less_than_divisor(b, 0x80_0000);
    assert(q / 256 == 0 || q / 256 == 1) by {
        lemma_fundamental_div_mod(q, 256);
        if q / 256 < 0 {
            lemma_div_pos_is_pos(q, 256);
        }
        if q / 256 >= 2 {
            assert(q >= (q / 256) * 256 + q % 256);
            assert((q / 256) * 256 >= 2 * 256) by (nonlinear_arith)
                requires
                    q / 256 >= 2,
            ;
        }
    };
    assert((q / 256 == 1) == x.sign_bit()) by {
        assert(q * 0x80_0000 <= b < (q + 1) * 0x80_0000);
        assert(q == (q / 256) * 256 + q % 256);
    };
}

impl NumCore for Binary32 {
    open spec fn zero_spec() -> Binary32 {
        Binary32 { bits: 0 }
    }

    open spec fn one_spec() -> Binary32 {
        Binary32 { bits: 0x3F80_0000 }
    }

    open spec fn sum_ok(a: Binary32, b: Binary32) -> bool {
        a == b
    }

    open spec fn sum_spec(a: Binary32, b: Binary32) -> Binary32 {
        a.double_spec()
    }

    proof fn lemma_one_sum_one() {
    }

    fn zero() -> (r: Binary32) {
        Binary32 { bits: 0 }
    }

    fn one() -> (r: Binary32) {
        Binary32 { bits: 0x3F80_0000 }
    }

    fn sum(a: Binary32, b: Binary32) -> (r: Binary32) {
        a.double()
    }
}

impl Binary32 {
    /// The exact double of a value: the sum of the value with itself. A
    /// doubled magnitude past the largest finite one saturates to the
    /// infinity of the same sign; NaN and the infinities are unchanged.
    pub open spec fn double_spec(self) -> Binary32 {
        if self.biased_exp() == 255 {
            self
        } else if self.biased_exp() == 254 {
            if self.sign_bit() {
                Binary32 { bits: 0xFF80_0000 }
            } else {
                Binary32 { bits: 0x7F80_0000 }
            }
        } else if self.biased_exp() == 0 {
            Binary32 { bits: (self.bits + self.fraction()) as u32 }
        } else {
            Binary32 { bits: (self.bits + 0x80_0000) as u32 }
        }
    }

    /// Doubles the value.
    pub fn double(self) -> (r: Binary32)
        ensures
            r == self.double_spec(),
    {
        proof {
            lemma_unpack32(self);
        }
        let e: u32 = (self.bits / 0x80_0000) % 256;
        let f: u32 = self.bits % 0x80_0000;
        if e == 255 {
            self
        } else if e == 254 {
            if self.bits >= 0x8000_0000 {
                Binary32 { bits: 0xFF80_0000 }
            } else {
                Binary32 { bits: 0x7F80_0000 }
            }
        } else if e == 0 {
            Binary32 { bits: self.bits + f }
        } else {
            Binary32 { bits: self.bits + 0x80_0000 }
        }
    }

    /// Doubling a finite value below the top binade doubles its scaled
    /// value exactly and keeps its sign.
    pub proof fn lemma_double_value(self)
        requires
            self.biased_exp() <= 253,
        ensures
            self.double_spec().is_finite_spec(),
            self.double_spec().sign_bit() == self.sign_bit(),
            self.double_spec().scaled() == 2 * self.scaled(),
    {
        lemma_unpack32(self);
        let s = self.sign_bit();
        let e = self.biased_exp();
        let f = self.fraction();
        let sv: int = if s {
            0x8000_0000int
        } else {
            0int
        };
        if e == 0 {
            let d = self.double_spec();
            assert(d.bits == sv + 2 * f);
            if 2 * f < 0x80_0000 {
                assert(d == pack32(s, 0, 2 * f));
                lemma_pack32(s, 0, 2 * f);
            } else {
                assert(d == pack32(s, 1, 2 * f - 0x80_0000));
                lemma_pack32(s, 1, 2 * f - 0x80_0000);
                assert(d.mag_scaled() == (2 * f - 0x80_0000 + 0x80_0000) * pow2(0));
                lemma2_to64();
            }
        } else {
            let d = self.double_spec();
            assert(d.bits == sv + (e + 1) * 0x80_0000 + f) by (nonlinear_arith)
                requires
                    d.bits == sv + e * 0x80_0000 + f + 0x80_0000,
            ;
            assert(d == pack32(s, e + 1, f));
            lemma_pack32(s, e + 1, f);
            assert(pow2(e as nat) == 2 * pow2((e - 1) as nat)) by {
                lemma_pow2_unfold(e as nat);
            };
            assert(d.mag_scaled() == (f + 0x80_0000) * pow2(e as nat));
            assert((f + 0x80_0000) * (2 * pow2((e - 1) as nat)) == 2 * ((f + 0x80_0000) * pow2(
                (e - 1) as nat,
            ))) by (nonlinear_arith);
        }
    }
}

impl Infinite for Binary32 {
    open spec fn infinity_spec() -> Binary32 {
        Binary32 { bits: 0x7F80_0000 }
    }

    open spec fn neg_infinity_spec() -> Binary32 {
        Binary32 { bits: 0xFF80_0000 }
    }

    open spec fn is_infinite_spec(&self) -> bool {
        self.biased_exp() == 255 && self.fraction() == 0
    }

    proof fn lemma_infinite_specials() {
        lemma_pack32(false, 255, 0);
        lemma_pack32(true, 255, 0);
        assert(Binary32 { bits: 0x7F80_0000 } == pack32(false, 255, 0));
        assert(Binary32 { bits: 0xFF80_0000 } == pack32(true, 255, 0));
        lemma_pack32(false, 0, 0);
        assert(Binary32 { bits: 0u32 } == pack32(false, 0, 0));
    }

    fn infinity() -> (r: Binary32) {
        Binary32 { bits: 0x7F80_0000 }
    }

    fn neg_infinity() -> (r: Binary32) {
        Binary32 { bits: 0xFF80_0000 }
    }

    fn is_infinite(&self) -> (r: bool) {
        let e: u32 = (self.bits / 0x80_0000) % 256;
        let f: u32 = self.bits % 0x80_0000;
        e == 255 && f == 0
    }
}

impl Underflow for Binary32 {
    open spec fn min_positive_spec() -> Binary32 {
        Binary32 { bits: 0x0080_0000 }
    }

    open spec fn unit_underflow_spec() -> Binary32 {
        Binary32 { bits: 0x0000_0001 }
    }

    fn min_positive() -> (r: Binary32) {
        Binary32 { bits: 0x0080_0000 }
    }

    fn unit_underflow() -> (r: Binary32) {
        Binary32 { bits: 0x0000_0001 }
    }
}

impl BinaryFloat for Binary32 {
    type Expo = i32;

    open spec fn expo_int(e: i32) -> int {
        e as int
    }

    open spec fn bits_spec() -> int {
        24
    }

    open spec fn eps_spec() -> Binary32 {
        Binary32 { bits: 0x3400_0000 }
    }

    open spec fn two_powi_spec(p: int) -> Binary32 {
        if p > 127 {
            Binary32 { bits: 0x7F80_0000 }
        } else if p >= -126 {
            Binary32 { bits: ((p + 127) * 0x80_0000) as u32 }
        } else if p >= -149 {
            Binary32 { bits: pow2((p + 149) as nat) as u32 }
        } else {
            Binary32 { bits: 0 }
        }
    }

    fn bits() -> (r: i32) {
        24
    }

    fn eps() -> (r: Binary32) {
        Binary32 { bits: 0x3400_0000 }
    }

    fn two_powi(p: i32) -> (r: Binary32) {
        if p > 127 {
            Binary32 { bits: 0x7F80_0000 }
        } else if p >= -126 {
            Binary32 { bits: ((p + 127) as u32) * 0x80_0000 }
        } else if p >= -149 {
            proof {
                lemma_pow2_strictly_increases((p + 149) as nat, 23);
                lemma2_to64();
            }
            Binary32 { bits: pow2_u128((p + 149) as u32) as u32 }
        } else {
            Binary32 { bits: 0 }
        }
    }
}

impl BoundedFloat for Binary32 {
    open spec fn max_exponent_spec() -> int {
        127
    }

    open spec fn min_exponent_spec() -> int {
        -126
    }

    fn max_exponent() -> (r: i32) {
        127
    }

    fn min_exponent() -> (r: i32) {
        -126
    }
}

impl Abs for Binary32 {
    type Output = Binary32;

    open spec fn abs_spec(self) -> Binary32 {
        if self.sign_bit() {
            Binary32 { bits: (self.bits - 0x8000_0000) as u32 }
        } else {
            self
        }
    }

    fn abs(self) -> (r: Binary32) {
        if self.bits >= 0x8000_0000 {
            Binary32 { bits: self.bits - 0x8000_0000 }
        } else {
            self
        }
    }
}

impl Abs for &Binary32 {
    type Output = Binary32;

    open spec fn abs_spec(self) -> Binary32 {
        (*self).abs_spec()
    }

    fn abs(self) -> (r: Binary32) {
        (*self).abs()
    }
}

impl Negate for Binary32 {
    type Output = Binary32;

    open spec fn neg_spec(self) -> Binary32 {
        if self.sign_bit() {
            Binary32 { bits: (self.bits - 0x8000_0000) as u32 }
        } else {
            Binary32 { bits: (self.bits + 0x8000_0000) as u32 }
        }
    }

    fn neg(self) -> (r: Binary32) {
        if self.bits >= 0x8000_0000 {
            Binary32 { bits: self.bits - 0x8000_0000 }
        } else {
            Binary32 { bits: self.bits + 0x8000_0000 }
        }
    }
}

impl Binary32 {
    /// Exactly the results the square root may return: NaN for NaN or for
    /// negative nonzero inputs, the input itself for either zero and for
    /// positive infinity, and otherwise the greatest representable value
    /// whose square does not exceed the input.
    pub open spec fn sqrt_post_spec(self, r: Binary32) -> bool {
        &&& self.is_nan_spec() ==> r == Binary32::canonical_nan()
        &&& (!self.is_nan_spec() && self.sign_bit() && !self.is_zero_spec()) ==> r
            == Binary32::canonical_nan()
        &&& self.is_zero_spec() ==> r == self
        &&& self == Binary32::infinity_spec() ==> r == Binary32::infinity_spec()
        &&& (!self.sign_bit() && self.is_finite_spec() && !self.is_zero_spec()) ==> {
            &&& !r.sign_bit()
            &&& 1 <= r.biased_exp() < 255
            &&& r.scaled() * r.scaled() <= self.scaled() * pow2(149)
            &&& self.scaled() * pow2(149) < (r.scaled() + r.ulp_scaled()) * (r.scaled()
                + r.ulp_scaled())
        }
    }

    /// The square root, rounded toward zero to the greatest representable
    /// value whose square does not exceed the input.
    pub fn sqrt_value(self) -> (r: Binary32)
        ensures
            self.sqrt_post_spec(r),
    {
        proof {
            lemma_unpack32(self);
        }
        let s: bool = self.bits >= 0x8000_0000;
        let e: u32 = (self.bits / 0x80_0000) % 256;
        let f: u32 = self.bits % 0x80_0000;
        if e == 255 && f != 0 {
            Binary32 { bits: 0x7FC0_0000 }
        } else if e == 0 && f == 0 {
            self
        } else if s {
            Binary32 { bits: 0x7FC0_0000 }
        } else if e == 255 {
            self
        } else {
            let ghost mag: nat = self.mag_scaled() as nat;
            proof {
                lemma2_to64();
                if e == 0 {
                    assert(mag >= 1);
                } else {
                    lemma_pow2_pos((e - 1) as nat);
                    assert(mag >= 1) by (nonlinear_arith)
                        requires
                            mag == (f + 0x80_0000) * pow2((e - 1) as nat),
                            f >= 0,
                            pow2((e - 1) as nat) >= 1,
                    ;
                }
            }
            let (a0, u0): (u128, u32) = if e == 0 {
                (f as u128, 47)
            } else {
                ((f + 0x80_0000) as u128, e + 46)
            };
            proof {
                if e > 0 {
                    lemma_pow2_adds((e - 1) as nat, 47);
                    assert(a0 * pow2((e + 46) as nat) == mag * pow2(47)) by (nonlinear_arith)
                        requires
                            a0 == f + 0x80_0000,
                            mag == (f + 0x80_0000) * pow2((e - 1) as nat),
                            pow2((e + 46) as nat) == pow2((e - 1) as nat) * pow2(47),
                    ;
                }
                assert(a0 * pow2(u0 as nat) == mag * pow2(47));
            }
            let (a1, u1): (u128, u32) = if u0 % 2 == 1 {
                proof {
                    lemma_pow2_unfold(u0 as nat);
                    assert((a0 * 2) * pow2((u0 - 1) as nat) == a0 * pow2(u0 as nat))
                        by (nonlinear_arith)
                        requires
                            pow2(u0 as nat) == 2 * pow2((u0 - 1) as nat),
                    ;
                }
                (a0 * 2, u0 - 1)
            } else {
                (a0, u0)
            };
            let (sq128, uf): (u128, u32) = sqrt_norm(a1, u1, 24, Ghost(mag));
            let sq: u32 = sq128 as u32;
            proof {
                lemma2_to64();
                // The remaining exponent is small enough for the result
                // to stay in the normal range.
                assert(mag < pow2(277)) by {
                    lemma_unpack32(self);
                    if e == 0 {
                        lemma_pow2_strictly_increases(23, 277);
                    } else {
                        lemma_pow2_adds(24, 253);
                        assert(pow2((e - 1) as nat) <= pow2(253)) by {
                            if e - 1 < 253 {
                                lemma_pow2_strictly_increases((e - 1) as nat, 253);
                            }
                        };
                        lemma_pow2_pos((e - 1) as nat);
                        assert(mag <= 0xFF_FFFFint * pow2(253)) by (nonlinear_arith)
                            requires
                                mag == (f + 0x80_0000) * pow2((e - 1) as nat),
                                f + 0x80_0000 <= 0xFF_FFFF,
                                pow2((e - 1) as nat) <= pow2(253),
                                pow2((e - 1) as nat) >= 1,
                            ;
                        assert(0xFF_FFFFint * pow2(253) < pow2(24) * pow2(253))
                            by (nonlinear_arith)
                            requires
                                pow2(253) >= 1,
                                0xFF_FFFF < pow2(24),
                        ;
                    }
                };
                assert(uf <= 276) by {
                    lemma_pow2_adds(23, 23);
                    assert(pow2(46) <= sq128 * sq128) by (nonlinear_arith)
                        requires
                            pow2(23) <= sq128,
                            pow2(46) == pow2(23) * pow2(23),
                    ;
                    lemma_pow2_pos(uf as nat);
                    lemma_mul_inequality(pow2(46) as int, (sq128 * sq128) as int, pow2(uf as nat) as int);
                    lemma_pow2_pos(47);
                    lemma_mul_strict_inequality(mag as int, pow2(277) as int, pow2(47) as int);
                    lemma_pow2_adds(46, uf as nat);
                    lemma_pow2_adds(277, 47);
                    if 46 + uf > 324 {
                        lemma_pow2_strictly_increases(324, (46 + uf) as nat);
                    }
                };
            }
            let er: u32 = (uf + 104) / 2;
            let r = Binary32 { bits: (er - 1) * 0x80_0000 + sq };
            proof {
                assert(2 * er == uf + 104);
                assert(52 <= er <= 190);
                lemma_pack32(false, er as int, sq - 0x80_0000);
                assert(r == pack32(false, er as int, sq - 0x80_0000));
                assert(r.mag_scaled() == sq * pow2((er - 1) as nat));
                let ghost rs = r.scaled();
                let ghost k: nat = (er - 1) as nat;
                assert(rs == sq * pow2(k));
                assert(r.ulp_scaled() == pow2(k));
                lemma_pow2_adds(k, k);
                assert(2 * k == uf + 102);
                lemma_pow2_adds(uf as nat, 102);
                lemma_pow2_adds(47, 102);
                lemma_pow2_pos(102);
                // Lower bound: the square of the result does not exceed
                // the input.
                lemma_mul_inequality(
                    (sq128 * sq128 * pow2(uf as nat)) as int,
                    (mag * pow2(47)) as int,
                    pow2(102) as int,
                );
                assert(rs * rs == sq128 * sq128 * pow2(uf as nat) * pow2(102)) by (nonlinear_arith)
                    requires
                        rs == sq128 * pow2(k),
                        pow2(k) * pow2(k) == pow2(k + k),
                        k + k == uf + 102,
                        pow2((uf + 102) as nat) == pow2(uf as nat) * pow2(102),
                ;
                assert(mag * pow2(47) * pow2(102) == mag * pow2(149)) by (nonlinear_arith)
                    requires
                        pow2(47) * pow2(102) == pow2(149),
                ;
                assert(rs * rs <= mag * pow2(149));
                // Upper bound: the next representable magnitude squares
                // past the input.
                lemma_mul_strict_inequality(
                    (mag * pow2(47)) as int,
                    ((sq128 + 1) * (sq128 + 1) * pow2(uf as nat)) as int,
                    pow2(102) as int,
                );
                assert((rs + pow2(k)) * (rs + pow2(k)) == (sq128 + 1) * (sq128 + 1) * pow2(
                    uf as nat,
                ) * pow2(102)) by (nonlinear_arith)
                    requires
                        rs == sq128 * pow2(k),
                        pow2(k) * pow2(k) == pow2(k + k),
                        k + k == uf + 102,
                        pow2((uf + 102) as nat) == pow2(uf as nat) * pow2(102),
                ;
                assert(mag * pow2(149) < (rs + pow2(k)) * (rs + pow2(k)));
                assert(self.scaled() == mag);
            }
            r
        }
    }
}

impl Sqrt for Binary32 {
    type Output = Binary32;

    open spec fn sqrt_post(self, r: Binary32) -> bool {
        self.sqrt_post_spec(r)
    }

    fn sqrt(self) -> (r: Binary32) {
        self.sqrt_value()
    }
}

impl Sqrt for &Binary32 {
    type Output = Binary32;

    open spec fn sqrt_post(self, r: Binary32) -> bool {
        (*self).sqrt_post_spec(r)
    }

    fn sqrt(self) -> (r: Binary32) {
        (*self).sqrt_value()
    }
}

impl IEEE754Float for Binary32 {
    open spec fn nan_spec() -> Binary32 {
        Binary32::canonical_nan()
    }

    proof fn lemma_nan_not_infinite() {
        lemma_pack32(false, 255, 0x40_0000);
        assert(Binary32 { bits: 0x7FC0_0000 } == pack32(false, 255, 0x40_0000));
    }

    fn nan() -> (r: Binary32) {
        Binary32 { bits: 0x7FC0_0000 }
    }
}

/// The radix of the format is two: derived as one plus one, it is the
/// value two to the first power, with scaled magnitude twice the scale
/// unit.
pub proof fn lemma_radix_is_two()
    ensures
        <Binary32 as GeneralFloat>::radix_spec() == (Binary32 { bits: 0x4000_0000 }),
        <Binary32 as GeneralFloat>::radix_spec() == Binary32::two_powi_spec(1),
        (<Binary32 as GeneralFloat>::radix_spec()).scaled() == 2 * pow2(149),
{
    lemma_pack32(false, 127, 0);
    assert(Binary32 { bits: 0x3F80_0000 } == pack32(false, 127, 0));
    lemma_pack32(false, 128, 0);
    assert(Binary32 { bits: 0x4000_0000 } == pack32(false, 128, 0));
    lemma_pow2_adds(23, 127);
    lemma_pow2_unfold(150);
    assert((<Binary32 as GeneralFloat>::radix_spec()).mag_scaled() == 0x80_0000 * pow2(127));
    lemma2_to64();
}

/// Epsilon is two to the power of minus `23`: the gap from one to the
/// next representable value.
pub proof fn lemma_epsilon_value()
    ensures
        Binary32::eps_spec() == Binary32::two_powi_spec(-23),
        Binary32::eps_spec().scaled() == pow2(126),
        !Binary32::eps_spec().sign_bit(),
        Binary32::eps_spec().is_finite_spec(),
{
    lemma_pack32(false, 104, 0);
    assert(Binary32 { bits: 0x3400_0000 } == pack32(false, 104, 0));
    lemma_pow2_adds(23, 103);
    lemma2_to64();
}

/// The unit underflow equals the smallest positive value times epsilon,
/// exactly, and sits strictly between zero and the smallest positive
/// value.
pub proof fn lemma_unit_underflow_value()
    ensures
        Binary32::unit_underflow_spec().scaled() * pow2(149) == Binary32::min_positive_spec().scaled()
            * Binary32::eps_spec().scaled(),
        0 < Binary32::unit_underflow_spec().scaled() < Binary32::min_positive_spec().scaled(),
{
    lemma_pack32(false, 0, 1);
    assert(Binary32 { bits: 0x0000_0001 } == pack32(false, 0, 1));
    lemma_pack32(false, 1, 0);
    assert(Binary32 { bits: 0x0080_0000 } == pack32(false, 1, 0));
    lemma_epsilon_value();
    lemma2_to64();
    lemma_pow2_adds(23, 126);
}

/// The absolute value clears the sign and changes nothing else: it is
/// symmetric under negation, and nonnegative on finite values.
pub proof fn lemma_abs_symmetric(x: Binary32)
    ensures
        x.abs_spec() == x.neg_spec().abs_spec(),
        !x.abs_spec().sign_bit(),
        x.abs_spec().biased_exp() == x.biased_exp(),
        x.abs_spec().fraction() == x.fraction(),
        x.is_finite_spec() ==> x.abs_spec().scaled() >= 0,
        x.is_finite_spec() ==> x.abs_spec().scaled() == (if x.scaled() < 0 {
            -x.scaled()
        } else {
            x.scaled()
        }),
{
    lemma_unpack32(x);
    let e = x.biased_exp();
    let f = x.fraction();
    lemma_pack32(false, e, f);
    lemma_pack32(true, e, f);
    assert(x.abs_spec() == pack32(false, e, f));
    assert(x.neg_spec() == pack32(if x.sign_bit() {
        false
    } else {
        true
    }, e, f));
    assert(x.neg_spec().abs_spec() == pack32(false, e, f));
    if e > 0 {
        lemma_pow2_pos((e - 1) as nat);
        assert((f + 0x80_0000) * pow2((e - 1) as nat) >= 0) by (nonlinear_arith)
            requires
                f >= 0,
                pow2((e - 1) as nat) >= 1,
        ;
    }
}

/// The square root is within one epsilon-scaled tolerance of reproducing
/// its argument: the shortfall of its square, relative to the square
/// itself, is under three units in the last place.
pub proof fn lemma_sqrt_within_epsilon(x: Binary32, r: Binary32)
    requires
        !x.sign_bit(),
        x.is_finite_spec(),
        !x.is_zero_spec(),
        x.sqrt_post_spec(r),
    ensures
        r.scaled() * r.scaled() <= x.scaled() * pow2(149),
        (x.scaled() * pow2(149) - r.scaled() * r.scaled()) * pow2(23) < 3 * (r.scaled()
            * r.scaled()),
{
    let rs = r.scaled();
    let u = r.ulp_scaled();
    let x2 = x.scaled() * pow2(149);
    lemma_unpack32(r);
    lemma_pow2_pos((r.biased_exp() - 1) as nat);
    assert(u >= 1);
    assert(pow2(23) == 0x80_0000) by {
        lemma2_to64();
    };
    assert(u * pow2(23) <= rs) by (nonlinear_arith)
        requires
            rs == (r.fraction() + 0x80_0000) * u,
            r.fraction() >= 0,
            u >= 1,
            pow2(23) == 0x80_0000,
    ;
    assert(u <= rs) by (nonlinear_arith)
        requires
            u * pow2(23) <= rs,
            u >= 1,
            pow2(23) >= 1,
    ;
    assert(x2 - rs * rs < 3 * (rs * u)) by (nonlinear_arith)
        requires
            x2 < (rs + u) * (rs + u),
            1 <= u,
            u <= rs,
    ;
    assert((x2 - rs * rs) * pow2(23) < (3 * (rs * u)) * pow2(23)) by {
        lemma_pow2_pos(23);
        lemma_mul_strict_inequality(x2 - rs * rs, 3 * (rs * u), pow2(23) as int);
    };
    assert((3 * (rs * u)) * pow2(23) <= 3 * (rs * rs)) by (nonlinear_arith)
        requires
            u * pow2(23) <= rs,
            rs >= 1,
    ;
}

/// The radix raised to the smallest normalized exponent is exactly the
/// smallest positive normal value: strictly positive, finite, and no
/// greater than the smallest positive value itself.
pub proof fn lemma_radix_powi_min_exponent()
    ensures
        Binary32::two_powi_spec(<Binary32 as BoundedFloat>::min_exponent_spec())
            == Binary32::min_positive_spec(),
        Binary32::two_powi_spec(<Binary32 as BoundedFloat>::min_exponent_spec()).is_finite_spec(),
        0 < Binary32::two_powi_spec(<Binary32 as BoundedFloat>::min_exponent_spec()).scaled(),
{
    lemma_pack32(false, 1, 0);
    assert(Binary32 { bits: 0x0080_0000 } == pack32(false, 1, 0));
    lemma2_to64();
}

} // verus!
