//! The 64-bit IEEE-754 binary format.
//!
//! A value is carried as its raw bit pattern: one sign bit, eleven biased
//! exponent bits, fifty-two fraction bits. The `spec` model reads those
//! fields arithmetically, and `scaled` gives every finite value exactly as
//! an integer multiple of the smallest positive magnitude, two to the
//! power of minus `1074`; all contracts are stated over that model.

use vstd::arithmetic::div_mod::*;
use vstd::arithmetic::mul::*;
use vstd::arithmetic::power2::*;
use vstd::prelude::*;

use crate::sqrtcore::{pow2_u128, sqrt_norm};
use crate::traits::{
    Abs, BinaryFloat, BoundedFloat, GeneralFloat, IEEE754Float, Infinite, Negate, NumCore, Sqrt,
    Underflow,
};

verus! {

/// A 64-bit IEEE-754 binary floating-point value, as its bit pattern.
#[derive(Clone, Copy, Debug, PartialEq, Eq, Structural)]
pub struct Binary64 {
    pub bits: u64,
}

/// The bit pattern with the given sign, biased exponent and fraction
/// fields.
pub open spec fn pack64(s: bool, e: int, f: int) -> Binary64 {
    Binary64 { bits: ((if s {
        0x8000_0000_0000_0000int
    } else {
        0int
    }) + e * 0x10_0000_0000_0000 + f) as u64 }
}

impl Binary64 {
    /// Whether the sign bit is set.
    pub open spec fn sign_bit(self) -> bool {
        self.bits >= 0x8000_0000_0000_0000
    }

    /// The biased exponent field.
    pub open spec fn biased_exp(self) -> int {
        ((self.bits as int) / 0x10_0000_0000_0000) % 2048
    }

    /// The fraction field.
    pub open spec fn fraction(self) -> int {
        (self.bits as int) % 0x10_0000_0000_0000
    }

    /// Whether the value is NaN.
    pub open spec fn is_nan_spec(self) -> bool {
        self.biased_exp() == 2047 && self.fraction() != 0
    }

    /// Whether the value is neither NaN nor an infinity.
    pub open spec fn is_finite_spec(self) -> bool {
        self.biased_exp() != 2047
    }

    /// Whether the value is a zero of either sign.
    pub open spec fn is_zero_spec(self) -> bool {
        self.biased_exp() == 0 && self.fraction() == 0
    }

    /// The magnitude of a finite value, scaled by two to the power of
    /// `1074` so that it is an exact integer.
    pub open spec fn mag_scaled(self) -> int {
        if self.biased_exp() == 0 {
            self.fraction()
        } else {
            (self.fraction() + 0x10_0000_0000_0000) * pow2((self.biased_exp() - 1) as nat)
        }
    }

    /// The signed value of a finite bit pattern, scaled by two to the
    /// power of `1074` so that it is an exact integer.
    pub open spec fn scaled(self) -> int {
        if self.sign_bit() {
            -self.mag_scaled()
        } else {
            self.mag_scaled()
        }
    }

    /// The distance to the next representable magnitude at this value's
    /// exponent, on the same scale as [`Binary64::scaled`].
    pub open spec fn ulp_scaled(self) -> int {
        if self.biased_exp() == 0 {
            1
        } else {
            pow2((self.biased_exp() - 1) as nat) as int
        }
    }

    /// The canonical quiet NaN pattern.
    pub open spec fn canonical_nan() -> Binary64 {
        Binary64 { bits: 0x7FF8_0000_0000_0000 }
    }
}

/// The three fields of a packed bit pattern are the packed arguments.
pub proof fn lemma_pack64(s: bool, e: int, f: int)
    requires
        0 <= e < 2048,
        0 <= f < 0x10_0000_0000_0000,
    ensures
        pack64(s, e, f).sign_bit() == s,
        pack64(s, e, f).biased_exp() == e,
        pack64(s, e, f).fraction() == f,
{
    let sv: int = if s {
        2048
    } else {
        0
    };
    let b: int = sv * 0x10_0000_0000_0000 + e * 0x10_0000_0000_0000 + f;
    let bb: int = (sv + e) * 0x10_0000_0000_0000 + f;
    assert(bb == b) by (nonlinear_arith)
        requires
            b == sv * 0x10_0000_0000_0000 + e * 0x10_0000_0000_0000 + f,
            bb == (sv + e) * 0x10_0000_0000_0000 + f,
    ;
    assert(0 <= b < 0x1_0000_0000_0000_0000);
    assert(pack64(s, e, f).bits == b);
    lemma_fundamental_div_mod_converse(b, 0x10_0000_0000_0000, sv + e, f);
    lemma_fundamental_div_mod_converse(sv + e, 2048, if s {
        1int
    } else {
        0int
    }, e);
}

/// Every bit pattern is the packing of its three fields, and the fields
/// are in range.
pub proof fn lemma_unpack64(x: Binary64)
    ensures
        0 <= x.biased_exp() < 2048,
        0 <= x.fraction() < 0x10_0000_0000_0000,
        x.bits == (if x.sign_bit() {
            0x8000_0000_0000_0000int
        } else {
            0int
        }) + x.biased_exp() * 0x10_0000_0000_0000 + x.fraction(),
{
    let b = x.bits as int;
    lemma_fundamental_div_mod(b, 0x10_0000_0000_0000);
    let q = b / 0x10_0000_0000_0000;
    lemma_div_pos_is_pos(b, 0x10_0000_0000_0000);
    assert(q < 4096);
    lemma_fundamental_div_mod(q, 2048);
    lemma_mod_division_less_than_divisor(q, 2048);
    lemma_mod_division_less_than_divisor(b, 0x10_0000_0000_0000);
    assert(q / 2048 == 0 || q / 2048 == 1) by {
        lemma_fundamental_div_mod(q, 2048);
        if q / 2048 < 0 {
            lemma_div_pos_is_pos(q, 2048);
        }
        if q / 2048 >= 2 {
            assert(q >= (q / 2048) * 2048 + q % 2048);
            assert((q / 2048) * 2048 >= 2 * 2048) by (nonlinear_arith)
                requires
                    q / 2048 >= 2,
            ;
        }
    };
    assert((q / 2048 == 1) == x.sign_bit()) by {
        assert(q * 0x10_0000_0000_0000 <= b < (q + 1) * 0x10_0000_0000_0000);
        assert(q == (q / 2048) * 2048 + q % 2048);
    };
}

impl NumCore for Binary64 {
    open spec fn zero_spec() -> Binary64 {
        Binary64 { bits: 0 }
    }

    open spec fn one_spec() -> Binary64 {
        Binary64 { bits: 0x3FF0_0000_0000_0000 }
    }

    open spec fn sum_ok(a: Binary64, b: Binary64) -> bool {
        a == b
    }

    open spec fn sum_spec(a: Binary64, b: Binary64) -> Binary64 {
        a.double_spec()
    }

    proof fn lemma_one_sum_one() {
    }

    fn zero() -> (r: Binary64) {
        Binary64 { bits: 0 }
    }

    fn one() -> (r: Binary64) {
        Binary64 { bits: 0x3FF0_0000_0000_0000 }
    }

    fn sum(a: Binary64, b: Binary64) -> (r: Binary64) {
        a.double()
    }
}

impl Binary64 {
    /// The exact double of a value: the sum of the value with itself. A
    /// doubled magnitude past the largest finite one saturates to the
    /// infinity of the same sign; NaN and the infinities are unchanged.
    pub open spec fn double_spec(self) -> Binary64 {
        if self.biased_exp() == 2047 {
            self
        } else if self.biased_exp() == 2046 {
            if self.sign_bit() {
                Binary64 { bits: 0xFFF0_0000_0000_0000 }
            } else {
                Binary64 { bits: 0x7FF0_0000_0000_0000 }
            }
        } else if self.biased_exp() == 0 {
            Binary64 { bits: (self.bits + self.fraction()) as u64 }
        } else {
            Binary64 { bits: (self.bits + 0x10_0000_0000_0000) as u64 }
        }
    }

    /// Doubles the value.
    pub fn double(self) -> (r: Binary64)
        ensures
            r == self.double_spec(),
    {
        proof {
            lemma_unpack64(self);
        }
        let e: u64 = (self.bits / 0x10_0000_0000_0000) % 2048;
        let f: u64 = self.bits % 0x10_0000_0000_0000;
        if e == 2047 {
            self
        } else if e == 2046 {
            if self.bits >= 0x8000_0000_0000_0000 {
                Binary64 { bits: 0xFFF0_0000_0000_0000 }
            } else {
                Binary64 { bits: 0x7FF0_0000_0000_0000 }
            }
        } else if e == 0 {
            Binary64 { bits: self.bits + f }
        } else {
            Binary64 { bits: self.bits + 0x10_0000_0000_0000 }
        }
    }

    /// Doubling a finite value below the top binade doubles its scaled
    /// value exactly and keeps its sign.
    pub proof fn lemma_double_value(self)
        requires
            self.biased_exp() <= 2045,
        ensures
            self.double_spec().is_finite_spec(),
            self.double_spec().sign_bit() == self.sign_bit(),
            self.double_spec().scaled() == 2 * self.scaled(),
    {
        lemma_unpack64(self);
        let s = self.sign_bit();
        let e = self.biased_exp();
        let f = self.fraction();
        let sv: int = if s {
            0x8000_0000_0000_0000int
        } else {
            0int
        };
        if e == 0 {
            let d = self.double_spec();
            assert(d.bits == sv + 2 * f);
            if 2 * f < 0x10_0000_0000_0000 {
                assert(d == pack64(s, 0, 2 * f));
                lemma_pack64(s, 0, 2 * f);
            } else {
                assert(d == pack64(s, 1, 2 * f - 0x10_0000_0000_0000));
                lemma_pack64(s, 1, 2 * f - 0x10_0000_0000_0000);
                assert(d.mag_scaled() == (2 * f - 0x10_0000_0000_0000 + 0x10_0000_0000_0000) * pow2(0));
                lemma2_to64();
                lemma2_to64_rest();
            }
        } else {
            let d = self.double_spec();
            assert(d.bits == sv + (e + 1) * 0x10_0000_0000_0000 + f) by (nonlinear_arith)
                requires
                    d.bits == sv + e * 0x10_0000_0000_0000 + f + 0x10_0000_0000_0000,
            ;
            assert(d == pack64(s, e + 1, f));
            lemma_pack64(s, e + 1, f);
            assert(pow2(e as nat) == 2 * pow2((e - 1) as nat)) by {
                lemma_pow2_unfold(e as nat);
            };
            assert(d.mag_scaled() == (f + 0x10_0000_0000_0000) * pow2(e as nat));
            assert((f + 0x10_0000_0000_0000) * (2 * pow2((e - 1) as nat)) == 2 * ((f + 0x10_0000_0000_0000) * pow2(
                (e - 1) as nat,
            ))) by (nonlinear_arith);
        }
    }
}

impl Infinite for Binary64 {
    open spec fn infinity_spec() -> Binary64 {
        Binary64 { bits: 0x7FF0_0000_0000_0000 }
    }

    open spec fn neg_infinity_spec() -> Binary64 {
        Binary64 { bits: 0xFFF0_0000_0000_0000 }
    }

    open spec fn is_infinite_spec(&self) -> bool {
        self.biased_exp() == 2047 && self.fraction() == 0
    }

    proof fn lemma_infinite_specials() {
        lemma_pack64(false, 2047, 0);
        lemma_pack64(true, 2047, 0);
        assert(Binary64 { bits: 0x7FF0_0000_0000_0000 } == pack64(false, 2047, 0));
        assert(Binary64 { bits: 0xFFF0_0000_0000_0000 } == pack64(true, 2047, 0));
        lemma_pack64(false, 0, 0);
        assert(Binary64 { bits: 0u64 } == pack64(false, 0, 0));
    }

    fn infinity() -> (r: Binary64) {
        Binary64 { bits: 0x7FF0_0000_0000_0000 }
    }

    fn neg_infinity() -> (r: Binary64) {
        Binary64 { bits: 0xFFF0_0000_0000_0000 }
    }

    fn is_infinite(&self) -> (r: bool) {
        let e: u64 = (self.bits / 0x10_0000_0000_0000) % 2048;
        let f: u64 = self.bits % 0x10_0000_0000_0000;
        e == 2047 && f == 0
    }
}

impl Underflow for Binary64 {
    open spec fn min_positive_spec() -> Binary64 {
        Binary64 { bits: 0x0010_0000_0000_0000 }
    }

    open spec fn unit_underflow_spec() -> Binary64 {
        Binary64 { bits: 0x0000_0001 }
    }

    fn min_positive() -> (r: Binary64) {
        Binary64 { bits: 0x0010_0000_0000_0000 }
    }

    fn unit_underflow() -> (r: Binary64) {
        Binary64 { bits: 0x0000_0001 }
    }
}

impl BinaryFloat for Binary64 {
    type Expo = i32;

    open spec fn expo_int(e: i32) -> int {
        e as int
    }

    open spec fn bits_spec() -> int {
        53
    }

    open spec fn eps_spec() -> Binary64 {
        Binary64 { bits: 0x3CB0_0000_0000_0000 }
    }

    open spec fn two_powi_spec(p: int) -> Binary64 {
        if p > 1023 {
            Binary64 { bits: 0x7FF0_0000_0000_0000 }
        } else if p >= -1022 {
            Binary64 { bits: ((p + 1023) * 0x10_0000_0000_0000) as u64 }
        } else if p >= -1074 {
            Binary64 { bits: pow2((p + 1074) as nat) as u64 }
        } else {
            Binary64 { bits: 0 }
        }
    }

    fn bits() -> (r: i32) {
        53
    }

    fn eps() -> (r: Binary64) {
        Binary64 { bits: 0x3CB0_0000_0000_0000 }
    }

    fn two_powi(p: i32) -> (r: Binary64) {
        if p > 1023 {
            Binary64 { bits: 0x7FF0_0000_0000_0000 }
        } else if p >= -1022 {
            Binary64 { bits: ((p + 1023) as u64) * 0x10_0000_0000_0000 }
        } else if p >= -1074 {
            proof {
                lemma_pow2_strictly_increases((p + 1074) as nat, 52);
                lemma2_to64();
                lemma2_to64_rest();
            }
            Binary64 { bits: pow2_u128((p + 1074) as u32) as u64 }
        } else {
            Binary64 { bits: 0 }
        }
    }
}

impl BoundedFloat for Binary64 {
    open spec fn max_exponent_spec() -> int {
        1023
    }

    open spec fn min_exponent_spec() -> int {
        -1022
    }

    fn max_exponent() -> (r: i32) {
        1023
    }

    fn min_exponent() -> (r: i32) {
        -1022
    }
}

impl Abs for Binary64 {
    type Output = Binary64;

    open spec fn abs_spec(self) -> Binary64 {
        if self.sign_bit() {
            Binary64 { bits: (self.bits - 0x8000_0000_0000_0000) as u64 }
        } else {
            self
        }
    }

    fn abs(self) -> (r: Binary64) {
        if self.bits >= 0x8000_0000_0000_0000 {
            Binary64 { bits: self.bits - 0x8000_0000_0000_0000 }
        } else {
            self
        }
    }
}

impl Abs for &Binary64 {
    type Output = Binary64;

    open spec fn abs_spec(self) -> Binary64 {
        (*self).abs_spec()
    }

    fn abs(self) -> (r: Binary64) {
        (*self).abs()
    }
}

impl Negate for Binary64 {
    type Output = Binary64;

    open spec fn neg_spec(self) -> Binary64 {
        if self.sign_bit() {
            Binary64 { bits: (self.bits - 0x8000_0000_0000_0000) as u64 }
        } else {
            Binary64 { bits: (self.bits + 0x8000_0000_0000_0000) as u64 }
        }
    }

    fn neg(self) -> (r: Binary64) {
        if self.bits >= 0x8000_0000_0000_0000 {
            Binary64 { bits: self.bits - 0x8000_0000_0000_0000 }
        } else {
            Binary64 { bits: self.bits + 0x8000_0000_0000_0000 }
        }
    }
}

impl Binary64 {
    /// Exactly the results the square root may return: NaN for NaN or for
    /// negative nonzero inputs, the input itself for either zero and for
    /// positive infinity, and otherwise the greatest representable value
    /// whose square does not exceed the input.
    pub open spec fn sqrt_post_spec(self, r: Binary64) -> bool {
        &&& self.is_nan_spec() ==> r == Binary64::canonical_nan()
        &&& (!self.is_nan_spec() && self.sign_bit() && !self.is_zero_spec()) ==> r
            == Binary64::canonical_nan()
        &&& self.is_zero_spec() ==> r == self
        &&& self == Binary64::infinity_spec() ==> r == Binary64::infinity_spec()
        &&& (!self.sign_bit() && self.is_finite_spec() && !self.is_zero_spec()) ==> {
            &&& !r.sign_bit()
            &&& 1 <= r.biased_exp() < 2047
            &&& r.scaled() * r.scaled() <= self.scaled() * pow2(1074)
            &&& self.scaled() * pow2(1074) < (r.scaled() + r.ulp_scaled()) * (r.scaled()
                + r.ulp_scaled())
        }
    }

    /// The square root, rounded toward zero to the greatest representable
    /// value whose square does not exceed the input.
    pub fn sqrt_value(self) -> (r: Binary64)
        ensures
            self.sqrt_post_spec(r),
    {
        proof {
            lemma_unpack64(self);
        }
        let s: bool = self.bits >= 0x8000_0000_0000_0000;
        let e: u64 = (self.bits / 0x10_0000_0000_0000) % 2048;
        let f: u64 = self.bits % 0x10_0000_0000_0000;
        if e == 2047 && f != 0 {
            Binary64 { bits: 0x7FF8_0000_0000_0000 }
        } else if e == 0 && f == 0 {
            self
        } else if s {
            Binary64 { bits: 0x7FF8_0000_0000_0000 }
        } else if e == 2047 {
            self
        } else {
            let ghost mag: nat = self.mag_scaled() as nat;
            proof {
                lemma2_to64();
                lemma2_to64_rest();
                if e == 0 {
                    assert(mag >= 1);
                } else {
                    lemma_pow2_pos((e - 1) as nat);
                    assert(mag >= 1) by (nonlinear_arith)
                        requires
                            mag == (f + 0x10_0000_0000_0000) * pow2((e - 1) as nat),
                            f >= 0,
                            pow2((e - 1) as nat) >= 1,
                    ;
                }
            }
            let (a0, u0): (u128, u32) = if e == 0 {
                (f as u128, 105)
            } else {
                ((f + 0x10_0000_0000_0000) as u128, (e as u32) + 104)
            };
            proof {
                if e > 0 {
                    lemma_pow2_adds((e - 1) as nat, 105);
                    assert(a0 * pow2((e + 104) as nat) == mag * pow2(105)) by (nonlinear_arith)
                        requires
                            a0 == f + 0x10_0000_0000_0000,
                            mag == (f + 0x10_0000_0000_0000) * pow2((e - 1) as nat),
                            pow2((e + 104) as nat) == pow2((e - 1) as nat) * pow2(105),
                    ;
                }
                assert(a0 * pow2(u0 as nat) == mag * pow2(105));
            }
            let (a1, u1): (u128, u32) = if u0 % 2 == 0 {
                proof {
                    lemma_pow2_unfold(u0 as nat);
                    assert((a0 * 2) * pow2((u0 - 1) as nat) == a0 * pow2(u0 as nat))
                        by (nonlinear_arith)
                        requires
                            pow2(u0 as nat) == 2 * pow2((u0 - 1) as nat),
                    ;
                }
                (a0 * 2, u0 - 1)
            } else {
                (a0, u0)
            };
            let (sq128, uf): (u128, u32) = sqrt_norm(a1, u1, 53, Ghost(mag));
            let sq: u64 = sq128 as u64;
            proof {
                lemma2_to64();
                lemma2_to64_rest();
                // The remaining exponent is small enough for the result
                // to stay in the normal range.
                assert(mag < pow2(2098)) by {
                    lemma_unpack64(self);
                    if e == 0 {
                        lemma_pow2_strictly_increases(52, 2098);
                    } else {
                        lemma_pow2_adds(53, 2045);
                        assert(pow2((e - 1) as nat) <= pow2(2045)) by {
                            if e - 1 < 2045 {
                                lemma_pow2_strictly_increases((e - 1) as nat, 2045);
                            }
                        };
                        lemma_pow2_pos((e - 1) as nat);
                        assert(mag <= 0x1F_FFFF_FFFF_FFFFint * pow2(2045)) by (nonlinear_arith)
                            requires
                                mag == (f + 0x10_0000_0000_0000) * pow2((e - 1) as nat),
                                f + 0x10_0000_0000_0000 <= 0x1F_FFFF_FFFF_FFFF,
                                pow2((e - 1) as nat) <= pow2(2045),
                                pow2((e - 1) as nat) >= 1,
                            ;
                        assert(0x1F_FFFF_FFFF_FFFFint * pow2(2045) < pow2(53) * pow2(2045))
                            by (nonlinear_arith)
                            requires
                                pow2(2045) >= 1,
                                0x1F_FFFF_FFFF_FFFF < pow2(53),
                        ;
                    }
                };
                assert(uf <= 2097) by {
                    lemma_pow2_adds(52, 52);
                    assert(pow2(104) <= sq128 * sq128) by (nonlinear_arith)
                        requires
                            pow2(52) <= sq128,
                            pow2(104) == pow2(52) * pow2(52),
                    ;
                    lemma_pow2_pos(uf as nat);
                    lemma_mul_inequality(pow2(104) as int, (sq128 * sq128) as int, pow2(uf as nat) as int);
                    lemma_pow2_pos(105);
                    lemma_mul_strict_inequality(mag as int, pow2(2098) as int, pow2(105) as int);
                    lemma_pow2_adds(104, uf as nat);
                    lemma_pow2_adds(2098, 105);
                    if 104 + uf > 2203 {
                        lemma_pow2_strictly_increases(2203, (104 + uf) as nat);
                    }
                };
            }
            let er: u32 = (uf + 971) / 2;
            let r = Binary64 { bits: ((er - 1) as u64) * 0x10_0000_0000_0000 + sq };
            proof {
                assert(2 * er == uf + 971);
                assert(486 <= er <= 1534);
                lemma_pack64(false, er as int, sq - 0x10_0000_0000_0000);
                assert(r == pack64(false, er as int, sq - 0x10_0000_0000_0000));
                assert(r.mag_scaled() == sq * pow2((er - 1) as nat));
                let ghost rs = r.scaled();
                let ghost k: nat = (er - 1) as nat;
                assert(rs == sq * pow2(k));
                assert(r.ulp_scaled() == pow2(k));
                lemma_pow2_adds(k, k);
                assert(2 * k == uf + 969);
                lemma_pow2_adds(uf as nat, 969);
                lemma_pow2_adds(105, 969);
                lemma_pow2_pos(969);
                // Lower bound: the square of the result does not exceed
                // the input.
                lemma_mul_inequality(
                    (sq128 * sq128 * pow2(uf as nat)) as int,
                    (mag * pow2(105)) as int,
                    pow2(969) as int,
                );
                assert(rs * rs == sq128 * sq128 * pow2(uf as nat) * pow2(969)) by (nonlinear_arith)
                    requires
                        rs == sq128 * pow2(k),
                        pow2(k) * pow2(k) == pow2(k + k),
                        k + k == uf + 969,
                        pow2((uf + 969) as nat) == pow2(uf as nat) * pow2(969),
                ;
                assert(mag * pow2(105) * pow2(969) == mag * pow2(1074)) by (nonlinear_arith)
                    requires
                        pow2(105) * pow2(969) == pow2(1074),
                ;
                assert(rs * rs <= mag * pow2(1074));
                // Upper bound: the next representable magnitude squares
                // past the input.
                lemma_mul_strict_inequality(
                    (mag * pow2(105)) as int,
                    ((sq128 + 1) * (sq128 + 1) * pow2(uf as nat)) as int,
                    pow2(969) as int,
                );
                assert((rs + pow2(k)) * (rs + pow2(k)) == (sq128 + 1) * (sq128 + 1) * pow2(
                    uf as nat,
                ) * pow2(969)) by (nonlinear_arith)
                    requires
                        rs == sq128 * pow2(k),
                        pow2(k) * pow2(k) == pow2(k + k),
                        k + k == uf + 969,
                        pow2((uf + 969) as nat) == pow2(uf as nat) * pow2(969),
                ;
                assert(mag * pow2(1074) < (rs + pow2(k)) * (rs + pow2(k)));
                assert(self.scaled() == mag);
            }
            r
        }
    }
}

impl Sqrt for Binary64 {
    type Output = Binary64;

    open spec fn sqrt_post(self, r: Binary64) -> bool {
        self.sqrt_post_spec(r)
    }

    fn sqrt(self) -> (r: Binary64) {
        self.sqrt_value()
    }
}

impl Sqrt for &Binary64 {
    type Output = Binary64;

    open spec fn sqrt_post(self, r: Binary64) -> bool {
        (*self).sqrt_post_spec(r)
    }

    fn sqrt(self) -> (r: Binary64) {
        (*self).sqrt_value()
    }
}

impl IEEE754Float for Binary64 {
    open spec fn nan_spec() -> Binary64 {
        Binary64::canonical_nan()
    }

    proof fn lemma_nan_not_infinite() {
        lemma_pack64(false, 2047, 0x8_0000_0000_0000);
        assert(Binary64 { bits: 0x7FF8_0000_0000_0000 } == pack64(false, 2047, 0x8_0000_0000_0000));
    }

    fn nan() -> (r: Binary64) {
        Binary64 { bits: 0x7FF8_0000_0000_0000 }
    }
}

/// The radix of the format is two: derived as one plus one, it is the
/// value two to the first power, with scaled magnitude twice the scale
/// unit.
pub proof fn lemma_radix_is_two()
    ensures
        <Binary64 as GeneralFloat>::radix_spec() == (Binary64 { bits: 0x4000_0000_0000_0000 }),
        <Binary64 as GeneralFloat>::radix_spec() == Binary64::two_powi_spec(1),
        (<Binary64 as GeneralFloat>::radix_spec()).scaled() == 2 * pow2(1074),
{
    lemma_pack64(false, 1023, 0);
    assert(Binary64 { bits: 0x3FF0_0000_0000_0000 } == pack64(false, 1023, 0));
    lemma_pack64(false, 1024, 0);
    assert(Binary64 { bits: 0x4000_0000_0000_0000 } == pack64(false, 1024, 0));
    lemma_pow2_adds(52, 1023);
    lemma_pow2_unfold(1075);
    assert((<Binary64 as GeneralFloat>::radix_spec()).mag_scaled() == 0x10_0000_0000_0000 * pow2(1023));
    lemma2_to64();
    lemma2_to64_rest();
}

/// Epsilon is two to the power of minus `52`: the gap from one to the
/// next representable value.
pub proof fn lemma_epsilon_value()
    ensures
        Binary64::eps_spec() == Binary64::two_powi_spec(-52),
        Binary64::eps_spec().scaled() == pow2(1022),
        !Binary64::eps_spec().sign_bit(),
        Binary64::eps_spec().is_finite_spec(),
{
    lemma_pack64(false, 971, 0);
    assert(Binary64 { bits: 0x3CB0_0000_0000_0000 } == pack64(false, 971, 0));
    lemma_pow2_adds(52, 970);
    lemma2_to64();
    lemma2_to64_rest();
}

/// The unit underflow equals the smallest positive value times epsilon,
/// exactly, and sits strictly between zero and the smallest positive
/// value.
pub proof fn lemma_unit_underflow_value()
    ensures
        Binary64::unit_underflow_spec().scaled() * pow2(1074) == Binary64::min_positive_spec().scaled()
            * Binary64::eps_spec().scaled(),
        0 < Binary64::unit_underflow_spec().scaled() < Binary64::min_positive_spec().scaled(),
{
    lemma_pack64(false, 0, 1);
    assert(Binary64 { bits: 0x0000_0001 } == pack64(false, 0, 1));
    lemma_pack64(false, 1, 0);
    assert(Binary64 { bits: 0x0010_0000_0000_0000 } == pack64(false, 1, 0));
    lemma_epsilon_value();
    lemma2_to64();
    lemma2_to64_rest();
    lemma_pow2_adds(52, 1022);
}

/// The absolute value clears the sign and changes nothing else: it is
/// symmetric under negation, and nonnegative on finite values.
pub proof fn lemma_abs_symmetric(x: Binary64)
    ensures
        x.abs_spec() == x.neg_spec().abs_spec(),
        !x.abs_spec().sign_bit(),
        x.abs_spec().biased_exp() == x.biased_exp(),
        x.abs_spec().fraction() == x.fraction(),
        x.is_finite_spec() ==> x.abs_spec().scaled() >= 0,
        x.is_finite_spec() ==> x.abs_spec().scaled() == (if x.scaled() < 0 {
            -x.scaled()
        } else {
            x.scaled()
        }),
{
    lemma_unpack64(x);
    let e = x.biased_exp();
    let f = x.fraction();
    lemma_pack64(false, e, f);
    lemma_pack64(true, e, f);
    assert(x.abs_spec() == pack64(false, e, f));
    assert(x.neg_spec() == pack64(if x.sign_bit() {
        false
    } else {
        true
    }, e, f));
    assert(x.neg_spec().abs_spec() == pack64(false, e, f));
    if e > 0 {
        lemma_pow2_pos((e - 1) as nat);
        assert((f + 0x10_0000_0000_0000) * pow2((e - 1) as nat) >= 0) by (nonlinear_arith)
            requires
                f >= 0,
                pow2((e - 1) as nat) >= 1,
        ;
    }
}

/// The square root is within one epsilon-scaled tolerance of reproducing
/// its argument: the shortfall of its square, relative to the square
/// itself, is under three units in the last place.
pub proof fn lemma_sqrt_within_epsilon(x: Binary64, r: Binary64)
    requires
        !x.sign_bit(),
        x.is_finite_spec(),
        !x.is_zero_spec(),
        x.sqrt_post_spec(r),
    ensures
        r.scaled() * r.scaled() <= x.scaled() * pow2(1074),
        (x.scaled() * pow2(1074) - r.scaled() * r.scaled()) * pow2(52) < 3 * (r.scaled()
            * r.scaled()),
{
    let rs = r.scaled();
    let u = r.ulp_scaled();
    let x2 = x.scaled() * pow2(1074);
    lemma_unpack64(r);
    lemma_pow2_pos((r.biased_exp() - 1) as nat);
    assert(u >= 1);
    assert(pow2(52) == 0x10_0000_0000_0000) by {
        lemma2_to64();
        lemma2_to64_rest();
    };
    assert(u * pow2(52) <= rs) by (nonlinear_arith)
        requires
            rs == (r.fraction() + 0x10_0000_0000_0000) * u,
            r.fraction() >= 0,
            u >= 1,
            pow2(52) == 0x10_0000_0000_0000,
    ;
    assert(u <= rs) by (nonlinear_arith)
        requires
            u * pow2(52) <= rs,
            u >= 1,
            pow2(52) >= 1,
    ;
    assert(x2 - rs * rs < 3 * (rs * u)) by (nonlinear_arith)
        requires
            x2 < (rs + u) * (rs + u),
            1 <= u,
            u <= rs,
    ;
    assert((x2 - rs * rs) * pow2(52) < (3 * (rs * u)) * pow2(52)) by {
        lemma_pow2_pos(52);
        lemma_mul_strict_inequality(x2 - rs * rs, 3 * (rs * u), pow2(52) as int);
    };
    assert((3 * (rs * u)) * pow2(52) <= 3 * (rs * rs)) by (nonlinear_arith)
        requires
            u * pow2(52) <= rs,
            rs >= 1,
    ;
}

/// The radix raised to the smallest normalized exponent is exactly the
/// smallest positive normal value: strictly positive, finite, and no
/// greater than the smallest positive value itself.
pub proof fn lemma_radix_powi_min_exponent()
    ensures
        Binary64::two_powi_spec(<Binary64 as BoundedFloat>::min_exponent_spec())
            == Binary64::min_positive_spec(),
        Binary64::two_powi_spec(<Binary64 as BoundedFloat>::min_exponent_spec()).is_finite_spec(),
        0 < Binary64::two_powi_spec(<Binary64 as BoundedFloat>::min_exponent_spec()).scaled(),
{
    lemma_pack64(false, 1, 0);
    assert(Binary64 { bits: 0x0010_0000_0000_0000 } == pack64(false, 1, 0));
    lemma2_to64();
    lemma2_to64_rest();
}

} // verus!
