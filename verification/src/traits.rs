//! The capability-interface hierarchy.
//!
//! Each trait names a set of operations or constants a conformant numeric
//! type supplies, together with `spec` members that state exactly what each
//! operation returns. Higher-level interfaces are derived from lower-level
//! ones by blanket implementations: `GeneralFloat` from `BinaryFloat`, and
//! `Overflow` from `Infinite`, so a conformant type never restates a derived
//! property by hand.

use vstd::prelude::*;

verus! {

/// The arithmetic core a conformant numeric type must supply: the constants
/// zero and one, and addition on the pairs of values for which the type
/// defines it exactly. The radix derivation in [`GeneralFloat`] needs only
/// the sum one plus one, which every conformant type must define
/// ([`NumCore::lemma_one_sum_one`]).
pub trait NumCore: Sized {
    /// The value the type uses for zero.
    spec fn zero_spec() -> Self;

    /// The value the type uses for one.
    spec fn one_spec() -> Self;

    /// The pairs of values on which the type defines addition exactly.
    spec fn sum_ok(a: Self, b: Self) -> bool;

    /// The exact sum of a pair admitted by [`NumCore::sum_ok`].
    spec fn sum_spec(a: Self, b: Self) -> Self;

    /// Every conformant type defines the sum one plus one.
    proof fn lemma_one_sum_one()
        ensures
            Self::sum_ok(Self::one_spec(), Self::one_spec()),
    ;

    fn zero() -> (r: Self)
        ensures
            r == Self::zero_spec(),
    ;

    fn one() -> (r: Self)
        ensures
            r == Self::one_spec(),
    ;

    fn sum(a: Self, b: Self) -> (r: Self)
        requires
            Self::sum_ok(a, b),
        ensures
            r == Self::sum_spec(a, b),
    ;
}

/// Absolute value: one of the two elementary unary operations. The result
/// type is left to the implementation, and [`Abs::abs_spec`] pins the result
/// exactly.
pub trait Abs: Sized {
    type Output;

    /// The exact result of [`Abs::abs`].
    spec fn abs_spec(self) -> Self::Output;

    fn abs(self) -> (r: Self::Output)
        ensures
            r == self.abs_spec(),
    ;
}

/// Square root: the other elementary unary operation. What the result must
/// satisfy is the implementation's [`Sqrt::sqrt_post`], which pins it for
/// every input; negative inputs resolve to NaN, never to an error.
pub trait Sqrt: Sized {
    type Output;

    /// Exactly the results [`Sqrt::sqrt`] may return on `self`.
    spec fn sqrt_post(self, r: Self::Output) -> bool;

    fn sqrt(self) -> (r: Self::Output)
        ensures
            self.sqrt_post(r),
    ;
}

/// Negation, the unary sign flip, with its exact result.
pub trait Negate: Sized {
    type Output;

    /// The exact result of [`Negate::neg`].
    spec fn neg_spec(self) -> Self::Output;

    fn neg(self) -> (r: Self::Output)
        ensures
            r == self.neg_spec(),
    ;
}

/// The raw binary-format facts of a floating-point type: its significand
/// bit count, its machine epsilon, and two raised to an integer power, each
/// pinned by a `spec` member. `Expo` is the type's associated integer
/// exponent type, read through [`BinaryFloat::expo_int`].
pub trait BinaryFloat: NumCore {
    type Expo;

    /// The integer a value of the exponent type stands for.
    spec fn expo_int(e: Self::Expo) -> int;

    /// The number of significand bits, the implicit leading bit included.
    spec fn bits_spec() -> int;

    /// The machine epsilon: the smallest value distinguishable from zero
    /// when added to one.
    spec fn eps_spec() -> Self;

    /// The exact value of two raised to the power `p`, saturated to the
    /// format's range.
    spec fn two_powi_spec(p: int) -> Self;

    fn bits() -> (r: Self::Expo)
        ensures
            Self::expo_int(r) == Self::bits_spec(),
    ;

    fn eps() -> (r: Self)
        ensures
            r == Self::eps_spec(),
    ;

    fn two_powi(p: Self::Expo) -> (r: Self)
        ensures
            r == Self::two_powi_spec(Self::expo_int(p)),
    ;
}

/// The derived view of a format's properties: the radix itself, plus the
/// bit count, epsilon and power function forwarded from [`BinaryFloat`].
/// No type implements this trait by hand; the blanket implementation below
/// derives it for every [`BinaryFloat`], with the radix computed as one
/// plus one in the type's own arithmetic.
pub trait GeneralFloat: NumCore {
    type Exponent;

    /// The integer a value of the exponent type stands for.
    spec fn exponent_int(e: Self::Exponent) -> int;

    /// The exact value [`GeneralFloat::radix`] returns.
    spec fn radix_spec() -> Self;

    /// The number of significand bits.
    spec fn bit_size_spec() -> int;

    /// The machine epsilon.
    spec fn epsilon_spec() -> Self;

    /// The exact value of the radix raised to the power `p`.
    spec fn radix_powi_spec(p: int) -> Self;

    fn radix() -> (r: Self)
        ensures
            r == Self::radix_spec(),
    ;

    fn bit_size() -> (r: Self::Exponent)
        ensures
            Self::exponent_int(r) == Self::bit_size_spec(),
    ;

    fn epsilon() -> (r: Self)
        ensures
            r == Self::epsilon_spec(),
    ;

    fn radix_powi(p: Self::Exponent) -> (r: Self)
        ensures
            r == Self::radix_powi_spec(Self::exponent_int(p)),
    ;
}

impl<T: BinaryFloat> GeneralFloat for T {
    type Exponent = T::Expo;

    open spec fn exponent_int(e: T::Expo) -> int {
        T::expo_int(e)
    }

    open spec fn radix_spec() -> T {
        T::sum_spec(T::one_spec(), T::one_spec())
    }

    open spec fn bit_size_spec() -> int {
        T::bits_spec()
    }

    open spec fn epsilon_spec() -> T {
        T::eps_spec()
    }

    open spec fn radix_powi_spec(p: int) -> T {
        T::two_powi_spec(p)
    }

    fn radix() -> T {
        proof {
            T::lemma_one_sum_one();
        }
        T::sum(T::one(), T::one())
    }

    fn bit_size() -> T::Expo {
        T::bits()
    }

    fn epsilon() -> T {
        T::eps()
    }

    fn radix_powi(p: T::Expo) -> T {
        T::two_powi(p)
    }
}

/// The inclusive bounds of the format's normalized binary exponents, as
/// format constants of each conformant type.
pub trait BoundedFloat: GeneralFloat {
    /// The largest normalized binary exponent.
    spec fn max_exponent_spec() -> int;

    /// The smallest normalized binary exponent.
    spec fn min_exponent_spec() -> int;

    fn max_exponent() -> (r: Self::Exponent)
        ensures
            Self::exponent_int(r) == Self::max_exponent_spec(),
    ;

    fn min_exponent() -> (r: Self::Exponent)
        ensures
            Self::exponent_int(r) == Self::min_exponent_spec(),
    ;
}

/// The two signed infinities and the predicate that recognizes them. Every
/// conformant type must place the two infinities inside the predicate and
/// zero outside it ([`Infinite::lemma_infinite_specials`]).
pub trait Infinite: NumCore {
    /// The value of positive infinity.
    spec fn infinity_spec() -> Self;

    /// The value of negative infinity.
    spec fn neg_infinity_spec() -> Self;

    /// Whether a value is one of the two infinities.
    spec fn is_infinite_spec(&self) -> bool;

    /// The infinity predicate holds of both infinities and not of zero.
    proof fn lemma_infinite_specials()
        ensures
            Self::infinity_spec().is_infinite_spec(),
            Self::neg_infinity_spec().is_infinite_spec(),
            !Self::zero_spec().is_infinite_spec(),
    ;

    fn infinity() -> (r: Self)
        ensures
            r == Self::infinity_spec(),
    ;

    fn neg_infinity() -> (r: Self)
        ensures
            r == Self::neg_infinity_spec(),
    ;

    fn is_infinite(&self) -> (r: bool)
        ensures
            r == self.is_infinite_spec(),
    ;
}

/// Saturation on overflow. No type implements this trait by hand: the
/// blanket implementation below derives it for every [`Infinite`] type, so
/// the overflow value is identically positive infinity and the
/// negative-overflow value identically negative infinity.
pub trait Overflow: NumCore {
    /// The exact value [`Overflow::overflow`] returns.
    spec fn overflow_spec() -> Self;

    /// The exact value [`Overflow::neg_overflow`] returns.
    spec fn neg_overflow_spec() -> Self;

    fn overflow() -> (r: Self)
        ensures
            r == Self::overflow_spec(),
    ;

    fn neg_overflow() -> (r: Self)
        ensures
            r == Self::neg_overflow_spec(),
    ;
}

impl<T: Infinite> Overflow for T {
    open spec fn overflow_spec() -> T {
        T::infinity_spec()
    }

    open spec fn neg_overflow_spec() -> T {
        T::neg_infinity_spec()
    }

    fn overflow() -> T {
        T::infinity()
    }

    fn neg_overflow() -> T {
        T::neg_infinity()
    }
}

/// The format's floor near zero: its smallest positive representable value,
/// and the unit underflow, that value multiplied by epsilon.
pub trait Underflow: NumCore {
    /// The smallest positive representable value.
    spec fn min_positive_spec() -> Self;

    /// The smallest positive value times epsilon.
    spec fn unit_underflow_spec() -> Self;

    fn min_positive() -> (r: Self)
        ensures
            r == Self::min_positive_spec(),
    ;

    fn unit_underflow() -> (r: Self)
        ensures
            r == Self::unit_underflow_spec(),
    ;
}

/// The umbrella contract a complete IEEE-754 binary float satisfies: the
/// elementary operations with self-typed output, negation, the raw and
/// bounded format properties, the special values, the underflow floor, and
/// a NaN constructor, the one member with no derivation.
pub trait IEEE754Float: Abs<Output = Self> + Sqrt<Output = Self> + Negate<
    Output = Self,
> + BinaryFloat + BoundedFloat + Infinite + Underflow {
    /// The value [`IEEE754Float::nan`] returns.
    spec fn nan_spec() -> Self;

    /// NaN is not an infinity.
    proof fn lemma_nan_not_infinite()
        ensures
            !Self::nan_spec().is_infinite_spec(),
    ;

    fn nan() -> (r: Self)
        ensures
            r == Self::nan_spec(),
    ;
}

/// The radix every derived view reports is one plus one in the type's own
/// arithmetic, for every conformant type.
pub proof fn lemma_radix_is_one_plus_one<T: BinaryFloat>()
    ensures
        <T as GeneralFloat>::radix_spec() == T::sum_spec(T::one_spec(), T::one_spec()),
{
}

/// Overflow saturates to positive infinity and negative overflow to
/// negative infinity, identically, for every conformant type: the two
/// members of [`Overflow`] cannot drift from the infinities of
/// [`Infinite`].
pub proof fn lemma_overflow_saturates<T: Infinite>()
    ensures
        <T as Overflow>::overflow_spec() == T::infinity_spec(),
        <T as Overflow>::neg_overflow_spec() == T::neg_infinity_spec(),
{
}

/// The constant-returning members are pure: each member's contract pins a
/// single value of the type, so two results of the same member — here
/// assumed only to meet that member's `ensures` — are identical, with no
/// hidden state to drift between calls.
pub proof fn lemma_constant_members_pure<T: IEEE754Float>(
    inf1: T,
    inf2: T,
    nan1: T,
    nan2: T,
    eps1: T,
    eps2: T,
    min1: T,
    min2: T,
    unit1: T,
    unit2: T,
)
    requires
        inf1 == T::infinity_spec(),
        inf2 == T::infinity_spec(),
        nan1 == T::nan_spec(),
        nan2 == T::nan_spec(),
        eps1 == T::eps_spec(),
        eps2 == T::eps_spec(),
        min1 == T::min_positive_spec(),
        min2 == T::min_positive_spec(),
        unit1 == T::unit_underflow_spec(),
        unit2 == T::unit_underflow_spec(),
    ensures
        inf1 == inf2,
        nan1 == nan2,
        eps1 == eps2,
        min1 == min2,
        unit1 == unit2,
{
}

} // verus!
