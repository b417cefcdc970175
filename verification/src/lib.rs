//! Capability interfaces for querying the IEEE-754 properties of a binary
//! floating-point format — radix, exponent range, machine epsilon, the two
//! infinities, NaN, and the smallest representable magnitudes — through a
//! uniform, layered set of traits rather than through type-specific
//! constants.
//!
//! A format's values are carried as their raw bit patterns (`Binary32`,
//! `Binary64`), so every property and operation is stated and proved over
//! plain integers: each value has an exact scaled integer magnitude, and the
//! contracts of `abs`, `sqrt`, `radix_powi` and the constant-returning
//! members pin their results against that model.

pub mod binary32;
pub mod binary64;
mod sqrtcore;
pub mod traits;
