//! The arithmetic the engine computes with.

use vstd::prelude::*;

verus! {

/// The scalar that activations, weights and derivatives are made of.
///
/// The engine only moves these values and combines them through the methods
/// below. Each method's result is named by a spec function of the
/// implementation, so the engine's contracts can state exactly which
/// combination of values each result is. Callers supply the implementation
/// (for instance IEEE `f64` arithmetic).
pub trait Scalar: Copy + Sized {
    /// The value `zero` returns.
    spec fn spec_zero() -> Self;

    /// The value `one` returns.
    spec fn spec_one() -> Self;

    /// The value `plus` returns.
    spec fn spec_plus(self, other: Self) -> Self;

    /// The value `minus` returns.
    spec fn spec_minus(self, other: Self) -> Self;

    /// The value `times` returns.
    spec fn spec_times(self, other: Self) -> Self;

    /// The value `logistic` returns.
    spec fn spec_logistic(self) -> Self;

    /// The additive identity.
    fn zero() -> (r: Self)
        ensures
            r == Self::spec_zero(),
    ;

    /// The multiplicative identity.
    fn one() -> (r: Self)
        ensures
            r == Self::spec_one(),
    ;

    /// `self + other`.
    fn plus(self, other: Self) -> (r: Self)
        ensures
            r == self.spec_plus(other),
    ;

    /// `self - other`.
    fn minus(self, other: Self) -> (r: Self)
        ensures
            r == self.spec_minus(other),
    ;

    /// `self * other`.
    fn times(self, other: Self) -> (r: Self)
        ensures
            r == self.spec_times(other),
    ;

    /// The logistic function `1 / (1 + e^-self)`.
    fn logistic(self) -> (r: Self)
        ensures
            r == self.spec_logistic(),
    ;
}

} // verus!
