//! The arithmetic that the graph is built over.

use vstd::prelude::*;

verus! {

/// A number the engine can compute with.
///
/// Each executable operation is tied to a specification function of the same
/// meaning, and every contract of the engine is stated over those
/// specification functions. The engine therefore promises which operations are
/// applied to which operands and in what order, and leaves the meaning of the
/// operations to the implementor, who gives both halves: what an operation
/// means, and the code that computes it.
pub trait Scalar: Sized {
    /// The additive identity; every gradient starts here.
    spec fn zero_spec() -> Self;

    /// The multiplicative identity; the gradient of a root with respect to itself.
    spec fn one_spec() -> Self;

    /// `self + rhs`.
    spec fn add_spec(self, rhs: Self) -> Self;

    /// `self - rhs`.
    spec fn sub_spec(self, rhs: Self) -> Self;

    /// `self * rhs`.
    spec fn mul_spec(self, rhs: Self) -> Self;

    /// The hyperbolic tangent of `self`.
    spec fn tanh_spec(self) -> Self;

    /// The natural exponential of `self`.
    spec fn exp_spec(self) -> Self;

    /// `self` raised to the power `exponent`.
    spec fn powf_spec(self, exponent: Self) -> Self;

    fn zero() -> (r: Self)
        ensures
            r == Self::zero_spec(),
    ;

    fn one() -> (r: Self)
        ensures
            r == Self::one_spec(),
    ;

    /// A copy of `self`.
    fn dup(&self) -> (r: Self)
        ensures
            r == *self,
    ;

    fn add(&self, rhs: &Self) -> (r: Self)
        ensures
            r == self.add_spec(*rhs),
    ;

    fn sub(&self, rhs: &Self) -> (r: Self)
        ensures
            r == self.sub_spec(*rhs),
    ;

    fn mul(&self, rhs: &Self) -> (r: Self)
        ensures
            r == self.mul_spec(*rhs),
    ;

    fn tanh(&self) -> (r: Self)
        ensures
            r == self.tanh_spec(),
    ;

    fn exp(&self) -> (r: Self)
        ensures
            r == self.exp_spec(),
    ;

    fn powf(&self, exponent: &Self) -> (r: Self)
        ensures
            r == self.powf_spec(*exponent),
    ;
}

/// The constant `-1`, obtained as `0 - 1`.
pub open spec fn minus_one<S: Scalar>() -> S {
    S::zero_spec().sub_spec(S::one_spec())
}

} // verus!
