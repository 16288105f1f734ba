//! A scalar that records what was computed instead of computing it.

use vstd::prelude::*;
use crate::scalar::Scalar;

verus! {

/// An arithmetic expression over named inputs.
///
/// As a scalar, each operation builds the expression that stands for its
/// result. A graph over formulas therefore holds, after a backward pass, every
/// gradient written out in terms of the inputs: exactly the operations that the
/// engine applies, in the order in which it applies them.
#[derive(PartialEq, Eq, Debug)]
pub enum Formula {
    Zero,
    One,
    /// An input, told apart from the others by its number.
    Input(u32),
    Sum(Box<Formula>, Box<Formula>),
    Difference(Box<Formula>, Box<Formula>),
    Product(Box<Formula>, Box<Formula>),
    Tanh(Box<Formula>),
    Exp(Box<Formula>),
    Power(Box<Formula>, Box<Formula>),
}

impl Formula {
    /// A copy of the whole expression.
    pub fn copy(&self) -> (r: Formula)
        ensures
            r == *self,
        decreases self,
    {
        match self {
            Formula::Zero => Formula::Zero,
            Formula::One => Formula::One,
            Formula::Input(n) => Formula::Input(*n),
            Formula::Sum(a, b) => Formula::Sum(Box::new(a.copy()), Box::new(b.copy())),
            Formula::Difference(a, b) => Formula::Difference(
                Box::new(a.copy()),
                Box::new(b.copy()),
            ),
            Formula::Product(a, b) => Formula::Product(Box::new(a.copy()), Box::new(b.copy())),
            Formula::Tanh(a) => Formula::Tanh(Box::new(a.copy())),
            Formula::Exp(a) => Formula::Exp(Box::new(a.copy())),
            Formula::Power(a, b) => Formula::Power(Box::new(a.copy()), Box::new(b.copy())),
        }
    }
}

impl Scalar for Formula {
    open spec fn zero_spec() -> Self {
        Formula::Zero
    }

    open spec fn one_spec() -> Self {
        Formula::One
    }

    open spec fn add_spec(self, rhs: Self) -> Self {
        Formula::Sum(Box::new(self), Box::new(rhs))
    }

    open spec fn sub_spec(self, rhs: Self) -> Self {
        Formula::Difference(Box::new(self), Box::new(rhs))
    }

    open spec fn mul_spec(self, rhs: Self) -> Self {
        Formula::Product(Box::new(self), Box::new(rhs))
    }

    open spec fn tanh_spec(self) -> Self {
        Formula::Tanh(Box::new(self))
    }

    open spec fn exp_spec(self) -> Self {
        Formula::Exp(Box::new(self))
    }

    open spec fn powf_spec(self, exponent: Self) -> Self {
        Formula::Power(Box::new(self), Box::new(exponent))
    }

    fn zero() -> (r: Self) {
        Formula::Zero
    }

    fn one() -> (r: Self) {
        Formula::One
    }

    fn dup(&self) -> (r: Self) {
        self.copy()
    }

    fn add(&self, rhs: &Self) -> (r: Self) {
        Formula::Sum(Box::new(self.copy()), Box::new(rhs.copy()))
    }

    fn sub(&self, rhs: &Self) -> (r: Self) {
        Formula::Difference(Box::new(self.copy()), Box::new(rhs.copy()))
    }

    fn mul(&self, rhs: &Self) -> (r: Self) {
        Formula::Product(Box::new(self.copy()), Box::new(rhs.copy()))
    }

    fn tanh(&self) -> (r: Self) {
        Formula::Tanh(Box::new(self.copy()))
    }

    fn exp(&self) -> (r: Self) {
        Formula::Exp(Box::new(self.copy()))
    }

    fn powf(&self, exponent: &Self) -> (r: Self) {
        Formula::Power(Box::new(self.copy()), Box::new(exponent.copy()))
    }
}

} // verus!
