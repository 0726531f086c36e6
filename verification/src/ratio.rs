use vstd::prelude::*;

verus! {

/// A non-negative rational number, written as a numerator over a denominator.
///
/// This is the mathematical value that a [`Ratio`] stands for. It denotes a
/// number only where its denominator is positive.
pub struct Quotient {
    pub num: nat,
    pub den: nat,
}

impl Quotient {
    /// The quotient denotes a number in the closed interval from zero to one.
    pub open spec fn is_probability(self) -> bool {
        self.den > 0 && self.num <= self.den
    }

    /// The quotient denotes exactly zero.
    pub open spec fn is_zero(self) -> bool {
        self.den > 0 && self.num == 0
    }

    /// Both quotients denote the same number.
    pub open spec fn same_value(self, other: Quotient) -> bool {
        self.den > 0 && other.den > 0 && self.num * other.den == other.num * self.den
    }

    /// `self` denotes a strictly smaller number than `other`.
    pub open spec fn less_than(self, other: Quotient) -> bool {
        self.den > 0 && other.den > 0 && self.num * other.den < other.num * self.den
    }

    /// Numerator and denominator can both be held in 128 bits.
    pub open spec fn fits(self) -> bool {
        self.num <= u128::MAX && self.den <= u128::MAX
    }
}

/// An exact non-negative fraction `num / den`.
///
/// Estimators return their probabilities in this form, so that every result
/// is an exact rational number rather than a rounded one. The fraction is
/// not reduced.
#[derive(Clone, Copy, Debug, PartialEq, Eq, Structural)]
pub struct Ratio {
    pub num: u128,
    pub den: u128,
}

impl View for Ratio {
    type V = Quotient;

    open spec fn view(&self) -> Quotient {
        Quotient { num: self.num as nat, den: self.den as nat }
    }
}

/// A smoothing parameter given as the exact fraction `num / den`.
///
/// The numerator is signed so that out-of-range settings can be written down
/// and rejected by the estimator that receives them.
#[derive(Clone, Copy, Debug, PartialEq, Eq, Structural)]
pub struct Fraction {
    pub num: i32,
    pub den: u32,
}

impl Fraction {
    /// The fraction denotes a number strictly greater than zero.
    pub open spec fn is_positive(self) -> bool {
        self.den > 0 && self.num > 0
    }

    /// The fraction denotes a number strictly between zero and one.
    pub open spec fn is_proper(self) -> bool {
        self.den > 0 && 0 < self.num < self.den
    }

    /// Whether the fraction denotes a number strictly greater than zero.
    pub fn positive(&self) -> (b: bool)
        ensures
            b == self.is_positive(),
    {
        self.den > 0 && self.num > 0
    }

    /// Whether the fraction denotes a number strictly between zero and one.
    pub fn proper(&self) -> (b: bool)
        ensures
            b == self.is_proper(),
    {
        self.num > 0 && (self.num as u32) < self.den
    }
}

} // verus!
