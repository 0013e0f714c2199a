//! Exact ratios of integers, the form in which decayed quantities are given.
use vstd::prelude::*;

verus! {

/// The exact quotient of two integers. A zero denominator stands for an
/// undefined quotient, such as the average of no items.
#[derive(Copy, Clone, Debug, PartialEq, Eq, Structural)]
pub struct Ratio {
    negative: bool,
    magnitude: u128,
    denominator: u128,
}

impl Ratio {
    /// The numerator.
    pub closed spec fn num(&self) -> int {
        if self.negative {
            -(self.magnitude as int)
        } else {
            self.magnitude as int
        }
    }

    /// The denominator.
    pub closed spec fn den(&self) -> int {
        self.denominator as int
    }

    /// The ratio `numerator / denominator`.
    pub fn from_signed(numerator: i128, denominator: u128) -> (r: Ratio)
        ensures
            r.num() == numerator,
            r.den() == denominator,
    {
        if numerator < 0 {
            let magnitude: u128 = if numerator == i128::MIN {
                (i128::MAX as u128) + 1
            } else {
                (-numerator) as u128
            };
            Ratio { negative: true, magnitude, denominator }
        } else {
            Ratio { negative: false, magnitude: numerator as u128, denominator }
        }
    }

    /// The ratio `numerator / denominator` of two unsigned integers.
    pub fn from_unsigned(numerator: u128, denominator: u128) -> (r: Ratio)
        ensures
            r.num() == numerator,
            r.den() == denominator,
    {
        Ratio { negative: false, magnitude: numerator, denominator }
    }

    /// Whether the numerator is below zero.
    pub fn is_negative(&self) -> (r: bool)
        ensures
            r == (self.num() < 0),
    {
        self.negative && self.magnitude > 0
    }

    /// The absolute value of the numerator.
    pub fn magnitude(&self) -> (r: u128)
        ensures
            r == (if self.num() < 0 { -self.num() } else { self.num() }),
    {
        self.magnitude
    }

    /// The denominator.
    pub fn denominator(&self) -> (r: u128)
        ensures
            r == self.den(),
    {
        self.denominator
    }
}

/// `a == b` for two ratios, by cross-multiplication.
pub open spec fn ratio_eq(a: (int, int), b: (int, int)) -> bool {
    a.0 * b.1 == b.0 * a.1
}

/// `a <= b` for two ratios with positive denominators.
pub open spec fn ratio_le(a: (int, int), b: (int, int)) -> bool {
    a.0 * b.1 <= b.0 * a.1
}

} // verus!
