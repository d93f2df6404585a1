use vstd::prelude::*;

verus! {

/// The number type that an expression graph computes with.
///
/// The graph, its gradients and the networks built on it are generic over
/// this trait: every arithmetic step that the engine performs goes through
/// one of these methods, so an implementation decides how numbers are held
/// and rounded. The methods carry no contract: what the engine states about
/// a computed number, it states as "the result that this method returned on
/// these arguments" (`call_ensures`).
pub trait Scalar: Sized + Copy {
    /// The number equal to the integer `n`.
    fn from_integer(n: i32) -> Self;

    /// The number whose IEEE 754 binary64 encoding is `bits`.
    fn from_bits(bits: u64) -> Self;

    /// `self + rhs`.
    fn plus(&self, rhs: &Self) -> Self;

    /// `self - rhs`.
    fn minus(&self, rhs: &Self) -> Self;

    /// `self * rhs`.
    fn times(&self, rhs: &Self) -> Self;

    /// `-self`.
    fn negated(&self) -> Self;

    /// `self` raised to the power `exponent`.
    fn powf(&self, exponent: &Self) -> Self;

    /// `self` raised to the integer power `exponent`.
    fn powi(&self, exponent: i32) -> Self;

    /// The hyperbolic tangent of `self`.
    fn tanh(&self) -> Self;

    /// `e` raised to the power `self`.
    fn exp(&self) -> Self;

    /// The number written in the shortest form that reads back exactly.
    fn to_text(&self) -> String;

    /// The number written as a debugging aid.
    fn to_debug_text(&self) -> String;

    /// The number written with `decimals` digits after the point.
    fn to_fixed_text(&self, decimals: usize) -> String;

    /// Whether `self == rhs`.
    fn equals(&self, rhs: &Self) -> bool;
}

} // verus!
