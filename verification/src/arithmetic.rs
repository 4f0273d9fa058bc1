//! The floating-point operations that the resamplers are built from.

use vstd::prelude::*;

use crate::double::Double;

verus! {

/// The arithmetic of samples and positions, supplied by the program that uses the library:
/// single operations of a floating-point unit, each rounded as it rounds.
///
/// No method carries a postcondition, so nothing is taken on trust of an implementation: the
/// resamplers state which operation produced each value, on which operands, and what they
/// decide from results holds whatever an implementation returns.
pub trait Arithmetic {
    /// One sample of one channel.
    type Sample: Copy + Send;

    /// `a + b`.
    fn sum(a: Double, b: Double) -> Double;

    /// `a - b`.
    fn difference(a: Double, b: Double) -> Double;

    /// `a * b`.
    fn product(a: Double, b: Double) -> Double;

    /// `a / b`.
    fn quotient(a: Double, b: Double) -> Double;

    /// The sine of an angle in radians.
    fn sine(angle: Double) -> Double;

    /// The cosine of an angle in radians.
    fn cosine(angle: Double) -> Double;

    /// A count as a number.
    fn of_count(count: u64) -> Double;

    /// A frame index as a number.
    fn of_frame(frame: i64) -> Double;

    /// A number rounded to a sample.
    fn narrow(number: Double) -> Self::Sample;

    /// The sample of a silent signal, `0`.
    fn silence() -> Self::Sample;

    /// `a + b`.
    fn sample_sum(a: Self::Sample, b: Self::Sample) -> Self::Sample;

    /// `a - b`.
    fn sample_difference(a: Self::Sample, b: Self::Sample) -> Self::Sample;

    /// `a * b`.
    fn sample_product(a: Self::Sample, b: Self::Sample) -> Self::Sample;
}

} // verus!
