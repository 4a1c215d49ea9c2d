//! Quantities and prices as the engine carries them.
//!
//! The engine never does arithmetic on a quantity or a price. It asks whether
//! one is greater than zero, or at most zero, and otherwise hands it on
//! untouched to whoever multiplies. So a number travels through the engine as
//! the 64 bits of its IEEE 754 binary64 encoding, and the two questions are
//! answered on those bits: sign in the top bit, then eleven bits of exponent,
//! then the fraction. The encodings above `INFINITY_BITS` with a clear sign
//! bit, and above `NEGATIVE_INFINITY_BITS` with a set one, are not numbers;
//! neither question holds of them.

use vstd::prelude::*;

verus! {

/// Encoding of positive infinity: the largest encoding of a positive number.
pub const INFINITY_BITS: u64 = 0x7FF0_0000_0000_0000;

/// Encoding of negative zero: the sign bit alone.
pub const NEGATIVE_ZERO_BITS: u64 = 0x8000_0000_0000_0000;

/// Encoding of negative infinity: the largest encoding of a negative number.
pub const NEGATIVE_INFINITY_BITS: u64 = 0xFFF0_0000_0000_0000;

/// A quantity or a price, by the bits of its binary64 encoding.
#[derive(Clone, Copy, Debug, PartialEq, Eq, Structural)]
pub struct Amount {
    pub bits: u64,
}

impl Amount {
    /// The number is strictly greater than zero (positive infinity counts).
    pub open spec fn positive(self) -> bool {
        0 < self.bits <= INFINITY_BITS
    }

    /// The number is zero, of either sign, or less than zero.
    pub open spec fn at_most_zero(self) -> bool {
        self.bits == 0 || NEGATIVE_ZERO_BITS <= self.bits <= NEGATIVE_INFINITY_BITS
    }

    /// The amount with the given encoding.
    pub fn from_bits(bits: u64) -> (amount: Amount)
        ensures
            amount.bits == bits,
    {
        Amount { bits }
    }

    /// The encoding of the amount.
    pub fn to_bits(&self) -> (bits: u64)
        ensures
            bits == self.bits,
    {
        self.bits
    }

    /// Tests `positive`.
    pub fn is_positive(&self) -> (r: bool)
        ensures
            r == self.positive(),
    {
        0 < self.bits && self.bits <= INFINITY_BITS
    }

    /// Tests `at_most_zero`.
    pub fn is_at_most_zero(&self) -> (r: bool)
        ensures
            r == self.at_most_zero(),
    {
        self.bits == 0 || (NEGATIVE_ZERO_BITS <= self.bits && self.bits <= NEGATIVE_INFINITY_BITS)
    }
}

} // verus!
