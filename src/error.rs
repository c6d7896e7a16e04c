//! Errors of parsing a padded number.
use vstd::prelude::*;

verus! {

/// Why the digits of a padded number could not be read as a number.
#[derive(Debug, Clone, Copy, PartialEq, Eq, Structural)]
pub enum InvalidNumberKind {
    /// A character is not an ASCII digit `'0'` to `'9'`.
    InvalidDigit,
    /// The digits are all valid but their value does not fit in a `u64`.
    PosOverflow,
}

/// Error originating from `PaddedNumber::try_new` and `parse`.
#[derive(Debug, Clone, Copy, PartialEq, Eq, Structural)]
pub enum ParsePaddedNumberError {
    /// Too few digits: the minimum length, then the length received.
    TooShort(u8, u8),
    /// Too many digits: the maximum length, then the length received.
    TooLong(u8, u8),
    /// The text is not a number of ASCII digits that fits in a `u64`.
    InvalidNumber(InvalidNumberKind),
}

} // verus!
