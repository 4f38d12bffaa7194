//! ASCII digits, digit runs and their classification by width.

use vstd::prelude::*;

verus! {

/// Number of digits in a second-precision epoch timestamp.
pub const DIGITS_IN_EPOCH_SECOND_TIMESTAMP: usize = 10;

/// Number of digits in a millisecond-precision epoch timestamp.
pub const DIGITS_IN_EPOCH_MILLISECOND_TIMESTAMP: usize = 13;

/// What the width of a digit run says about it.
#[derive(Clone, Copy, Debug, PartialEq, Eq, Structural)]
pub enum RunClass {
    /// Exactly ten digits: seconds since the epoch.
    SecondPrecision,
    /// Exactly thirteen digits: milliseconds since the epoch.
    MillisecondPrecision,
    /// Any other width: ordinary text.
    NotATimestamp,
}

/// Whether `b` is one of the bytes `'0'` to `'9'`.
pub open spec fn is_digit(b: u8) -> bool {
    48 <= b <= 57
}

/// Whether every byte of `s` is an ASCII digit.
pub open spec fn all_digits(s: Seq<u8>) -> bool {
    forall|i: int| 0 <= i < s.len() ==> is_digit(#[trigger] s[i])
}

/// The class of a digit run that is `width` bytes long.
pub open spec fn class_of_width(width: nat) -> RunClass {
    if width == 10 {
        RunClass::SecondPrecision
    } else if width == 13 {
        RunClass::MillisecondPrecision
    } else {
        RunClass::NotATimestamp
    }
}

/// The number that the decimal digits of `s` denote, most significant first.
pub open spec fn decimal_value(s: Seq<u8>) -> nat
    decreases s.len(),
{
    if s.len() == 0 {
        0
    } else {
        (10 * decimal_value(s.drop_last()) + (s.last() - 48)) as nat
    }
}

/// Tests a byte for being an ASCII digit.
pub fn is_ascii_digit(b: u8) -> (r: bool)
    ensures
        r == is_digit(b),
{
    48 <= b && b <= 57
}

/// Classifies a digit run by its width alone.
pub fn classify(width: usize) -> (class: RunClass)
    ensures
        class == class_of_width(width as nat),
{
    if width == DIGITS_IN_EPOCH_SECOND_TIMESTAMP {
        RunClass::SecondPrecision
    } else if width == DIGITS_IN_EPOCH_MILLISECOND_TIMESTAMP {
        RunClass::MillisecondPrecision
    } else {
        RunClass::NotATimestamp
    }
}

} // verus!
