//! Why a decode was refused.

use crate::length::LengthBound;
use vstd::prelude::*;

verus! {

/// The ways in which decoding hex text can fail.
#[derive(Debug, Clone, Copy, PartialEq, Eq)]
pub enum FromHexError {
    /// A character that is neither a hex digit nor a blank.
    InvalidHex {
        /// The character found.
        character: char,
        /// Its offset in the text as it was given, marker included.
        index: usize,
    },
    /// The input does not have the length the destination calls for.
    InvalidLength {
        /// The length that was found: digits for text, bytes otherwise.
        observed: usize,
        /// What the destination asked for, in bytes.
        expected: LengthBound,
    },
}

} // verus!
