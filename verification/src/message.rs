//! Errors and length demands in words.

use crate::error::FromHexError;
use crate::length::{ExpectedLen, LengthBound};
use vstd::prelude::*;
use vstd::string::StringExecFns;

verus! {

/// `String::push` puts one character at the end of the string and leaves
/// the rest as it was.
pub assume_specification[ String::push ](s: &mut String, ch: char)
    ensures
        final(s)@ == old(s)@.push(ch),
;

/// The character for a decimal digit.
pub open spec fn digit_char(d: nat) -> char
    recommends
        d < 10,
{
    ((0x30 + d) as u8) as char
}

/// A number in decimal, without leading zeros.
pub open spec fn decimal(n: nat) -> Seq<char>
    decreases n,
{
    if n < 10 {
        seq![digit_char(n)]
    } else {
        decimal(n / 10).push(digit_char(n % 10))
    }
}

/// Writes a number in decimal at the end of a string.
pub fn push_decimal(s: &mut String, n: usize)
    ensures
        final(s)@ == old(s)@ + decimal(n as nat),
    decreases n,
{
    if n >= 10 {
        push_decimal(s, n / 10);
    }
    let digit: u8 = (n % 10) as u8;
    s.push((0x30 + digit) as char);
    proof {
        assert(s@ =~= old(s)@ + decimal(n as nat));
    }
}

impl LengthBound {
    /// The bound in words: `N bytes`, or `between (MIN; MAX] bytes`.
    pub open spec fn message(self) -> Seq<char> {
        match self {
            LengthBound::Exact(capacity) => decimal(capacity as nat) + " bytes"@,
            LengthBound::Between(min, capacity) => "between ("@ + decimal(min as nat) + "; "@
                + decimal(capacity as nat) + "] bytes"@,
        }
    }

    /// Writes the bound in words at the end of a string.
    pub fn write_to(&self, s: &mut String)
        ensures
            final(s)@ == old(s)@ + self.message(),
    {
        match self {
            LengthBound::Exact(capacity) => {
                push_decimal(s, *capacity);
                s.append(" bytes");
            },
            LengthBound::Between(min, capacity) => {
                s.append("between (");
                push_decimal(s, *min);
                s.append("; ");
                push_decimal(s, *capacity);
                s.append("] bytes");
            },
        }
        proof {
            assert(s@ =~= old(s)@ + self.message());
        }
    }

    /// The bound in words.
    pub fn to_string(&self) -> (r: String)
        ensures
            r@ == self.message(),
    {
        let mut s = String::new();
        self.write_to(&mut s);
        proof {
            assert(s@ =~= self.message());
        }
        s
    }
}

impl<'a> ExpectedLen<'a> {
    /// The demand in words, as its bound has it.
    pub fn to_string(&self) -> (r: String)
        ensures
            r@ == self.bound().message(),
    {
        self.bound().to_string()
    }
}

impl FromHexError {
    /// The error in words.
    pub open spec fn message(self) -> Seq<char> {
        match self {
            FromHexError::InvalidHex { character, index } => "invalid hex character: "@.push(
                character,
            ) + ", at "@ + decimal(index as nat),
            FromHexError::InvalidLength { observed, expected } => "invalid length "@ + decimal(
                observed as nat,
            ) + ", expected "@ + expected.message(),
        }
    }

    /// The error in words.
    pub fn to_string(&self) -> (r: String)
        ensures
            r@ == self.message(),
    {
        let mut s = String::new();
        match self {
            FromHexError::InvalidHex { character, index } => {
                s.append("invalid hex character: ");
                s.push(*character);
                s.append(", at ");
                push_decimal(&mut s, *index);
            },
            FromHexError::InvalidLength { observed, expected } => {
                s.append("invalid length ");
                push_decimal(&mut s, *observed);
                s.append(", expected ");
                expected.write_to(&mut s);
            },
        }
        proof {
            assert(s@ =~= self.message());
        }
        s
    }
}

} // verus!
