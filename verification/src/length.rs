//! Length demands placed on a decode destination.

use vstd::prelude::*;

verus! {

/// How many bytes a bounded decode may deliver.
#[derive(Debug, Clone, Copy, PartialEq, Eq)]
pub enum LengthBound {
    /// Exactly this many bytes.
    Exact(usize),
    /// More than the first number and at most the second.
    Between(usize, usize),
}

impl LengthBound {
    /// The largest byte count the bound lets through.
    pub open spec fn capacity(self) -> nat {
        match self {
            LengthBound::Exact(capacity) => capacity as nat,
            LengthBound::Between(_, capacity) => capacity as nat,
        }
    }

    /// Whether a buffer of `count` bytes meets the bound.
    pub open spec fn admits_bytes(self, count: int) -> bool {
        match self {
            LengthBound::Exact(capacity) => count == capacity,
            LengthBound::Between(min, capacity) => min < count <= capacity,
        }
    }

    /// Whether text of `count` hex digits meets the bound, two digits to
    /// the byte.
    pub open spec fn admits_digits(self, count: int) -> bool {
        match self {
            LengthBound::Exact(capacity) => count == 2 * capacity,
            LengthBound::Between(min, capacity) => 2 * min < count <= 2 * capacity,
        }
    }
}

/// A destination for a bounded decode, together with the number of bytes
/// it is to receive.
#[derive(Debug, PartialEq, Eq)]
pub enum ExpectedLen<'a> {
    /// The destination is to be filled exactly.
    Exact(&'a mut [u8]),
    /// The destination is to receive more bytes than the number given, and
    /// no more than it can hold.
    Between(usize, &'a mut [u8]),
}

impl<'a> ExpectedLen<'a> {
    /// The destination.
    pub open spec fn buffer(self) -> &'a mut [u8] {
        match self {
            ExpectedLen::Exact(slice) => slice,
            ExpectedLen::Between(_, slice) => slice,
        }
    }

    /// The demand on the length, in numbers.
    pub open spec fn spec_bound(&self) -> LengthBound {
        match self {
            ExpectedLen::Exact(slice) => LengthBound::Exact(slice@.len() as usize),
            ExpectedLen::Between(min, slice) => LengthBound::Between(*min, slice@.len() as usize),
        }
    }

    /// The demand on the length, in numbers.
    #[verifier::when_used_as_spec(spec_bound)]
    pub fn bound(&self) -> (b: LengthBound)
        ensures
            b == self.spec_bound(),
    {
        match self {
            ExpectedLen::Exact(slice) => LengthBound::Exact(slice.len()),
            ExpectedLen::Between(min, slice) => LengthBound::Between(*min, slice.len()),
        }
    }

    /// Gives up the demand and keeps the destination.
    pub fn into_buffer(self) -> (slice: &'a mut [u8])
        ensures
            slice@ == self.buffer()@,
            final(slice)@ == final(self.buffer())@,
    {
        match self {
            ExpectedLen::Exact(slice) => slice,
            ExpectedLen::Between(_, slice) => slice,
        }
    }
}

} // verus!
