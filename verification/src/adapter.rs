//! One decode for every shape the input may arrive in.
//!
//! A byte buffer may come as hex text, as bytes that are borrowed or owned,
//! as a sequence of single bytes, or as any of these behind a wrapper. Text
//! is decoded; bytes are taken as they are. The bounded decode writes into
//! a destination and first holds the length of the input against what the
//! destination calls for.

use crate::decode::{
    body, count_digits, decoded, digit_count, from_hex, from_hex_raw, has_prefix, lemma_written_len,
    raw_result, strip_marker, written,
};
use crate::error::FromHexError;
use crate::length::{ExpectedLen, LengthBound};
use vstd::prelude::*;
use vstd::slice::slice_to_vec;
use vstd::string::StringSliceAdditionalSpecFns;

verus! {

/// The shapes in which a byte buffer may arrive.
#[derive(Debug)]
pub enum Representation<'a> {
    /// Hex text.
    Text(&'a str),
    /// The bytes themselves, lent.
    BorrowedBytes(&'a [u8]),
    /// The bytes themselves, handed over.
    OwnedBytes(Vec<u8>),
    /// The bytes themselves, to be taken one after the other.
    ElementSequence(Vec<u8>),
    /// Another representation behind one level of wrapping.
    Wrapped(Box<Representation<'a>>),
}

/// What a representation holds once wrappers are taken off: text to be
/// decoded, or bytes.
pub enum Content {
    /// The bytes of hex text.
    Text(Seq<u8>),
    /// The bytes of the buffer itself.
    Bytes(Seq<u8>),
}

impl<'a> Representation<'a> {
    /// What the representation holds once wrappers are taken off.
    pub open spec fn content(&self) -> Content
        decreases self,
    {
        match self {
            Representation::Text(v) => Content::Text(v.spec_bytes()),
            Representation::BorrowedBytes(v) => Content::Bytes(v@),
            Representation::OwnedBytes(v) => Content::Bytes(v@),
            Representation::ElementSequence(v) => Content::Bytes(v@),
            Representation::Wrapped(inner) => inner.content(),
        }
    }
}

impl<'a> View for Representation<'a> {
    type V = Content;

    open spec fn view(&self) -> Content {
        self.content()
    }
}

impl Content {
    /// The buffer that the content stands for, or why it stands for none.
    pub open spec fn bytes(self) -> Result<Seq<u8>, FromHexError> {
        match self {
            Content::Text(text) => decoded(text),
            Content::Bytes(bytes) => Ok(bytes),
        }
    }

    /// The length that is held against a bound: the digit count of text
    /// behind its marker, the byte count of bytes.
    pub open spec fn observed(self) -> nat {
        match self {
            Content::Text(text) => digit_count(body(text)),
            Content::Bytes(bytes) => bytes.len(),
        }
    }

    /// Whether the content has a length that the bound lets through.
    pub open spec fn fits(self, bound: LengthBound) -> bool {
        match self {
            Content::Text(_) => bound.admits_digits(self.observed() as int),
            Content::Bytes(_) => bound.admits_bytes(self.observed() as int),
        }
    }

    /// The bytes that a bounded decode puts at the front of its
    /// destination once the length has been let through. For text with an
    /// offending character these are the bytes completed before it.
    pub open spec fn delivered(self) -> Seq<u8> {
        match self {
            Content::Text(text) => written(body(text)),
            Content::Bytes(bytes) => bytes,
        }
    }

    /// What a bounded decode returns: the number of bytes written, a
    /// length error when the bound does not let the content through, or
    /// the first offending character of text that it does let through.
    pub open spec fn bounded_result(self, bound: LengthBound) -> Result<usize, FromHexError> {
        if !self.fits(bound) {
            Err(FromHexError::InvalidLength { observed: self.observed() as usize, expected: bound })
        } else {
            match self {
                Content::Text(text) => raw_result(body(text), has_prefix(text)),
                Content::Bytes(bytes) => Ok(bytes.len() as usize),
            }
        }
    }

    /// What a bounded decode leaves in a destination that held `before`:
    /// nothing new when the length is refused, else the delivered bytes in
    /// front of what was there.
    pub open spec fn bounded_buffer(self, bound: LengthBound, before: Seq<u8>) -> Seq<u8> {
        if !self.fits(bound) {
            before
        } else {
            self.delivered() + before.skip(self.delivered().len() as int)
        }
    }
}

/// Takes the elements of a sequence one after the other into a buffer that
/// grows as they come.
pub fn collect_elements(elements: Vec<u8>) -> (buffer: Vec<u8>)
    ensures
        buffer@ == elements@,
{
    let mut buffer: Vec<u8> = Vec::new();
    let mut i: usize = 0;
    while i < elements.len()
        invariant
            i <= elements@.len(),
            buffer@ == elements@.take(i as int),
        decreases elements@.len() - i,
    {
        buffer.push(elements[i]);
        proof {
            assert(buffer@ =~= elements@.take(i + 1));
        }
        i += 1;
    }
    proof {
        assert(elements@.take(i as int) =~= elements@);
    }
    buffer
}

/// Decodes a representation into a new buffer: text through the hex
/// decoder, bytes as they are.
pub fn deserialize(input: Representation<'_>) -> (r: Result<Vec<u8>, FromHexError>)
    ensures
        match r {
            Ok(bytes) => input@.bytes() == Ok::<Seq<u8>, FromHexError>(bytes@),
            Err(e) => input@.bytes() == Err::<Seq<u8>, FromHexError>(e),
        },
    decreases input,
{
    match input {
        Representation::Text(v) => from_hex(v),
        Representation::BorrowedBytes(v) => Ok(slice_to_vec(v)),
        Representation::OwnedBytes(v) => Ok(v),
        Representation::ElementSequence(elements) => Ok(collect_elements(elements)),
        Representation::Wrapped(inner) => deserialize(*inner),
    }
}

/// Holds the digit count of text against what the destination calls for,
/// then decodes the text into the destination.
fn check_len_text(v: &str, len: ExpectedLen<'_>) -> (r: Result<usize, FromHexError>)
    ensures
        r == Content::Text(v.spec_bytes()).bounded_result(len.bound()),
        final(len.buffer())@ == Content::Text(v.spec_bytes()).bounded_buffer(
            len.bound(),
            len.buffer()@,
        ),
{
    let (rest, stripped) = strip_marker(v);
    let digits = count_digits(rest.as_bytes());
    let bound = len.bound();
    let is_len_valid = match bound {
        LengthBound::Exact(capacity) => digits as u128 == 2 * (capacity as u128),
        LengthBound::Between(min, capacity) => digits as u128 <= 2 * (capacity as u128)
            && digits as u128 > 2 * (min as u128),
    };
    let bytes = len.into_buffer();
    if !is_len_valid {
        return Err(FromHexError::InvalidLength { observed: digits, expected: bound });
    }
    proof {
        lemma_written_len(rest.spec_bytes());
    }
    from_hex_raw(rest, bytes, stripped)
}

/// Holds the number of bytes against what the destination calls for, then
/// copies them to the front of the destination.
fn check_len_bytes(v: &[u8], len: ExpectedLen<'_>) -> (r: Result<usize, FromHexError>)
    ensures
        r == Content::Bytes(v@).bounded_result(len.bound()),
        final(len.buffer())@ == Content::Bytes(v@).bounded_buffer(len.bound(), len.buffer()@),
{
    let count = v.len();
    let bound = len.bound();
    let is_len_valid = match bound {
        LengthBound::Exact(capacity) => count == capacity,
        LengthBound::Between(min, capacity) => count <= capacity && count > min,
    };
    let bytes = len.into_buffer();
    if !is_len_valid {
        return Err(FromHexError::InvalidLength { observed: count, expected: bound });
    }
    let ghost before = bytes@;
    let mut i: usize = 0;
    while i < count
        invariant
            count == v@.len(),
            count <= bytes@.len(),
            i <= count,
            bytes@.len() == before.len(),
            forall|j: int| 0 <= j < i ==> bytes@[j] == v@[j],
            forall|j: int| i <= j < bytes@.len() ==> bytes@[j] == before[j],
        decreases count - i,
    {
        bytes[i] = v[i];
        i += 1;
    }
    proof {
        assert(bytes@ =~= v@ + before.skip(count as int));
    }
    Ok(count)
}

/// Decodes a representation into the destination that `len` holds, after
/// holding the length of the input against what `len` calls for, and
/// returns the number of bytes written.
///
/// For text the length is its digit count: the characters behind the
/// marker that are not blanks. An input of the wrong length is refused
/// before anything is written. Bytes of the destination behind those
/// written keep their values.
pub fn deserialize_check_len(input: Representation<'_>, len: ExpectedLen<'_>) -> (r: Result<
    usize,
    FromHexError,
>)
    ensures
        r == input@.bounded_result(len.bound()),
        final(len.buffer())@ == input@.bounded_buffer(len.bound(), len.buffer()@),
    decreases input,
{
    match input {
        Representation::Text(v) => check_len_text(v, len),
        Representation::BorrowedBytes(v) => check_len_bytes(v, len),
        Representation::OwnedBytes(v) => check_len_bytes(v.as_slice(), len),
        Representation::ElementSequence(elements) => {
            let v = collect_elements(elements);
            check_len_bytes(v.as_slice(), len)
        },
        Representation::Wrapped(inner) => deserialize_check_len(*inner, len),
    }
}

} // verus!
