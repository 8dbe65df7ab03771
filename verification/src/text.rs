//! Text made of ASCII bytes, as bytes and as characters.

use vstd::prelude::*;
use vstd::string::StringSliceAdditionalSpecFns;
use vstd::utf8::*;

verus! {

/// The characters that the bytes of ASCII text stand for, one for one.
pub open spec fn as_chars(t: Seq<u8>) -> Seq<char> {
    Seq::new(t.len(), |i: int| t[i] as char)
}

/// Whether every byte is below 128.
pub open spec fn all_ascii(t: Seq<u8>) -> bool {
    forall|i: int| 0 <= i < t.len() ==> #[trigger] t[i] < 128
}

/// Whether the string `s` is the ASCII text `t`: byte for byte in its UTF-8
/// form, and so character for character.
pub open spec fn spells(s: Seq<char>, t: Seq<u8>) -> bool {
    encode_utf8(s) == t && s == as_chars(t)
}

/// ASCII bytes are the UTF-8 form of their own characters, and of no other
/// string.
pub proof fn lemma_ascii_bytes(t: Seq<u8>)
    requires
        all_ascii(t),
    ensures
        valid_utf8(t),
        spells(as_chars(t), t),
        forall|s: Seq<char>| encode_utf8(s) == t ==> spells(s, t),
{
    let c = as_chars(t);
    assert(is_ascii_chars(c));
    is_ascii_chars_encode_utf8(c);
    assert(encode_utf8(c) =~= t);
    encode_utf8_valid_utf8(c);
    encode_utf8_decode_utf8(c);
    assert forall|s: Seq<char>| encode_utf8(s) == t implies spells(s, t) by {
        encode_utf8_decode_utf8(s);
    }
}

/// `core::str::from_utf8`, with the error dropped: bytes are handed back
/// as a string slice over the same bytes when they are valid UTF-8, and
/// not otherwise.
#[verifier::external_body]
fn utf8_text<'a>(bytes: &'a [u8]) -> (r: Option<&'a str>)
    ensures
        r is Some <==> valid_utf8(bytes@),
        r is Some ==> r->0.spec_bytes() == bytes@,
{
    core::str::from_utf8(bytes).ok()
}

/// Reads ASCII bytes as a string slice, in place.
pub fn ascii_str<'a>(bytes: &'a [u8]) -> (r: &'a str)
    requires
        all_ascii(bytes@),
    ensures
        spells(r@, bytes@),
{
    proof {
        lemma_ascii_bytes(bytes@);
    }
    match utf8_text(bytes) {
        Some(s) => s,
        None => "",
    }
}

} // verus!
