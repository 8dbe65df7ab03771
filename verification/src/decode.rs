//! Hex text to bytes.
//!
//! Text is modelled as the sequence of its bytes. An optional marker `0x`
//! comes first; what follows is read one character at a time: blanks are
//! skipped, hex digits are gathered two to the byte, and anything else ends
//! the decode with an error that names the character and where it stood.
//! When the number of digits is odd, the first digit alone makes the first
//! byte.

use crate::error::FromHexError;
use vstd::prelude::*;
use vstd::string::StringSliceAdditionalSpecFns;
use vstd::utf8::*;

verus! {

/// Space, carriage return, line feed or tab.
pub open spec fn is_blank(c: u8) -> bool {
    c == 0x20 || c == 0x0d || c == 0x0a || c == 0x09
}

/// One of `0-9`, `A-F`, `a-f`.
pub open spec fn is_hex_digit(c: u8) -> bool {
    (0x30 <= c <= 0x39) || (0x41 <= c <= 0x46) || (0x61 <= c <= 0x66)
}

/// The four-bit value of a hex digit.
pub open spec fn hex_value(c: u8) -> u8
    recommends
        is_hex_digit(c),
{
    if c <= 0x39 {
        (c - 0x30) as u8
    } else if c <= 0x46 {
        (c - 0x41 + 10) as u8
    } else {
        (c - 0x61 + 10) as u8
    }
}

/// Whether the text opens with the marker `0x`.
pub open spec fn has_prefix(text: Seq<u8>) -> bool {
    text.len() >= 2 && text[0] == 0x30 && text[1] == 0x78
}

/// The text behind the marker, or all of it when there is no marker.
pub open spec fn body(text: Seq<u8>) -> Seq<u8> {
    if has_prefix(text) {
        text.skip(2)
    } else {
        text
    }
}

/// The number of characters that are not blanks: the digit count of text
/// that holds nothing but digits and blanks.
pub open spec fn digit_count(t: Seq<u8>) -> nat
    decreases t.len(),
{
    if t.len() == 0 {
        0
    } else if is_blank(t.last()) {
        digit_count(t.drop_last())
    } else {
        digit_count(t.drop_last()) + 1
    }
}

/// The length of the longest prefix made of hex digits and blanks only. It
/// is the offset of the first offending character, or the length of the
/// text when there is none.
pub open spec fn clean_len(t: Seq<u8>) -> int
    decreases t.len(),
{
    if t.len() == 0 {
        0
    } else {
        let before = clean_len(t.drop_last());
        if before == t.len() - 1 && (is_blank(t.last()) || is_hex_digit(t.last())) {
            t.len() as int
        } else {
            before
        }
    }
}

/// The values of the hex digits of `t`, in order; other characters are
/// passed over.
pub open spec fn nibbles(t: Seq<u8>) -> Seq<u8>
    decreases t.len(),
{
    if t.len() == 0 {
        Seq::empty()
    } else if is_hex_digit(t.last()) {
        nibbles(t.drop_last()).push(hex_value(t.last()))
    } else {
        nibbles(t.drop_last())
    }
}

/// Pairs of four-bit values joined into bytes, the first of each pair in
/// the high half. A value left over at the end makes no byte.
pub open spec fn join(e: Seq<u8>) -> Seq<u8> {
    Seq::new(e.len() / 2, |j: int| (e[2 * j] * 16 + e[2 * j + 1]) as u8)
}

/// The four-bit values that a pass over `t` pairs up: the digits of the
/// clean prefix, behind a zero when the digit count of `t` is odd.
pub open spec fn paired(t: Seq<u8>) -> Seq<u8> {
    let seen = nibbles(t.take(clean_len(t)));
    if digit_count(t) % 2 == 1 {
        seq![0u8] + seen
    } else {
        seen
    }
}

/// The bytes that a pass over `t` completes before it ends, at the end of
/// the text or at the first offending character.
pub open spec fn written(t: Seq<u8>) -> Seq<u8> {
    join(paired(t))
}

/// What decoding marker-free text `t` into a destination returns: the
/// number of bytes written, or the first offending character with its
/// offset, moved by two when a marker was taken off beforehand.
pub open spec fn raw_result(t: Seq<u8>, stripped: bool) -> Result<usize, FromHexError> {
    let k = clean_len(t);
    if k < t.len() {
        Err(
            FromHexError::InvalidHex {
                character: t[k] as char,
                index: (k + if stripped { 2int } else { 0int }) as usize,
            },
        )
    } else {
        Ok(written(t).len() as usize)
    }
}

/// What decoding `text` yields: the bytes its digits spell, or the first
/// offending character with its offset in `text`.
pub open spec fn decoded(text: Seq<u8>) -> Result<Seq<u8>, FromHexError> {
    let t = body(text);
    let k = clean_len(t);
    if k < t.len() {
        Err(
            FromHexError::InvalidHex {
                character: t[k] as char,
                index: (k + (text.len() - t.len())) as usize,
            },
        )
    } else {
        Ok(written(t))
    }
}

/// Text that holds hex digits and blanks and nothing else.
pub open spec fn is_hex_text(s: Seq<u8>) -> bool {
    forall|i: int| 0 <= i < s.len() ==> is_blank(#[trigger] s[i]) || is_hex_digit(s[i])
}

/// The clean prefix is a prefix.
pub proof fn lemma_clean_len_bounds(t: Seq<u8>)
    ensures
        0 <= clean_len(t) <= t.len(),
    decreases t.len(),
{
    if t.len() > 0 {
        lemma_clean_len_bounds(t.drop_last());
    }
}

/// Text is clean to its end exactly when it is hex text.
pub proof fn lemma_hex_text_clean(s: Seq<u8>)
    ensures
        is_hex_text(s) <==> clean_len(s) == s.len(),
    decreases s.len(),
{
    if s.len() > 0 {
        let front = s.drop_last();
        lemma_hex_text_clean(front);
        lemma_clean_len_bounds(front);
        if is_hex_text(s) {
            assert forall|i: int| 0 <= i < front.len() implies is_blank(#[trigger] front[i])
                || is_hex_digit(front[i]) by {
                assert(front[i] == s[i]);
            }
        }
        if clean_len(s) == s.len() {
            assert forall|i: int| 0 <= i < s.len() implies is_blank(#[trigger] s[i])
                || is_hex_digit(s[i]) by {
                if i < front.len() {
                    assert(front[i] == s[i]);
                }
            }
        }
    }
}

/// Cutting the text short cuts its clean prefix short, and does nothing
/// else to it.
pub proof fn lemma_clean_len_take(t: Seq<u8>, k: int)
    requires
        0 <= k <= t.len(),
    ensures
        clean_len(t.take(k)) == if k <= clean_len(t) {
            k
        } else {
            clean_len(t)
        },
    decreases t.len(),
{
    lemma_clean_len_bounds(t);
    if k == t.len() {
        assert(t.take(k) =~= t);
    } else {
        assert(t.take(k) =~= t.drop_last().take(k));
        lemma_clean_len_take(t.drop_last(), k);
        lemma_clean_len_bounds(t.drop_last());
    }
}

/// A longer prefix holds at least as many digits.
pub proof fn lemma_nibbles_take_len(t: Seq<u8>, a: int, b: int)
    requires
        0 <= a <= b <= t.len(),
    ensures
        nibbles(t.take(a)).len() <= nibbles(t.take(b)).len(),
    decreases b - a,
{
    if a < b {
        lemma_nibbles_take_len(t, a, b - 1);
        assert(t.take(b).drop_last() =~= t.take(b - 1));
    }
}

/// In text of digits and blanks only, every character that is not a blank
/// is a digit.
pub proof fn lemma_clean_digit_count(t: Seq<u8>)
    requires
        clean_len(t) == t.len(),
    ensures
        nibbles(t).len() == digit_count(t),
    decreases t.len(),
{
    if t.len() > 0 {
        lemma_clean_len_bounds(t.drop_last());
        lemma_clean_digit_count(t.drop_last());
    }
}

/// A prefix holds no more characters that are not blanks than the whole,
/// and the whole no more than it has characters.
pub proof fn lemma_digit_count_take(t: Seq<u8>, k: int)
    requires
        0 <= k <= t.len(),
    ensures
        digit_count(t.take(k)) <= digit_count(t) <= t.len(),
    decreases t.len(),
{
    if k == t.len() {
        assert(t.take(k) =~= t);
        if t.len() > 0 {
            lemma_digit_count_take(t.drop_last(), k - 1);
        }
    } else {
        assert(t.take(k) =~= t.drop_last().take(k));
        lemma_digit_count_take(t.drop_last(), k);
    }
}

/// A decode never writes more than one byte for every two digits, rounded
/// up, and writes exactly that many when it succeeds. A destination half
/// as long as the text, rounded up, is therefore always large enough.
pub proof fn lemma_written_len(t: Seq<u8>)
    ensures
        written(t).len() <= (digit_count(t) + 1) / 2 <= (t.len() + 1) / 2,
        clean_len(t) == t.len() ==> written(t).len() == (digit_count(t) + 1) / 2,
{
    lemma_clean_len_bounds(t);
    let k = clean_len(t);
    lemma_digit_count_take(t, k);
    lemma_clean_len_take(t, k);
    lemma_clean_digit_count(t.take(k));
    if k == t.len() {
        assert(t.take(k) =~= t);
    }
}

/// Counts the characters of `text` that are not blanks.
pub fn count_digits(text: &[u8]) -> (count: usize)
    ensures
        count == digit_count(text@),
{
    let mut count: usize = 0;
    let mut i: usize = 0;
    while i < text.len()
        invariant
            i <= text@.len(),
            count <= i,
            count == digit_count(text@.take(i as int)),
        decreases text@.len() - i,
    {
        let c = text[i];
        assert(text@.take(i + 1).drop_last() =~= text@.take(i as int));
        if !(c == 0x20 || c == 0x0d || c == 0x0a || c == 0x09) {
            count += 1;
        }
        i += 1;
    }
    assert(text@.take(i as int) =~= text@);
    count
}

/// Decodes marker-free hex text into a destination that is large enough,
/// and returns the number of bytes written.
///
/// `stripped` says that a marker was taken off before `v`; an error then
/// reports its offset in the text that still had it. The bytes of the
/// destination behind those written keep their values. On an error the
/// bytes completed before the offending character have been written.
pub fn from_hex_raw(v: &str, bytes: &mut [u8], stripped: bool) -> (r: Result<usize, FromHexError>)
    requires
        written(v.spec_bytes()).len() <= old(bytes)@.len(),
        stripped ==> v.spec_bytes().len() + 2 <= usize::MAX,
    ensures
        r == raw_result(v.spec_bytes(), stripped),
        final(bytes)@ == written(v.spec_bytes()) + old(bytes)@.skip(
            written(v.spec_bytes()).len() as int,
        ),
{
    let text = v.as_bytes();
    let n = text.len();
    let mut modulus: usize = count_digits(text) % 2;
    let mut buf: u8 = 0;
    let mut pos: usize = 0;
    let mut index: usize = 0;
    let ghost lead: Seq<u8> = if digit_count(text@) % 2 == 1 {
        seq![0u8]
    } else {
        Seq::empty()
    };
    let ghost e: Seq<u8> = lead;
    proof {
        assert(text@.take(0) =~= Seq::<u8>::empty());
        assert(bytes@ =~= join(e) + old(bytes)@.skip(0));
    }
    while index < n
        invariant
            n == text@.len(),
            text@ == v.spec_bytes(),
            stripped ==> n + 2 <= usize::MAX,
            index <= n,
            clean_len(text@.take(index as int)) == index,
            lead == if digit_count(text@) % 2 == 1 {
                seq![0u8]
            } else {
                Seq::<u8>::empty()
            },
            e == lead + nibbles(text@.take(index as int)),
            forall|j: int| 0 <= j < e.len() ==> #[trigger] e[j] < 16,
            pos == e.len() / 2,
            modulus == e.len() % 2,
            modulus == 1 ==> buf == e.last(),
            modulus == 0 ==> buf == 0,
            written(text@).len() <= bytes@.len(),
            bytes@.len() == old(bytes)@.len(),
            bytes@ == join(e) + old(bytes)@.skip(pos as int),
        decreases n - index,
    {
        let byte = text[index];
        let ghost before = text@.take(index as int);
        let ghost upto = text@.take(index + 1);
        proof {
            assert(upto.drop_last() =~= before);
            assert(upto.last() == byte);
            lemma_clean_len_take(text@, index + 1);
            lemma_clean_len_bounds(text@);
        }
        let value: u8 = if 0x41 <= byte && byte <= 0x46 {
            byte - 0x41 + 10
        } else if 0x61 <= byte && byte <= 0x66 {
            byte - 0x61 + 10
        } else if 0x30 <= byte && byte <= 0x39 {
            byte - 0x30
        } else if byte == 0x20 || byte == 0x0d || byte == 0x0a || byte == 0x09 {
            index += 1;
            continue;
        } else {
            proof {
                assert(clean_len(upto) == index);
                assert(clean_len(text@) == index);
                assert(text@.take(clean_len(text@)) == before);
                assert(paired(text@) == e);
            }
            return Err(
                FromHexError::InvalidHex {
                    character: byte as char,
                    index: index + if stripped { 2 } else { 0 },
                },
            );
        };
        let ghost grown = e.push(value);
        proof {
            assert(is_hex_digit(byte));
            assert(value == hex_value(byte));
            assert(nibbles(upto) == nibbles(before).push(value));
            assert(grown =~= lead + nibbles(upto));
            assert(clean_len(upto) == index + 1);
            assert(clean_len(text@) >= index + 1);
            lemma_nibbles_take_len(text@, index + 1, clean_len(text@));
            assert(grown.len() <= paired(text@).len());
        }
        let full: u8 = (buf << 4) | value;
        assert(full == buf * 16 + value) by (bit_vector)
            requires
                full == (buf << 4) | value,
                buf < 16,
                value < 16,
        ;
        modulus += 1;
        if modulus == 2 {
            modulus = 0;
            bytes[pos] = full;
            pos += 1;
            buf = 0;
            proof {
                assert(bytes@ =~= join(grown) + old(bytes)@.skip(pos as int));
            }
        } else {
            buf = full;
            proof {
                assert(join(grown) =~= join(e));
            }
        }
        proof {
            e = grown;
        }
        index += 1;
    }
    proof {
        assert(text@.take(index as int) =~= text@);
        assert(paired(text@) == e);
    }
    Ok(pos)
}

/// Decodes hex text, with or without the marker `0x`, into a new buffer.
///
/// Blanks between digits are skipped. The buffer holds one byte for every
/// two digits; an odd digit in front makes a byte of its own. A character
/// that is neither digit nor blank is reported with its offset in `v`.
pub fn from_hex(v: &str) -> (r: Result<Vec<u8>, FromHexError>)
    ensures
        match r {
            Ok(bytes) => decoded(v.spec_bytes()) == Ok::<Seq<u8>, FromHexError>(bytes@),
            Err(e) => decoded(v.spec_bytes()) == Err::<Seq<u8>, FromHexError>(e),
        },
{
    let (rest, stripped) = strip_marker(v);
    let digits = count_digits(rest.as_bytes());
    let mut bytes: Vec<u8> = vec![0u8; digits / 2 + digits % 2];
    proof {
        lemma_written_len(rest.spec_bytes());
    }
    match from_hex_raw(rest, bytes.as_mut_slice(), stripped) {
        Ok(_) => {
            proof {
                lemma_clean_len_bounds(rest.spec_bytes());
                assert(bytes@ =~= written(rest.spec_bytes()));
            }
            Ok(bytes)
        },
        Err(e) => Err(e),
    }
}

/// Takes the marker `0x` off the front of `v` when it is there, and says
/// whether it was.
pub fn strip_marker(v: &str) -> (r: (&str, bool))
    ensures
        r.1 == has_prefix(v.spec_bytes()),
        r.0.spec_bytes() == body(v.spec_bytes()),
        r.1 ==> r.0.spec_bytes().len() + 2 <= usize::MAX,
{
    let text = v.as_bytes();
    if text.len() >= 2 && text[0] == 0x30 && text[1] == 0x78 {
        proof {
            encode_utf8_valid_utf8(v@);
            reveal_with_fuel(valid_utf8, 3);
            reveal_with_fuel(is_char_boundary, 3);
            assert(is_char_boundary(v.spec_bytes(), 2));
        }
        let (_, rest) = v.split_at(2);
        (rest, true)
    } else {
        (v, false)
    }
}

} // verus!
