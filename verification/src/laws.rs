//! What holds of encoding and decoding taken together.

use crate::adapter::Content;
use crate::decode::{
    body, clean_len, decoded, digit_count, has_prefix, hex_value, is_blank, is_hex_digit,
    is_hex_text, join, lemma_clean_len_bounds, lemma_clean_len_take, lemma_hex_text_clean,
    lemma_written_len, nibbles,
};
use crate::encode::{
    all_zero, halves, hex_char, hex_digits, hex_text, lemma_strip_zeros, marker, raw_text,
    strip_zeros, zero_text,
};
use crate::error::FromHexError;
use crate::length::LengthBound;
use vstd::prelude::*;

verus! {

/// In text made of hex digits only, every character is counted and gives
/// its value.
proof fn lemma_digits_only(t: Seq<u8>)
    requires
        forall|i: int| 0 <= i < t.len() ==> is_hex_digit(#[trigger] t[i]),
    ensures
        clean_len(t) == t.len(),
        digit_count(t) == t.len(),
        nibbles(t).len() == t.len(),
        forall|i: int| 0 <= i < t.len() ==> #[trigger] nibbles(t)[i] == hex_value(t[i]),
    decreases t.len(),
{
    if t.len() > 0 {
        let front = t.drop_last();
        assert forall|i: int| 0 <= i < front.len() implies is_hex_digit(#[trigger] front[i]) by {
            assert(front[i] == t[i]);
        }
        lemma_digits_only(front);
        assert(is_hex_digit(t.last()));
    }
}

/// Joining the halves of the bytes of a buffer gives the buffer.
proof fn lemma_join_halves(b: Seq<u8>)
    ensures
        join(halves(b)) == b,
{
    let h = halves(b);
    assert(join(h).len() == b.len());
    assert forall|j: int| 0 <= j < b.len() implies join(h)[j] == b[j] by {
        assert(h[2 * j] == b[j] / 16);
        assert(h[2 * j + 1] == b[j] % 16);
    }
    assert(join(h) =~= b);
}

/// Each digit written for a buffer is a hex digit whose value is the half
/// of the byte that it was written for.
proof fn lemma_hex_digits_values(b: Seq<u8>)
    ensures
        hex_digits(b).len() == 2 * b.len(),
        halves(b).len() == 2 * b.len(),
        forall|i: int|
            0 <= i < 2 * b.len() ==> is_hex_digit(#[trigger] hex_digits(b)[i]) && hex_value(
                hex_digits(b)[i],
            ) == halves(b)[i],
{
    let d = hex_digits(b);
    let h = halves(b);
    assert forall|i: int| 0 <= i < 2 * b.len() implies is_hex_digit(#[trigger] d[i]) && hex_value(
        d[i],
    ) == h[i] by {
        assert(h[i] < 16);
        assert(d[i] == hex_char(h[i]));
    }
}

/// The digits written for a buffer are read back as the halves of its
/// bytes: nothing offends, and every character counts.
proof fn lemma_hex_digits_read(b: Seq<u8>)
    ensures
        clean_len(hex_digits(b)) == hex_digits(b).len() == 2 * b.len(),
        digit_count(hex_digits(b)) == 2 * b.len(),
        nibbles(hex_digits(b)) == halves(b),
{
    let d = hex_digits(b);
    lemma_hex_digits_values(b);
    lemma_digits_only(d);
    assert(nibbles(d) =~= halves(b));
}

/// The digits written for a buffer, without the first, are read back as
/// the halves of its bytes without the first.
proof fn lemma_trimmed_digits_read(b: Seq<u8>)
    requires
        b.len() > 0,
    ensures
        clean_len(hex_digits(b).skip(1)) == hex_digits(b).skip(1).len() == 2 * b.len() - 1,
        digit_count(hex_digits(b).skip(1)) == 2 * b.len() - 1,
        nibbles(hex_digits(b).skip(1)) == halves(b).skip(1),
{
    let d = hex_digits(b).skip(1);
    let h = halves(b).skip(1);
    lemma_hex_digits_values(b);
    assert forall|i: int| 0 <= i < d.len() implies is_hex_digit(#[trigger] d[i]) && hex_value(
        d[i],
    ) == h[i] by {
        assert(d[i] == hex_digits(b)[i + 1]);
        assert(h[i] == halves(b)[i + 1]);
    }
    lemma_digits_only(d);
    assert(nibbles(d) =~= h);
}

/// Behind the marker stands the body.
proof fn lemma_marker_body(d: Seq<u8>)
    ensures
        has_prefix(marker() + d),
        body(marker() + d) == d,
{
    assert((marker() + d).skip(2) =~= d);
}

/// Text that is clean to its end decodes to its digits joined in pairs,
/// behind a zero when there is an odd number of them.
proof fn lemma_decoded_clean(text: Seq<u8>)
    requires
        clean_len(body(text)) == body(text).len(),
    ensures
        decoded(text) == Ok::<Seq<u8>, FromHexError>(
            join(
                if digit_count(body(text)) % 2 == 1 {
                    seq![0u8] + nibbles(body(text))
                } else {
                    nibbles(body(text))
                },
            ),
        ),
{
    let t = body(text);
    assert(t.take(t.len() as int) =~= t);
}

/// Round trip, raw style: decoding the raw hex text of a buffer gives the
/// buffer back, whatever the buffer.
pub proof fn lemma_round_trip_raw(b: Seq<u8>)
    ensures
        decoded(hex_text(b, false)) == Ok::<Seq<u8>, FromHexError>(b),
{
    let d = hex_digits(b);
    let text = marker() + d;
    assert(hex_text(b, false) =~= text);
    lemma_marker_body(d);
    lemma_hex_digits_read(b);
    lemma_decoded_clean(text);
    lemma_join_halves(b);
}

/// The trimmed text of a buffer that begins with a byte other than zero
/// decodes to the buffer.
proof fn lemma_round_trip_trimmed(kept: Seq<u8>)
    requires
        kept.len() > 0,
        kept[0] != 0,
    ensures
        decoded(raw_text(kept, true, false)) == Ok::<Seq<u8>, FromHexError>(kept),
{
    let h = halves(kept);
    lemma_join_halves(kept);
    if kept[0] < 16 {
        let d = hex_digits(kept).skip(1);
        lemma_marker_body(d);
        lemma_trimmed_digits_read(kept);
        lemma_decoded_clean(marker() + d);
        assert(h[0] == 0);
        assert(seq![0u8] + h.skip(1) =~= h);
    } else {
        let d = hex_digits(kept);
        lemma_marker_body(d);
        lemma_hex_digits_read(kept);
        lemma_decoded_clean(marker() + d);
    }
}

/// Round trip, unsigned-integer style: when some byte of the buffer is not
/// zero, decoding its trimmed hex text gives the buffer without its leading
/// zero bytes.
pub proof fn lemma_round_trip_uint(b: Seq<u8>)
    requires
        !all_zero(b),
    ensures
        decoded(hex_text(b, true)) == Ok::<Seq<u8>, FromHexError>(strip_zeros(b)),
{
    lemma_strip_zeros(b);
    lemma_round_trip_trimmed(strip_zeros(b));
}

/// A buffer of zero bytes only, the empty one among them, is written
/// `0x0` in unsigned-integer style, and that text decodes to a single zero
/// byte.
pub proof fn lemma_uint_zero(b: Seq<u8>)
    requires
        all_zero(b),
    ensures
        hex_text(b, true) == zero_text(),
        decoded(zero_text()) == Ok::<Seq<u8>, FromHexError>(seq![0u8]),
{
    lemma_strip_zeros(b);
    let d = seq![0x30u8];
    assert(zero_text() =~= marker() + d);
    lemma_marker_body(d);
    lemma_digits_only(d);
    lemma_decoded_clean(zero_text());
    assert(join(seq![0u8] + nibbles(d)) =~= seq![0u8]);
}

/// The marker changes nothing: hex text decodes to the same buffer with
/// the marker `0x` in front of it as without.
pub proof fn lemma_prefix_idempotent(s: Seq<u8>)
    requires
        is_hex_text(s),
    ensures
        decoded(marker() + s) == decoded(s),
        decoded(s) is Ok,
{
    lemma_hex_text_clean(s);
    lemma_marker_body(s);
    assert(!has_prefix(s)) by {
        if s.len() >= 2 {
            assert(is_blank(s[1]) || is_hex_digit(s[1]));
        }
    }
}

/// Decoding succeeds exactly on text that, behind its marker, is hex text;
/// the buffer then has one byte for every two digits, rounded up.
pub proof fn lemma_decoded_total(text: Seq<u8>)
    ensures
        decoded(text) is Ok <==> is_hex_text(body(text)),
        decoded(text) is Ok ==> decoded(text)->Ok_0.len() == (digit_count(body(text)) + 1) / 2,
{
    lemma_hex_text_clean(body(text));
    lemma_clean_len_bounds(body(text));
    lemma_written_len(body(text));
}

/// Raw hex text has two digits for every byte behind the two characters of
/// the marker.
pub proof fn lemma_raw_text_len(b: Seq<u8>)
    ensures
        hex_text(b, false).len() == 2 * b.len() + 2,
{
}

/// The two wire forms agree: a buffer that arrives as its raw hex text is
/// decoded to the same bytes as when it arrives as the bytes themselves,
/// and a bounded decode lets both through or neither, returns the same
/// count and leaves the same destination.
pub proof fn lemma_wire_forms_agree(b: Seq<u8>, bound: LengthBound, before: Seq<u8>)
    ensures
        Content::Text(hex_text(b, false)).bytes() == Content::Bytes(b).bytes(),
        Content::Text(hex_text(b, false)).fits(bound) == Content::Bytes(b).fits(bound),
        Content::Bytes(b).fits(bound) ==> Content::Text(hex_text(b, false)).bounded_result(bound)
            == Content::Bytes(b).bounded_result(bound),
        Content::Text(hex_text(b, false)).bounded_buffer(bound, before) == Content::Bytes(
            b,
        ).bounded_buffer(bound, before),
{
    lemma_round_trip_raw(b);
    let d = hex_digits(b);
    assert(hex_text(b, false) =~= marker() + d);
    lemma_marker_body(d);
    lemma_hex_digits_read(b);
    lemma_clean_len_bounds(d);
}

/// A bounded decode stays within its bound: the count it returns is one
/// that the bound admits as a number of bytes, and a destination as long
/// as the bound's capacity is as long afterwards as it was.
pub proof fn lemma_bounded_within_bound(content: Content, bound: LengthBound, before: Seq<u8>)
    requires
        before.len() == bound.capacity(),
    ensures
        content.bounded_buffer(bound, before).len() == before.len(),
        content.bounded_result(bound) is Ok ==> bound.admits_bytes(
            content.bounded_result(bound)->Ok_0 as int,
        ) && content.bounded_result(bound)->Ok_0 == content.delivered().len(),
{
    match content {
        Content::Text(text) => {
            lemma_written_len(body(text));
            lemma_clean_len_bounds(body(text));
        },
        Content::Bytes(_) => {},
    }
}

/// A character with the capital hex digits `A-F` turned into `a-f`.
pub open spec fn lower(c: u8) -> u8 {
    if 0x41 <= c <= 0x46 {
        (c + 0x20) as u8
    } else {
        c
    }
}

/// Text with its capital hex digits turned into small ones.
pub open spec fn lowered(t: Seq<u8>) -> Seq<u8> {
    Seq::new(t.len(), |i: int| lower(t[i]))
}

/// Small and capital digits read alike, character by character.
proof fn lemma_lowered_reads_alike(t: Seq<u8>)
    ensures
        clean_len(lowered(t)) == clean_len(t),
        digit_count(lowered(t)) == digit_count(t),
        nibbles(lowered(t)) == nibbles(t),
    decreases t.len(),
{
    if t.len() > 0 {
        lemma_lowered_reads_alike(t.drop_last());
        assert(lowered(t).drop_last() =~= lowered(t.drop_last()));
        assert(lowered(t).last() == lower(t.last()));
    }
}

/// The case of the digits does not matter: text decodes to the same
/// buffer, or fails with the same error, whether its digits `a-f` are
/// written small or capital.
pub proof fn lemma_case_insensitive(text: Seq<u8>)
    ensures
        decoded(lowered(text)) == decoded(text),
{
    let t = body(text);
    let low = lowered(text);
    assert(has_prefix(low) == has_prefix(text));
    assert(body(low) =~= lowered(t));
    lemma_lowered_reads_alike(t);
    lemma_clean_len_bounds(t);
    let k = clean_len(t);
    assert(lowered(t).take(k) =~= lowered(t.take(k)));
    lemma_lowered_reads_alike(t.take(k));
    if k < t.len() {
        lemma_clean_len_take(t, k + 1);
        assert(t.take(k + 1).drop_last() =~= t.take(k));
        lemma_clean_len_take(t, k);
        assert(!(is_blank(t[k]) || is_hex_digit(t[k])));
    }
}

} // verus!
