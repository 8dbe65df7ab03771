//! Bytes to hex text.
//!
//! Every byte becomes two lowercase hex digits, high half first. The
//! unsigned-integer style drops leading zero bytes and the first digit when
//! it is zero; a buffer with nothing left is written `0x0`.

use crate::text::{all_ascii, as_chars, ascii_str, lemma_ascii_bytes, spells};
use vstd::prelude::*;
use vstd::slice::slice_subrange;

verus! {

/// The lowercase hex digit for a four-bit value.
pub open spec fn hex_char(n: u8) -> u8
    recommends
        n < 16,
{
    if n < 10 {
        (0x30 + n) as u8
    } else {
        (0x57 + n) as u8
    }
}

/// The four-bit halves of the bytes, the high half of each byte before its
/// low half.
pub open spec fn halves(bytes: Seq<u8>) -> Seq<u8> {
    Seq::new(
        2 * bytes.len(),
        |i: int|
            if i % 2 == 0 {
                bytes[i / 2] / 16
            } else {
                bytes[i / 2] % 16
            },
    )
}

/// Two hex digits for every byte, high half first.
pub open spec fn hex_digits(bytes: Seq<u8>) -> Seq<u8> {
    Seq::new(2 * bytes.len(), |i: int| hex_char(halves(bytes)[i]))
}

/// The marker `0x`.
pub open spec fn marker() -> Seq<u8> {
    seq![0x30u8, 0x78u8]
}

/// The room that the text of `count` bytes is given in a buffer: two digits
/// for every byte, and two characters for the marker unless `cut_prefix`
/// is set.
pub open spec fn room(count: nat, cut_prefix: bool) -> nat {
    if cut_prefix {
        2 * count
    } else {
        2 * count + 2
    }
}

/// The text for a buffer that is not empty: its digits, without the first
/// one when that is zero and `skip_leading_zero` is set, behind the marker
/// unless `cut_prefix` is set.
pub open spec fn raw_text(bytes: Seq<u8>, skip_leading_zero: bool, cut_prefix: bool) -> Seq<u8>
    recommends
        bytes.len() >= 1,
{
    let digits = if skip_leading_zero && bytes[0] < 16 {
        hex_digits(bytes).skip(1)
    } else {
        hex_digits(bytes)
    };
    if cut_prefix {
        digits
    } else {
        marker() + digits
    }
}

/// The number of zero bytes in front of the first byte that is not zero.
pub open spec fn leading_zeros(bytes: Seq<u8>) -> nat
    decreases bytes.len(),
{
    if bytes.len() > 0 && bytes[0] == 0 {
        1 + leading_zeros(bytes.drop_first())
    } else {
        0
    }
}

/// The buffer without its leading zero bytes.
pub open spec fn strip_zeros(bytes: Seq<u8>) -> Seq<u8> {
    bytes.skip(leading_zeros(bytes) as int)
}

/// Whether every byte of the buffer is zero.
pub open spec fn all_zero(b: Seq<u8>) -> bool {
    forall|i: int| 0 <= i < b.len() ==> #[trigger] b[i] == 0
}

/// The text `0x0`.
pub open spec fn zero_text() -> Seq<u8> {
    seq![0x30u8, 0x78u8, 0x30u8]
}

/// The hex text of a buffer. Raw style keeps every byte, and writes the
/// empty buffer `0x`. Unsigned-integer style (`skip_leading_zero`) drops
/// leading zero bytes and a leading zero digit, and writes `0x0` when
/// nothing is left.
pub open spec fn hex_text(bytes: Seq<u8>, skip_leading_zero: bool) -> Seq<u8> {
    let kept = if skip_leading_zero {
        strip_zeros(bytes)
    } else {
        bytes
    };
    if kept.len() > 0 {
        raw_text(kept, skip_leading_zero, false)
    } else if skip_leading_zero {
        zero_text()
    } else {
        marker()
    }
}

/// The number of bytes that `raw_text` is long: the room it is given, less
/// one where the first digit is left out.
pub open spec fn raw_len(bytes: Seq<u8>, skip_leading_zero: bool, cut_prefix: bool) -> int {
    if skip_leading_zero && bytes[0] < 16 {
        room(bytes.len(), cut_prefix) - 1
    } else {
        room(bytes.len(), cut_prefix) as int
    }
}

/// Hex text is as long as its digits and marker, and is ASCII.
pub proof fn lemma_raw_text(bytes: Seq<u8>, skip_leading_zero: bool, cut_prefix: bool)
    requires
        bytes.len() >= 1,
    ensures
        raw_text(bytes, skip_leading_zero, cut_prefix).len() == raw_len(
            bytes,
            skip_leading_zero,
            cut_prefix,
        ),
        all_ascii(raw_text(bytes, skip_leading_zero, cut_prefix)),
{
}

/// The room that the text of `count` bytes is given in a buffer, or `None`
/// when no buffer can be that long.
pub fn text_room(count: usize, cut_prefix: bool) -> (r: Option<usize>)
    ensures
        r == if room(count as nat, cut_prefix) <= usize::MAX {
            Some(room(count as nat, cut_prefix) as usize)
        } else {
            None
        },
{
    let marker: usize = if cut_prefix {
        0
    } else {
        2
    };
    if count <= (usize::MAX - marker) / 2 {
        Some(2 * count + marker)
    } else {
        None
    }
}

/// The lowercase hex digit for a four-bit value.
pub fn nibble_char(n: u8) -> (c: u8)
    requires
        n < 16,
    ensures
        c == hex_char(n),
{
    if n < 10 {
        0x30 + n
    } else {
        0x57 + n
    }
}

/// Writes the hex text of a buffer that is not empty into the front of `v`
/// and hands that part of `v` back as text.
///
/// With `skip_leading_zero` the first digit is left out when it is zero.
/// The marker `0x` comes first unless `cut_prefix` is set. `v` must have
/// room for every digit and the marker, written or not; what lies behind
/// the text keeps its value.
pub fn to_hex_raw<'a>(
    v: &'a mut [u8],
    bytes: &[u8],
    skip_leading_zero: bool,
    cut_prefix: bool,
) -> (r: &'a str)
    requires
        bytes@.len() >= 1,
        old(v)@.len() >= room(bytes@.len(), cut_prefix),
    ensures
        spells(r@, raw_text(bytes@, skip_leading_zero, cut_prefix)),
        final(v)@ == raw_text(bytes@, skip_leading_zero, cut_prefix) + old(v)@.skip(
            raw_text(bytes@, skip_leading_zero, cut_prefix).len() as int,
        ),
{
    let ghost text = raw_text(bytes@, skip_leading_zero, cut_prefix);
    let ghost shift = raw_len(bytes@, skip_leading_zero, cut_prefix) - 2 * bytes@.len();
    proof {
        lemma_raw_text(bytes@, skip_leading_zero, cut_prefix);
    }
    let mut idx: usize = 0;
    if !cut_prefix {
        v[0] = 0x30;
        v[1] = 0x78;
        idx = 2;
    }
    let first = bytes[0];
    let first_nibble = first >> 4;
    let low_nibble = first & 0xf;
    assert(first_nibble == first / 16 && low_nibble == first % 16) by (bit_vector)
        requires
            first_nibble == first >> 4,
            low_nibble == first & 0xf,
    ;
    if first_nibble != 0 || !skip_leading_zero {
        v[idx] = nibble_char(first_nibble);
        idx += 1;
    }
    v[idx] = nibble_char(low_nibble);
    idx += 1;
    let mut i: usize = 1;
    while i < bytes.len()
        invariant
            1 <= i <= bytes@.len(),
            text == raw_text(bytes@, skip_leading_zero, cut_prefix),
            shift == raw_len(bytes@, skip_leading_zero, cut_prefix) - 2 * bytes@.len(),
            text.len() == 2 * bytes@.len() + shift,
            idx == 2 * i + shift,
            v@.len() == old(v)@.len(),
            v@.len() >= room(bytes@.len(), cut_prefix),
            forall|j: int| 0 <= j < idx ==> v@[j] == #[trigger] text[j],
            forall|j: int| idx <= j < v@.len() ==> #[trigger] v@[j] == old(v)@[j],
        decreases bytes@.len() - i,
    {
        let byte = bytes[i];
        let high = byte >> 4;
        let low = byte & 0xf;
        assert(high == byte / 16 && low == byte % 16) by (bit_vector)
            requires
                high == byte >> 4,
                low == byte & 0xf,
        ;
        v[idx] = nibble_char(high);
        v[idx + 1] = nibble_char(low);
        idx += 2;
        i += 1;
    }
    let head = slice_subrange(v, 0, idx);
    proof {
        assert(head@ =~= text);
    }
    ascii_str(head)
}

/// A buffer whose first `k` bytes are zero, and whose next byte is not,
/// has `k` leading zeros.
pub proof fn lemma_leading_zeros(bytes: Seq<u8>, k: int)
    requires
        0 <= k <= bytes.len(),
        forall|j: int| 0 <= j < k ==> bytes[j] == 0,
        k < bytes.len() ==> bytes[k] != 0,
    ensures
        leading_zeros(bytes) == k,
    decreases k,
{
    if k > 0 {
        lemma_leading_zeros(bytes.drop_first(), k - 1);
    }
}

/// The leading zeros of a buffer are zeros, lie within it, and end at a
/// byte that is not zero.
pub proof fn lemma_strip_zeros(b: Seq<u8>)
    ensures
        leading_zeros(b) <= b.len(),
        strip_zeros(b).len() == b.len() - leading_zeros(b),
        forall|i: int| 0 <= i < leading_zeros(b) ==> b[i] == 0,
        strip_zeros(b).len() > 0 ==> strip_zeros(b)[0] != 0,
        strip_zeros(b).len() == 0 <==> all_zero(b),
    decreases b.len(),
{
    if b.len() > 0 && b[0] == 0 {
        let rest = b.drop_first();
        lemma_strip_zeros(rest);
        assert forall|i: int| 0 <= i < leading_zeros(b) implies b[i] == 0 by {
            if i > 0 {
                assert(b[i] == rest[i - 1]);
            }
        }
        assert(strip_zeros(b) =~= strip_zeros(rest));
        if all_zero(rest) {
            assert forall|i: int| 0 <= i < b.len() implies #[trigger] b[i] == 0 by {
                if i > 0 {
                    assert(b[i] == rest[i - 1]);
                }
            }
        }
        if all_zero(b) {
            assert forall|i: int| 0 <= i < rest.len() implies #[trigger] rest[i] == 0 by {
                assert(rest[i] == b[i + 1]);
            }
        }
    } else if b.len() > 0 {
        assert(strip_zeros(b) =~= b);
        assert(b[0] != 0);
    }
}

/// The part of `bytes` behind its leading zero bytes.
pub fn skip_zeros(bytes: &[u8]) -> (rest: &[u8])
    ensures
        rest@ == strip_zeros(bytes@),
{
    let mut k: usize = 0;
    while k < bytes.len() && bytes[k] == 0
        invariant
            k <= bytes@.len(),
            forall|j: int| 0 <= j < k ==> bytes@[j] == 0,
        decreases bytes@.len() - k,
    {
        k += 1;
    }
    proof {
        lemma_leading_zeros(bytes@, k as int);
    }
    slice_subrange(bytes, k, bytes.len())
}

/// The hex text of `bytes` behind the marker `0x`, as a new string.
///
/// With `skip_leading_zero` the text is written the way unsigned integers
/// are: leading zero bytes and a leading zero digit are dropped, and a
/// buffer of zeros only, or an empty one, gives `0x0`. Without it every
/// byte gives two digits, and the empty buffer gives `0x`.
pub fn to_hex(bytes: &[u8], skip_leading_zero: bool) -> (r: String)
    requires
        room(
            if skip_leading_zero {
                strip_zeros(bytes@).len()
            } else {
                bytes@.len()
            },
            false,
        ) <= usize::MAX,
    ensures
        spells(r@, hex_text(bytes@, skip_leading_zero)),
{
    let kept = if skip_leading_zero {
        skip_zeros(bytes)
    } else {
        bytes
    };
    if kept.is_empty() {
        let short = if skip_leading_zero {
            "0x0"
        } else {
            "0x"
        };
        proof {
            reveal_strlit("0x0");
            reveal_strlit("0x");
            assert(short@ =~= as_chars(hex_text(bytes@, skip_leading_zero)));
            lemma_ascii_bytes(hex_text(bytes@, skip_leading_zero));
        }
        return short.to_owned();
    }
    let mut slice: Vec<u8> = vec![0u8; (kept.len() + 1) * 2];
    let text = to_hex_raw(slice.as_mut_slice(), kept, skip_leading_zero, false);
    text.to_owned()
}

/// The text that stands for `bytes` on the wire: `0x` for an empty buffer,
/// else every byte as two digits, behind the marker unless `cut_prefix` is
/// set.
pub open spec fn serial_text(bytes: Seq<u8>, cut_prefix: bool) -> Seq<u8> {
    if bytes.len() == 0 {
        marker()
    } else {
        raw_text(bytes, false, cut_prefix)
    }
}

/// Writes the raw hex text of `bytes` into `slice` and hands it back as
/// text to be passed on. An empty buffer gives `0x` and leaves `slice`
/// alone.
pub fn serialize_raw<'a>(slice: &'a mut [u8], bytes: &[u8], cut_prefix: bool) -> (r: &'a str)
    requires
        bytes@.len() > 0 ==> old(slice)@.len() >= room(bytes@.len(), cut_prefix),
    ensures
        spells(r@, serial_text(bytes@, cut_prefix)),
        bytes@.len() == 0 ==> final(slice)@ == old(slice)@,
        bytes@.len() > 0 ==> final(slice)@ == serial_text(bytes@, cut_prefix) + old(slice)@.skip(
            serial_text(bytes@, cut_prefix).len() as int,
        ),
{
    if bytes.is_empty() {
        proof {
            reveal_strlit("0x");
            assert("0x"@ =~= as_chars(marker()));
            lemma_ascii_bytes(marker());
        }
        "0x"
    } else {
        to_hex_raw(slice, bytes, false, cut_prefix)
    }
}

/// The raw hex text of `bytes`, as a new string: `0x`, then two digits for
/// every byte.
pub fn serialize(bytes: &[u8]) -> (r: String)
    requires
        room(bytes@.len(), false) <= usize::MAX,
    ensures
        spells(r@, hex_text(bytes@, false)),
{
    let mut slice: Vec<u8> = vec![0u8; (bytes.len() + 1) * 2];
    let text = serialize_raw(slice.as_mut_slice(), bytes, false);
    text.to_owned()
}

/// Writes `bytes` as an unsigned integer into `slice` and hands the text
/// back: leading zero bytes and a leading zero digit are trimmed, and a
/// buffer with nothing left gives `0x0` and leaves `slice` alone.
pub fn serialize_uint<'a>(slice: &'a mut [u8], bytes: &[u8]) -> (r: &'a str)
    requires
        strip_zeros(bytes@).len() > 0 ==> old(slice)@.len() >= room(
            strip_zeros(bytes@).len(),
            false,
        ),
    ensures
        spells(r@, hex_text(bytes@, true)),
        strip_zeros(bytes@).len() == 0 ==> final(slice)@ == old(slice)@,
        strip_zeros(bytes@).len() > 0 ==> final(slice)@ == hex_text(bytes@, true) + old(
            slice,
        )@.skip(hex_text(bytes@, true).len() as int),
{
    let kept = skip_zeros(bytes);
    if kept.is_empty() {
        proof {
            reveal_strlit("0x0");
            assert("0x0"@ =~= as_chars(zero_text()));
            lemma_ascii_bytes(zero_text());
        }
        "0x0"
    } else {
        to_hex_raw(slice, kept, true, false)
    }
}

} // verus!
