use hexbytes::{from_hex, from_hex_raw, serialize, serialize_raw, serialize_uint, to_hex, to_hex_raw};
use hexbytes::encode::{skip_zeros, text_room};
use hexbytes::FromHexError;

#[test]
fn should_encode_to_and_from_hex_with_prefix() {
    assert_eq!(to_hex(&[0, 1, 2], true), "0x102");
    assert_eq!(to_hex(&[0, 1, 2], false), "0x000102");
    assert_eq!(to_hex(&[0], true), "0x0");
    assert_eq!(to_hex(&[], true), "0x0");
    assert_eq!(to_hex(&[], false), "0x");
    assert_eq!(to_hex(&[0], false), "0x00");
    assert_eq!(from_hex("0x0102"), Ok(vec![1, 2]));
    assert_eq!(from_hex("0x102"), Ok(vec![1, 2]));
    assert_eq!(from_hex("0xf"), Ok(vec![0xf]));
}

#[test]
fn should_decode_hex_without_prefix() {
    assert_eq!(from_hex("0102"), Ok(vec![1, 2]));
    assert_eq!(from_hex("102"), Ok(vec![1, 2]));
    assert_eq!(from_hex("f"), Ok(vec![0xf]));
}

#[test]
fn round_trip_raw_gives_the_buffer_back() {
    let buffers: Vec<Vec<u8>> = vec![
        vec![],
        vec![0],
        vec![0, 0, 7],
        vec![0x0f, 0xf0],
        vec![0xde, 0xad, 0xbe, 0xef],
        (0..=255u8).collect(),
    ];
    for b in buffers {
        assert_eq!(from_hex(&to_hex(&b, false)), Ok(b.clone()));
        assert_eq!(from_hex(&serialize(&b)), Ok(b));
    }
}

#[test]
fn round_trip_uint_drops_leading_zero_bytes() {
    assert_eq!(from_hex(&to_hex(&[0, 0, 7], true)), Ok(vec![7]));
    assert_eq!(from_hex(&to_hex(&[0, 1, 0], true)), Ok(vec![1, 0]));
    assert_eq!(from_hex(&to_hex(&[0x10, 0x00], true)), Ok(vec![0x10, 0x00]));
    assert_eq!(from_hex(&to_hex(&[0xab], true)), Ok(vec![0xab]));
    let all: Vec<u8> = (0..=255u8).collect();
    assert_eq!(from_hex(&to_hex(&all, true)), Ok(all[1..].to_vec()));
}

#[test]
fn uint_text_of_zeros_is_a_single_zero_digit() {
    assert_eq!(to_hex(&[], true), "0x0");
    assert_eq!(to_hex(&[0, 0, 0], true), "0x0");
    assert_eq!(from_hex("0x0"), Ok(vec![0]));
}

#[test]
fn marker_changes_nothing() {
    for s in ["", "0", "f", "0102", "102", "01 02\n03", "AbCdEf", " \t\r\n", "0 x"] {
        let with = format!("0x{}", s);
        if from_hex(s).is_ok() {
            assert_eq!(from_hex(s), from_hex(&with));
        } else {
            assert_ne!(from_hex(s), from_hex(&with));
        }
    }
    assert_eq!(from_hex("0x0102"), from_hex("0102"));
    assert_eq!(from_hex("0x f"), Ok(vec![0x0f]));
}

#[test]
fn odd_digit_count_pads_the_first_byte() {
    assert_eq!(from_hex("f"), Ok(vec![0x0f]));
    assert_eq!(from_hex("102"), Ok(vec![0x01, 0x02]));
    assert_eq!(from_hex("0x12345"), Ok(vec![0x01, 0x23, 0x45]));
}

#[test]
fn blanks_are_skipped() {
    assert_eq!(from_hex("01 02\n03"), Ok(vec![0x01, 0x02, 0x03]));
    assert_eq!(from_hex("0x 0\t1\r\n"), Ok(vec![0x01]));
    assert_eq!(from_hex("1 23"), Ok(vec![0x01, 0x23]));
    assert_eq!(from_hex(" "), Ok(vec![]));
}

#[test]
fn digits_of_either_case_are_read() {
    assert_eq!(from_hex("0xABCDEF"), Ok(vec![0xab, 0xcd, 0xef]));
    assert_eq!(from_hex("0xabcdef"), Ok(vec![0xab, 0xcd, 0xef]));
    assert_eq!(from_hex("09aF"), Ok(vec![0x09, 0xaf]));
}

#[test]
fn offending_character_is_reported_with_its_offset() {
    assert_eq!(from_hex("0xzz"), Err(FromHexError::InvalidHex { character: 'z', index: 2 }));
    assert_eq!(from_hex("zz"), Err(FromHexError::InvalidHex { character: 'z', index: 0 }));
    assert_eq!(from_hex("0x01g2"), Err(FromHexError::InvalidHex { character: 'g', index: 4 }));
    assert_eq!(from_hex("01 g"), Err(FromHexError::InvalidHex { character: 'g', index: 3 }));
    assert_eq!(from_hex("0X01"), Err(FromHexError::InvalidHex { character: 'X', index: 1 }));
    assert_eq!(from_hex("0x0x"), Err(FromHexError::InvalidHex { character: 'x', index: 3 }));
    assert_eq!(from_hex("x"), Err(FromHexError::InvalidHex { character: 'x', index: 0 }));
    assert_eq!(from_hex("/"), Err(FromHexError::InvalidHex { character: '/', index: 0 }));
    assert_eq!(from_hex(":"), Err(FromHexError::InvalidHex { character: ':', index: 0 }));
    assert_eq!(from_hex("@"), Err(FromHexError::InvalidHex { character: '@', index: 0 }));
    assert_eq!(from_hex("G"), Err(FromHexError::InvalidHex { character: 'G', index: 0 }));
    assert_eq!(from_hex("`"), Err(FromHexError::InvalidHex { character: '`', index: 0 }));
}

#[test]
fn text_outside_ascii_is_reported_by_its_first_byte() {
    assert_eq!(
        from_hex("12\u{e9}"),
        Err(FromHexError::InvalidHex { character: '\u{c3}', index: 2 })
    );
}

#[test]
fn empty_inputs_have_their_own_texts() {
    assert_eq!(to_hex(&[], false), "0x");
    assert_eq!(to_hex(&[], true), "0x0");
    assert_eq!(to_hex(&[0], true), "0x0");
    assert_eq!(to_hex(&[0, 1, 2], true), "0x102");
    assert_eq!(from_hex(""), Ok(vec![]));
    assert_eq!(from_hex("0x"), Ok(vec![]));
}

#[test]
fn raw_text_has_two_digits_to_the_byte() {
    for n in 0..40usize {
        let b = vec![0xa5u8; n];
        assert_eq!(to_hex(&b, false).len(), 2 * n + 2);
    }
    assert_eq!(to_hex(&[0x00, 0x9a, 0xbc, 0xdf], false), "0x009abcdf");
}

#[test]
fn raw_encoder_writes_into_the_front_of_its_buffer() {
    let mut buf = [0x55u8; 10];
    assert_eq!(to_hex_raw(&mut buf, &[0x01, 0xab], false, false), "0x01ab");
    assert_eq!(&buf, b"0x01abUUUU");

    let mut buf = [0x55u8; 10];
    assert_eq!(to_hex_raw(&mut buf, &[0x01, 0xab], true, false), "0x1ab");
    assert_eq!(&buf, b"0x1abUUUUU");

    let mut buf = [0x55u8; 4];
    assert_eq!(to_hex_raw(&mut buf, &[0x01, 0xab], false, true), "01ab");
    assert_eq!(&buf, b"01ab");

    let mut buf = [0x55u8; 4];
    assert_eq!(to_hex_raw(&mut buf, &[0x01, 0xab], true, true), "1ab");
    assert_eq!(&buf, b"1abU");

    let mut buf = [0x55u8; 4];
    assert_eq!(to_hex_raw(&mut buf, &[0x00], true, false), "0x0");
    assert_eq!(&buf, b"0x0U");

    let mut buf = [0x55u8; 4];
    assert_eq!(to_hex_raw(&mut buf, &[0x10], true, false), "0x10");
}

#[test]
fn raw_decoder_writes_into_the_front_of_its_buffer() {
    let mut out = [9u8; 4];
    assert_eq!(from_hex_raw("0102", &mut out, false), Ok(2));
    assert_eq!(out, [1, 2, 9, 9]);

    let mut out = [9u8; 4];
    assert_eq!(from_hex_raw("102", &mut out, true), Ok(2));
    assert_eq!(out, [1, 2, 9, 9]);

    let mut out = [9u8; 4];
    assert_eq!(from_hex_raw("", &mut out, false), Ok(0));
    assert_eq!(out, [9, 9, 9, 9]);
}

#[test]
fn raw_decoder_reports_the_offset_in_the_text_with_its_marker() {
    let mut out = [9u8; 4];
    assert_eq!(
        from_hex_raw("0102zz", &mut out, true),
        Err(FromHexError::InvalidHex { character: 'z', index: 6 })
    );
    assert_eq!(out, [1, 2, 9, 9]);

    let mut out = [9u8; 4];
    assert_eq!(
        from_hex_raw("0102zz", &mut out, false),
        Err(FromHexError::InvalidHex { character: 'z', index: 4 })
    );
    assert_eq!(out, [1, 2, 9, 9]);

    let mut out = [9u8; 4];
    assert_eq!(
        from_hex_raw("123z", &mut out, false),
        Err(FromHexError::InvalidHex { character: 'z', index: 3 })
    );
    assert_eq!(out, [0x12, 9, 9, 9]);
}

#[test]
fn serialize_raw_keeps_every_byte() {
    let mut buf = [0u8; 8];
    assert_eq!(serialize_raw(&mut buf, &[0, 1, 2], false), "0x000102");
    let mut buf = [0u8; 8];
    assert_eq!(serialize_raw(&mut buf, &[0, 1, 2], true), "000102");
    let mut buf = [7u8; 2];
    assert_eq!(serialize_raw(&mut buf, &[], false), "0x");
    assert_eq!(buf, [7, 7]);
    let mut buf = [7u8; 0];
    assert_eq!(serialize_raw(&mut buf, &[], true), "0x");
    assert_eq!(serialize(&[0xff, 0x00]), "0xff00");
    assert_eq!(serialize(&[]), "0x");
}

#[test]
fn serialize_uint_trims_leading_zeros() {
    let mut buf = [0u8; 8];
    assert_eq!(serialize_uint(&mut buf, &[0, 1, 2]), "0x102");
    let mut buf = [0u8; 8];
    assert_eq!(serialize_uint(&mut buf, &[0, 0, 0x12]), "0x12");
    let mut buf = [7u8; 1];
    assert_eq!(serialize_uint(&mut buf, &[0, 0]), "0x0");
    assert_eq!(buf, [7]);
    let mut buf = [0u8; 0];
    assert_eq!(serialize_uint(&mut buf, &[]), "0x0");
}

#[test]
fn room_is_two_digits_to_the_byte_and_the_marker() {
    assert_eq!(text_room(0, false), Some(2));
    assert_eq!(text_room(0, true), Some(0));
    assert_eq!(text_room(3, false), Some(8));
    assert_eq!(text_room(3, true), Some(6));
    assert_eq!(text_room(usize::MAX / 2, true), Some(usize::MAX - 1));
    assert_eq!(text_room(usize::MAX / 2, false), None);
    assert_eq!(text_room(usize::MAX / 2 - 1, false), Some(usize::MAX - 1));
    assert_eq!(text_room(usize::MAX, true), None);
}

#[test]
fn leading_zero_bytes_are_skipped() {
    assert_eq!(skip_zeros(&[0, 0, 1, 0]), &[1, 0]);
    assert_eq!(skip_zeros(&[0, 0]), &[] as &[u8]);
    assert_eq!(skip_zeros(&[]), &[] as &[u8]);
    assert_eq!(skip_zeros(&[5, 0]), &[5, 0]);
}
