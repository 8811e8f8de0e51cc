use rust_csv_parser::decode::{decode_char, Decoded};

#[test]
fn decodes_one_byte() {
    assert_eq!(decode_char(b"a,b"), Decoded::Char { c: 'a', width: 1 });
    assert_eq!(decode_char(&[0x00]), Decoded::Char { c: '\0', width: 1 });
    assert_eq!(decode_char(&[0x7F, 0xFF]), Decoded::Char { c: '\u{7f}', width: 1 });
}

#[test]
fn decodes_two_bytes() {
    assert_eq!(decode_char(&[0xC3, 0xA9]), Decoded::Char { c: '\u{e9}', width: 2 });
    assert_eq!(decode_char(&[0xC2, 0x80, b'x']), Decoded::Char { c: '\u{80}', width: 2 });
    assert_eq!(decode_char(&[0xDF, 0xBF]), Decoded::Char { c: '\u{7ff}', width: 2 });
}

#[test]
fn decodes_three_bytes() {
    assert_eq!(decode_char(&[0xE2, 0x82, 0xAC]), Decoded::Char { c: '\u{20ac}', width: 3 });
    assert_eq!(decode_char(&[0xE0, 0xA0, 0x80]), Decoded::Char { c: '\u{800}', width: 3 });
    assert_eq!(decode_char(&[0xED, 0x9F, 0xBF]), Decoded::Char { c: '\u{d7ff}', width: 3 });
    assert_eq!(decode_char(&[0xEE, 0x80, 0x80]), Decoded::Char { c: '\u{e000}', width: 3 });
    assert_eq!(decode_char(&[0xEF, 0xBF, 0xBF]), Decoded::Char { c: '\u{ffff}', width: 3 });
}

#[test]
fn decodes_four_bytes() {
    assert_eq!(decode_char(&[0xF0, 0x9F, 0x98, 0x80]), Decoded::Char { c: '\u{1f600}', width: 4 });
    assert_eq!(decode_char(&[0xF0, 0x90, 0x80, 0x80]), Decoded::Char { c: '\u{10000}', width: 4 });
    assert_eq!(decode_char(&[0xF4, 0x8F, 0xBF, 0xBF]), Decoded::Char { c: '\u{10ffff}', width: 4 });
}

#[test]
fn empty_bytes_are_the_end() {
    assert_eq!(decode_char(&[]), Decoded::EndOfStream);
}

#[test]
fn a_cut_sequence_needs_more_bytes() {
    assert_eq!(decode_char(&[0xC3]), Decoded::NeedMoreBytes);
    assert_eq!(decode_char(&[0xE2, 0x82]), Decoded::NeedMoreBytes);
    assert_eq!(decode_char(&[0xE2]), Decoded::NeedMoreBytes);
    assert_eq!(decode_char(&[0xF0, 0x9F, 0x98]), Decoded::NeedMoreBytes);
    assert_eq!(decode_char(&[0xC0]), Decoded::NeedMoreBytes);
    assert_eq!(decode_char(&[0xE0, 0x41]), Decoded::NeedMoreBytes);
}

#[test]
fn malformed_sequences_are_invalid() {
    assert_eq!(decode_char(&[0x80]), Decoded::InvalidSequence);
    assert_eq!(decode_char(&[0xBF, 0x41]), Decoded::InvalidSequence);
    assert_eq!(decode_char(&[0xF8, 0x80, 0x80, 0x80]), Decoded::InvalidSequence);
    assert_eq!(decode_char(&[0xFF]), Decoded::InvalidSequence);
    assert_eq!(decode_char(&[0xC3, 0x28]), Decoded::InvalidSequence);
    assert_eq!(decode_char(&[0xC0, 0x80]), Decoded::InvalidSequence);
    assert_eq!(decode_char(&[0xC1, 0xBF]), Decoded::InvalidSequence);
    assert_eq!(decode_char(&[0xE0, 0x9F, 0xBF]), Decoded::InvalidSequence);
    assert_eq!(decode_char(&[0xED, 0xA0, 0x80]), Decoded::InvalidSequence);
    assert_eq!(decode_char(&[0xED, 0xBF, 0xBF]), Decoded::InvalidSequence);
    assert_eq!(decode_char(&[0xF0, 0x8F, 0xBF, 0xBF]), Decoded::InvalidSequence);
    assert_eq!(decode_char(&[0xF4, 0x90, 0x80, 0x80]), Decoded::InvalidSequence);
    assert_eq!(decode_char(&[0xF7, 0xBF, 0xBF, 0xBF]), Decoded::InvalidSequence);
    assert_eq!(decode_char(&[0xE2, 0x82, 0x41]), Decoded::InvalidSequence);
}

#[test]
fn every_character_decodes_from_its_encoding() {
    let mut buf = [0u8; 4];
    for n in 0..=0x10FFFFu32 {
        if let Some(c) = char::from_u32(n) {
            let width = c.encode_utf8(&mut buf).len();
            assert_eq!(decode_char(&buf[..width]), Decoded::Char { c, width });
        }
    }
}

#[test]
fn two_bytes_decode_as_the_standard_library_says() {
    for b0 in 0..=255u8 {
        for b1 in 0..=255u8 {
            let bytes = [b0, b1];
            let decoded = decode_char(&bytes);
            match std::str::from_utf8(&bytes) {
                Ok(s) => {
                    let c = s.chars().next().unwrap();
                    assert_eq!(decoded, Decoded::Char { c, width: c.len_utf8() });
                }
                Err(e) => {
                    if e.valid_up_to() == 1 {
                        assert_eq!(decoded, Decoded::Char { c: b0 as char, width: 1 });
                    } else if e.error_len().is_none() {
                        assert_eq!(decoded, Decoded::NeedMoreBytes);
                    } else {
                        assert!(matches!(
                            decoded,
                            Decoded::InvalidSequence | Decoded::NeedMoreBytes
                        ));
                    }
                }
            }
        }
    }
}
