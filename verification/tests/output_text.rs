use functerm::output::{decode_text, DecodeError};
use functerm::request::optional_description;

#[test]
fn reads_utf16_little_endian_output() {
    let bytes = [
        0xFF, 0xFE, b'H', 0x00, b'E', 0x00, b'L', 0x00, b'L', 0x00, b'O', 0x00,
    ];
    let text = decode_text(&bytes).unwrap();
    assert_eq!(text, "HELLO");
}

#[test]
fn reads_utf8_with_bom_output() {
    let text = decode_text(&[0xEF, 0xBB, 0xBF, b'{', b'}']).unwrap();
    assert_eq!(text, "{}");
}

#[test]
fn reads_utf16_both_byte_orders_with_surrogate_pairs() {
    let input = "中文 🦀\ttext\r\n";
    for little_endian in [true, false] {
        let mut bytes = if little_endian { vec![0xFF, 0xFE] } else { vec![0xFE, 0xFF] };
        for unit in input.encode_utf16() {
            if little_endian {
                bytes.push((unit & 0xff) as u8);
                bytes.push((unit >> 8) as u8);
            } else {
                bytes.push((unit >> 8) as u8);
                bytes.push((unit & 0xff) as u8);
            }
        }
        assert_eq!(decode_text(&bytes).unwrap(), input);
    }
}

#[test]
fn plain_utf8_and_empty_output() {
    assert_eq!(decode_text("中文 🦀".as_bytes()).unwrap(), "中文 🦀");
    assert_eq!(decode_text(b"").unwrap(), "");
    assert_eq!(decode_text(&[0xFF, 0xFE]).unwrap(), "");
}

#[test]
fn malformed_output_is_reported() {
    assert_eq!(decode_text(&[0xFF, 0xFE, b'H']), Err(DecodeError::InvalidUtf16));
    assert_eq!(decode_text(&[0xFF, 0xFE, 0x00, 0xD8]), Err(DecodeError::InvalidUtf16));
    assert_eq!(decode_text(&[0xFE, 0xFF, 0xDC, 0x00, 0x00, 0x41]), Err(DecodeError::InvalidUtf16));
    assert_eq!(decode_text(&[0xEF, 0xBB, 0xBF, 0xC3]), Err(DecodeError::InvalidUtf8));
    assert_eq!(decode_text(&[0x80]), Err(DecodeError::InvalidUtf8));
}

#[test]
fn empty_description_is_omitted() {
    assert!(optional_description("").is_none());
}

#[test]
fn configured_description_is_kept() {
    assert_eq!(optional_description("directory").as_deref(), Some("directory"));
}
