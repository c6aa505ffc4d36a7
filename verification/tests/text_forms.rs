use pot_diff::text::{
    decode_bytes, decode_hex_nibble, decode_string, encode_hex_nibble, BytesDisplay, DecodeError,
    StringDisplay, ValueDisplay,
};
use pot_diff::value::{Float, Integer, Value};

fn check_string_encode(string: &str, expected: &str) {
    assert_eq!(StringDisplay(string).to_string(), expected);

    let mut decoded = String::new();
    decode_string(expected, &mut decoded).unwrap();
    assert_eq!(decoded, string);
}

#[test]
fn string_display_test() {
    check_string_encode("", r#""""#);
    check_string_encode(" ", r#"" ""#);
    check_string_encode("\r\n\t\0\"\u{7}", r#""\r\n\t\0\"\x07""#);
}

fn check_byte_encode(bytes: &[u8], expected: &str) {
    assert_eq!(BytesDisplay(bytes).to_string(), expected);

    let mut decoded = Vec::new();
    decode_bytes(expected.as_bytes(), None, &mut decoded).unwrap();
    assert_eq!(decoded, bytes);
}

#[test]
fn byte_display_test() {
    check_byte_encode(&[], "#");
    check_byte_encode(&[0], "#00");
    check_byte_encode(&[b' '], "#20");
    check_byte_encode(&[b' ', b' '], "#|  ");
    check_byte_encode(&[b' ', b' ', b'|'], "#|  |7c");
    check_byte_encode(&[0xff, 0xff], "#ffff");
}

#[test]
fn hex_nibbles_are_lower_case_digits() {
    let digits = b"0123456789abcdef";
    for nibble in 0..16u8 {
        assert_eq!(encode_hex_nibble(nibble), digits[usize::from(nibble)]);
        assert_eq!(decode_hex_nibble(digits[usize::from(nibble)]), Ok(nibble));
    }
    assert_eq!(decode_hex_nibble(b'g'), Err(DecodeError::InvalidHexadecimal));
    assert_eq!(decode_hex_nibble(b'A'), Err(DecodeError::InvalidHexadecimal));
    assert_eq!(decode_hex_nibble(b'/'), Err(DecodeError::InvalidHexadecimal));
}

#[test]
fn control_characters_are_escaped_in_hexadecimal() {
    check_string_encode("\u{1b}", r#""\x1b""#);
    check_string_encode("\u{1f}\u{1}", r#""\x1f\x01""#);
    check_string_encode("a\\b", r#""a\\b""#);
    check_string_encode("\u{e9}\u{4e16}", "\"\u{e9}\u{4e16}\"");
}

#[test]
fn decode_string_counts_the_bytes_read() {
    let mut out = String::from("kept");
    assert_eq!(decode_string("\"ab\"rest", &mut out), Ok(4));
    assert_eq!(out, "keptab");

    // Without the opening quote the closing one still ends the text.
    let mut out = String::new();
    assert_eq!(decode_string("ab\"", &mut out), Ok(3));
    assert_eq!(out, "ab");

    // An escape counts two bytes, a hexadecimal escape four, any other
    // character its length in UTF-8.
    let mut out = String::new();
    assert_eq!(decode_string("\"\\n\\x07\u{e9}\"", &mut out), Ok(10));
    assert_eq!(out, "\n\u{7}\u{e9}");
}

#[test]
fn decode_string_reports_each_error() {
    let mut out = String::new();
    assert_eq!(decode_string("\"abc", &mut out), Err(DecodeError::MissingQuote));
    assert_eq!(decode_string("", &mut out), Err(DecodeError::MissingQuote));
    assert_eq!(decode_string("\"\\", &mut out), Err(DecodeError::InvalidEscape));
    assert_eq!(decode_string("\"\\q\"", &mut out), Err(DecodeError::InvalidEscape));
    assert_eq!(decode_string("\"\\x2", &mut out), Err(DecodeError::InvalidHexadecimal));
    assert_eq!(decode_string("\"\\xzz\"", &mut out), Err(DecodeError::InvalidHexadecimal));
    // Only characters below the space are written in hexadecimal.
    assert_eq!(decode_string("\"\\x20\"", &mut out), Err(DecodeError::InvalidEscape));
}

#[test]
fn decode_bytes_stops_at_the_terminator() {
    let mut out = Vec::new();
    assert_eq!(decode_bytes(b"#0a|hi|ff;rest", Some(b';'), &mut out), Ok(10));
    assert_eq!(out, vec![0x0a, b'h', b'i', 0xff]);

    let mut out = vec![1];
    assert_eq!(decode_bytes(b"00ff", None, &mut out), Ok(4));
    assert_eq!(out, vec![1, 0x00, 0xff]);
}

#[test]
fn decode_bytes_reports_bad_hexadecimal() {
    let mut out = Vec::new();
    assert_eq!(decode_bytes(b"#0", None, &mut out), Err(DecodeError::InvalidHexadecimal));
    assert_eq!(decode_bytes(b"#0g", None, &mut out), Err(DecodeError::InvalidHexadecimal));
    assert_eq!(decode_bytes(b"#G0", None, &mut out), Err(DecodeError::InvalidHexadecimal));
}

#[test]
fn bytes_never_show_a_separator_raw() {
    assert_eq!(BytesDisplay(b"a;b").to_string(), "#613b62");
    assert_eq!(BytesDisplay(b"ab;cd").to_string(), "#|ab|3b|cd");
    assert_eq!(BytesDisplay(b"ab|").to_string(), "#|ab|7c");
    assert_eq!(BytesDisplay(b"\x7fab").to_string(), "#7f|ab");
}

#[test]
fn values_render_as_text() {
    assert_eq!(ValueDisplay(&Value::Nil).to_string(), "none");
    assert_eq!(ValueDisplay(&Value::Unit).to_string(), "()");
    assert_eq!(ValueDisplay(&Value::Bool(true)).to_string(), "true");
    assert_eq!(ValueDisplay(&Value::Bool(false)).to_string(), "false");
    assert_eq!(ValueDisplay(&Value::Integer(Integer::I8(-128))).to_string(), "-128");
    assert_eq!(ValueDisplay(&Value::Integer(Integer::U8(0))).to_string(), "0");
    assert_eq!(
        ValueDisplay(&Value::Integer(Integer::I128(i128::MIN))).to_string(),
        "-170141183460469231731687303715884105728"
    );
    assert_eq!(
        ValueDisplay(&Value::Integer(Integer::U128(u128::MAX))).to_string(),
        "340282366920938463463374607431768211455"
    );
    assert_eq!(ValueDisplay(&Value::Integer(Integer::I64(1234567890123))).to_string(), "1234567890123");
    assert_eq!(ValueDisplay(&Value::Float(Float::Double(0.1f64.to_bits()))).to_string(), "0.1");
    assert_eq!(ValueDisplay(&Value::Float(Float::Single(0.1f32.to_bits()))).to_string(), "0.1");
    assert_eq!(ValueDisplay(&Value::Float(Float::Double((-2.5f64).to_bits()))).to_string(), "-2.5");
    assert_eq!(ValueDisplay(&Value::String(String::from("a\"b"))).to_string(), "\"a\\\"b\"");
    assert_eq!(ValueDisplay(&Value::Sequence(vec![])).to_string(), "[]");
    assert_eq!(ValueDisplay(&Value::Mappings(vec![])).to_string(), "{}");
    assert_eq!(
        ValueDisplay(&Value::Mappings(vec![
            (Value::Integer(Integer::I8(1)), Value::Sequence(vec![Value::Nil, Value::Unit])),
            (Value::Bytes(vec![0]), Value::Bool(true)),
        ]))
        .to_string(),
        "{1:[none,()],#00:true}"
    );
}

#[test]
fn every_pair_of_bytes_reads_back_from_its_text() {
    for first in 0..=255u8 {
        for second in [0u8, b' ', b'a', b'f', b'|', b';', b'#', 0x7e, 0x7f, 0xff] {
            for bytes in [vec![first], vec![first, second], vec![second, first, second]] {
                let text = BytesDisplay(&bytes).to_string();
                assert!(text.is_ascii());
                assert!(!text.contains(';'));
                let mut decoded = Vec::new();
                assert_eq!(decode_bytes(text.as_bytes(), None, &mut decoded), Ok(text.len()));
                assert_eq!(decoded, bytes);
            }
        }
    }
}

#[test]
fn every_character_reads_back_from_its_text() {
    let mut samples: Vec<char> = (0..0x80u8).map(char::from).collect();
    samples.extend(['\u{80}', '\u{e9}', '\u{7ff}', '\u{800}', '\u{ffff}', '\u{10000}', '\u{10ffff}']);
    for first in &samples {
        for second in ['a', '"', '\\', 'x', '0', '\u{1b}'] {
            let string: String = [*first, second, *first].iter().collect();
            let text = StringDisplay(&string).to_string();
            let mut decoded = String::new();
            assert_eq!(decode_string(&text, &mut decoded), Ok(text.len()));
            assert_eq!(decoded, string);
        }
    }
}
