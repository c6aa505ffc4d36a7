use pot_diff::binary::{decode, encode, read_change, read_value, write_value, DecodeError};
use pot_diff::change::{Change, Diff};
use pot_diff::value::{Float, Integer, Value};

fn number(value: i8) -> Value {
    Value::Integer(Integer::I8(value))
}

fn script(changes: Vec<Change>) -> Diff {
    Diff { changes }
}

fn round_trip(diff: &Diff) -> Diff {
    Diff::deserialize(&diff.serialize()).unwrap()
}

#[test]
fn empty_script_is_version_and_count() {
    let diff = script(vec![]);
    assert_eq!(diff.serialize(), vec![0, 0]);
    assert_eq!(round_trip(&diff).changes, vec![]);
}

#[test]
fn structural_changes_have_exact_bytes() {
    let diff = script(vec![
        Change::EnterSequence { index: None, key: false },
        Change::EnterMap { index: Some(3), key: false },
        Change::EnterSequence { index: Some(1), key: true },
        Change::Remove { index: 2, length: 5 },
        Change::Truncate { length: 300 },
        Change::Exit,
    ]);
    assert_eq!(
        diff.serialize(),
        vec![
            0, 6, // version, count
            0x02, // enter sequence at the root
            0x10, 3, // enter map at 3
            0x01, 1, // enter sequence in the key at 1
            0x40, 2, 5, // remove
            0x50, 0x11, 0x2c, // truncate to 300, in two bytes
            0x20, // exit
        ]
    );
    assert_eq!(round_trip(&diff).changes, diff.changes);
}

#[test]
fn replace_family_is_told_apart_by_flags() {
    let diff = script(vec![
        Change::Replace { index: None, value: Value::Nil },
        Change::Replace { index: Some(4), value: Value::Unit },
        Change::ReplaceKey { index: 1, key: Value::Bool(true) },
        Change::ReplaceMapping { index: 2, key: Value::Bool(false), value: number(1) },
        Change::Insert { index: 0, value: number(-1) },
        Change::InsertMapping { index: 7, key: number(2), value: Value::Nil },
    ]);
    assert_eq!(
        diff.serialize(),
        vec![
            0, 6, //
            0x32, 0x00, // replace the root with none
            0x30, 4, 0x01, // replace at 4 with unit
            0x31, 1, 0x03, // replace the key at 1 with true
            0x34, 2, 0x02, 0x20, 1, // replace the entry at 2 with false: 1
            0x60, 0, 0x20, 0xff, // insert -1 at 0
            0x64, 7, 0x20, 2, 0x00, // insert 2: none at 7
        ]
    );
    assert_eq!(round_trip(&diff).changes, diff.changes);
}

#[test]
fn values_are_written_as_atoms() {
    let mut out = vec![9];
    write_value(&mut out, &Value::String(String::from("hi")));
    assert_eq!(out, vec![9, 0xe2, b'h', b'i']);

    let mut out = Vec::new();
    write_value(&mut out, &Value::Bytes(vec![0xff, 0xfe, 0xfd]));
    assert_eq!(out, vec![0xe3, 0xff, 0xfe, 0xfd]);

    let mut out = Vec::new();
    write_value(&mut out, &Value::Sequence(vec![number(1), Value::Nil]));
    assert_eq!(out, vec![0x82, 0x20, 1, 0x00]);

    let mut out = Vec::new();
    write_value(&mut out, &Value::Mappings(vec![(number(1), Value::Bool(true))]));
    assert_eq!(out, vec![0xa1, 0x20, 1, 0x03]);

    let mut out = Vec::new();
    write_value(&mut out, &Value::Integer(Integer::U16(0x1234)));
    assert_eq!(out, vec![0x41, 0x34, 0x12]);

    let mut out = Vec::new();
    write_value(&mut out, &Value::Integer(Integer::I64(-2)));
    assert_eq!(out, vec![0x20, 0xfe]);

    // One is held in sixteen bits, a tenth only in sixty-four.
    let mut out = Vec::new();
    write_value(&mut out, &Value::Float(Float::Double(1f64.to_bits())));
    assert_eq!(out, vec![0x61, 0x00, 0x3c]);

    let mut out = Vec::new();
    write_value(&mut out, &Value::Float(Float::Double(0.1f64.to_bits())));
    let mut expected = vec![0x67];
    expected.extend_from_slice(&0.1f64.to_le_bytes());
    assert_eq!(out, expected);

    let mut out = Vec::new();
    write_value(&mut out, &Value::Float(Float::Single(0.1f32.to_bits())));
    let mut expected = vec![0x63];
    expected.extend_from_slice(&0.1f32.to_le_bytes());
    assert_eq!(out, expected);
}

#[test]
fn values_are_read_from_atoms() {
    let (value, rest) = read_value(&[0x82, 0x20, 1, 0x00, 0x55]).unwrap();
    assert_eq!(value, Value::Sequence(vec![number(1), Value::Nil]));
    assert_eq!(rest, &[0x55]);

    let (value, rest) = read_value(&[0xa1, 0x20, 1, 0x03, 0x55]).unwrap();
    assert_eq!(value, Value::Mappings(vec![(number(1), Value::Bool(true))]));
    assert_eq!(rest, &[0x55]);

    let (value, _) = read_value(&[0x41, 0x34, 0x12]).unwrap();
    assert_eq!(value, Value::Integer(Integer::U16(0x1234)));

    // Three bytes are held in thirty-two bits.
    let (value, _) = read_value(&[0x22, 0x01, 0x00, 0x80]).unwrap();
    assert_eq!(value, Value::Integer(Integer::I32(-8388607)));

    let (value, _) = read_value(&[0x61, 0x00, 0x3c]).unwrap();
    assert_eq!(value, Value::Float(Float::Single(1f32.to_bits())));

    let mut bytes = vec![0x67];
    bytes.extend_from_slice(&0.1f64.to_le_bytes());
    let (value, _) = read_value(&bytes).unwrap();
    assert_eq!(value, Value::Float(Float::Double(0.1f64.to_bits())));
}

#[test]
fn bytes_that_are_text_come_back_as_a_string() {
    let (value, _) = read_value(&[0xe2, b'h', b'i']).unwrap();
    assert_eq!(value, Value::String(String::from("hi")));

    let (value, _) = read_value(&[0xe2, 0xc3, 0x28]).unwrap();
    assert_eq!(value, Value::Bytes(vec![0xc3, 0x28]));

    let diff = script(vec![Change::Replace { index: None, value: Value::Bytes(b"hi".to_vec()) }]);
    assert_eq!(
        round_trip(&diff).changes,
        vec![Change::Replace { index: None, value: Value::String(String::from("hi")) }]
    );
}

#[test]
fn version_with_low_bits_is_rejected() {
    for version in 1..=0x7fu8 {
        assert!(matches!(decode(&[version, 0]), Err(DecodeError::UnsupportedVersion)));
        assert!(matches!(decode(&[version | 0x80, 0]), Err(DecodeError::UnsupportedVersion)));
        assert!(matches!(decode(&[version]), Err(DecodeError::UnsupportedVersion)));
    }
    // The top bit is kept for flags.
    assert_eq!(decode(&[0x80, 0]).unwrap().changes, vec![]);
}

#[test]
fn count_beyond_the_bytes_is_rejected() {
    assert!(matches!(decode(&[0, 1]), Err(DecodeError::InvalidData)));
    assert!(matches!(decode(&[0, 3, 0x20, 0x20]), Err(DecodeError::InvalidData)));
    // A count of 2^56 needs no room to be refused.
    assert!(matches!(decode(&[0, 0x71, 0, 0, 0, 0, 0, 0, 0, 0x20]), Err(DecodeError::InvalidData)));
    assert_eq!(decode(&[0, 2, 0x20, 0x20]).unwrap().changes, vec![Change::Exit, Change::Exit]);
}

#[test]
fn short_input_is_an_unexpected_end() {
    assert!(matches!(decode(&[]), Err(DecodeError::UnexpectedEof)));
    assert!(matches!(decode(&[0]), Err(DecodeError::UnexpectedEof)));
    // The count announces one more byte than there is.
    assert!(matches!(decode(&[0, 0x10]), Err(DecodeError::UnexpectedEof)));
    assert!(matches!(read_change(&[]), Err(DecodeError::UnexpectedEof)));
    // A remove without its length.
    assert!(matches!(read_change(&[0x40, 1]), Err(DecodeError::UnexpectedEof)));
    assert!(matches!(read_change(&[0x50]), Err(DecodeError::UnexpectedEof)));
}

#[test]
fn malformed_changes_are_invalid_data() {
    // No variant 7 and above.
    assert!(matches!(read_change(&[0x70]), Err(DecodeError::InvalidData)));
    assert!(matches!(read_change(&[0xf0]), Err(DecodeError::InvalidData)));
    // Key and mapping together, key or mapping at the root.
    assert!(matches!(read_change(&[0x35, 0, 0, 0]), Err(DecodeError::InvalidData)));
    assert!(matches!(read_change(&[0x33, 0]), Err(DecodeError::InvalidData)));
    assert!(matches!(read_change(&[0x36, 0, 0]), Err(DecodeError::InvalidData)));
    // An index of more than eight bytes.
    assert!(matches!(read_change(&[0x50, 0x90, 0, 0, 0, 0, 0, 0, 0, 0, 0]), Err(DecodeError::InvalidData)));
}

#[test]
fn atoms_with_no_place_in_a_script_are_invalid_data() {
    // A symbol.
    assert!(matches!(read_value(&[0xc2, b'a']), Err(DecodeError::InvalidData)));
    // A named value.
    assert!(matches!(read_value(&[0x04]), Err(DecodeError::InvalidData)));
    // A container that declares more children than bytes are left.
    assert!(matches!(read_value(&[0x83, 0x00, 0x00]), Err(DecodeError::InvalidData)));
    assert!(matches!(read_value(&[0x81]), Err(DecodeError::InvalidData)));
    assert!(matches!(read_value(&[0xa2, 0x00]), Err(DecodeError::InvalidData)));
    // A number of more than sixteen bytes.
    assert!(matches!(
        read_value(&[0x3f, 0xff, 0xff, 0xff, 0xff, 0xff, 0xff, 0xff, 0xff, 0x7f]),
        Err(DecodeError::InvalidData)
    ));
}

#[test]
fn atoms_that_the_codec_rejects_are_reported_with_its_message() {
    // A special atom that the codec does not know.
    match read_value(&[0x07]) {
        Err(DecodeError::AtomCodec(message)) => assert!(!message.is_empty()),
        other => panic!("unexpected {:?}", other),
    }
    // An integer of five bytes.
    assert!(matches!(read_value(&[0x24, 0, 0, 0, 0, 0]), Err(DecodeError::AtomCodec(_))));
    // Bytes that announce more than there is.
    assert!(matches!(read_value(&[0xe5, 1, 2]), Err(DecodeError::AtomCodec(_))));
    let diff = [0, 1, 0x32, 0x07];
    assert!(matches!(decode(&diff), Err(DecodeError::AtomCodec(_))));
}

#[test]
fn containers_may_take_all_the_bytes_that_are_left() {
    let (value, rest) = read_value(&[0x82, 0x00, 0x01]).unwrap();
    assert_eq!(value, Value::Sequence(vec![Value::Nil, Value::Unit]));
    assert_eq!(rest, &[] as &[u8]);
    let (value, _) = read_value(&[0x80]).unwrap();
    assert_eq!(value, Value::Sequence(vec![]));
    let (value, _) = read_value(&[0xa0]).unwrap();
    assert_eq!(value, Value::Mappings(vec![]));
    // An entry is a key and a value: one byte cannot hold both.
    assert!(matches!(read_value(&[0xa1, 0x00]), Err(DecodeError::UnexpectedEof)));
    assert!(matches!(read_value(&[]), Err(DecodeError::UnexpectedEof)));

    let diff = script(vec![Change::Replace { index: None, value: Value::Sequence(vec![]) }]);
    assert_eq!(round_trip(&diff).changes, diff.changes);
}

#[test]
fn encode_appends_to_what_is_there() {
    let mut out = vec![0xaa];
    encode(&script(vec![Change::Exit]), &mut out);
    assert_eq!(out, vec![0xaa, 0, 1, 0x20]);
}

#[test]
fn what_follows_the_changes_is_not_read() {
    assert_eq!(decode(&[0, 1, 0x20, 0xde, 0xad]).unwrap().changes, vec![Change::Exit]);
}

#[test]
fn scripts_round_trip_through_bytes() {
    let diff = script(vec![
        Change::EnterMap { index: None, key: false },
        Change::EnterSequence { index: Some(70000), key: true },
        Change::Insert { index: usize::MAX, value: Value::String(String::from("\u{e9}t\u{e9}")) },
        Change::Replace {
            index: Some(0),
            value: Value::Sequence(vec![
                Value::Integer(Integer::U64(u64::MAX)),
                Value::Integer(Integer::I128(i128::MIN)),
                Value::Float(Float::Single(2.5f32.to_bits())),
                Value::Mappings(vec![(Value::Unit, Value::Bytes(vec![0xff]))]),
                Value::Nil,
            ]),
        },
        Change::Exit,
        Change::ReplaceKey { index: 3, key: Value::Bool(false) },
    ]);
    assert_eq!(round_trip(&diff).changes, diff.changes);
}
