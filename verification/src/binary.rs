//! The binary form of a script.
//!
//! A script is one version byte, the number of its changes as a
//! variable-length integer, and the changes, packed. Each change starts
//! with one byte: the variant in the upper four bits, flags in the lower
//! four. Indices and lengths are variable-length integers; values are atoms
//! of the atom codec.

use vstd::prelude::*;

use crate::change::{change_views, Change, ChangeView, Diff};
use crate::codec::{
    atom_header, atom_parse, float_atom, header_parse, integer_atom, read_atom, read_atom_header,
    read_varint, string_from_utf8, varint_bytes, varint_parse, write_atom_header, write_bool,
    write_bytes, write_float, write_integer, write_none, write_str, write_unit,
    write_varint, Payload, PayloadView, StreamFault, KIND_BYTES, KIND_FLOAT, KIND_INT, KIND_MAP,
    KIND_SEQUENCE, KIND_SPECIAL, KIND_UINT, SPECIAL_FALSE, SPECIAL_NONE, SPECIAL_TRUE,
    SPECIAL_UNIT,
};
use crate::value::{
    entry_views, lemma_view_mappings, lemma_view_sequence, views, Float, Integer, Value, ValueView,
};

verus! {

/// The version of the format. The top bit of the version byte is kept for
/// flags to come.
pub const VERSION: u8 = 0;

pub const KEY_FLAG: u8 = 1;

pub const ROOT_FLAG: u8 = 2;

pub const MAPPING_FLAG: u8 = 4;

pub const ENTER_SEQUENCE: u8 = 0;

pub const ENTER_MAP: u8 = 1;

pub const EXIT: u8 = 2;

pub const REPLACE: u8 = 3;

pub const REMOVE: u8 = 4;

pub const TRUNCATE: u8 = 5;

pub const INSERT: u8 = 6;

/// The first byte of a change: the variant in the upper four bits, the
/// flags in the lower four.
pub open spec fn change_byte(variant: u8, extra_info: u8) -> u8 {
    (variant << 4) | extra_info
}

/// Appends the first byte of a change.
pub fn write_change_byte(out: &mut Vec<u8>, variant: u8, extra_info: u8)
    requires
        variant < 16,
        extra_info < 16,
    ensures
        final(out)@ == old(out)@.push(change_byte(variant, extra_info)),
{
    out.push((variant << 4) | extra_info);
}

/// Whether `flag` is set in `source`.
pub open spec fn bit_set(source: u8, flag: u8) -> bool {
    (source & flag) != 0
}

/// Tells whether `flag` is set in `source`.
pub fn check_bit(source: u8, flag: u8) -> (set: bool)
    ensures
        set == bit_set(source, flag),
{
    (source & flag) != 0
}

/// The flags of an `Enter` or a `Replace`: whether it names a key, and
/// whether it names the root.
pub open spec fn place_flags(index: Option<nat>, key: bool) -> u8 {
    if key {
        if index is None {
            3
        } else {
            1
        }
    } else {
        if index is None {
            2
        } else {
            0
        }
    }
}

/// The bytes of an index, if there is one.
pub open spec fn index_bytes(index: Option<nat>) -> Seq<u8> {
    match index {
        Some(index) => varint_bytes(index as usize),
        None => Seq::empty(),
    }
}

/// The binary form of a value: the atom of a leaf; for a container, the
/// head that tells its length, then its children.
pub open spec fn value_bytes(value: ValueView) -> Seq<u8>
    decreases value, 0nat,
{
    match value {
        ValueView::Nil => atom_header(KIND_SPECIAL, SPECIAL_NONE),
        ValueView::Unit => atom_header(KIND_SPECIAL, SPECIAL_UNIT),
        ValueView::Bool(value) => atom_header(
            KIND_SPECIAL,
            if value {
                SPECIAL_TRUE
            } else {
                SPECIAL_FALSE
            },
        ),
        ValueView::Integer(integer) => integer_atom(integer),
        ValueView::Float(float) => float_atom(float is Double, float.bits()),
        ValueView::Bytes(bytes) => atom_header(KIND_BYTES, bytes.len() as u64) + bytes,
        ValueView::String(chars) => atom_header(
            KIND_BYTES,
            vstd::utf8::encode_utf8(chars).len() as u64,
        ) + vstd::utf8::encode_utf8(chars),
        ValueView::Sequence(values) => atom_header(KIND_SEQUENCE, values.len() as u64)
            + sequence_bytes(values, values.len()),
        ValueView::Mappings(entries) => atom_header(KIND_MAP, entries.len() as u64)
            + mappings_bytes(entries, entries.len()),
    }
}

/// The binary forms of the first `count` values, one after another.
pub open spec fn sequence_bytes(values: Seq<ValueView>, count: nat) -> Seq<u8>
    decreases values, count,
{
    if count == 0 || count > values.len() {
        Seq::empty()
    } else {
        sequence_bytes(values, (count - 1) as nat) + value_bytes(values[count - 1])
    }
}

/// The binary forms of the first `count` entries, key before value, one
/// after another.
pub open spec fn mappings_bytes(entries: Seq<(ValueView, ValueView)>, count: nat) -> Seq<u8>
    decreases entries, count,
{
    if count == 0 || count > entries.len() {
        Seq::empty()
    } else {
        mappings_bytes(entries, (count - 1) as nat) + value_bytes(entries[count - 1].0)
            + value_bytes(entries[count - 1].1)
    }
}

/// The binary form of a change.
pub open spec fn change_bytes(change: ChangeView) -> Seq<u8> {
    match change {
        ChangeView::EnterSequence { index, key } => seq![
            change_byte(ENTER_SEQUENCE, place_flags(index, key)),
        ] + index_bytes(index),
        ChangeView::EnterMap { index, key } => seq![change_byte(ENTER_MAP, place_flags(index, key))]
            + index_bytes(index),
        ChangeView::Exit => seq![change_byte(EXIT, 0)],
        ChangeView::Replace { index, value } => seq![change_byte(REPLACE, place_flags(index, false))]
            + index_bytes(index) + value_bytes(value),
        ChangeView::ReplaceKey { index, key } => seq![change_byte(REPLACE, KEY_FLAG)] + varint_bytes(
            index as usize,
        ) + value_bytes(key),
        ChangeView::ReplaceMapping { index, key, value } => seq![change_byte(REPLACE, MAPPING_FLAG)]
            + varint_bytes(index as usize) + value_bytes(key) + value_bytes(value),
        ChangeView::Remove { index, length } => seq![change_byte(REMOVE, 0)] + varint_bytes(
            index as usize,
        ) + varint_bytes(length as usize),
        ChangeView::Truncate { length } => seq![change_byte(TRUNCATE, 0)] + varint_bytes(
            length as usize,
        ),
        ChangeView::Insert { index, value } => seq![change_byte(INSERT, 0)] + varint_bytes(
            index as usize,
        ) + value_bytes(value),
        ChangeView::InsertMapping { index, key, value } => seq![change_byte(INSERT, MAPPING_FLAG)]
            + varint_bytes(index as usize) + value_bytes(key) + value_bytes(value),
    }
}

/// The binary forms of the first `count` changes, one after another.
pub open spec fn changes_bytes(changes: Seq<ChangeView>, count: nat) -> Seq<u8>
    decreases count,
{
    if count == 0 || count > changes.len() {
        Seq::empty()
    } else {
        changes_bytes(changes, (count - 1) as nat) + change_bytes(changes[count - 1])
    }
}

/// The binary form of a script: the version byte, the number of changes,
/// the changes.
pub open spec fn script_bytes(changes: Seq<ChangeView>) -> Seq<u8> {
    seq![VERSION] + varint_bytes(changes.len() as usize) + changes_bytes(changes, changes.len())
}

/// Appends the binary form of a value.
pub fn write_value(out: &mut Vec<u8>, value: &Value)
    ensures
        final(out)@ == old(out)@ + value_bytes(value@),
    decreases value,
{
    match value {
        Value::Nil => write_none(out),
        Value::Unit => write_unit(out),
        Value::Bool(value) => write_bool(*value, out),
        Value::Integer(integer) => write_integer(*integer, out),
        Value::Float(float) => write_float(*float, out),
        Value::Bytes(bytes) => {
            write_bytes(bytes.as_slice(), out);
        },
        Value::String(string) => write_str(string.as_str(), out),
        Value::Sequence(sequence) => {
            proof {
                lemma_view_sequence(*sequence);
            }
            write_atom_header(KIND_SEQUENCE, sequence.len() as u64, out);
            let ghost head = out@;
            let mut i: usize = 0;
            assert(head + sequence_bytes(views(sequence@), 0) =~= head);
            while i < sequence.len()
                invariant
                    i <= sequence.len(),
                    value is Sequence,
                    value->Sequence_0 == *sequence,
                    out@ == head + sequence_bytes(views(sequence@), i as nat),
                decreases sequence.len() - i,
            {
                write_value(out, &sequence[i]);
                i += 1;
                assert(out@ =~= head + sequence_bytes(views(sequence@), i as nat));
            }
            assert(out@ =~= old(out)@ + value_bytes(value@));
        },
        Value::Mappings(mappings) => {
            proof {
                lemma_view_mappings(*mappings);
            }
            write_atom_header(KIND_MAP, mappings.len() as u64, out);
            let ghost head = out@;
            let mut i: usize = 0;
            assert(head + mappings_bytes(entry_views(mappings@), 0) =~= head);
            while i < mappings.len()
                invariant
                    i <= mappings.len(),
                    value is Mappings,
                    value->Mappings_0 == *mappings,
                    out@ == head + mappings_bytes(entry_views(mappings@), i as nat),
                decreases mappings.len() - i,
            {
                write_value(out, &mappings[i].0);
                write_value(out, &mappings[i].1);
                i += 1;
                assert(out@ =~= head + mappings_bytes(entry_views(mappings@), i as nat));
            }
            assert(out@ =~= old(out)@ + value_bytes(value@));
        },
    }
}

/// Appends the binary form of a change.
#[verifier::rlimit(30)]
pub fn write_change(out: &mut Vec<u8>, change: &Change)
    ensures
        final(out)@ == old(out)@ + change_bytes(change@),
{
    match change {
        Change::EnterSequence { index, key } => {
            let mut flags: u8 = 0;
            if *key {
                flags = flags + KEY_FLAG;
            }
            if index.is_none() {
                flags = flags + ROOT_FLAG;
            }
            write_change_byte(out, ENTER_SEQUENCE, flags);
            if let Some(index) = index {
                write_varint(*index, out);
            }
            assert(out@ =~= old(out)@ + change_bytes(change@));
        },
        Change::EnterMap { index, key } => {
            let mut flags: u8 = 0;
            if *key {
                flags = flags + KEY_FLAG;
            }
            if index.is_none() {
                flags = flags + ROOT_FLAG;
            }
            write_change_byte(out, ENTER_MAP, flags);
            if let Some(index) = index {
                write_varint(*index, out);
            }
            assert(out@ =~= old(out)@ + change_bytes(change@));
        },
        Change::Exit => {
            write_change_byte(out, EXIT, 0);
            assert(out@ =~= old(out)@ + change_bytes(change@));
        },
        Change::Replace { index, value } => {
            let mut flags: u8 = 0;
            if index.is_none() {
                flags = flags + ROOT_FLAG;
            }
            write_change_byte(out, REPLACE, flags);
            if let Some(index) = index {
                write_varint(*index, out);
            }
            write_value(out, value);
            assert(out@ =~= old(out)@ + change_bytes(change@));
        },
        Change::ReplaceKey { index, key } => {
            write_change_byte(out, REPLACE, KEY_FLAG);
            write_varint(*index, out);
            write_value(out, key);
            assert(out@ =~= old(out)@ + change_bytes(change@));
        },
        Change::ReplaceMapping { index, key, value } => {
            write_change_byte(out, REPLACE, MAPPING_FLAG);
            write_varint(*index, out);
            write_value(out, key);
            write_value(out, value);
            assert(out@ =~= old(out)@ + change_bytes(change@));
        },
        Change::Remove { index, length } => {
            write_change_byte(out, REMOVE, 0);
            write_varint(*index, out);
            write_varint(*length, out);
            assert(out@ =~= old(out)@ + change_bytes(change@));
        },
        Change::Truncate { length } => {
            write_change_byte(out, TRUNCATE, 0);
            write_varint(*length, out);
            assert(out@ =~= old(out)@ + change_bytes(change@));
        },
        Change::Insert { index, value } => {
            write_change_byte(out, INSERT, 0);
            write_varint(*index, out);
            write_value(out, value);
            assert(out@ =~= old(out)@ + change_bytes(change@));
        },
        Change::InsertMapping { index, key, value } => {
            write_change_byte(out, INSERT, MAPPING_FLAG);
            write_varint(*index, out);
            write_value(out, key);
            write_value(out, value);
            assert(out@ =~= old(out)@ + change_bytes(change@));
        },
    }
}

/// Appends the binary form of a script: see [`script_bytes`].
pub fn encode(diff: &Diff, out: &mut Vec<u8>)
    ensures
        final(out)@ == old(out)@ + script_bytes(diff@),
{
    out.push(VERSION);
    write_varint(diff.changes.len(), out);
    let ghost head = out@;
    let mut i: usize = 0;
    assert(head + changes_bytes(diff@, 0) =~= head);
    while i < diff.changes.len()
        invariant
            i <= diff.changes.len(),
            out@ == head + changes_bytes(diff@, i as nat),
        decreases diff.changes.len() - i,
    {
        write_change(out, &diff.changes[i]);
        i += 1;
        assert(out@ =~= head + changes_bytes(diff@, i as nat));
    }
    assert(out@ =~= old(out)@ + script_bytes(diff@));
}

impl Diff {
    /// The binary form of the script: see [`script_bytes`].
    pub fn serialize(&self) -> (bytes: Vec<u8>)
        ensures
            bytes@ == script_bytes(self@),
    {
        let mut bytes = Vec::new();
        encode(self, &mut bytes);
        assert(Seq::<u8>::empty() + script_bytes(self@) =~= script_bytes(self@));
        bytes
    }
}

/// Why bytes could not be decoded.
#[derive(Debug)]
pub enum DecodeError {
    /// The version byte names a version that this crate does not read.
    UnsupportedVersion,
    /// The bytes ended before the script did.
    UnexpectedEof,
    /// The bytes are no script: a change byte with flags it cannot have, a
    /// variant or a kind of atom that has no place in a script, a length
    /// that the bytes cannot hold.
    InvalidData,
    /// The atom codec rejected a value, with this message.
    AtomCodec(String),
}

/// The kind of a [`DecodeError`].
#[derive(Clone, Copy, Debug, PartialEq, Eq, Structural)]
pub enum Fault {
    UnsupportedVersion,
    UnexpectedEof,
    InvalidData,
    AtomCodec,
}

impl View for DecodeError {
    type V = Fault;

    open spec fn view(&self) -> Fault {
        match self {
            DecodeError::UnsupportedVersion => Fault::UnsupportedVersion,
            DecodeError::UnexpectedEof => Fault::UnexpectedEof,
            DecodeError::InvalidData => Fault::InvalidData,
            DecodeError::AtomCodec(_) => Fault::AtomCodec,
        }
    }
}

/// The fault that a failed read of a variable-length integer is reported as.
pub open spec fn stream_fault(fault: StreamFault) -> Fault {
    match fault {
        StreamFault::UnexpectedEof => Fault::UnexpectedEof,
        StreamFault::InvalidData => Fault::InvalidData,
    }
}

impl DecodeError {
    /// The error that a failed read of a variable-length integer is
    /// reported as: the end of the input as such, anything else as invalid
    /// data.
    pub fn from(fault: StreamFault) -> (error: DecodeError)
        ensures
            error@ == stream_fault(fault),
    {
        match fault {
            StreamFault::UnexpectedEof => DecodeError::UnexpectedEof,
            StreamFault::InvalidData => DecodeError::InvalidData,
        }
    }
}

/// What was parsed from the start of some input, and the bytes it took.
pub struct Parsed<T> {
    pub value: T,
    pub taken: nat,
}

/// The variable-length integer at the start of `input`.
pub open spec fn parse_varint(input: Seq<u8>) -> Result<Parsed<usize>, Fault> {
    match varint_parse(input) {
        Ok((value, taken)) => if taken <= input.len() {
            Ok(Parsed { value, taken })
        } else {
            Err(Fault::InvalidData)
        },
        Err(fault) => Err(stream_fault(fault)),
    }
}

/// The integer that the head and the nucleus of an integer atom stand for:
/// the kind tells whether it is signed, the argument its byte length less
/// one. Three bytes are held in 32 bits, six bytes in 64.
pub open spec fn integer_of(kind: u8, arg: u64, signed: Option<i128>, unsigned: Option<u128>) -> Option<
    Integer,
> {
    if kind == KIND_INT {
        match signed {
            Some(value) => if arg == 0 && i8::MIN <= value <= i8::MAX {
                Some(Integer::I8(value as i8))
            } else if arg == 1 && i16::MIN <= value <= i16::MAX {
                Some(Integer::I16(value as i16))
            } else if (arg == 2 || arg == 3) && i32::MIN <= value <= i32::MAX {
                Some(Integer::I32(value as i32))
            } else if (arg == 5 || arg == 7) && i64::MIN <= value <= i64::MAX {
                Some(Integer::I64(value as i64))
            } else if arg == 15 {
                Some(Integer::I128(value))
            } else {
                None
            },
            None => None,
        }
    } else {
        match unsigned {
            Some(value) => if arg == 0 && value <= u8::MAX {
                Some(Integer::U8(value as u8))
            } else if arg == 1 && value <= u16::MAX {
                Some(Integer::U16(value as u16))
            } else if (arg == 2 || arg == 3) && value <= u32::MAX {
                Some(Integer::U32(value as u32))
            } else if (arg == 5 || arg == 7) && value <= u64::MAX {
                Some(Integer::U64(value as u64))
            } else if arg == 15 {
                Some(Integer::U128(value))
            } else {
                None
            },
            None => None,
        }
    }
}

/// Builds the integer that the head and the nucleus of an integer atom
/// stand for.
fn make_integer(kind: u8, arg: u64, signed: Option<i128>, unsigned: Option<u128>) -> (integer: Option<
    Integer,
>)
    ensures
        integer == integer_of(kind, arg, signed, unsigned),
{
    if kind == KIND_INT {
        match signed {
            Some(value) => if arg == 0 && -128 <= value && value <= 127 {
                Some(Integer::I8(value as i8))
            } else if arg == 1 && -32768 <= value && value <= 32767 {
                Some(Integer::I16(value as i16))
            } else if (arg == 2 || arg == 3) && -2147483648 <= value && value <= 2147483647 {
                Some(Integer::I32(value as i32))
            } else if (arg == 5 || arg == 7) && -9223372036854775808 <= value && value
                <= 9223372036854775807 {
                Some(Integer::I64(value as i64))
            } else if arg == 15 {
                Some(Integer::I128(value))
            } else {
                None
            },
            None => None,
        }
    } else {
        match unsigned {
            Some(value) => if arg == 0 && value <= 255 {
                Some(Integer::U8(value as u8))
            } else if arg == 1 && value <= 65535 {
                Some(Integer::U16(value as u16))
            } else if (arg == 2 || arg == 3) && value <= 4294967295 {
                Some(Integer::U32(value as u32))
            } else if (arg == 5 || arg == 7) && value <= 18446744073709551615 {
                Some(Integer::U64(value as u64))
            } else if arg == 15 {
                Some(Integer::U128(value))
            } else {
                None
            },
            None => None,
        }
    }
}

/// The sequence whose head took `taken` bytes and whose children are
/// `children`.
pub open spec fn sequence_parsed(taken: nat, children: Result<Parsed<Seq<ValueView>>, Fault>) -> Result<
    Parsed<ValueView>,
    Fault,
> {
    match children {
        Ok(children) => Ok(
            Parsed { value: ValueView::Sequence(children.value), taken: taken + children.taken },
        ),
        Err(fault) => Err(fault),
    }
}

/// The mappings container whose head took `taken` bytes and whose entries
/// are `children`.
pub open spec fn mappings_parsed(
    taken: nat,
    children: Result<Parsed<Seq<(ValueView, ValueView)>>, Fault>,
) -> Result<Parsed<ValueView>, Fault> {
    match children {
        Ok(children) => Ok(
            Parsed { value: ValueView::Mappings(children.value), taken: taken + children.taken },
        ),
        Err(fault) => Err(fault),
    }
}

/// The value at the start of `input`.
///
/// The atom codec reads the head and the payload of the atom. A special
/// atom is the unit, a boolean or nothing, as its argument tells; an
/// integer is what [`integer_of`] makes of it, a float what
/// [`Float::canonical`] makes of its bits; bytes that are valid UTF-8 are a
/// string, other bytes stay bytes. A sequence or a map tells the number
/// of its children, which cannot be more than the bytes that are left, and
/// the children follow. Every other atom is invalid, and so is no atom at
/// all.
pub open spec fn parse_value(input: Seq<u8>) -> Result<Parsed<ValueView>, Fault>
    decreases input.len(), 0nat,
{
    match header_parse(input) {
        _ if input.len() == 0 => Err(Fault::UnexpectedEof),
        None => Err(Fault::AtomCodec),
        Some((kind, arg)) => if KIND_INT <= kind <= KIND_FLOAT && arg > 15 {
            Err(Fault::InvalidData)
        } else {
            match atom_parse(input) {
                None => Err(Fault::AtomCodec),
                Some((atom, taken)) => if taken > input.len() {
                    Err(Fault::InvalidData)
                } else if atom.kind == KIND_SPECIAL {
                    if atom.arg == SPECIAL_NONE {
                        Ok(Parsed { value: ValueView::Nil, taken })
                    } else if atom.arg == SPECIAL_UNIT {
                        Ok(Parsed { value: ValueView::Unit, taken })
                    } else if atom.arg == SPECIAL_FALSE {
                        Ok(Parsed { value: ValueView::Bool(false), taken })
                    } else if atom.arg == SPECIAL_TRUE {
                        Ok(Parsed { value: ValueView::Bool(true), taken })
                    } else {
                        Err(Fault::InvalidData)
                    }
                } else if atom.kind == KIND_INT || atom.kind == KIND_UINT {
                    match atom.payload {
                        PayloadView::Integer(signed, unsigned) => match integer_of(
                            atom.kind,
                            atom.arg,
                            signed,
                            unsigned,
                        ) {
                            Some(integer) => Ok(Parsed { value: ValueView::Integer(integer), taken }),
                            None => Err(Fault::InvalidData),
                        },
                        _ => Err(Fault::InvalidData),
                    }
                } else if atom.kind == KIND_FLOAT {
                    match atom.payload {
                        PayloadView::Float(bits) => Ok(
                            Parsed { value: ValueView::Float(Float::canonical(bits)), taken },
                        ),
                        _ => Err(Fault::InvalidData),
                    }
                } else if atom.kind == KIND_SEQUENCE {
                    if taken == 0 || atom.arg > input.len() - taken {
                        Err(Fault::InvalidData)
                    } else {
                        sequence_parsed(
                            taken,
                            parse_values(input.skip(taken as int), atom.arg as nat),
                        )
                    }
                } else if atom.kind == KIND_MAP {
                    if taken == 0 || atom.arg > input.len() - taken {
                        Err(Fault::InvalidData)
                    } else {
                        mappings_parsed(
                            taken,
                            parse_entries(input.skip(taken as int), atom.arg as nat),
                        )
                    }
                } else if atom.kind == KIND_BYTES {
                    match atom.payload {
                        PayloadView::Bytes(bytes) => if vstd::utf8::valid_utf8(bytes) {
                            Ok(
                                Parsed {
                                    value: ValueView::String(vstd::utf8::decode_utf8(bytes)),
                                    taken,
                                },
                            )
                        } else {
                            Ok(Parsed { value: ValueView::Bytes(bytes), taken })
                        },
                        _ => Err(Fault::InvalidData),
                    }
                } else {
                    Err(Fault::InvalidData)
                },
            }
        },
    }
}

/// The `count` values at the start of `input`, one after another.
pub open spec fn parse_values(input: Seq<u8>, count: nat) -> Result<Parsed<Seq<ValueView>>, Fault>
    decreases input.len(), count + 1,
{
    if count == 0 {
        Ok(Parsed { value: Seq::empty(), taken: 0 })
    } else {
        match parse_value(input) {
            Ok(first) => if first.taken > input.len() {
                Err(Fault::InvalidData)
            } else {
                match parse_values(input.skip(first.taken as int), (count - 1) as nat) {
                    Ok(rest) => Ok(
                        Parsed {
                            value: seq![first.value] + rest.value,
                            taken: first.taken + rest.taken,
                        },
                    ),
                    Err(fault) => Err(fault),
                }
            },
            Err(fault) => Err(fault),
        }
    }
}

/// The `count` entries at the start of `input`, key before value, one after
/// another.
pub open spec fn parse_entries(input: Seq<u8>, count: nat) -> Result<
    Parsed<Seq<(ValueView, ValueView)>>,
    Fault,
>
    decreases input.len(), count + 1,
{
    if count == 0 {
        Ok(Parsed { value: Seq::empty(), taken: 0 })
    } else {
        match parse_value(input) {
            Ok(key) => if key.taken > input.len() {
                Err(Fault::InvalidData)
            } else {
                match parse_value(input.skip(key.taken as int)) {
                    Ok(value) => if key.taken + value.taken > input.len() {
                        Err(Fault::InvalidData)
                    } else {
                        match parse_entries(
                            input.skip((key.taken + value.taken) as int),
                            (count - 1) as nat,
                        ) {
                            Ok(rest) => Ok(
                                Parsed {
                                    value: seq![(key.value, value.value)] + rest.value,
                                    taken: key.taken + value.taken + rest.taken,
                                },
                            ),
                            Err(fault) => Err(fault),
                        }
                    },
                    Err(fault) => Err(fault),
                }
            },
            Err(fault) => Err(fault),
        }
    }
}

/// The items `rest`, after `done` was parsed from `taken` bytes before them.
pub open spec fn parsed_after<T>(done: Seq<T>, taken: nat, rest: Result<Parsed<Seq<T>>, Fault>) -> Result<
    Parsed<Seq<T>>,
    Fault,
> {
    match rest {
        Ok(rest) => Ok(Parsed { value: done + rest.value, taken: taken + rest.taken }),
        Err(fault) => Err(fault),
    }
}

/// Parsing one more item moves it from the rest to what is done.
proof fn lemma_parsed_step<T>(
    done: Seq<T>,
    taken: nat,
    item: T,
    width: nat,
    rest: Result<Parsed<Seq<T>>, Fault>,
)
    ensures
        parsed_after(done, taken, parsed_after(seq![item], width, rest)) == parsed_after(
            done.push(item),
            taken + width,
            rest,
        ),
{
    if let Ok(rest) = rest {
        assert(done + (seq![item] + rest.value) =~= done.push(item) + rest.value);
    }
}

/// Skipping twice is skipping once.
proof fn lemma_skip_skip(input: Seq<u8>, first: int, second: int)
    requires
        0 <= first,
        0 <= second,
        first + second <= input.len(),
    ensures
        input.skip(first).skip(second) == input.skip(first + second),
{
    assert(input.skip(first).skip(second) =~= input.skip(first + second));
}

/// Whether `result` is what reading from `input` gives where `parse` is
/// what stands at its start: the value and the input that is left after
/// it, or the error.
pub open spec fn reading<T: View>(
    result: Result<(T, &[u8]), DecodeError>,
    input: Seq<u8>,
    parse: Result<Parsed<T::V>, Fault>,
) -> bool {
    match result {
        Ok((value, rest)) => {
            &&& rest@.len() <= input.len()
            &&& parse == Ok::<_, Fault>(
                Parsed { value: value@, taken: (input.len() - rest@.len()) as nat },
            )
            &&& rest@ == input.skip(input.len() - rest@.len())
        },
        Err(error) => parse == Err::<Parsed<T::V>, _>(error@),
    }
}

/// Reads the value at the start of `input` and returns it with the input
/// that is left: see [`parse_value`].
pub fn read_value<'a>(input: &'a [u8]) -> (result: Result<(Value, &'a [u8]), DecodeError>)
    ensures
        reading(result, input@, parse_value(input@)),
    decreases input@.len(),
{
    if input.len() == 0 {
        return Err(DecodeError::UnexpectedEof);
    }
    let (kind, arg) = match read_atom_header(input) {
        Some(head) => head,
        None => {
            return Err(DecodeError::AtomCodec(String::new()));
        },
    };
    if KIND_INT <= kind && kind <= KIND_FLOAT && arg > 15 {
        return Err(DecodeError::InvalidData);
    }
    let (atom, rest) = match read_atom(input) {
        Ok(read) => read,
        Err(message) => {
            return Err(DecodeError::AtomCodec(message));
        },
    };
    let ghost taken = (input@.len() - rest@.len()) as nat;
    if atom.kind == KIND_SPECIAL {
        if atom.arg == SPECIAL_NONE {
            Ok((Value::Nil, rest))
        } else if atom.arg == SPECIAL_UNIT {
            Ok((Value::Unit, rest))
        } else if atom.arg == SPECIAL_FALSE {
            Ok((Value::Bool(false), rest))
        } else if atom.arg == SPECIAL_TRUE {
            Ok((Value::Bool(true), rest))
        } else {
            Err(DecodeError::InvalidData)
        }
    } else if atom.kind == KIND_INT || atom.kind == KIND_UINT {
        match atom.payload {
            Payload::Integer(signed, unsigned) => match make_integer(
                atom.kind,
                atom.arg,
                signed,
                unsigned,
            ) {
                Some(integer) => Ok((Value::Integer(integer), rest)),
                None => Err(DecodeError::InvalidData),
            },
            _ => Err(DecodeError::InvalidData),
        }
    } else if atom.kind == KIND_FLOAT {
        match atom.payload {
            Payload::Float(bits) => Ok((Value::Float(Float::from_double(bits)), rest)),
            _ => Err(DecodeError::InvalidData),
        }
    } else if atom.kind == KIND_SEQUENCE {
        if rest.len() >= input.len() || atom.arg > rest.len() as u64 {
            return Err(DecodeError::InvalidData);
        }
        let length = atom.arg as usize;
        let mut values: Vec<Value> = Vec::with_capacity(length);
        let mut current = rest;
        assert(parsed_after(views(values@), 0, parse_values(rest@, length as nat)) == parse_values(
            rest@,
            length as nat,
        )) by {
            if let Ok(parsed) = parse_values(rest@, length as nat) {
                assert(views(values@) + parsed.value =~= parsed.value);
            }
            assert(rest@.skip(0) =~= rest@);
        }
        assert(rest@.skip(0) =~= rest@);
        while values.len() < length
            invariant
                values.len() <= length,
                current@.len() <= rest@.len() < input@.len(),
                current@ == rest@.skip(rest@.len() - current@.len()),
                parse_value(input@) == sequence_parsed(taken, parse_values(rest@, length as nat)),
                parsed_after(
                    views(values@),
                    (rest@.len() - current@.len()) as nat,
                    parse_values(current@, (length - values.len()) as nat),
                ) == parse_values(rest@, length as nat),
            decreases length - values.len(),
        {
            let ghost done = views(values@);
            let ghost before = (rest@.len() - current@.len()) as nat;
            let (value, next) = match read_value(current) {
                Ok(read) => read,
                Err(error) => {
                    return Err(error);
                },
            };
            proof {
                let width = (current@.len() - next@.len()) as nat;
                lemma_parsed_step(
                    done,
                    before,
                    value@,
                    width,
                    parse_values(next@, (length - values.len() - 1) as nat),
                );
                lemma_skip_skip(rest@, before as int, width as int);
                assert(views(values@.push(value)) =~= done.push(value@));
            }
            values.push(value);
            current = next;
        }
        proof {
            lemma_view_sequence(values);
            assert(views(values@) + Seq::<ValueView>::empty() =~= views(values@));
            lemma_skip_skip(input@, taken as int, rest@.len() - current@.len());
        }
        Ok((Value::Sequence(values), current))
    } else if atom.kind == KIND_MAP {
        if rest.len() >= input.len() || atom.arg > rest.len() as u64 {
            return Err(DecodeError::InvalidData);
        }
        let length = atom.arg as usize;
        let mut entries: Vec<(Value, Value)> = Vec::with_capacity(length);
        let mut current = rest;
        assert(parsed_after(entry_views(entries@), 0, parse_entries(rest@, length as nat))
            == parse_entries(rest@, length as nat)) by {
            if let Ok(parsed) = parse_entries(rest@, length as nat) {
                assert(entry_views(entries@) + parsed.value =~= parsed.value);
            }
        }
        assert(rest@.skip(0) =~= rest@);
        while entries.len() < length
            invariant
                entries.len() <= length,
                current@.len() <= rest@.len() < input@.len(),
                current@ == rest@.skip(rest@.len() - current@.len()),
                parse_value(input@) == mappings_parsed(taken, parse_entries(rest@, length as nat)),
                parsed_after(
                    entry_views(entries@),
                    (rest@.len() - current@.len()) as nat,
                    parse_entries(current@, (length - entries.len()) as nat),
                ) == parse_entries(rest@, length as nat),
            decreases length - entries.len(),
        {
            let ghost done = entry_views(entries@);
            let ghost before = (rest@.len() - current@.len()) as nat;
            let (key, after_key) = match read_value(current) {
                Ok(read) => read,
                Err(error) => {
                    return Err(error);
                },
            };
            let (value, next) = match read_value(after_key) {
                Ok(read) => read,
                Err(error) => {
                    return Err(error);
                },
            };
            proof {
                let key_width = (current@.len() - after_key@.len()) as nat;
                let width = (current@.len() - next@.len()) as nat;
                lemma_skip_skip(current@, key_width as int, width - key_width);
                lemma_parsed_step(
                    done,
                    before,
                    (key@, value@),
                    width,
                    parse_entries(next@, (length - entries.len() - 1) as nat),
                );
                lemma_skip_skip(rest@, before as int, width as int);
                assert(entry_views(entries@.push((key, value))) =~= done.push((key@, value@)));
            }
            entries.push((key, value));
            current = next;
        }
        proof {
            lemma_view_mappings(entries);
            assert(entry_views(entries@) + Seq::<(ValueView, ValueView)>::empty() =~= entry_views(
                entries@,
            ));
            lemma_skip_skip(input@, taken as int, rest@.len() - current@.len());
        }
        Ok((Value::Mappings(entries), current))
    } else if atom.kind == KIND_BYTES {
        match atom.payload {
            Payload::Bytes(bytes) => match string_from_utf8(bytes) {
                Ok(string) => Ok((Value::String(string), rest)),
                Err(bytes) => Ok((Value::Bytes(bytes), rest)),
            },
            _ => Err(DecodeError::InvalidData),
        }
    } else {
        Err(DecodeError::InvalidData)
    }
}

/// What follows once `first` was parsed: `next` applied to its value and to
/// the input after it, with the bytes of both counted together.
pub open spec fn and_then<A, B>(
    input: Seq<u8>,
    first: Result<Parsed<A>, Fault>,
    next: spec_fn(A, Seq<u8>) -> Result<Parsed<B>, Fault>,
) -> Result<Parsed<B>, Fault> {
    match first {
        Ok(first) => if first.taken > input.len() {
            Err(Fault::InvalidData)
        } else {
            match next(first.value, input.skip(first.taken as int)) {
                Ok(second) => Ok(Parsed { value: second.value, taken: first.taken + second.taken }),
                Err(fault) => Err(fault),
            }
        },
        Err(fault) => Err(fault),
    }
}

/// A value that took no bytes.
pub open spec fn parsed<T>(value: T) -> Result<Parsed<T>, Fault> {
    Ok(Parsed { value, taken: 0 })
}

/// The index of an `Enter` or a `Replace` at the start of `input`: none if
/// the change names the root.
pub open spec fn parse_place(root: bool, input: Seq<u8>) -> Result<Parsed<Option<nat>>, Fault> {
    if root {
        parsed(None)
    } else {
        match parse_varint(input) {
            Ok(index) => Ok(Parsed { value: Some(index.value as nat), taken: index.taken }),
            Err(fault) => Err(fault),
        }
    }
}

/// The payload of an `Enter` at the start of `input`.
pub open spec fn parse_enter(sequence: bool, key: bool, root: bool, input: Seq<u8>) -> Result<
    Parsed<ChangeView>,
    Fault,
> {
    and_then(
        input,
        parse_place(root, input),
        |index: Option<nat>, rest: Seq<u8>|
            if sequence {
                parsed(ChangeView::EnterSequence { index, key })
            } else {
                parsed(ChangeView::EnterMap { index, key })
            },
    )
}

/// The payload of a change of the `Replace` family at the start of `input`:
/// with no flag but the root's it replaces a value, with the key flag a
/// key, with the mapping flag an entry. No other flags go together.
pub open spec fn parse_replace(key: bool, root: bool, mapping: bool, input: Seq<u8>) -> Result<
    Parsed<ChangeView>,
    Fault,
> {
    if !key && !mapping {
        and_then(
            input,
            parse_place(root, input),
            |index: Option<nat>, rest: Seq<u8>|
                and_then(
                    rest,
                    parse_value(rest),
                    |value: ValueView, rest: Seq<u8>| parsed(ChangeView::Replace { index, value }),
                ),
        )
    } else if !root && key && !mapping {
        and_then(
            input,
            parse_varint(input),
            |index: usize, rest: Seq<u8>|
                and_then(
                    rest,
                    parse_value(rest),
                    |key: ValueView, rest: Seq<u8>|
                        parsed(ChangeView::ReplaceKey { index: index as nat, key }),
                ),
        )
    } else if !root && !key && mapping {
        and_then(
            input,
            parse_varint(input),
            |index: usize, rest: Seq<u8>|
                and_then(
                    rest,
                    parse_value(rest),
                    |key: ValueView, rest: Seq<u8>|
                        and_then(
                            rest,
                            parse_value(rest),
                            |value: ValueView, rest: Seq<u8>|
                                parsed(
                                    ChangeView::ReplaceMapping { index: index as nat, key, value },
                                ),
                        ),
                ),
        )
    } else {
        Err(Fault::InvalidData)
    }
}

/// The payload of a `Remove` at the start of `input`.
pub open spec fn parse_remove(input: Seq<u8>) -> Result<Parsed<ChangeView>, Fault> {
    and_then(
        input,
        parse_varint(input),
        |index: usize, rest: Seq<u8>|
            and_then(
                rest,
                parse_varint(rest),
                |length: usize, rest: Seq<u8>|
                    parsed(ChangeView::Remove { index: index as nat, length: length as nat }),
            ),
    )
}

/// The payload of a `Truncate` at the start of `input`.
pub open spec fn parse_truncate(input: Seq<u8>) -> Result<Parsed<ChangeView>, Fault> {
    and_then(
        input,
        parse_varint(input),
        |length: usize, rest: Seq<u8>| parsed(ChangeView::Truncate { length: length as nat }),
    )
}

/// The payload of a change of the `Insert` family at the start of `input`:
/// with the mapping flag it inserts an entry, else a value.
pub open spec fn parse_insert(mapping: bool, input: Seq<u8>) -> Result<Parsed<ChangeView>, Fault> {
    and_then(
        input,
        parse_varint(input),
        |index: usize, rest: Seq<u8>|
            and_then(
                rest,
                parse_value(rest),
                |key: ValueView, rest: Seq<u8>|
                    if mapping {
                        and_then(
                            rest,
                            parse_value(rest),
                            |value: ValueView, rest: Seq<u8>|
                                parsed(ChangeView::InsertMapping { index: index as nat, key, value }),
                        )
                    } else {
                        parsed(ChangeView::Insert { index: index as nat, value: key })
                    },
            ),
    )
}

/// The payload of the change whose first byte is `header`, at the start of
/// `input`.
pub open spec fn parse_payload(header: u8, input: Seq<u8>) -> Result<Parsed<ChangeView>, Fault> {
    let variant = header >> 4;
    let key = bit_set(header, KEY_FLAG);
    let root = bit_set(header, ROOT_FLAG);
    let mapping = bit_set(header, MAPPING_FLAG);
    if variant == ENTER_SEQUENCE {
        parse_enter(true, key, root, input)
    } else if variant == ENTER_MAP {
        parse_enter(false, key, root, input)
    } else if variant == EXIT {
        parsed(ChangeView::Exit)
    } else if variant == REPLACE {
        parse_replace(key, root, mapping, input)
    } else if variant == REMOVE {
        parse_remove(input)
    } else if variant == TRUNCATE {
        parse_truncate(input)
    } else if variant == INSERT {
        parse_insert(mapping, input)
    } else {
        Err(Fault::InvalidData)
    }
}

/// The change at the start of `input`: its first byte, then its payload.
pub open spec fn parse_change(input: Seq<u8>) -> Result<Parsed<ChangeView>, Fault> {
    if input.len() == 0 {
        Err(Fault::UnexpectedEof)
    } else {
        match parse_payload(input[0], input.skip(1)) {
            Ok(change) => Ok(Parsed { value: change.value, taken: change.taken + 1 }),
            Err(fault) => Err(fault),
        }
    }
}

/// The `count` changes at the start of `input`, one after another.
pub open spec fn parse_changes(input: Seq<u8>, count: nat) -> Result<Parsed<Seq<ChangeView>>, Fault>
    decreases count,
{
    if count == 0 {
        Ok(Parsed { value: Seq::empty(), taken: 0 })
    } else {
        match parse_change(input) {
            Ok(first) => if first.taken > input.len() {
                Err(Fault::InvalidData)
            } else {
                parsed_after(
                    seq![first.value],
                    first.taken,
                    parse_changes(input.skip(first.taken as int), (count - 1) as nat),
                )
            },
            Err(fault) => Err(fault),
        }
    }
}

/// The script that bytes hold.
///
/// The first byte is the version: none of its low seven bits may be set.
/// The number of changes follows; it cannot be more than the bytes that are
/// left. Then come the changes. What follows them is not read.
pub open spec fn parse_script(input: Seq<u8>) -> Result<Seq<ChangeView>, Fault> {
    if input.len() == 0 {
        Err(Fault::UnexpectedEof)
    } else if input[0] & 0x7F != 0 {
        Err(Fault::UnsupportedVersion)
    } else {
        match parse_varint(input.skip(1)) {
            Ok(count) => if count.value > input.len() - 1 - count.taken {
                Err(Fault::InvalidData)
            } else {
                match parse_changes(input.skip((1 + count.taken) as int), count.value as nat) {
                    Ok(changes) => Ok(changes.value),
                    Err(fault) => Err(fault),
                }
            },
            Err(fault) => Err(fault),
        }
    }
}

/// Reads a variable-length integer from the start of `input` and returns it
/// with the input that is left: see [`parse_varint`].
fn read_index<'a>(input: &'a [u8]) -> (result: Result<(usize, &'a [u8]), DecodeError>)
    ensures
        reading(result, input@, parse_varint(input@)),
{
    match read_varint(input) {
        Ok(read) => Ok(read),
        Err(fault) => Err(DecodeError::from(fault)),
    }
}

/// Reads the index of an `Enter` or a `Replace`: see [`parse_place`].
fn read_place<'a>(root: bool, input: &'a [u8]) -> (result: Result<
    (Option<usize>, &'a [u8]),
    DecodeError,
>)
    ensures
        match result {
            Ok((index, rest)) => rest@.len() <= input@.len() && parse_place(root, input@) == Ok::<
                _,
                Fault,
            >(
                Parsed {
                    value: crate::change::index_view(index),
                    taken: (input@.len() - rest@.len()) as nat,
                },
            ) && rest@ == input@.skip(input@.len() - rest@.len()),
            Err(error) => parse_place(root, input@) == Err::<Parsed<Option<nat>>, _>(error@),
        },
{
    if root {
        assert(input@.skip(0) =~= input@);
        Ok((None, input))
    } else {
        match read_index(input) {
            Ok((index, rest)) => Ok((Some(index), rest)),
            Err(error) => Err(error),
        }
    }
}

/// Reads the payload of an `Enter`: see [`parse_enter`].
fn read_enter<'a>(sequence: bool, key: bool, is_root: bool, input: &'a [u8]) -> (result: Result<
    (Change, &'a [u8]),
    DecodeError,
>)
    ensures
        reading(result, input@, parse_enter(sequence, key, is_root, input@)),
{
    let (index, rest) = match read_place(is_root, input) {
        Ok(read) => read,
        Err(error) => {
            return Err(error);
        },
    };
    assert(rest@.skip(0) =~= rest@);
    if sequence {
        Ok((Change::EnterSequence { index, key }, rest))
    } else {
        Ok((Change::EnterMap { index, key }, rest))
    }
}

/// Reads the payload of a plain `Replace`.
fn read_replace_value<'a>(is_root: bool, input: &'a [u8]) -> (result: Result<
    (Change, &'a [u8]),
    DecodeError,
>)
    ensures
        reading(result, input@, parse_replace(false, is_root, false, input@)),
{
    let (index, after_index) = match read_place(is_root, input) {
        Ok(read) => read,
        Err(error) => {
            return Err(error);
        },
    };
    let (value, rest) = match read_value(after_index) {
        Ok(read) => read,
        Err(error) => {
            return Err(error);
        },
    };
    proof {
        lemma_skip_skip(input@, input@.len() - after_index@.len(), after_index@.len() - rest@.len());
        assert(rest@.skip(0) =~= rest@);
    }
    Ok((Change::Replace { index, value }, rest))
}

/// Reads the payload of a `ReplaceKey`.
fn read_replace_key<'a>(input: &'a [u8]) -> (result: Result<(Change, &'a [u8]), DecodeError>)
    ensures
        reading(result, input@, parse_replace(true, false, false, input@)),
{
    let (index, after_index) = match read_index(input) {
        Ok(read) => read,
        Err(error) => {
            return Err(error);
        },
    };
    let (key, rest) = match read_value(after_index) {
        Ok(read) => read,
        Err(error) => {
            return Err(error);
        },
    };
    proof {
        lemma_skip_skip(input@, input@.len() - after_index@.len(), after_index@.len() - rest@.len());
        assert(rest@.skip(0) =~= rest@);
    }
    Ok((Change::ReplaceKey { index, key }, rest))
}

/// Reads an index, a key and a value.
fn read_entry<'a>(input: &'a [u8]) -> (result: Result<(usize, Value, Value, &'a [u8]), DecodeError>)
    ensures
        match result {
            Ok((index, key, value, rest)) => rest@.len() <= input@.len() && parse_replace(
                false,
                false,
                true,
                input@,
            ) == Ok::<_, Fault>(
                Parsed {
                    value: ChangeView::ReplaceMapping {
                        index: index as nat,
                        key: key@,
                        value: value@,
                    },
                    taken: (input@.len() - rest@.len()) as nat,
                },
            ) && parse_insert(true, input@) == Ok::<_, Fault>(
                Parsed {
                    value: ChangeView::InsertMapping {
                        index: index as nat,
                        key: key@,
                        value: value@,
                    },
                    taken: (input@.len() - rest@.len()) as nat,
                },
            ) && rest@ == input@.skip(input@.len() - rest@.len()),
            Err(error) => parse_replace(false, false, true, input@) == Err::<Parsed<ChangeView>, _>(
                error@,
            ) && parse_insert(true, input@) == Err::<Parsed<ChangeView>, _>(error@),
        },
{
    let (index, after_index) = match read_index(input) {
        Ok(read) => read,
        Err(error) => {
            return Err(error);
        },
    };
    let (key, after_key) = match read_value(after_index) {
        Ok(read) => read,
        Err(error) => {
            return Err(error);
        },
    };
    let (value, rest) = match read_value(after_key) {
        Ok(read) => read,
        Err(error) => {
            return Err(error);
        },
    };
    proof {
        lemma_skip_skip(
            after_index@,
            after_index@.len() - after_key@.len(),
            after_key@.len() - rest@.len(),
        );
        lemma_skip_skip(input@, input@.len() - after_index@.len(), after_index@.len() - rest@.len());
        assert(rest@.skip(0) =~= rest@);
    }
    Ok((index, key, value, rest))
}

/// Reads the payload of a change of the `Replace` family: see
/// [`parse_replace`].
fn read_replace<'a>(key: bool, is_root: bool, is_mapping: bool, input: &'a [u8]) -> (result: Result<
    (Change, &'a [u8]),
    DecodeError,
>)
    ensures
        reading(result, input@, parse_replace(key, is_root, is_mapping, input@)),
{
    if !key && !is_mapping {
        read_replace_value(is_root, input)
    } else if !is_root && key && !is_mapping {
        read_replace_key(input)
    } else if !is_root && !key && is_mapping {
        match read_entry(input) {
            Ok((index, key, value, rest)) => Ok((Change::ReplaceMapping { index, key, value }, rest)),
            Err(error) => Err(error),
        }
    } else {
        Err(DecodeError::InvalidData)
    }
}

/// Reads the payload of a `Remove`: see [`parse_remove`].
fn read_remove<'a>(input: &'a [u8]) -> (result: Result<(Change, &'a [u8]), DecodeError>)
    ensures
        reading(result, input@, parse_remove(input@)),
{
    let (index, after_index) = match read_index(input) {
        Ok(read) => read,
        Err(error) => {
            return Err(error);
        },
    };
    let (length, rest) = match read_index(after_index) {
        Ok(read) => read,
        Err(error) => {
            return Err(error);
        },
    };
    proof {
        lemma_skip_skip(input@, input@.len() - after_index@.len(), after_index@.len() - rest@.len());
        assert(rest@.skip(0) =~= rest@);
    }
    Ok((Change::Remove { index, length }, rest))
}

/// Reads the payload of a `Truncate`: see [`parse_truncate`].
fn read_truncate<'a>(input: &'a [u8]) -> (result: Result<(Change, &'a [u8]), DecodeError>)
    ensures
        reading(result, input@, parse_truncate(input@)),
{
    let (length, rest) = match read_index(input) {
        Ok(read) => read,
        Err(error) => {
            return Err(error);
        },
    };
    assert(rest@.skip(0) =~= rest@);
    Ok((Change::Truncate { length }, rest))
}

/// Reads the payload of an `Insert` of a value.
fn read_insert_value<'a>(input: &'a [u8]) -> (result: Result<(Change, &'a [u8]), DecodeError>)
    ensures
        reading(result, input@, parse_insert(false, input@)),
{
    let (index, after_index) = match read_index(input) {
        Ok(read) => read,
        Err(error) => {
            return Err(error);
        },
    };
    let (value, rest) = match read_value(after_index) {
        Ok(read) => read,
        Err(error) => {
            return Err(error);
        },
    };
    proof {
        lemma_skip_skip(input@, input@.len() - after_index@.len(), after_index@.len() - rest@.len());
        assert(rest@.skip(0) =~= rest@);
    }
    Ok((Change::Insert { index, value }, rest))
}

/// Reads the payload of a change of the `Insert` family: see
/// [`parse_insert`].
fn read_insert<'a>(is_mapping: bool, input: &'a [u8]) -> (result: Result<
    (Change, &'a [u8]),
    DecodeError,
>)
    ensures
        reading(result, input@, parse_insert(is_mapping, input@)),
{
    if is_mapping {
        match read_entry(input) {
            Ok((index, key, value, rest)) => Ok((Change::InsertMapping { index, key, value }, rest)),
            Err(error) => Err(error),
        }
    } else {
        read_insert_value(input)
    }
}

/// Reads the payload of the change whose first byte is `header`: see
/// [`parse_payload`].
fn read_payload<'a>(header: u8, input: &'a [u8]) -> (result: Result<(Change, &'a [u8]), DecodeError>)
    ensures
        reading(result, input@, parse_payload(header, input@)),
{
    let variant = header >> 4;
    let key = check_bit(header, KEY_FLAG);
    let is_root = check_bit(header, ROOT_FLAG);
    let is_mapping = check_bit(header, MAPPING_FLAG);
    if variant == ENTER_SEQUENCE {
        read_enter(true, key, is_root, input)
    } else if variant == ENTER_MAP {
        read_enter(false, key, is_root, input)
    } else if variant == EXIT {
        assert(input@.skip(0) =~= input@);
        Ok((Change::Exit, input))
    } else if variant == REPLACE {
        read_replace(key, is_root, is_mapping, input)
    } else if variant == REMOVE {
        read_remove(input)
    } else if variant == TRUNCATE {
        read_truncate(input)
    } else if variant == INSERT {
        read_insert(is_mapping, input)
    } else {
        Err(DecodeError::InvalidData)
    }
}

/// Reads the change at the start of `input` and returns it with the input
/// that is left: see [`parse_change`].
pub fn read_change<'a>(input: &'a [u8]) -> (result: Result<(Change, &'a [u8]), DecodeError>)
    ensures
        reading(result, input@, parse_change(input@)),
{
    if input.len() == 0 {
        return Err(DecodeError::UnexpectedEof);
    }
    let header = input[0];
    let body = vstd::slice::slice_subrange(input, 1, input.len());
    assert(body@ =~= input@.skip(1));
    match read_payload(header, body) {
        Ok((change, rest)) => {
            proof {
                lemma_skip_skip(input@, 1, body@.len() - rest@.len());
            }
            Ok((change, rest))
        },
        Err(error) => Err(error),
    }
}

/// Decodes a script from its binary form: see [`parse_script`].
///
/// The number of changes that the bytes declare is held against the bytes
/// that are left before room is made for them.
pub fn decode(bytes: &[u8]) -> (result: Result<Diff, DecodeError>)
    ensures
        match result {
            Ok(diff) => parse_script(bytes@) == Ok::<_, Fault>(diff@),
            Err(error) => parse_script(bytes@) == Err::<Seq<ChangeView>, _>(error@),
        },
{
    if bytes.len() == 0 {
        return Err(DecodeError::UnexpectedEof);
    }
    let header = bytes[0];
    if header & 0x7F != 0 {
        return Err(DecodeError::UnsupportedVersion);
    }
    let body = vstd::slice::slice_subrange(bytes, 1, bytes.len());
    assert(body@ =~= bytes@.skip(1));
    let (number_of_changes, rest) = match read_index(body) {
        Ok(read) => read,
        Err(error) => {
            return Err(error);
        },
    };
    // The script cannot have more changes than bytes.
    if number_of_changes > rest.len() {
        return Err(DecodeError::InvalidData);
    }
    proof {
        lemma_skip_skip(bytes@, 1, body@.len() - rest@.len());
    }
    let mut diff = Diff { changes: Vec::with_capacity(number_of_changes) };
    let mut current = rest;
    assert(rest@.skip(0) =~= rest@);
    assert(parsed_after(diff@, 0, parse_changes(rest@, number_of_changes as nat)) == parse_changes(
        rest@,
        number_of_changes as nat,
    )) by {
        if let Ok(parsed) = parse_changes(rest@, number_of_changes as nat) {
            assert(diff@ + parsed.value =~= parsed.value);
        }
    }
    while diff.changes.len() < number_of_changes
        invariant
            diff.changes.len() <= number_of_changes,
            current@.len() <= rest@.len(),
            current@ == rest@.skip(rest@.len() - current@.len()),
            parse_script(bytes@) == (match parse_changes(rest@, number_of_changes as nat) {
                Ok(changes) => Ok(changes.value),
                Err(fault) => Err(fault),
            }),
            parsed_after(
                diff@,
                (rest@.len() - current@.len()) as nat,
                parse_changes(current@, (number_of_changes - diff.changes.len()) as nat),
            ) == parse_changes(rest@, number_of_changes as nat),
        decreases number_of_changes - diff.changes.len(),
    {
        let ghost done = diff@;
        let ghost before = (rest@.len() - current@.len()) as nat;
        let (change, next) = match read_change(current) {
            Ok(read) => read,
            Err(error) => {
                return Err(error);
            },
        };
        proof {
            let width = (current@.len() - next@.len()) as nat;
            lemma_parsed_step(
                done,
                before,
                change@,
                width,
                parse_changes(next@, (number_of_changes - diff.changes.len() - 1) as nat),
            );
            lemma_skip_skip(rest@, before as int, width as int);
            assert(change_views(diff.changes@.push(change)) =~= done.push(change@));
        }
        diff.changes.push(change);
        current = next;
    }
    assert(diff@ + Seq::<ChangeView>::empty() =~= diff@);
    Ok(diff)
}

impl Diff {
    /// Decodes a script from its binary form: see [`parse_script`].
    pub fn deserialize(bytes: &[u8]) -> (result: Result<Diff, DecodeError>)
        ensures
            match result {
                Ok(diff) => parse_script(bytes@) == Ok::<_, Fault>(diff@),
                Err(error) => parse_script(bytes@) == Err::<Seq<ChangeView>, _>(error@),
            },
    {
        decode(bytes)
    }
}

/// Bytes whose first byte has any of its low seven bits set are of a
/// version that is not read.
pub proof fn lemma_version_rejected(input: Seq<u8>)
    requires
        input.len() > 0,
        input[0] & 0x7F != 0,
    ensures
        parse_script(input) == Err::<Seq<ChangeView>, _>(Fault::UnsupportedVersion),
{
}

/// Bytes that declare more changes than bytes follow are invalid, whatever
/// those bytes hold.
pub proof fn lemma_count_rejected(input: Seq<u8>, count: usize, taken: nat)
    requires
        input.len() > 0,
        input[0] & 0x7F == 0,
        parse_varint(input.skip(1)) == Ok::<_, Fault>(Parsed { value: count, taken }),
        count > input.len() - 1 - taken,
    ensures
        parse_script(input) == Err::<Seq<ChangeView>, _>(Fault::InvalidData),
{
}

} // verus!
