//! The atom codec and the variable-length integers that the binary format is
//! built on.
//!
//! Nothing in this module is proved: each function hands its arguments to
//! `pot` or `ordered-varint`, or to the standard library, and its contract
//! says what this crate takes them to return.

use pot::format::Nucleus;
use pot::reader::SliceReader;
use vstd::prelude::*;

use crate::value::{Float, Integer};

verus! {

/// The bytes of a variable-length integer.
pub uninterp spec fn varint_bytes(value: usize) -> Seq<u8>;

/// Why a variable-length integer could not be read.
#[derive(Clone, Copy, Debug, PartialEq, Eq, Structural)]
pub enum StreamFault {
    /// The input ended inside the integer.
    UnexpectedEof,
    /// The integer does not fit.
    InvalidData,
}

/// The variable-length integer at the start of `input`, with the number of
/// bytes it takes.
pub uninterp spec fn varint_parse(input: Seq<u8>) -> Result<(usize, nat), StreamFault>;

/// Appends `value` as `ordered_varint::Variable::encode_variable` writes a
/// `usize`. The bytes depend on the value alone.
#[verifier::external_body]
pub(crate) fn write_varint(value: usize, out: &mut Vec<u8>)
    ensures
        final(out)@ == old(out)@ + varint_bytes(value),
{
    let _ = ordered_varint::Variable::encode_variable(&value, out);
}

/// Reads a `usize` from the start of `input` with
/// `ordered_varint::Variable::decode_variable`, and returns it with the
/// input that is left. The outcome depends on the input alone; an error of
/// the kind `UnexpectedEof` is told apart from the others.
#[verifier::external_body]
pub(crate) fn read_varint<'a>(input: &'a [u8]) -> (result: Result<(usize, &'a [u8]), StreamFault>)
    ensures
        match result {
            Ok((value, rest)) => rest@.len() <= input@.len() && varint_parse(input@) == Ok::<
                _,
                StreamFault,
            >((value, (input@.len() - rest@.len()) as nat)) && rest@ == input@.skip(
                input@.len() - rest@.len(),
            ),
            Err(fault) => varint_parse(input@) == Err::<(usize, nat), _>(fault),
        },
{
    let mut rest = input;
    match <usize as ordered_varint::Variable>::decode_variable(&mut rest) {
        Ok(value) => Ok((value, rest)),
        Err(error) => match error.kind() {
            std::io::ErrorKind::UnexpectedEof => Err(StreamFault::UnexpectedEof),
            _ => Err(StreamFault::InvalidData),
        },
    }
}

/// The bytes of the head of an atom: its kind and its argument.
pub uninterp spec fn atom_header(kind: u8, arg: u64) -> Seq<u8>;

/// The bytes of an integer atom.
pub uninterp spec fn integer_atom(integer: Integer) -> Seq<u8>;

/// The bytes of the float atom with this width and these bits.
pub uninterp spec fn float_atom(double: bool, bits: u64) -> Seq<u8>;

/// The kind of the atoms whose argument alone tells what they are.
pub const KIND_SPECIAL: u8 = 0;

/// The kind of signed integers. The argument is the byte length, less one.
pub const KIND_INT: u8 = 1;

/// The kind of unsigned integers. The argument is the byte length, less one.
pub const KIND_UINT: u8 = 2;

/// The kind of floats. The argument is the byte length, less one.
pub const KIND_FLOAT: u8 = 3;

/// The kind of sequences. The argument is the number of elements.
pub const KIND_SEQUENCE: u8 = 4;

/// The kind of maps. The argument is the number of entries.
pub const KIND_MAP: u8 = 5;

/// The kind of symbols, which only a whole document holds.
pub const KIND_SYMBOL: u8 = 6;

/// The kind of bytes. The argument is their number.
pub const KIND_BYTES: u8 = 7;

/// The argument of the special atom that stands for nothing.
pub const SPECIAL_NONE: u64 = 0;

/// The argument of the special atom that stands for the unit.
pub const SPECIAL_UNIT: u64 = 1;

/// The argument of the special atom that stands for `false`.
pub const SPECIAL_FALSE: u64 = 2;

/// The argument of the special atom that stands for `true`.
pub const SPECIAL_TRUE: u64 = 3;

/// Appends the head of an atom with `pot::format::write_atom_header`,
/// which is handed the kind that `pot::format::Kind::from_u8` makes of the
/// number. The bytes depend on the kind and the argument alone.
#[verifier::external_body]
pub(crate) fn write_atom_header(kind: u8, arg: u64, out: &mut Vec<u8>)
    requires
        kind <= KIND_BYTES,
    ensures
        final(out)@ == old(out)@ + atom_header(kind, arg),
{
    let kind = pot::format::Kind::from_u8(kind);
    let _ = kind.map(|kind| pot::format::write_atom_header(out, kind, Some(arg)));
}

/// Appends what `pot::format::write_none` writes: the head of a special
/// atom whose argument is that of `Special::None`.
#[verifier::external_body]
pub(crate) fn write_none(out: &mut Vec<u8>)
    ensures
        final(out)@ == old(out)@ + atom_header(KIND_SPECIAL, SPECIAL_NONE),
{
    let _ = pot::format::write_none(out);
}

/// Appends what `pot::format::write_unit` writes: the head of a special
/// atom whose argument is that of `Special::Unit`.
#[verifier::external_body]
pub(crate) fn write_unit(out: &mut Vec<u8>)
    ensures
        final(out)@ == old(out)@ + atom_header(KIND_SPECIAL, SPECIAL_UNIT),
{
    let _ = pot::format::write_unit(out);
}

/// Appends what `pot::format::write_bool` writes: the head of a special
/// atom whose argument is that of `Special::True` or `Special::False`.
#[verifier::external_body]
pub(crate) fn write_bool(value: bool, out: &mut Vec<u8>)
    ensures
        final(out)@ == old(out)@ + atom_header(
            KIND_SPECIAL,
            if value {
                SPECIAL_TRUE
            } else {
                SPECIAL_FALSE
            },
        ),
{
    let _ = pot::format::write_bool(out, value);
}

/// Appends what `pot::format::write_bytes` writes: the head of a bytes atom
/// whose argument is the length, then the bytes.
#[verifier::external_body]
pub(crate) fn write_bytes(bytes: &[u8], out: &mut Vec<u8>)
    ensures
        final(out)@ == old(out)@ + atom_header(KIND_BYTES, bytes@.len() as u64) + bytes@,
{
    let _ = pot::format::write_bytes(out, bytes);
}

/// Appends what `pot::format::write_str` writes: the bytes atom of the
/// string's UTF-8 form.
#[verifier::external_body]
pub(crate) fn write_str(string: &str, out: &mut Vec<u8>)
    ensures
        final(out)@ == old(out)@ + atom_header(
            KIND_BYTES,
            vstd::utf8::encode_utf8(string@).len() as u64,
        ) + vstd::utf8::encode_utf8(string@),
{
    let _ = pot::format::write_str(out, string);
}

/// Appends what `pot::format::Integer::write_to` writes for this integer.
/// The integer is handed over through `pot::format::Integer::read_from`,
/// as the little-endian bytes of its width and the kind that
/// `pot::format::Kind::from_u8` makes of its own. The bytes written depend
/// on the integer alone.
#[verifier::external_body]
pub(crate) fn write_integer(integer: Integer, out: &mut Vec<u8>)
    ensures
        final(out)@ == old(out)@ + integer_atom(integer),
{
    let kind = pot::format::Kind::from_u8(integer.kind());
    let width = usize::from(integer.width());
    let bytes = integer.bits().to_le_bytes();
    let read = kind.and_then(|kind| pot::format::Integer::read_from(kind, width, &mut &bytes[..]));
    let _ = read.map(|value| value.write_to(out));
}

/// Appends what `pot::format::Float::write_to` writes for this float. The
/// float is handed over through `pot::format::Float::read_from`, as the
/// little-endian bytes of its width. The bytes written depend on the width
/// and the bits alone.
#[verifier::external_body]
pub(crate) fn write_float(float: Float, out: &mut Vec<u8>)
    ensures
        final(out)@ == old(out)@ + float_atom(float is Double, float.bits()),
{
    let width = usize::from(float.width());
    let bytes = float.bits().to_le_bytes();
    let read = pot::format::Float::read_from(pot::format::Kind::Float, width, &mut &bytes[..]);
    let _ = read.map(|value| value.write_to(out));
}

/// The 32 bits that hold the 64-bit float with these bits without loss, if
/// there are such.
pub uninterp spec fn narrowed(bits: u64) -> Option<u32>;

/// Asks `pot::format::Float::as_f32` for the 32-bit form of a 64-bit float,
/// which it gives only where the float survives the round trip unchanged.
/// The float is handed over through `pot::format::Float::read_from`. The
/// answer depends on the bits alone.
#[verifier::external_body]
pub(crate) fn narrow(bits: u64) -> (single: Option<u32>)
    ensures
        single == narrowed(bits),
{
    let bytes = bits.to_le_bytes();
    let read = pot::format::Float::read_from(pot::format::Kind::Float, 8, &mut &bytes[..]);
    read.ok().and_then(|float| float.as_f32().ok()).map(|single| single.to_bits())
}

/// The decimal text of the float with this width and these bits.
pub uninterp spec fn float_text(double: bool, bits: u64) -> Seq<char>;

/// Formats a float as `pot::format::Float` displays it, which is as the
/// standard library displays a float of that width. The float is handed
/// over through `pot::format::Float::read_from`, as the little-endian bytes
/// of its width. The text depends on the width and the bits alone.
#[verifier::external_body]
pub(crate) fn format_float(float: Float) -> (text: String)
    ensures
        text@ == float_text(float is Double, float.bits()),
{
    let width = usize::from(float.width());
    let bytes = float.bits().to_le_bytes();
    let read = pot::format::Float::read_from(pot::format::Kind::Float, width, &mut &bytes[..]);
    read.map_or(String::new(), |float| format!("{float}"))
}

/// `String::from_utf8` turns bytes that are valid UTF-8 into the string
/// they encode, and hands any other bytes back.
#[verifier::external_body]
pub(crate) fn string_from_utf8(bytes: Vec<u8>) -> (result: Result<String, Vec<u8>>)
    ensures
        match result {
            Ok(string) => vstd::utf8::valid_utf8(bytes@) && string@ == vstd::utf8::decode_utf8(
                bytes@,
            ),
            Err(rejected) => !vstd::utf8::valid_utf8(bytes@) && rejected@ == bytes@,
        },
{
    String::from_utf8(bytes).map_err(|error| error.into_bytes())
}

/// What an atom holds besides its head, if it is a number or bytes.
#[derive(Debug)]
pub enum Payload {
    /// Nothing of these.
    Absent,
    /// An integer: its number as a signed and as an unsigned one, each
    /// where it fits.
    Integer(Option<i128>, Option<u128>),
    /// A float: its bits as a 64-bit float.
    Float(u64),
    /// Bytes.
    Bytes(Vec<u8>),
}

/// The mathematical content of a [`Payload`].
pub enum PayloadView {
    Absent,
    Integer(Option<i128>, Option<u128>),
    Float(u64),
    Bytes(Seq<u8>),
}

impl View for Payload {
    type V = PayloadView;

    open spec fn view(&self) -> PayloadView {
        match *self {
            Payload::Absent => PayloadView::Absent,
            Payload::Integer(signed, unsigned) => PayloadView::Integer(signed, unsigned),
            Payload::Float(bits) => PayloadView::Float(bits),
            Payload::Bytes(bytes) => PayloadView::Bytes(bytes@),
        }
    }
}

/// An atom as it is read: the kind and the argument of its head, and what
/// it holds.
#[derive(Debug)]
pub struct Atom {
    pub kind: u8,
    pub arg: u64,
    pub payload: Payload,
}

/// The mathematical content of an [`Atom`].
pub struct AtomView {
    pub kind: u8,
    pub arg: u64,
    pub payload: PayloadView,
}

impl View for Atom {
    type V = AtomView;

    open spec fn view(&self) -> AtomView {
        AtomView { kind: self.kind, arg: self.arg, payload: self.payload@ }
    }
}

/// The kind and the argument of the head of the atom at the start of
/// `input`.
pub uninterp spec fn header_parse(input: Seq<u8>) -> Option<(u8, u64)>;

/// The atom at the start of `input`, children left out, with the number of
/// bytes it takes.
pub uninterp spec fn atom_parse(input: Seq<u8>) -> Option<(AtomView, nat)>;

/// Reads the head of the atom at the start of `input` with
/// `pot::format::read_atom_header`, through a `pot::reader::SliceReader`. The
/// outcome depends on the input alone.
#[verifier::external_body]
pub(crate) fn read_atom_header(input: &[u8]) -> (head: Option<(u8, u64)>)
    ensures
        head == header_parse(input@),
{
    let mut reader = SliceReader::from(input);
    pot::format::read_atom_header(&mut reader).ok().map(|(kind, arg)| (kind as u8, arg))
}

/// Reads the atom at the start of `input` with `pot::format::read_atom`,
/// through a `pot::reader::SliceReader` and with no limit on the bytes read,
/// and returns its head, its number or bytes if it holds such, and the
/// input that is left; or the message of the error. The outcome depends on
/// the input alone.
///
/// The head of a number tells its byte length less one; `read_atom` adds
/// the one without a check, so the caller keeps such arguments small.
#[verifier::external_body]
pub(crate) fn read_atom<'a>(input: &'a [u8]) -> (result: Result<(Atom, &'a [u8]), String>)
    requires
        header_parse(input@) matches Some((kind, arg)) ==> (KIND_INT <= kind <= KIND_FLOAT ==> arg
            <= 15),
    ensures
        match result {
            Ok((atom, rest)) => rest@.len() <= input@.len() && atom_parse(input@) == Some(
                (atom@, (input@.len() - rest@.len()) as nat),
            ) && rest@ == input@.skip(input@.len() - rest@.len()),
            Err(_) => atom_parse(input@) is None,
        },
{
    let mut reader = SliceReader::from(input);
    let atom = pot::format::read_atom(&mut reader, &mut usize::MAX).map_err(|error| error.to_string())?;
    let payload = match atom.nucleus {
        Some(Nucleus::Integer(value)) => Payload::Integer(value.as_i128().ok(), value.as_u128().ok()),
        Some(Nucleus::Float(value)) => Payload::Float(value.as_f64().to_bits()),
        Some(Nucleus::Bytes(bytes)) => Payload::Bytes(bytes.into_owned()),
        _ => Payload::Absent,
    };
    Ok((Atom { kind: atom.kind as u8, arg: atom.arg, payload }, reader.into()))
}

} // verus!
