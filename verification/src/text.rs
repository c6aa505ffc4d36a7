//! The one-line text form of scripts and values, and decoders for the text
//! forms of strings and bytes.

use vstd::prelude::*;
use vstd::std_specs::iter::IteratorSpec;
use vstd::string::StringExecFns;

use crate::change::{Change, ChangeView, Diff};
use crate::codec::{float_text, format_float};
use crate::value::{
    entry_views, lemma_view_mappings, lemma_view_sequence, views, Float, Integer, Value, ValueView,
};

verus! {

/// `String::push` appends one character to the end of the string.
pub assume_specification[ std::string::String::push ](text: &mut std::string::String, ch: char)
    ensures
        final(text)@ == old(text)@.push(ch),
;

/// Why a piece of text could not be decoded.
#[derive(Clone, Copy, Debug, PartialEq, Eq, Structural)]
pub enum DecodeError {
    /// A hexadecimal digit was expected.
    InvalidHexadecimal,
    /// The text ended before the closing quote.
    MissingQuote,
    /// A backslash was followed by something that is no escape.
    InvalidEscape,
}

/// The lower-case hexadecimal digit of a nibble.
pub open spec fn hex_digit(nibble: u8) -> u8 {
    if nibble < 10 {
        (48 + nibble) as u8
    } else {
        (87 + nibble) as u8
    }
}

/// Encodes a nibble as its lower-case hexadecimal digit.
pub fn encode_hex_nibble(nibble: u8) -> (digit: u8)
    requires
        nibble < 16,
    ensures
        digit == hex_digit(nibble),
{
    if nibble < 10 {
        48 + nibble
    } else {
        97 + (nibble - 10)
    }
}

/// The nibble that a lower-case hexadecimal digit stands for.
pub open spec fn hex_value(byte: u8) -> Option<u8> {
    if 48 <= byte <= 57 {
        Some((byte - 48) as u8)
    } else if 97 <= byte <= 102 {
        Some((byte - 87) as u8)
    } else {
        None
    }
}

/// Decodes a lower-case hexadecimal digit.
pub fn decode_hex_nibble(byte: u8) -> (result: Result<u8, DecodeError>)
    ensures
        match result {
            Ok(nibble) => hex_value(byte) == Some(nibble) && nibble < 16,
            Err(error) => hex_value(byte) is None && error == DecodeError::InvalidHexadecimal,
        },
{
    if 48 <= byte && byte <= 57 {
        Ok(byte - 48)
    } else if 97 <= byte && byte <= 102 {
        Ok(byte - 97 + 10)
    } else {
        Err(DecodeError::InvalidHexadecimal)
    }
}

/// The bytes a character takes in UTF-8.
pub open spec fn utf8_length(ch: char) -> nat {
    if (ch as u32) < 0x80 {
        1
    } else if (ch as u32) < 0x800 {
        2
    } else if (ch as u32) < 0x10000 {
        3
    } else {
        4
    }
}

/// Counts the bytes a character takes in UTF-8.
fn len_utf8(ch: char) -> (length: usize)
    ensures
        length == utf8_length(ch),
{
    let code = ch as u32;
    if code < 0x80 {
        1
    } else if code < 0x800 {
        2
    } else if code < 0x10000 {
        3
    } else {
        4
    }
}

/// What a scan of quoted text has decoded, and the bytes of text it has read.
pub struct Scanned<T> {
    pub decoded: Seq<T>,
    pub read: nat,
}

/// A scan that has decoded nothing.
pub open spec fn scanned_nothing<T>(read: nat) -> Result<Scanned<T>, DecodeError> {
    Ok(Scanned { decoded: Seq::empty(), read })
}

/// The scan `rest`, after `item` was decoded from `read` bytes before it.
pub open spec fn scanned_after<T>(item: T, read: nat, rest: Result<Scanned<T>, DecodeError>) -> Result<
    Scanned<T>,
    DecodeError,
> {
    match rest {
        Ok(rest) => Ok(Scanned { decoded: seq![item] + rest.decoded, read: read + rest.read }),
        Err(error) => Err(error),
    }
}

/// The low eight bits of a character's code.
pub open spec fn low_byte(ch: char) -> u8 {
    ((ch as u32) % 256) as u8
}

/// Decodes the inside of a quoted string, up to and with the closing quote.
///
/// A backslash escapes `"`, `\`, `n`, `r`, `t` and `0`; `\x` and two
/// hexadecimal digits stand for a control character below the space. An
/// escape counts as two bytes read, a hexadecimal escape as four.
pub open spec fn scan_string(chars: Seq<char>) -> Result<Scanned<char>, DecodeError>
    decreases chars.len(),
{
    if chars.len() == 0 {
        Err(DecodeError::MissingQuote)
    } else if chars[0] == '"' {
        scanned_nothing(1)
    } else if chars[0] != '\\' {
        scanned_after(chars[0], utf8_length(chars[0]), scan_string(chars.drop_first()))
    } else if chars.len() < 2 {
        Err(DecodeError::InvalidEscape)
    } else if chars[1] == '"' {
        scanned_after('"', 2, scan_string(chars.skip(2)))
    } else if chars[1] == '\\' {
        scanned_after('\\', 2, scan_string(chars.skip(2)))
    } else if chars[1] == 'n' {
        scanned_after('\n', 2, scan_string(chars.skip(2)))
    } else if chars[1] == 'r' {
        scanned_after('\r', 2, scan_string(chars.skip(2)))
    } else if chars[1] == 't' {
        scanned_after('\t', 2, scan_string(chars.skip(2)))
    } else if chars[1] == '0' {
        scanned_after('\0', 2, scan_string(chars.skip(2)))
    } else if chars[1] != 'x' {
        Err(DecodeError::InvalidEscape)
    } else if chars.len() < 4 {
        Err(DecodeError::InvalidHexadecimal)
    } else {
        match (hex_value(low_byte(chars[2])), hex_value(low_byte(chars[3]))) {
            (Some(high), Some(low)) => if high * 16 + low >= 32 {
                Err(DecodeError::InvalidEscape)
            } else {
                scanned_after((high * 16 + low) as u8 as char, 4, scan_string(chars.skip(4)))
            },
            _ => Err(DecodeError::InvalidHexadecimal),
        }
    }
}

/// Decodes a string in its quoted text form: the opening quote, if there is
/// one, then the text as [`scan_string`] reads it.
pub open spec fn decoded_string(chars: Seq<char>) -> Result<Scanned<char>, DecodeError> {
    if chars.len() > 0 && chars[0] == '"' {
        match scan_string(chars.drop_first()) {
            Ok(scanned) => Ok(Scanned { decoded: scanned.decoded, read: scanned.read + 1 }),
            Err(error) => Err(error),
        }
    } else {
        scan_string(chars)
    }
}

/// The scan `rest`, after `done` was decoded from `read` bytes before it.
pub open spec fn scanned_with<T>(done: Seq<T>, read: nat, rest: Result<Scanned<T>, DecodeError>) -> Result<
    Scanned<T>,
    DecodeError,
> {
    match rest {
        Ok(rest) => Ok(Scanned { decoded: done + rest.decoded, read: read + rest.read }),
        Err(error) => Err(error),
    }
}

/// Decoding one more item moves it from the rest of the scan to what is done.
proof fn lemma_scanned_step<T>(
    done: Seq<T>,
    read: nat,
    item: T,
    width: nat,
    rest: Result<Scanned<T>, DecodeError>,
)
    ensures
        scanned_with(done, read, scanned_after(item, width, rest)) == scanned_with(
            done.push(item),
            read + width,
            rest,
        ),
{
    if let Ok(rest) = rest {
        assert(done + (seq![item] + rest.decoded) =~= done.push(item) + rest.decoded);
    }
}

/// The UTF-8 form of some characters holds at least one byte for each of
/// the first `count`, and the whole of the first.
proof fn lemma_utf8_prefix(chars: Seq<char>, count: nat)
    requires
        count <= chars.len(),
    ensures
        vstd::utf8::encode_utf8(chars).len() >= count + vstd::utf8::encode_utf8(
            chars.skip(count as int),
        ).len(),
        count > 0 ==> vstd::utf8::encode_utf8(chars).len() == utf8_length(chars[0])
            + vstd::utf8::encode_utf8(chars.drop_first()).len(),
    decreases count,
{
    if count > 0 {
        vstd::utf8::char_is_scalar(chars[0]);
        lemma_utf8_prefix(chars.drop_first(), (count - 1) as nat);
        assert(chars.drop_first().skip(count - 1) =~= chars.skip(count as int));
    } else {
        assert(chars.skip(0) =~= chars);
    }
}

/// Decodes a string from its quoted text form, appends it to `out` and
/// returns the bytes of text read, the closing quote being the last: see
/// [`decoded_string`]. On an error `out` holds what was decoded before it.
pub fn decode_string(string: &str, out: &mut String) -> (result: Result<usize, DecodeError>)
    ensures
        match result {
            Ok(read) => decoded_string(string@) == Ok::<_, DecodeError>(
                Scanned { decoded: final(out)@.skip(old(out)@.len() as int), read: read as nat },
            ),
            Err(error) => decoded_string(string@) == Err::<Scanned<char>, _>(error),
        },
        final(out)@.len() >= old(out)@.len(),
        final(out)@.take(old(out)@.len() as int) == old(out)@,
{
    let total = string.as_bytes().len();
    let mut chars = string.chars();
    let mut bytes_read: usize = 0;
    let ghost mut text = string@;
    let ghost mut base = 0nat;
    proof {
        vstd::string::axiom_spec_iter(string);
    }
    match chars.next() {
        Some('"') => {
            bytes_read = 1;
            proof {
                text = string@.drop_first();
                base = 1;
                lemma_utf8_prefix(string@, 1);
            }
        },
        _ => {
            chars = string.chars();
        },
    }
    let ghost mut done: Seq<char> = Seq::empty();
    assert(scanned_with(done, 0, scan_string(text)) == scan_string(text)) by {
        if let Ok(scanned) = scan_string(text) {
            assert(done + scanned.decoded =~= scanned.decoded);
        }
    }
    loop
        invariant
            chars.decrease() is Some,
            out@ == old(out)@ + done,
            base <= bytes_read,
            scanned_with(done, (bytes_read - base) as nat, scan_string(chars.remaining()))
                == scan_string(text),
            bytes_read + vstd::utf8::encode_utf8(chars.remaining()).len() <= total,
            decoded_string(string@) == (match scan_string(text) {
                Ok(scanned) => Ok(Scanned { decoded: scanned.decoded, read: scanned.read + base }),
                Err(error) => Err(error),
            }),
        decreases chars.decrease()->0,
    {
        let ghost rest = chars.remaining();
        let ghost read = (bytes_read - base) as nat;
        let ch = match chars.next() {
            Some(ch) => ch,
            None => {
                return Err(DecodeError::MissingQuote);
            },
        };
        proof {
            lemma_utf8_prefix(rest, 1);
        }
        if ch == '"' {
            proof {
                assert(done + Seq::<char>::empty() =~= done);
                assert((old(out)@ + done).skip(old(out)@.len() as int) =~= done);
                assert((old(out)@ + done).take(old(out)@.len() as int) =~= old(out)@);
            }
            return Ok(bytes_read + 1);
        }
        if ch != '\\' {
            bytes_read += len_utf8(ch);
            out.push(ch);
            proof {
                lemma_scanned_step(done, read, ch, utf8_length(ch), scan_string(rest.drop_first()));
                done = done.push(ch);
                assert(old(out)@ + done =~= (old(out)@ + done.drop_last()).push(ch));
            }
            continue ;
        }
        let escape = match chars.next() {
            Some(escape) => escape,
            None => {
                return Err(DecodeError::InvalidEscape);
            },
        };
        proof {
            lemma_utf8_prefix(rest, 2);
            assert(rest.drop_first().drop_first() =~= rest.skip(2));
        }
        let decoded = if escape == '"' {
            '"'
        } else if escape == '\\' {
            '\\'
        } else if escape == 'n' {
            '\n'
        } else if escape == 'r' {
            '\r'
        } else if escape == 't' {
            '\t'
        } else if escape == '0' {
            '\0'
        } else if escape == 'x' {
            let high = match chars.next() {
                Some(high) => high,
                None => {
                    return Err(DecodeError::InvalidHexadecimal);
                },
            };
            let low = match chars.next() {
                Some(low) => low,
                None => {
                    return Err(DecodeError::InvalidHexadecimal);
                },
            };
            proof {
                lemma_utf8_prefix(rest, 4);
                assert(rest.skip(2).drop_first().drop_first() =~= rest.skip(4));
            }
            let high_nibble = match decode_hex_nibble(((high as u32) % 256) as u8) {
                Ok(nibble) => nibble,
                Err(error) => {
                    return Err(error);
                },
            };
            let low_nibble = match decode_hex_nibble(((low as u32) % 256) as u8) {
                Ok(nibble) => nibble,
                Err(error) => {
                    return Err(error);
                },
            };
            let code = high_nibble * 16 + low_nibble;
            if code >= 32 {
                return Err(DecodeError::InvalidEscape);
            }
            bytes_read += 4;
            out.push(code as char);
            proof {
                lemma_scanned_step(done, read, code as char, 4, scan_string(rest.skip(4)));
                done = done.push(code as char);
                assert(old(out)@ + done =~= (old(out)@ + done.drop_last()).push(code as char));
            }
            continue ;
        } else {
            return Err(DecodeError::InvalidEscape);
        };
        bytes_read += 2;
        out.push(decoded);
        proof {
            lemma_scanned_step(done, read, decoded, 2, scan_string(rest.skip(2)));
            done = done.push(decoded);
            assert(old(out)@ + done =~= (old(out)@ + done.drop_last()).push(decoded));
        }
    }
}

/// Decodes the text form of bytes from `position` on, where `in_hex` tells
/// whether pairs of hexadecimal digits or raw bytes are being read.
///
/// A `|` switches between the two. The byte `end_on` ends the text and is
/// the last byte read; so does the end of `encoded`.
pub open spec fn scan_bytes(encoded: Seq<u8>, position: nat, in_hex: bool, end_on: Option<u8>) -> Result<
    Scanned<u8>,
    DecodeError,
>
    decreases encoded.len() - position,
{
    if position >= encoded.len() {
        scanned_nothing(0)
    } else if encoded[position as int] == 124 {
        scanned_with(Seq::empty(), 1, scan_bytes(encoded, position + 1, !in_hex, end_on))
    } else if end_on == Some(encoded[position as int]) {
        scanned_nothing(1)
    } else if !in_hex {
        scanned_after(
            encoded[position as int],
            1,
            scan_bytes(encoded, position + 1, in_hex, end_on),
        )
    } else if position + 1 >= encoded.len() {
        Err(DecodeError::InvalidHexadecimal)
    } else {
        match (hex_value(encoded[position as int]), hex_value(encoded[position + 1 as int])) {
            (Some(high), Some(low)) => scanned_after(
                (high * 16 + low) as u8,
                2,
                scan_bytes(encoded, position + 2, in_hex, end_on),
            ),
            _ => Err(DecodeError::InvalidHexadecimal),
        }
    }
}

/// Decodes bytes from their text form: the opening `#`, if there is one,
/// then the text as [`scan_bytes`] reads it, starting with hexadecimal
/// digits.
pub open spec fn decoded_bytes(encoded: Seq<u8>, end_on: Option<u8>) -> Result<Scanned<u8>, DecodeError> {
    if encoded.len() > 0 && encoded[0] == 35 {
        scanned_with(Seq::empty(), 1, scan_bytes(encoded, 1, true, end_on))
    } else {
        scan_bytes(encoded, 0, true, end_on)
    }
}

/// Decodes bytes from their text form, appends them to `out` and returns
/// the bytes of text read: see [`decoded_bytes`]. On an error `out` holds
/// what was decoded before it.
pub fn decode_bytes(encoded: &[u8], end_on: Option<u8>, out: &mut Vec<u8>) -> (result: Result<
    usize,
    DecodeError,
>)
    ensures
        match result {
            Ok(read) => decoded_bytes(encoded@, end_on) == Ok::<_, DecodeError>(
                Scanned { decoded: final(out)@.skip(old(out)@.len() as int), read: read as nat },
            ),
            Err(error) => decoded_bytes(encoded@, end_on) == Err::<Scanned<u8>, _>(error),
        },
        final(out)@.len() >= old(out)@.len(),
        final(out)@.take(old(out)@.len() as int) == old(out)@,
{
    let mut position: usize = 0;
    if encoded.len() > 0 && encoded[0] == 35 {
        position = 1;
    }
    let ghost start = position as nat;
    let ghost mut done: Seq<u8> = Seq::empty();
    let mut in_hex = true;
    assert(scanned_with(done, 0, scan_bytes(encoded@, start, true, end_on)) == scan_bytes(
        encoded@,
        start,
        true,
        end_on,
    )) by {
        if let Ok(scanned) = scan_bytes(encoded@, start, true, end_on) {
            assert(done + scanned.decoded =~= scanned.decoded);
        }
    }
    while position < encoded.len()
        invariant
            start <= position <= encoded.len(),
            out@ == old(out)@ + done,
            scanned_with(
                done,
                (position - start) as nat,
                scan_bytes(encoded@, position as nat, in_hex, end_on),
            ) == scan_bytes(encoded@, start, true, end_on),
            decoded_bytes(encoded@, end_on) == scanned_with(
                Seq::empty(),
                start,
                scan_bytes(encoded@, start, true, end_on),
            ),
        decreases encoded.len() - position,
    {
        let byte = encoded[position];
        let ghost read = (position - start) as nat;
        if byte == 124 {
            proof {
                let rest = scan_bytes(encoded@, (position + 1) as nat, !in_hex, end_on);
                if let Ok(scanned) = rest {
                    assert(Seq::<u8>::empty() + scanned.decoded =~= scanned.decoded);
                }
            }
            in_hex = !in_hex;
            position += 1;
        } else if end_on == Some(byte) {
            proof {
                assert(done + Seq::<u8>::empty() =~= done);
                assert(Seq::<u8>::empty() + done =~= done);
                assert((old(out)@ + done).skip(old(out)@.len() as int) =~= done);
                assert((old(out)@ + done).take(old(out)@.len() as int) =~= old(out)@);
            }
            return Ok(position + 1);
        } else if in_hex {
            if position + 1 >= encoded.len() {
                return Err(DecodeError::InvalidHexadecimal);
            }
            let second = encoded[position + 1];
            let high = match decode_hex_nibble(byte) {
                Ok(nibble) => nibble,
                Err(error) => {
                    return Err(error);
                },
            };
            let low = match decode_hex_nibble(second) {
                Ok(nibble) => nibble,
                Err(error) => {
                    return Err(error);
                },
            };
            let decoded = high * 16 + low;
            out.push(decoded);
            proof {
                lemma_scanned_step(
                    done,
                    read,
                    decoded,
                    2,
                    scan_bytes(encoded@, (position + 2) as nat, in_hex, end_on),
                );
                done = done.push(decoded);
                assert(old(out)@ + done =~= (old(out)@ + done.drop_last()).push(decoded));
            }
            position += 2;
        } else {
            out.push(byte);
            proof {
                lemma_scanned_step(
                    done,
                    read,
                    byte,
                    1,
                    scan_bytes(encoded@, (position + 1) as nat, in_hex, end_on),
                );
                done = done.push(byte);
                assert(old(out)@ + done =~= (old(out)@ + done.drop_last()).push(byte));
            }
            position += 1;
        }
    }
    proof {
        assert(done + Seq::<u8>::empty() =~= done);
        assert((old(out)@ + done).skip(old(out)@.len() as int) =~= done);
        assert((old(out)@ + done).take(old(out)@.len() as int) =~= old(out)@);
        assert(Seq::<u8>::empty() + done =~= done);
    }
    Ok(position)
}

/// One character of a string as it stands between the quotes: escaped with
/// a backslash if it is `"`, `\`, a line feed, a carriage return, a tab or
/// the null character, as `\x` and two hexadecimal digits if it is another
/// character below the space, else as it is.
pub open spec fn escaped(ch: char) -> Seq<char> {
    if ch == '"' {
        seq!['\\', '"']
    } else if ch == '\\' {
        seq!['\\', '\\']
    } else if ch == '\n' {
        seq!['\\', 'n']
    } else if ch == '\r' {
        seq!['\\', 'r']
    } else if ch == '\t' {
        seq!['\\', 't']
    } else if ch == '\0' {
        seq!['\\', '0']
    } else if (ch as u32) < 32 {
        seq![
            '\\',
            'x',
            hex_digit(((ch as u32) / 16) as u8) as char,
            hex_digit(((ch as u32) % 16) as u8) as char,
        ]
    } else {
        seq![ch]
    }
}

/// The characters of a string, each as [`escaped`] gives it.
pub open spec fn escaped_text(chars: Seq<char>) -> Seq<char>
    decreases chars.len(),
{
    if chars.len() == 0 {
        Seq::empty()
    } else {
        escaped_text(chars.drop_last()) + escaped(chars.last())
    }
}

/// The text form of a string: its escaped characters between two quotes.
pub open spec fn string_text(chars: Seq<char>) -> Seq<char> {
    seq!['"'] + escaped_text(chars) + seq!['"']
}

/// Appends the text form of a string to `out`.
pub fn write_string(string: &str, out: &mut String)
    ensures
        final(out)@ == old(out)@ + string_text(string@),
{
    out.push('"');
    let mut chars = string.chars();
    let ghost mut done: Seq<char> = Seq::empty();
    proof {
        vstd::string::axiom_spec_iter(string);
        assert(old(out)@.push('"') + escaped_text(done) =~= old(out)@ + seq!['"']);
    }
    loop
        invariant
            chars.decrease() is Some,
            done + chars.remaining() == string@,
            out@ == old(out)@ + seq!['"'] + escaped_text(done),
        decreases chars.decrease()->0,
    {
        let ch = match chars.next() {
            Some(ch) => ch,
            None => {
                proof {
                    assert(done + Seq::<char>::empty() =~= done);
                }
                out.push('"');
                assert(out@ =~= old(out)@ + string_text(string@));
                return ;
            },
        };
        let ghost before = out@;
        if ch == '"' {
            out.push('\\');
            out.push('"');
        } else if ch == '\\' {
            out.push('\\');
            out.push('\\');
        } else if ch == '\n' {
            out.push('\\');
            out.push('n');
        } else if ch == '\r' {
            out.push('\\');
            out.push('r');
        } else if ch == '\t' {
            out.push('\\');
            out.push('t');
        } else if ch == '\0' {
            out.push('\\');
            out.push('0');
        } else if (ch as u32) < 32 {
            let code = ch as u32;
            out.push('\\');
            out.push('x');
            out.push(encode_hex_nibble((code / 16) as u8) as char);
            out.push(encode_hex_nibble((code % 16) as u8) as char);
        } else {
            out.push(ch);
        }
        proof {
            assert(out@ =~= before + escaped(ch));
            assert(done.push(ch).drop_last() =~= done);
            done = done.push(ch);
            assert(out@ =~= old(out)@ + seq!['"'] + escaped_text(done));
            assert(done + chars.remaining() =~= string@);
        }
    }
}

/// Whether a byte is shown as itself in the text form of bytes: printable
/// ASCII but for `|` and `;`.
pub open spec fn printable(byte: u8) -> bool {
    32 <= byte < 127 && byte != 124 && byte != 59
}

/// Tells whether a byte is shown as itself.
fn is_printable(byte: u8) -> (shown: bool)
    ensures
        shown == printable(byte),
{
    32 <= byte && byte < 127 && byte != 124 && byte != 59
}

/// The mode in which the byte at `position` is written, given the mode
/// before it: raw bytes start where two printable bytes follow each other,
/// and end at the first byte that is not printable.
pub open spec fn mode_at(bytes: Seq<u8>, position: nat, in_hex: bool) -> bool {
    if in_hex {
        !(printable(bytes[position as int]) && position + 1 < bytes.len() && printable(
            bytes[position + 1 as int],
        ))
    } else {
        !printable(bytes[position as int])
    }
}

/// The text of `bytes[position..]`, where `in_hex` is the mode before it:
/// two hexadecimal digits per byte in one mode, the byte itself in the
/// other, and a `|` wherever the mode changes.
pub open spec fn bytes_text_from(bytes: Seq<u8>, position: nat, in_hex: bool) -> Seq<char>
    decreases bytes.len() - position,
{
    if position >= bytes.len() {
        Seq::empty()
    } else {
        let byte = bytes[position as int];
        let mode = mode_at(bytes, position, in_hex);
        let switch: Seq<char> = if mode != in_hex {
            seq!['|']
        } else {
            Seq::empty()
        };
        let shown: Seq<char> = if mode {
            seq![hex_digit(byte / 16) as char, hex_digit(byte % 16) as char]
        } else {
            seq![byte as char]
        };
        switch + shown + bytes_text_from(bytes, position + 1, mode)
    }
}

/// The text form of bytes: `#`, then the bytes, starting with hexadecimal
/// digits.
pub open spec fn bytes_text(bytes: Seq<u8>) -> Seq<char> {
    seq!['#'] + bytes_text_from(bytes, 0, true)
}

/// Appends the text form of bytes to `out`.
pub fn write_bytes(bytes: &[u8], out: &mut String)
    ensures
        final(out)@ == old(out)@ + bytes_text(bytes@),
{
    out.push('#');
    let mut in_hex = true;
    let mut position: usize = 0;
    assert(out@ + bytes_text_from(bytes@, 0, true) =~= old(out)@ + bytes_text(bytes@));
    while position < bytes.len()
        invariant
            position <= bytes.len(),
            out@ + bytes_text_from(bytes@, position as nat, in_hex) == old(out)@ + bytes_text(bytes@),
        decreases bytes.len() - position,
    {
        let byte = bytes[position];
        let ghost before = out@;
        let ghost was_hex = in_hex;
        let current_is_printable = is_printable(byte);
        if in_hex {
            if current_is_printable && position + 1 < bytes.len() && is_printable(
                bytes[position + 1],
            ) {
                in_hex = false;
                out.push('|');
            }
        } else if !current_is_printable {
            in_hex = true;
            out.push('|');
        }
        if in_hex {
            out.push(encode_hex_nibble(byte / 16) as char);
            out.push(encode_hex_nibble(byte % 16) as char);
        } else {
            out.push(byte as char);
        }
        proof {
            let rest = bytes_text_from(bytes@, (position + 1) as nat, in_hex);
            assert(in_hex == mode_at(bytes@, position as nat, was_hex));
            assert(out@ + rest =~= before + bytes_text_from(bytes@, position as nat, was_hex));
        }
        position += 1;
    }
    assert(out@ + Seq::<char>::empty() =~= out@);
}

/// The decimal digits of a number, most significant first.
pub open spec fn digits(number: nat) -> Seq<char>
    decreases number,
{
    if number < 10 {
        seq![(48 + number) as u8 as char]
    } else {
        digits(number / 10).push((48 + number % 10) as u8 as char)
    }
}

/// Appends the decimal digits of a number to `out`.
pub fn write_digits(number: u128, out: &mut String)
    ensures
        final(out)@ == old(out)@ + digits(number as nat),
    decreases number,
{
    if number >= 10 {
        write_digits(number / 10, out);
    }
    out.push((48 + (number % 10) as u8) as char);
    assert(out@ =~= old(out)@ + digits(number as nat));
}

/// The decimal text of a number, with a minus sign if it is negative.
pub open spec fn decimal_text(number: int) -> Seq<char> {
    if number < 0 {
        seq!['-'] + digits((-number) as nat)
    } else {
        digits(number as nat)
    }
}

/// Appends the decimal text of a signed number to `out`.
fn write_signed(number: i128, out: &mut String)
    ensures
        final(out)@ == old(out)@ + decimal_text(number as int),
{
    if number < 0 {
        out.push('-');
        // The magnitude of the least number does not fit the signed type.
        let magnitude: u128 = ((-(number + 1)) as u128) + 1;
        write_digits(magnitude, out);
        assert(out@ =~= old(out)@ + decimal_text(number as int));
    } else {
        write_digits(number as u128, out);
    }
}

/// Appends the decimal text of an integer atom to `out`.
pub fn write_integer(integer: Integer, out: &mut String)
    ensures
        final(out)@ == old(out)@ + decimal_text(integer.value()),
{
    match integer {
        Integer::I8(v) => write_signed(v as i128, out),
        Integer::I16(v) => write_signed(v as i128, out),
        Integer::I32(v) => write_signed(v as i128, out),
        Integer::I64(v) => write_signed(v as i128, out),
        Integer::I128(v) => write_signed(v, out),
        Integer::U8(v) => write_digits(v as u128, out),
        Integer::U16(v) => write_digits(v as u128, out),
        Integer::U32(v) => write_digits(v as u128, out),
        Integer::U64(v) => write_digits(v as u128, out),
        Integer::U128(v) => write_digits(v, out),
    }
}

/// The text form of a value.
pub open spec fn value_text(value: ValueView) -> Seq<char>
    decreases value, 0nat,
{
    match value {
        ValueView::Nil => seq!['n', 'o', 'n', 'e'],
        ValueView::Unit => seq!['(', ')'],
        ValueView::Bool(true) => seq!['t', 'r', 'u', 'e'],
        ValueView::Bool(false) => seq!['f', 'a', 'l', 's', 'e'],
        ValueView::Integer(integer) => decimal_text(integer.value()),
        ValueView::Float(float) => float_text(float is Double, float.bits()),
        ValueView::Bytes(bytes) => bytes_text(bytes),
        ValueView::String(chars) => string_text(chars),
        ValueView::Sequence(values) => seq!['['] + sequence_text(values, values.len()) + seq![']'],
        ValueView::Mappings(entries) => seq!['{'] + mappings_text(entries, entries.len()) + seq![
            '}',
        ],
    }
}

/// The text forms of the first `count` values, separated by commas.
pub open spec fn sequence_text(values: Seq<ValueView>, count: nat) -> Seq<char>
    decreases values, count,
{
    if count == 0 || count > values.len() {
        Seq::empty()
    } else if count == 1 {
        value_text(values[0])
    } else {
        sequence_text(values, (count - 1) as nat) + seq![','] + value_text(values[count - 1])
    }
}

/// The text forms of the first `count` entries, each as key, colon and
/// value, separated by commas.
pub open spec fn mappings_text(entries: Seq<(ValueView, ValueView)>, count: nat) -> Seq<char>
    decreases entries, count,
{
    if count == 0 || count > entries.len() {
        Seq::empty()
    } else if count == 1 {
        value_text(entries[0].0) + seq![':'] + value_text(entries[0].1)
    } else {
        mappings_text(entries, (count - 1) as nat) + seq![','] + value_text(entries[count - 1].0)
            + seq![':'] + value_text(entries[count - 1].1)
    }
}

/// Appends the text form of a value to `out`.
pub fn write_value(value: &Value, out: &mut String)
    ensures
        final(out)@ == old(out)@ + value_text(value@),
    decreases value,
{
    match value {
        Value::Nil => {
            out.push('n');
            out.push('o');
            out.push('n');
            out.push('e');
            assert(out@ =~= old(out)@ + value_text(value@));
        },
        Value::Unit => {
            out.push('(');
            out.push(')');
            assert(out@ =~= old(out)@ + value_text(value@));
        },
        Value::Bool(true) => {
            out.push('t');
            out.push('r');
            out.push('u');
            out.push('e');
            assert(out@ =~= old(out)@ + value_text(value@));
        },
        Value::Bool(false) => {
            out.push('f');
            out.push('a');
            out.push('l');
            out.push('s');
            out.push('e');
            assert(out@ =~= old(out)@ + value_text(value@));
        },
        Value::Integer(integer) => write_integer(*integer, out),
        Value::Float(float) => {
            let text = format_float(*float);
            out.append(text.as_str());
        },
        Value::Bytes(bytes) => write_bytes(bytes.as_slice(), out),
        Value::String(string) => write_string(string.as_str(), out),
        Value::Sequence(values) => {
            proof {
                lemma_view_sequence(*values);
            }
            out.push('[');
            let mut i: usize = 0;
            while i < values.len()
                invariant
                    i <= values.len(),
                    value is Sequence,
                    value->Sequence_0 == *values,
                    out@ == old(out)@ + seq!['['] + sequence_text(views(values@), i as nat),
                decreases values.len() - i,
            {
                let ghost before = out@;
                if i > 0 {
                    out.push(',');
                }
                write_value(&values[i], out);
                i += 1;
                assert(out@ =~= old(out)@ + seq!['['] + sequence_text(views(values@), i as nat));
            }
            out.push(']');
            assert(out@ =~= old(out)@ + value_text(value@));
        },
        Value::Mappings(entries) => {
            proof {
                lemma_view_mappings(*entries);
            }
            out.push('{');
            let mut i: usize = 0;
            while i < entries.len()
                invariant
                    i <= entries.len(),
                    value is Mappings,
                    value->Mappings_0 == *entries,
                    out@ == old(out)@ + seq!['{'] + mappings_text(entry_views(entries@), i as nat),
                decreases entries.len() - i,
            {
                if i > 0 {
                    out.push(',');
                }
                write_value(&entries[i].0, out);
                out.push(':');
                write_value(&entries[i].1, out);
                i += 1;
                assert(out@ =~= old(out)@ + seq!['{'] + mappings_text(
                    entry_views(entries@),
                    i as nat,
                ));
            }
            out.push('}');
            assert(out@ =~= old(out)@ + value_text(value@));
        },
    }
}

/// The token that opens a container: the bracket, `@` if the key of an
/// entry is entered, the index unless the root is entered, and `;`.
pub open spec fn enter_text(bracket: char, index: Option<nat>, key: bool) -> Seq<char> {
    match index {
        Some(index) => if key {
            seq![bracket, '@'] + digits(index) + seq![';']
        } else {
            seq![bracket] + digits(index) + seq![';']
        },
        None => seq![bracket, ';'],
    }
}

/// The token of one change, where `open` lists the containers that are
/// open, innermost last, `true` standing for a sequence. An `Exit` closes
/// the innermost with its own bracket, and shows as `?` if none is open.
pub open spec fn change_text(change: ChangeView, open: Seq<bool>) -> Seq<char> {
    match change {
        ChangeView::EnterSequence { index, key } => enter_text('[', index, key),
        ChangeView::EnterMap { index, key } => enter_text('{', index, key),
        ChangeView::Exit => if open.len() == 0 {
            seq!['?']
        } else if open.last() {
            seq![']']
        } else {
            seq!['}']
        },
        ChangeView::Replace { index: Some(index), value } => seq!['~'] + digits(index) + seq![';']
            + value_text(value),
        ChangeView::Replace { index: None, value } => seq!['~', ';'] + value_text(value),
        ChangeView::ReplaceKey { index, key } => seq!['~', '@'] + digits(index) + seq![';']
            + value_text(key),
        ChangeView::ReplaceMapping { index, key, value } => seq!['~'] + digits(index) + seq![';']
            + value_text(key) + seq![';'] + value_text(value),
        ChangeView::Remove { index, length } => seq!['-'] + digits(index) + seq![';'] + digits(
            length,
        ),
        ChangeView::Truncate { length } => seq!['$'] + digits(length),
        ChangeView::Insert { index, value } => seq!['+'] + digits(index) + seq![';'] + value_text(
            value,
        ),
        ChangeView::InsertMapping { index, key, value } => seq!['+'] + digits(index) + seq![';']
            + value_text(key) + seq![';'] + value_text(value),
    }
}

/// The containers that are open after a change.
pub open spec fn open_after(change: ChangeView, open: Seq<bool>) -> Seq<bool> {
    match change {
        ChangeView::EnterSequence { .. } => open.push(true),
        ChangeView::EnterMap { .. } => open.push(false),
        ChangeView::Exit => if open.len() == 0 {
            open
        } else {
            open.drop_last()
        },
        _ => open,
    }
}

/// The brackets that close the containers of `open`, innermost first.
pub open spec fn closing_text(open: Seq<bool>) -> Seq<char>
    decreases open.len(),
{
    if open.len() == 0 {
        Seq::empty()
    } else if open.last() {
        seq![']'] + closing_text(open.drop_last())
    } else {
        seq!['}'] + closing_text(open.drop_last())
    }
}

/// The text of `changes[position..]`, where `open` lists the containers
/// that are open before it. The end of the script closes the containers
/// that are still open.
pub open spec fn script_text_from(changes: Seq<ChangeView>, position: nat, open: Seq<bool>) -> Seq<char>
    decreases changes.len() - position,
{
    if position >= changes.len() {
        closing_text(open)
    } else {
        change_text(changes[position as int], open) + script_text_from(
            changes,
            position + 1,
            open_after(changes[position as int], open),
        )
    }
}

/// The text form of a script: the tokens of its changes, one after another,
/// and a closing bracket for each container that the script leaves open.
pub open spec fn script_text(changes: Seq<ChangeView>) -> Seq<char> {
    script_text_from(changes, 0, Seq::empty())
}

/// Appends the token that opens a container to `out`.
fn write_enter(bracket: char, index: &Option<usize>, key: bool, out: &mut String)
    ensures
        final(out)@ == old(out)@ + enter_text(bracket, crate::change::index_view(*index), key),
{
    out.push(bracket);
    if let Some(index) = index {
        if key {
            out.push('@');
        }
        write_digits(*index as u128, out);
    }
    out.push(';');
    assert(out@ =~= old(out)@ + enter_text(bracket, crate::change::index_view(*index), key));
}

/// Appends the token of one change to `out`, and keeps the list of open
/// containers.
#[verifier::rlimit(30)]
fn write_change(change: &Change, open: &mut Vec<bool>, out: &mut String)
    ensures
        final(out)@ == old(out)@ + change_text(change@, old(open)@),
        final(open)@ == open_after(change@, old(open)@),
{
    match change {
        Change::EnterSequence { index, key } => {
            write_enter('[', index, *key, out);
            open.push(true);
        },
        Change::EnterMap { index, key } => {
            write_enter('{', index, *key, out);
            open.push(false);
        },
        Change::Exit => {
            match open.pop() {
                Some(true) => out.push(']'),
                Some(false) => out.push('}'),
                None => out.push('?'),
            }
            assert(out@ =~= old(out)@ + change_text(change@, old(open)@));
        },
        Change::Replace { index: Some(index), value } => {
            out.push('~');
            write_digits(*index as u128, out);
            out.push(';');
            write_value(value, out);
            assert(out@ =~= old(out)@ + change_text(change@, old(open)@));
        },
        Change::Replace { index: None, value } => {
            out.push('~');
            out.push(';');
            write_value(value, out);
            assert(out@ =~= old(out)@ + change_text(change@, old(open)@));
        },
        Change::ReplaceKey { index, key } => {
            out.push('~');
            out.push('@');
            write_digits(*index as u128, out);
            out.push(';');
            write_value(key, out);
            assert(out@ =~= old(out)@ + change_text(change@, old(open)@));
        },
        Change::ReplaceMapping { index, key, value } => {
            out.push('~');
            write_digits(*index as u128, out);
            out.push(';');
            write_value(key, out);
            out.push(';');
            write_value(value, out);
            assert(out@ =~= old(out)@ + change_text(change@, old(open)@));
        },
        Change::Remove { index, length } => {
            out.push('-');
            write_digits(*index as u128, out);
            out.push(';');
            write_digits(*length as u128, out);
            assert(out@ =~= old(out)@ + change_text(change@, old(open)@));
        },
        Change::Truncate { length } => {
            out.push('$');
            write_digits(*length as u128, out);
            assert(out@ =~= old(out)@ + change_text(change@, old(open)@));
        },
        Change::Insert { index, value } => {
            out.push('+');
            write_digits(*index as u128, out);
            out.push(';');
            write_value(value, out);
            assert(out@ =~= old(out)@ + change_text(change@, old(open)@));
        },
        Change::InsertMapping { index, key, value } => {
            out.push('+');
            write_digits(*index as u128, out);
            out.push(';');
            write_value(key, out);
            out.push(';');
            write_value(value, out);
            assert(out@ =~= old(out)@ + change_text(change@, old(open)@));
        },
    }
}

impl Diff {
    /// The text form of the script: see [`script_text`].
    pub fn to_string(&self) -> (text: String)
        ensures
            text@ == script_text(self@),
    {
        let mut out = String::new();
        let mut open: Vec<bool> = Vec::new();
        let mut i: usize = 0;
        assert(out@ + script_text_from(self@, 0, open@) =~= script_text(self@));
        while i < self.changes.len()
            invariant
                i <= self.changes.len(),
                out@ + script_text_from(self@, i as nat, open@) == script_text(self@),
            decreases self.changes.len() - i,
        {
            let ghost before = out@;
            let ghost was_open = open@;
            write_change(&self.changes[i], &mut open, &mut out);
            proof {
                assert(out@ + script_text_from(self@, (i + 1) as nat, open@) =~= before
                    + script_text_from(self@, i as nat, was_open));
            }
            i += 1;
        }
        while open.len() > 0
            invariant
                i == self.changes.len(),
                out@ + closing_text(open@) == script_text(self@),
            decreases open.len(),
        {
            let ghost before = out@;
            let ghost was_open = open@;
            match open.pop() {
                Some(true) => out.push(']'),
                _ => out.push('}'),
            }
            assert(out@ + closing_text(open@) =~= before + closing_text(was_open));
        }
        assert(out@ + Seq::<char>::empty() =~= out@);
        out
    }
}

/// A value, to be shown in its text form.
pub struct ValueDisplay<'a>(pub &'a Value);

impl<'a> ValueDisplay<'a> {
    /// The text form of the value: see [`value_text`].
    pub fn to_string(&self) -> (text: String)
        ensures
            text@ == value_text(self.0@),
    {
        let mut out = String::new();
        write_value(self.0, &mut out);
        assert(Seq::<char>::empty() + value_text(self.0@) =~= value_text(self.0@));
        out
    }
}

/// A string, to be shown in its quoted text form.
pub struct StringDisplay<'a>(pub &'a str);

impl<'a> StringDisplay<'a> {
    /// The text form of the string: see [`string_text`].
    pub fn to_string(&self) -> (text: String)
        ensures
            text@ == string_text(self.0@),
    {
        let mut out = String::new();
        write_string(self.0, &mut out);
        assert(Seq::<char>::empty() + string_text(self.0@) =~= string_text(self.0@));
        out
    }
}

/// Bytes, to be shown in their text form: hexadecimal digits, with runs of
/// printable ASCII as they are.
pub struct BytesDisplay<'a>(pub &'a [u8]);

impl<'a> BytesDisplay<'a> {
    /// The text form of the bytes: see [`bytes_text`].
    pub fn to_string(&self) -> (text: String)
        ensures
            text@ == bytes_text(self.0@),
    {
        let mut out = String::new();
        write_bytes(self.0, &mut out);
        assert(Seq::<char>::empty() + bytes_text(self.0@) =~= bytes_text(self.0@));
        out
    }
}

} // verus!
