//! Reading back the text forms of strings and of bytes.

use vstd::prelude::*;

use crate::text::{
    bytes_text, bytes_text_from, decoded_bytes, decoded_string, escaped, escaped_text, hex_digit,
    hex_value, low_byte, mode_at, printable, scan_bytes, scan_string, scanned_after, string_text,
    utf8_length, DecodeError, Scanned,
};

verus! {

/// The characters of `chars[from..]`, each as [`escaped`] gives it.
pub open spec fn escaped_from(chars: Seq<char>, from: nat) -> Seq<char>
    decreases chars.len() - from,
{
    if from >= chars.len() {
        Seq::empty()
    } else {
        escaped(chars[from as int]) + escaped_from(chars, from + 1)
    }
}

/// The escaped text of a string is the escaped text of its first
/// characters and then of the others.
proof fn lemma_escaped_split(chars: Seq<char>, count: nat)
    requires
        count <= chars.len(),
    ensures
        escaped_from(chars, 0) == escaped_text(chars.subrange(0, count as int)) + escaped_from(
            chars,
            count,
        ),
    decreases count,
{
    if count == 0 {
        assert(escaped_text(chars.subrange(0, 0)) + escaped_from(chars, 0) =~= escaped_from(
            chars,
            0,
        ));
    } else {
        lemma_escaped_split(chars, (count - 1) as nat);
        let before = chars.subrange(0, count - 1);
        let upto = chars.subrange(0, count as int);
        assert(upto.drop_last() =~= before);
        assert(upto.last() == chars[count - 1]);
        assert(escaped_from(chars, (count - 1) as nat) == escaped(chars[count - 1]) + escaped_from(
            chars,
            count,
        ));
        assert(escaped_text(before) + (escaped(chars[count - 1]) + escaped_from(chars, count))
            =~= (escaped_text(before) + escaped(chars[count - 1])) + escaped_from(chars, count));
    }
}

/// The bytes of text that a character of a string counts for when it is
/// read back: two for an escape, four for a hexadecimal escape, else its
/// length in UTF-8.
pub open spec fn escaped_bytes(ch: char) -> nat {
    if ch == '"' || ch == '\\' || ch == '\n' || ch == '\r' || ch == '\t' || ch == '\0' {
        2
    } else if (ch as u32) < 32 {
        4
    } else {
        utf8_length(ch)
    }
}

/// The bytes of text that `chars[from..]` count for when they are read back.
pub open spec fn escaped_bytes_from(chars: Seq<char>, from: nat) -> nat
    decreases chars.len() - from,
{
    if from >= chars.len() {
        0
    } else {
        escaped_bytes(chars[from as int]) + escaped_bytes_from(chars, from + 1)
    }
}

/// The hexadecimal digits of a character below the space read back as the
/// character.
proof fn lemma_hex_escape(ch: char)
    requires
        (ch as u32) < 32,
    ensures
        ({
            let high = hex_digit(((ch as u32) / 16) as u8) as char;
            let low = hex_digit(((ch as u32) % 16) as u8) as char;
            &&& hex_value(low_byte(high)) == Some(((ch as u32) / 16) as u8)
            &&& hex_value(low_byte(low)) == Some(((ch as u32) % 16) as u8)
            &&& (((ch as u32) / 16) as u8 * 16 + ((ch as u32) % 16) as u8) as u8 as char == ch
        }),
{
    vstd::utf8::char_u32_cast(ch, ch as u32);
}

/// The escaped characters of a string, a quote and anything after it read
/// back as the string.
proof fn lemma_scan_escaped(chars: Seq<char>, from: nat, tail: Seq<char>)
    requires
        from <= chars.len(),
    ensures
        scan_string(escaped_from(chars, from) + seq!['"'] + tail) == Ok::<_, DecodeError>(
            Scanned {
                decoded: chars.skip(from as int),
                read: escaped_bytes_from(chars, from) + 1,
            },
        ),
    decreases chars.len() - from,
{
    let input = escaped_from(chars, from) + seq!['"'] + tail;
    if from >= chars.len() {
        assert(input[0] == '"');
        assert(chars.skip(from as int) =~= Seq::<char>::empty());
    } else {
        let ch = chars[from as int];
        let shown = escaped(ch);
        let others = escaped_from(chars, from + 1) + seq!['"'] + tail;
        lemma_scan_escaped(chars, from + 1, tail);
        assert(input =~= shown + others);
        assert(input.skip(shown.len() as int) =~= others);
        assert(input.drop_first() =~= input.skip(1));
        assert(seq![ch] + chars.skip((from + 1) as int) =~= chars.skip(from as int));
        if (ch as u32) < 32 && ch != '\n' && ch != '\r' && ch != '\t' && ch != '\0' {
            lemma_hex_escape(ch);
            assert(input[0] == '\\' && input[1] == 'x');
            assert(input[2] == shown[2] && input[3] == shown[3]);
        } else if shown.len() == 2 {
            assert(input[0] == shown[0] && input[1] == shown[1]);
        } else {
            assert(input[0] == ch);
        }
    }
}

/// A string reads back from its text form, whatever follows the closing
/// quote: decoding the text of a string gives the string.
pub proof fn lemma_string_reads_back(chars: Seq<char>, tail: Seq<char>)
    ensures
        decoded_string(string_text(chars) + tail) == Ok::<_, DecodeError>(
            Scanned { decoded: chars, read: escaped_bytes_from(chars, 0) + 2 },
        ),
{
    let input = string_text(chars) + tail;
    lemma_escaped_split(chars, chars.len());
    lemma_scan_escaped(chars, 0, tail);
    assert(chars.subrange(0, chars.len() as int) =~= chars);
    assert(escaped_from(chars, chars.len()) =~= Seq::<char>::empty());
    assert(escaped_text(chars) + Seq::<char>::empty() =~= escaped_text(chars));
    assert(input[0] == '"');
    assert(input.drop_first() =~= escaped_from(chars, 0) + seq!['"'] + tail);
    assert(chars.skip(0) =~= chars);
}

/// The bytes of a text that holds ASCII only.
pub open spec fn ascii(text: Seq<char>) -> Seq<u8> {
    Seq::new(text.len(), |i: int| text[i] as u8)
}

/// The bytes of two texts, one after the other.
proof fn lemma_ascii_add(first: Seq<char>, second: Seq<char>)
    ensures
        ascii(first + second) == ascii(first) + ascii(second),
{
    assert(ascii(first + second) =~= ascii(first) + ascii(second));
}

/// The text of `bytes[from..]` reads back as those bytes, wherever it
/// stands at the end of some bytes.
proof fn lemma_scan_bytes_text(bytes: Seq<u8>, from: nat, in_hex: bool, before: Seq<u8>)
    requires
        from <= bytes.len(),
    ensures
        scan_bytes(
            before + ascii(bytes_text_from(bytes, from, in_hex)),
            before.len(),
            in_hex,
            None,
        ) == Ok::<_, DecodeError>(
            Scanned {
                decoded: bytes.skip(from as int),
                read: bytes_text_from(bytes, from, in_hex).len(),
            },
        ),
    decreases bytes.len() - from,
{
    let text = bytes_text_from(bytes, from, in_hex);
    let encoded = before + ascii(text);
    if from >= bytes.len() {
        assert(encoded =~= before);
        assert(bytes.skip(from as int) =~= Seq::<u8>::empty());
    } else {
        let byte = bytes[from as int];
        let mode = mode_at(bytes, from, in_hex);
        let switch: Seq<char> = if mode != in_hex {
            seq!['|']
        } else {
            Seq::empty()
        };
        let shown: Seq<char> = if mode {
            seq![hex_digit(byte / 16) as char, hex_digit(byte % 16) as char]
        } else {
            seq![byte as char]
        };
        let others = bytes_text_from(bytes, from + 1, mode);
        let consumed = before + ascii(switch + shown);
        lemma_ascii_add(switch + shown, others);
        lemma_ascii_add(switch, shown);
        assert(text == switch + shown + others);
        assert(encoded =~= consumed + ascii(others));
        lemma_scan_bytes_text(bytes, from + 1, mode, consumed);
        assert(seq![byte] + bytes.skip((from + 1) as int) =~= bytes.skip(from as int));
        let start = (before.len() + switch.len()) as int;
        if mode != in_hex {
            assert(encoded[before.len() as int] == 124);
        }
        if mode {
            assert(encoded[start] == hex_digit(byte / 16));
            assert(encoded[start + 1] == hex_digit(byte % 16));
            assert((byte / 16 * 16 + byte % 16) as u8 == byte);
        } else {
            assert(printable(byte));
            assert(encoded[start] == byte);
        }
        let rest = scan_bytes(encoded, (start + shown.len()) as nat, mode, None);
        assert(rest == Ok::<_, DecodeError>(
            Scanned { decoded: bytes.skip((from + 1) as int), read: others.len() },
        ));
        let here = scan_bytes(encoded, start as nat, mode, None);
        assert(here == scanned_after(byte, shown.len(), rest));
        if mode != in_hex {
            assert(Seq::<u8>::empty() + here->Ok_0.decoded =~= here->Ok_0.decoded);
        }
    }
}

/// Bytes read back from their text form: decoding the text of bytes gives
/// the bytes.
pub proof fn lemma_bytes_read_back(bytes: Seq<u8>)
    ensures
        decoded_bytes(ascii(bytes_text(bytes)), None) == Ok::<_, DecodeError>(
            Scanned { decoded: bytes, read: bytes_text(bytes).len() },
        ),
{
    let text = bytes_text_from(bytes, 0, true);
    let before = ascii(seq!['#']);
    lemma_ascii_add(seq!['#'], text);
    lemma_scan_bytes_text(bytes, 0, true, before);
    assert(before[0] == 35);
    assert(ascii(bytes_text(bytes))[0] == 35);
    assert(bytes.skip(0) =~= bytes);
    let scanned = scan_bytes(ascii(bytes_text(bytes)), 1, true, None);
    assert(Seq::<u8>::empty() + scanned->Ok_0.decoded =~= scanned->Ok_0.decoded);
}

} // verus!
