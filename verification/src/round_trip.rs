//! Reading back the binary form of a script.
//!
//! The binary form is built on the atom codec and on variable-length
//! integers, which this crate does not look into. What is proved here is
//! what this crate adds: wherever those read back what they write, a whole
//! script reads back from its bytes.

use vstd::prelude::*;

use crate::binary::{
    bit_set, change_byte, change_bytes, changes_bytes, index_bytes, mappings_bytes, parse_change,
    parse_changes, parse_enter, parse_entries, parse_insert, parse_payload, parse_place,
    parse_remove, parse_replace, parse_script, parse_truncate, parse_value, parse_values,
    parse_varint, parsed, place_flags, script_bytes, sequence_bytes, value_bytes, Fault, Parsed,
    ENTER_MAP, ENTER_SEQUENCE, EXIT, INSERT, KEY_FLAG, MAPPING_FLAG, REMOVE, REPLACE, ROOT_FLAG,
    TRUNCATE, VERSION,
};
use crate::change::ChangeView;
use crate::codec::{
    atom_header, atom_parse, header_parse, varint_bytes, varint_parse, AtomView, PayloadView,
    StreamFault, KIND_MAP, KIND_SEQUENCE,
};
use crate::value::ValueView;

verus! {

/// Whether every variable-length integer is read back from its bytes,
/// whatever follows them.
pub open spec fn varints_read_back() -> bool {
    forall|value: usize, rest: Seq<u8>| #[trigger]
        varint_parse(varint_bytes(value) + rest) == Ok::<_, StreamFault>(
            (value, varint_bytes(value).len()),
        )
}

/// Whether the head of a container with this kind and length is read back
/// from its bytes when `rest` follows them.
pub open spec fn head_reads_back(kind: u8, length: u64, rest: Seq<u8>) -> bool {
    let head = atom_header(kind, length);
    &&& head.len() > 0
    &&& header_parse(head + rest) == Some((kind, length))
    &&& atom_parse(head + rest) == Some(
        (AtomView { kind, arg: length, payload: PayloadView::Absent }, head.len()),
    )
}

/// Whether the head of every sequence and every map is read back from its
/// bytes, whatever follows them.
pub open spec fn heads_read_back() -> bool {
    forall|length: u64, rest: Seq<u8>|
        #![trigger head_reads_back(KIND_SEQUENCE, length, rest)]
        #![trigger head_reads_back(KIND_MAP, length, rest)]
        head_reads_back(KIND_SEQUENCE, length, rest) && head_reads_back(KIND_MAP, length, rest)
}

/// Whether a value is read back from its bytes when `rest` follows them.
pub open spec fn reads_back(value: ValueView, rest: Seq<u8>) -> bool {
    &&& value_bytes(value).len() > 0
    &&& parse_value(value_bytes(value) + rest) == Ok::<_, Fault>(
        Parsed { value, taken: value_bytes(value).len() },
    )
}

/// Whether the leaves of a value are read back from their bytes, whatever
/// follows them, and its containers are no longer than a length can tell.
pub open spec fn leaves_read_back(value: ValueView) -> bool
    decreases value,
{
    match value {
        ValueView::Sequence(values) => values.len() <= usize::MAX && forall|i: int|
            0 <= i < values.len() ==> leaves_read_back(#[trigger] values[i]),
        ValueView::Mappings(entries) => entries.len() <= usize::MAX && forall|i: int|
            0 <= i < entries.len() ==> leaves_read_back((#[trigger] entries[i]).0)
                && leaves_read_back(entries[i].1),
        _ => forall|rest: Seq<u8>| #[trigger] reads_back(value, rest),
    }
}

/// The binary forms of `values[from..to]`, one after another.
pub open spec fn sequence_bytes_from(values: Seq<ValueView>, from: nat, to: nat) -> Seq<u8>
    decreases to - from,
{
    if from >= to {
        Seq::empty()
    } else {
        value_bytes(values[from as int]) + sequence_bytes_from(values, from + 1, to)
    }
}

/// The binary forms of `entries[from..to]`, one after another.
pub open spec fn mappings_bytes_from(entries: Seq<(ValueView, ValueView)>, from: nat, to: nat) -> Seq<
    u8,
>
    decreases to - from,
{
    if from >= to {
        Seq::empty()
    } else {
        value_bytes(entries[from as int].0) + value_bytes(entries[from as int].1)
            + mappings_bytes_from(entries, from + 1, to)
    }
}

/// The bytes of some values are the bytes of the first ones and then of
/// the last.
proof fn lemma_sequence_bytes_from_last(values: Seq<ValueView>, from: nat, to: nat)
    requires
        from < to <= values.len(),
    ensures
        sequence_bytes_from(values, from, to) == sequence_bytes_from(values, from, (to - 1) as nat)
            + value_bytes(values[to - 1]),
    decreases to - from,
{
    let first = value_bytes(values[from as int]);
    let last = value_bytes(values[to - 1]);
    if from + 1 < to {
        lemma_sequence_bytes_from_last(values, from + 1, to);
        let middle = sequence_bytes_from(values, from + 1, (to - 1) as nat);
        assert(sequence_bytes_from(values, from, (to - 1) as nat) == first + middle);
        assert(first + (middle + last) =~= (first + middle) + last);
    } else {
        assert(sequence_bytes_from(values, from + 1, to) =~= Seq::<u8>::empty());
        assert(sequence_bytes_from(values, from, (to - 1) as nat) =~= Seq::<u8>::empty());
        assert(first + Seq::<u8>::empty() =~= Seq::<u8>::empty() + last);
    }
}

/// The bytes of the children of a sequence, from the first on.
proof fn lemma_sequence_bytes_forward(values: Seq<ValueView>, count: nat)
    requires
        count <= values.len(),
    ensures
        sequence_bytes(values, count) == sequence_bytes_from(values, 0, count),
    decreases count,
{
    if count > 0 {
        lemma_sequence_bytes_forward(values, (count - 1) as nat);
        lemma_sequence_bytes_from_last(values, 0, count);
    }
}

/// The bytes of some entries are the bytes of the first ones and then of
/// the last.
proof fn lemma_mappings_bytes_from_last(entries: Seq<(ValueView, ValueView)>, from: nat, to: nat)
    requires
        from < to <= entries.len(),
    ensures
        mappings_bytes_from(entries, from, to) == mappings_bytes_from(
            entries,
            from,
            (to - 1) as nat,
        ) + value_bytes(entries[to - 1].0) + value_bytes(entries[to - 1].1),
    decreases to - from,
{
    let first = value_bytes(entries[from as int].0) + value_bytes(entries[from as int].1);
    let last_key = value_bytes(entries[to - 1].0);
    let last_value = value_bytes(entries[to - 1].1);
    if from + 1 < to {
        lemma_mappings_bytes_from_last(entries, from + 1, to);
        let middle = mappings_bytes_from(entries, from + 1, (to - 1) as nat);
        assert(mappings_bytes_from(entries, from, (to - 1) as nat) == first + middle);
        assert(first + (middle + last_key + last_value) =~= (first + middle) + last_key
            + last_value);
    } else {
        assert(mappings_bytes_from(entries, from + 1, to) =~= Seq::<u8>::empty());
        assert(mappings_bytes_from(entries, from, (to - 1) as nat) =~= Seq::<u8>::empty());
        assert(first + Seq::<u8>::empty() =~= Seq::<u8>::empty() + last_key + last_value);
    }
}

/// The bytes of the entries of a mappings container, from the first on.
proof fn lemma_mappings_bytes_forward(entries: Seq<(ValueView, ValueView)>, count: nat)
    requires
        count <= entries.len(),
    ensures
        mappings_bytes(entries, count) == mappings_bytes_from(entries, 0, count),
    decreases count,
{
    if count > 0 {
        lemma_mappings_bytes_forward(entries, (count - 1) as nat);
        lemma_mappings_bytes_from_last(entries, 0, count);
    }
}

/// A value whose leaves read back reads back as a whole.
pub proof fn lemma_value_reads_back(value: ValueView, rest: Seq<u8>)
    requires
        heads_read_back(),
        leaves_read_back(value),
    ensures
        reads_back(value, rest),
    decreases value, 0nat,
{
    match value {
        ValueView::Sequence(values) => {
            let head = atom_header(KIND_SEQUENCE, values.len() as u64);
            let children = sequence_bytes(values, values.len());
            let input = value_bytes(value) + rest;
            assert(head_reads_back(KIND_SEQUENCE, values.len() as u64, children + rest));
            assert(input =~= head + (children + rest));
            assert(input.skip(head.len() as int) =~= children + rest);
            lemma_sequence_bytes_forward(values, values.len());
            lemma_values_read_back(values, 0, values.len(), rest);
            assert(values.subrange(0, values.len() as int) =~= values);
        },
        ValueView::Mappings(entries) => {
            let head = atom_header(KIND_MAP, entries.len() as u64);
            let children = mappings_bytes(entries, entries.len());
            let input = value_bytes(value) + rest;
            assert(head_reads_back(KIND_MAP, entries.len() as u64, children + rest));
            assert(input =~= head + (children + rest));
            assert(input.skip(head.len() as int) =~= children + rest);
            lemma_mappings_bytes_forward(entries, entries.len());
            lemma_entries_read_back(entries, 0, entries.len(), rest);
            assert(entries.subrange(0, entries.len() as int) =~= entries);
        },
        _ => {
            assert(reads_back(value, rest));
        },
    }
}

/// Values whose leaves read back are read back one after another; each
/// takes at least one byte.
pub proof fn lemma_values_read_back(values: Seq<ValueView>, from: nat, to: nat, rest: Seq<u8>)
    requires
        heads_read_back(),
        from <= to <= values.len(),
        forall|i: int| 0 <= i < values.len() ==> leaves_read_back(#[trigger] values[i]),
    ensures
        sequence_bytes_from(values, from, to).len() >= to - from,
        parse_values(sequence_bytes_from(values, from, to) + rest, (to - from) as nat) == Ok::<
            _,
            Fault,
        >(
            Parsed {
                value: values.subrange(from as int, to as int),
                taken: sequence_bytes_from(values, from, to).len(),
            },
        ),
    decreases values, to - from,
{
    if from < to {
        let first = value_bytes(values[from as int]);
        let others = sequence_bytes_from(values, from + 1, to);
        let input = sequence_bytes_from(values, from, to) + rest;
        lemma_value_reads_back(values[from as int], others + rest);
        lemma_values_read_back(values, from + 1, to, rest);
        assert(input =~= first + (others + rest));
        assert(input.skip(first.len() as int) =~= others + rest);
        assert(seq![values[from as int]] + values.subrange((from + 1) as int, to as int)
            =~= values.subrange(from as int, to as int));
    } else {
        assert(values.subrange(from as int, to as int) =~= Seq::<ValueView>::empty());
    }
}

/// Entries whose leaves read back are read back one after another; each
/// takes at least two bytes.
pub proof fn lemma_entries_read_back(
    entries: Seq<(ValueView, ValueView)>,
    from: nat,
    to: nat,
    rest: Seq<u8>,
)
    requires
        heads_read_back(),
        from <= to <= entries.len(),
        forall|i: int|
            0 <= i < entries.len() ==> leaves_read_back((#[trigger] entries[i]).0)
                && leaves_read_back(entries[i].1),
    ensures
        mappings_bytes_from(entries, from, to).len() >= to - from,
        parse_entries(mappings_bytes_from(entries, from, to) + rest, (to - from) as nat) == Ok::<
            _,
            Fault,
        >(
            Parsed {
                value: entries.subrange(from as int, to as int),
                taken: mappings_bytes_from(entries, from, to).len(),
            },
        ),
    decreases entries, to - from,
{
    if from < to {
        let key = value_bytes(entries[from as int].0);
        let value = value_bytes(entries[from as int].1);
        let others = mappings_bytes_from(entries, from + 1, to);
        let input = mappings_bytes_from(entries, from, to) + rest;
        lemma_value_reads_back(entries[from as int].0, value + (others + rest));
        lemma_value_reads_back(entries[from as int].1, others + rest);
        lemma_entries_read_back(entries, from + 1, to, rest);
        assert(input =~= key + (value + (others + rest)));
        assert(input.skip(key.len() as int) =~= value + (others + rest));
        assert(input.skip((key.len() + value.len()) as int) =~= others + rest);
        assert(seq![entries[from as int]] + entries.subrange((from + 1) as int, to as int)
            =~= entries.subrange(from as int, to as int));
    } else {
        assert(entries.subrange(from as int, to as int) =~= Seq::<(ValueView, ValueView)>::empty());
    }
}

/// Whether the indices and lengths of a change fit the integers they are
/// written as, and the leaves of its values read back.
pub open spec fn change_reads_back(change: ChangeView) -> bool {
    match change {
        ChangeView::EnterSequence { index, key } => index matches Some(index) ==> index
            <= usize::MAX,
        ChangeView::EnterMap { index, key } => index matches Some(index) ==> index <= usize::MAX,
        ChangeView::Exit => true,
        ChangeView::Replace { index, value } => (index matches Some(index) ==> index <= usize::MAX)
            && leaves_read_back(value),
        ChangeView::ReplaceKey { index, key } => index <= usize::MAX && leaves_read_back(key),
        ChangeView::ReplaceMapping { index, key, value } => index <= usize::MAX
            && leaves_read_back(key) && leaves_read_back(value),
        ChangeView::Remove { index, length } => index <= usize::MAX && length <= usize::MAX,
        ChangeView::Truncate { length } => length <= usize::MAX,
        ChangeView::Insert { index, value } => index <= usize::MAX && leaves_read_back(value),
        ChangeView::InsertMapping { index, key, value } => index <= usize::MAX && leaves_read_back(
            key,
        ) && leaves_read_back(value),
    }
}

/// The first byte of a change holds its variant and its flags apart.
proof fn lemma_change_byte(variant: u8, flags: u8)
    by (bit_vector)
    requires
        variant < 16,
        flags < 16,
    ensures
        ((variant << 4) | flags) >> 4 == variant,
        ((variant << 4) | flags) & 1 == flags & 1,
        ((variant << 4) | flags) & 2 == flags & 2,
        ((variant << 4) | flags) & 4 == flags & 4,
{
}

/// The flags that the changes are written with, bit by bit.
proof fn lemma_flags()
    ensures
        0u8 & 1 == 0 && 0u8 & 2 == 0 && 0u8 & 4 == 0,
        1u8 & 1 == 1 && 1u8 & 2 == 0 && 1u8 & 4 == 0,
        2u8 & 1 == 0 && 2u8 & 2 == 2 && 2u8 & 4 == 0,
        3u8 & 1 == 1 && 3u8 & 2 == 2 && 3u8 & 4 == 0,
        4u8 & 1 == 0 && 4u8 & 2 == 0 && 4u8 & 4 == 4,
{
    assert(0u8 & 1 == 0 && 0u8 & 2 == 0 && 0u8 & 4 == 0 && 1u8 & 1 == 1 && 1u8 & 2 == 0 && 1u8 & 4
        == 0 && 2u8 & 1 == 0 && 2u8 & 2 == 2 && 2u8 & 4 == 0 && 3u8 & 1 == 1 && 3u8 & 2 == 2 && 3u8
        & 4 == 0 && 4u8 & 1 == 0 && 4u8 & 2 == 0 && 4u8 & 4 == 4) by (bit_vector);
}

/// What the first byte of a change tells when it is read.
proof fn lemma_change_byte_read(variant: u8, flags: u8)
    requires
        variant < 16,
        flags <= 4,
    ensures
        change_byte(variant, flags) >> 4 == variant,
        bit_set(change_byte(variant, flags), KEY_FLAG) == (flags == 1 || flags == 3),
        bit_set(change_byte(variant, flags), ROOT_FLAG) == (flags == 2 || flags == 3),
        bit_set(change_byte(variant, flags), MAPPING_FLAG) == (flags == 4),
{
    lemma_change_byte(variant, flags);
    lemma_flags();
}

/// A variable-length integer reads back, whatever follows it.
proof fn lemma_varint_reads_back(value: usize, rest: Seq<u8>)
    requires
        varints_read_back(),
    ensures
        parse_varint(varint_bytes(value) + rest) == Ok::<_, Fault>(
            Parsed { value, taken: varint_bytes(value).len() },
        ),
{
    assert(varint_parse(varint_bytes(value) + rest) == Ok::<_, StreamFault>(
        (value, varint_bytes(value).len()),
    ));
}

/// The index of an `Enter` or a `Replace` reads back, whatever follows it.
proof fn lemma_place_reads_back(index: Option<nat>, rest: Seq<u8>)
    requires
        varints_read_back(),
        index matches Some(index) ==> index <= usize::MAX,
    ensures
        parse_place(index is None, index_bytes(index) + rest) == Ok::<_, Fault>(
            Parsed { value: index, taken: index_bytes(index).len() },
        ),
{
    if let Some(index) = index {
        lemma_varint_reads_back(index as usize, rest);
    }
}

/// An index and a value read back one after the other.
proof fn lemma_index_and_value(index: nat, value: ValueView, rest: Seq<u8>)
    requires
        varints_read_back(),
        heads_read_back(),
        index <= usize::MAX,
        leaves_read_back(value),
    ensures
        ({
            let input = varint_bytes(index as usize) + value_bytes(value) + rest;
            let after = input.skip(varint_bytes(index as usize).len() as int);
            &&& parse_varint(input) == Ok::<_, Fault>(
                Parsed { value: index as usize, taken: varint_bytes(index as usize).len() },
            )
            &&& after == value_bytes(value) + rest
            &&& parse_value(after) == Ok::<_, Fault>(
                Parsed { value, taken: value_bytes(value).len() },
            )
            &&& after.skip(value_bytes(value).len() as int) == rest
        }),
{
    let head = varint_bytes(index as usize);
    let input = head + value_bytes(value) + rest;
    assert(input =~= head + (value_bytes(value) + rest));
    lemma_varint_reads_back(index as usize, value_bytes(value) + rest);
    lemma_value_reads_back(value, rest);
    assert(input.skip(head.len() as int) =~= value_bytes(value) + rest);
    assert((value_bytes(value) + rest).skip(value_bytes(value).len() as int) =~= rest);
}

/// The payload of an `Enter` reads back, whatever follows it.
proof fn lemma_enter_reads_back(sequence: bool, index: Option<nat>, key: bool, rest: Seq<u8>)
    requires
        varints_read_back(),
        index matches Some(index) ==> index <= usize::MAX,
    ensures
        parse_enter(sequence, key, index is None, index_bytes(index) + rest) == Ok::<_, Fault>(
            Parsed {
                value: if sequence {
                    ChangeView::EnterSequence { index, key }
                } else {
                    ChangeView::EnterMap { index, key }
                },
                taken: index_bytes(index).len(),
            },
        ),
{
    lemma_place_reads_back(index, rest);
}

/// The payload of a `Replace` reads back, whatever follows it.
proof fn lemma_replace_reads_back(index: Option<nat>, value: ValueView, rest: Seq<u8>)
    requires
        varints_read_back(),
        heads_read_back(),
        index matches Some(index) ==> index <= usize::MAX,
        leaves_read_back(value),
    ensures
        parse_replace(false, index is None, false, index_bytes(index) + value_bytes(value) + rest)
            == Ok::<_, Fault>(
            Parsed {
                value: ChangeView::Replace { index, value },
                taken: (index_bytes(index) + value_bytes(value)).len(),
            },
        ),
{
    let input = index_bytes(index) + value_bytes(value) + rest;
    lemma_place_reads_back(index, value_bytes(value) + rest);
    lemma_value_reads_back(value, rest);
    assert(input =~= index_bytes(index) + (value_bytes(value) + rest));
    assert(input.skip(index_bytes(index).len() as int) =~= value_bytes(value) + rest);
}

/// The payload of a `ReplaceKey` reads back, whatever follows it.
proof fn lemma_replace_key_reads_back(index: nat, key: ValueView, rest: Seq<u8>)
    requires
        varints_read_back(),
        heads_read_back(),
        index <= usize::MAX,
        leaves_read_back(key),
    ensures
        parse_replace(true, false, false, varint_bytes(index as usize) + value_bytes(key) + rest)
            == Ok::<_, Fault>(
            Parsed {
                value: ChangeView::ReplaceKey { index, key },
                taken: (varint_bytes(index as usize) + value_bytes(key)).len(),
            },
        ),
{
    lemma_index_and_value(index, key, rest);
}

/// An index, a key and a value read back one after another, as the entry
/// that a change replaces and as the entry that a change inserts.
proof fn lemma_entry_reads_back(index: nat, key: ValueView, value: ValueView, rest: Seq<u8>)
    requires
        varints_read_back(),
        heads_read_back(),
        index <= usize::MAX,
        leaves_read_back(key),
        leaves_read_back(value),
    ensures
        ({
            let bytes = varint_bytes(index as usize) + value_bytes(key) + value_bytes(value);
            &&& parse_replace(false, false, true, bytes + rest) == Ok::<_, Fault>(
                Parsed {
                    value: ChangeView::ReplaceMapping { index, key, value },
                    taken: bytes.len(),
                },
            )
            &&& parse_insert(true, bytes + rest) == Ok::<_, Fault>(
                Parsed {
                    value: ChangeView::InsertMapping { index, key, value },
                    taken: bytes.len(),
                },
            )
        }),
{
    let bytes = varint_bytes(index as usize) + value_bytes(key) + value_bytes(value);
    lemma_index_and_value(index, key, value_bytes(value) + rest);
    lemma_value_reads_back(value, rest);
    assert(bytes + rest =~= varint_bytes(index as usize) + value_bytes(key) + (value_bytes(value)
        + rest));
    assert((value_bytes(value) + rest).skip(value_bytes(value).len() as int) =~= rest);
}

/// The payload of a `Remove` reads back, whatever follows it.
proof fn lemma_remove_reads_back(index: nat, length: nat, rest: Seq<u8>)
    requires
        varints_read_back(),
        index <= usize::MAX,
        length <= usize::MAX,
    ensures
        parse_remove(varint_bytes(index as usize) + varint_bytes(length as usize) + rest) == Ok::<
            _,
            Fault,
        >(
            Parsed {
                value: ChangeView::Remove { index, length },
                taken: (varint_bytes(index as usize) + varint_bytes(length as usize)).len(),
            },
        ),
{
    let input = varint_bytes(index as usize) + varint_bytes(length as usize) + rest;
    lemma_varint_reads_back(index as usize, varint_bytes(length as usize) + rest);
    lemma_varint_reads_back(length as usize, rest);
    assert(input =~= varint_bytes(index as usize) + (varint_bytes(length as usize) + rest));
    assert(input.skip(varint_bytes(index as usize).len() as int) =~= varint_bytes(length as usize)
        + rest);
}

/// The payload of a `Truncate` reads back, whatever follows it.
proof fn lemma_truncate_reads_back(length: nat, rest: Seq<u8>)
    requires
        varints_read_back(),
        length <= usize::MAX,
    ensures
        parse_truncate(varint_bytes(length as usize) + rest) == Ok::<_, Fault>(
            Parsed {
                value: ChangeView::Truncate { length },
                taken: varint_bytes(length as usize).len(),
            },
        ),
{
    lemma_varint_reads_back(length as usize, rest);
}

/// The payload of an `Insert` reads back, whatever follows it.
proof fn lemma_insert_reads_back(index: nat, value: ValueView, rest: Seq<u8>)
    requires
        varints_read_back(),
        heads_read_back(),
        index <= usize::MAX,
        leaves_read_back(value),
    ensures
        parse_insert(false, varint_bytes(index as usize) + value_bytes(value) + rest) == Ok::<
            _,
            Fault,
        >(
            Parsed {
                value: ChangeView::Insert { index, value },
                taken: (varint_bytes(index as usize) + value_bytes(value)).len(),
            },
        ),
{
    lemma_index_and_value(index, value, rest);
}

/// The first byte of a change tells how its payload is read.
proof fn lemma_payload_by_variant(variant: u8, flags: u8, input: Seq<u8>)
    requires
        variant <= INSERT,
        flags <= 4,
    ensures
        parse_payload(change_byte(variant, flags), input) == ({
            let key = flags == 1 || flags == 3;
            let root = flags == 2 || flags == 3;
            let mapping = flags == 4;
            if variant == ENTER_SEQUENCE {
                parse_enter(true, key, root, input)
            } else if variant == ENTER_MAP {
                parse_enter(false, key, root, input)
            } else if variant == EXIT {
                parsed(ChangeView::Exit)
            } else if variant == REPLACE {
                parse_replace(key, root, mapping, input)
            } else if variant == REMOVE {
                parse_remove(input)
            } else if variant == TRUNCATE {
                parse_truncate(input)
            } else {
                parse_insert(mapping, input)
            }
        }),
{
    lemma_change_byte_read(variant, flags);
}

/// Whether the payload of a change reads back when `rest` follows it.
pub open spec fn payload_reads_back(change: ChangeView, rest: Seq<u8>) -> bool {
    &&& change_bytes(change).len() > 0
    &&& parse_payload(change_bytes(change)[0], change_bytes(change).skip(1) + rest) == Ok::<
        _,
        Fault,
    >(Parsed { value: change, taken: (change_bytes(change).len() - 1) as nat })
}

/// The payload of an `EnterSequence` reads back.
proof fn lemma_enter_sequence_payload(index: Option<nat>, key: bool, rest: Seq<u8>)
    requires
        varints_read_back(),
        heads_read_back(),
        index matches Some(index) ==> index <= usize::MAX,
    ensures
        payload_reads_back(ChangeView::EnterSequence { index, key }, rest),
{
    let change = ChangeView::EnterSequence { index, key };
    let bytes = change_bytes(change);
    lemma_enter_reads_back(true, index, key, rest);
    assert(bytes.skip(1) =~= index_bytes(index));
    lemma_payload_by_variant(ENTER_SEQUENCE, place_flags(index, key), bytes.skip(1) + rest);
}

/// The payload of an `EnterMap` reads back.
proof fn lemma_enter_map_payload(index: Option<nat>, key: bool, rest: Seq<u8>)
    requires
        varints_read_back(),
        heads_read_back(),
        index matches Some(index) ==> index <= usize::MAX,
    ensures
        payload_reads_back(ChangeView::EnterMap { index, key }, rest),
{
    let change = ChangeView::EnterMap { index, key };
    let bytes = change_bytes(change);
    lemma_enter_reads_back(false, index, key, rest);
    assert(bytes.skip(1) =~= index_bytes(index));
    lemma_payload_by_variant(ENTER_MAP, place_flags(index, key), bytes.skip(1) + rest);
}

/// The payload of a `Replace` reads back.
proof fn lemma_replace_payload(index: Option<nat>, value: ValueView, rest: Seq<u8>)
    requires
        varints_read_back(),
        heads_read_back(),
        index matches Some(index) ==> index <= usize::MAX,
        leaves_read_back(value),
    ensures
        payload_reads_back(ChangeView::Replace { index, value }, rest),
{
    let change = ChangeView::Replace { index, value };
    let bytes = change_bytes(change);
    lemma_replace_reads_back(index, value, rest);
    assert(bytes.skip(1) =~= index_bytes(index) + value_bytes(value));
    lemma_payload_by_variant(REPLACE, place_flags(index, false), bytes.skip(1) + rest);
}

/// The payload of a `ReplaceKey` reads back.
proof fn lemma_replace_key_payload(index: nat, key: ValueView, rest: Seq<u8>)
    requires
        varints_read_back(),
        heads_read_back(),
        index <= usize::MAX,
        leaves_read_back(key),
    ensures
        payload_reads_back(ChangeView::ReplaceKey { index, key }, rest),
{
    let change = ChangeView::ReplaceKey { index, key };
    let bytes = change_bytes(change);
    lemma_replace_key_reads_back(index, key, rest);
    assert(bytes.skip(1) =~= varint_bytes(index as usize) + value_bytes(key));
    lemma_payload_by_variant(REPLACE, KEY_FLAG, bytes.skip(1) + rest);
}

/// The payload of a `ReplaceMapping` reads back.
proof fn lemma_replace_mapping_payload(index: nat, key: ValueView, value: ValueView, rest: Seq<u8>)
    requires
        varints_read_back(),
        heads_read_back(),
        index <= usize::MAX,
        leaves_read_back(key),
        leaves_read_back(value),
    ensures
        payload_reads_back(ChangeView::ReplaceMapping { index, key, value }, rest),
{
    let change = ChangeView::ReplaceMapping { index, key, value };
    let bytes = change_bytes(change);
    lemma_entry_reads_back(index, key, value, rest);
    assert(bytes.skip(1) =~= varint_bytes(index as usize) + value_bytes(key) + value_bytes(value));
    lemma_payload_by_variant(REPLACE, MAPPING_FLAG, bytes.skip(1) + rest);
}

/// The payload of a `Remove` reads back.
proof fn lemma_remove_payload(index: nat, length: nat, rest: Seq<u8>)
    requires
        varints_read_back(),
        heads_read_back(),
        index <= usize::MAX,
        length <= usize::MAX,
    ensures
        payload_reads_back(ChangeView::Remove { index, length }, rest),
{
    let change = ChangeView::Remove { index, length };
    let bytes = change_bytes(change);
    lemma_remove_reads_back(index, length, rest);
    assert(bytes.skip(1) =~= varint_bytes(index as usize) + varint_bytes(length as usize));
    lemma_payload_by_variant(REMOVE, 0, bytes.skip(1) + rest);
}

/// The payload of a `Truncate` reads back.
proof fn lemma_truncate_payload(length: nat, rest: Seq<u8>)
    requires
        varints_read_back(),
        heads_read_back(),
        length <= usize::MAX,
    ensures
        payload_reads_back(ChangeView::Truncate { length }, rest),
{
    let change = ChangeView::Truncate { length };
    let bytes = change_bytes(change);
    lemma_truncate_reads_back(length, rest);
    assert(bytes.skip(1) =~= varint_bytes(length as usize));
    lemma_payload_by_variant(TRUNCATE, 0, bytes.skip(1) + rest);
}

/// The payload of an `Insert` reads back.
proof fn lemma_insert_payload(index: nat, value: ValueView, rest: Seq<u8>)
    requires
        varints_read_back(),
        heads_read_back(),
        index <= usize::MAX,
        leaves_read_back(value),
    ensures
        payload_reads_back(ChangeView::Insert { index, value }, rest),
{
    let change = ChangeView::Insert { index, value };
    let bytes = change_bytes(change);
    lemma_insert_reads_back(index, value, rest);
    assert(bytes.skip(1) =~= varint_bytes(index as usize) + value_bytes(value));
    lemma_payload_by_variant(INSERT, 0, bytes.skip(1) + rest);
}

/// The payload of an `InsertMapping` reads back.
proof fn lemma_insert_mapping_payload(index: nat, key: ValueView, value: ValueView, rest: Seq<u8>)
    requires
        varints_read_back(),
        heads_read_back(),
        index <= usize::MAX,
        leaves_read_back(key),
        leaves_read_back(value),
    ensures
        payload_reads_back(ChangeView::InsertMapping { index, key, value }, rest),
{
    let change = ChangeView::InsertMapping { index, key, value };
    let bytes = change_bytes(change);
    lemma_entry_reads_back(index, key, value, rest);
    assert(bytes.skip(1) =~= varint_bytes(index as usize) + value_bytes(key) + value_bytes(value));
    lemma_payload_by_variant(INSERT, MAPPING_FLAG, bytes.skip(1) + rest);
}

/// The payload of an `Exit`, which is empty, reads back.
proof fn lemma_exit_payload(rest: Seq<u8>)
    ensures
        payload_reads_back(ChangeView::Exit, rest),
{
    let bytes = change_bytes(ChangeView::Exit);
    lemma_payload_by_variant(EXIT, 0, bytes.skip(1) + rest);
}

/// The payload of a change reads back, whatever follows it.
proof fn lemma_payload_reads_back(change: ChangeView, rest: Seq<u8>)
    requires
        varints_read_back(),
        heads_read_back(),
        change_reads_back(change),
    ensures
        payload_reads_back(change, rest),
{
    match change {
        ChangeView::EnterSequence { index, key } => lemma_enter_sequence_payload(index, key, rest),
        ChangeView::EnterMap { index, key } => lemma_enter_map_payload(index, key, rest),
        ChangeView::Exit => lemma_exit_payload(rest),
        ChangeView::Replace { index, value } => lemma_replace_payload(index, value, rest),
        ChangeView::ReplaceKey { index, key } => lemma_replace_key_payload(index, key, rest),
        ChangeView::ReplaceMapping { index, key, value } => lemma_replace_mapping_payload(
            index,
            key,
            value,
            rest,
        ),
        ChangeView::Remove { index, length } => lemma_remove_payload(index, length, rest),
        ChangeView::Truncate { length } => lemma_truncate_payload(length, rest),
        ChangeView::Insert { index, value } => lemma_insert_payload(index, value, rest),
        ChangeView::InsertMapping { index, key, value } => lemma_insert_mapping_payload(
            index,
            key,
            value,
            rest,
        ),
    }
}

/// A change reads back, whatever follows it.
pub proof fn lemma_change_reads_back(change: ChangeView, rest: Seq<u8>)
    requires
        varints_read_back(),
        heads_read_back(),
        change_reads_back(change),
    ensures
        change_bytes(change).len() > 0,
        parse_change(change_bytes(change) + rest) == Ok::<_, Fault>(
            Parsed { value: change, taken: change_bytes(change).len() },
        ),
{
    lemma_payload_reads_back(change, rest);
    let bytes = change_bytes(change);
    assert((bytes + rest)[0] == bytes[0]);
    assert((bytes + rest).skip(1) =~= bytes.skip(1) + rest);
}

/// The binary forms of `changes[from..to]`, one after another.
pub open spec fn changes_bytes_from(changes: Seq<ChangeView>, from: nat, to: nat) -> Seq<u8>
    decreases to - from,
{
    if from >= to {
        Seq::empty()
    } else {
        change_bytes(changes[from as int]) + changes_bytes_from(changes, from + 1, to)
    }
}

/// The bytes of some changes are the bytes of the first ones and then of
/// the last.
proof fn lemma_changes_bytes_from_last(changes: Seq<ChangeView>, from: nat, to: nat)
    requires
        from < to <= changes.len(),
    ensures
        changes_bytes_from(changes, from, to) == changes_bytes_from(changes, from, (to - 1) as nat)
            + change_bytes(changes[to - 1]),
    decreases to - from,
{
    let first = change_bytes(changes[from as int]);
    let last = change_bytes(changes[to - 1]);
    if from + 1 < to {
        lemma_changes_bytes_from_last(changes, from + 1, to);
        let middle = changes_bytes_from(changes, from + 1, (to - 1) as nat);
        assert(changes_bytes_from(changes, from, (to - 1) as nat) == first + middle);
        assert(first + (middle + last) =~= (first + middle) + last);
    } else {
        assert(changes_bytes_from(changes, from + 1, to) =~= Seq::<u8>::empty());
        assert(changes_bytes_from(changes, from, (to - 1) as nat) =~= Seq::<u8>::empty());
        assert(first + Seq::<u8>::empty() =~= Seq::<u8>::empty() + last);
    }
}

/// The bytes of the changes of a script, from the first on.
proof fn lemma_changes_bytes_forward(changes: Seq<ChangeView>, count: nat)
    requires
        count <= changes.len(),
    ensures
        changes_bytes(changes, count) == changes_bytes_from(changes, 0, count),
    decreases count,
{
    if count > 0 {
        lemma_changes_bytes_forward(changes, (count - 1) as nat);
        lemma_changes_bytes_from_last(changes, 0, count);
    }
}

/// Changes are read back one after another; each takes at least one byte.
proof fn lemma_changes_read_back(changes: Seq<ChangeView>, from: nat, to: nat, rest: Seq<u8>)
    requires
        varints_read_back(),
        heads_read_back(),
        from <= to <= changes.len(),
        forall|i: int| 0 <= i < changes.len() ==> change_reads_back(#[trigger] changes[i]),
    ensures
        changes_bytes_from(changes, from, to).len() >= to - from,
        parse_changes(changes_bytes_from(changes, from, to) + rest, (to - from) as nat) == Ok::<
            _,
            Fault,
        >(
            Parsed {
                value: changes.subrange(from as int, to as int),
                taken: changes_bytes_from(changes, from, to).len(),
            },
        ),
    decreases to - from,
{
    if from < to {
        let first = change_bytes(changes[from as int]);
        let others = changes_bytes_from(changes, from + 1, to);
        let input = changes_bytes_from(changes, from, to) + rest;
        lemma_change_reads_back(changes[from as int], others + rest);
        lemma_changes_read_back(changes, from + 1, to, rest);
        assert(input =~= first + (others + rest));
        assert(input.skip(first.len() as int) =~= others + rest);
        assert(seq![changes[from as int]] + changes.subrange((from + 1) as int, to as int)
            =~= changes.subrange(from as int, to as int));
    } else {
        assert(changes.subrange(from as int, to as int) =~= Seq::<ChangeView>::empty());
    }
}

/// A script reads back from its binary form, wherever the codecs that the
/// form is built on read back what they write: if variable-length integers
/// and the heads of containers read back, and so do the leaves of the
/// values that the changes of a script carry, then decoding the bytes of
/// the script gives the script.
pub proof fn lemma_script_reads_back(changes: Seq<ChangeView>)
    requires
        varints_read_back(),
        heads_read_back(),
        changes.len() <= usize::MAX,
        forall|i: int| 0 <= i < changes.len() ==> change_reads_back(#[trigger] changes[i]),
    ensures
        parse_script(script_bytes(changes)) == Ok::<_, Fault>(changes),
{
    let count = varint_bytes(changes.len() as usize);
    let body = changes_bytes(changes, changes.len());
    let input = script_bytes(changes);
    assert(input =~= seq![VERSION] + (count + body));
    assert(input[0] == VERSION);
    assert(VERSION & 0x7F == 0) by (bit_vector);
    assert(input.skip(1) =~= count + body);
    lemma_varint_reads_back(changes.len() as usize, body);
    lemma_changes_bytes_forward(changes, changes.len());
    lemma_changes_read_back(changes, 0, changes.len(), Seq::empty());
    assert(input.skip((1 + count.len()) as int) =~= body + Seq::<u8>::empty());
    assert(changes.subrange(0, changes.len() as int) =~= changes);
}

/// The script between a tree and itself reads back from its binary form,
/// wherever the codecs read back what they write: it is empty, unless the
/// tree is too large to estimate.
pub proof fn lemma_same_reads_back(tree: ValueView)
    requires
        varints_read_back(),
        heads_read_back(),
        crate::estimate::estimated_bytes(tree) < usize::MAX,
    ensures
        parse_script(script_bytes(crate::differ::between(tree, tree).script)) == Ok::<_, Fault>(
            crate::differ::between(tree, tree).script,
        ),
{
    crate::correctness::lemma_between_same(tree);
    lemma_script_reads_back(crate::differ::between(tree, tree).script);
}

} // verus!
