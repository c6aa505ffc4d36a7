//! The value tree that scripts are computed over.

use vstd::prelude::*;
use vstd::std_specs::cmp::PartialEqSpecImpl;

verus! {

/// An integer atom. The variant records the width and signedness the value
/// was stored with; two integers are equal only if both the variant and the
/// number agree.
#[derive(Clone, Copy, Debug, PartialEq, Eq, Structural)]
pub enum Integer {
    I8(i8),
    I16(i16),
    I32(i32),
    I64(i64),
    I128(i128),
    U8(u8),
    U16(u16),
    U32(u32),
    U64(u64),
    U128(u128),
}

/// A floating point atom, held as its IEEE 754 bit pattern. Two floats are
/// equal only if they have the same width and the same bits.
#[derive(Clone, Copy, Debug, PartialEq, Eq, Structural)]
pub enum Float {
    /// A 32-bit pattern.
    Single(u32),
    /// A 64-bit pattern.
    Double(u64),
}

impl Integer {
    /// The bytes the integer is stored with.
    pub open spec fn spec_width(&self) -> u8 {
        match *self {
            Integer::I8(_) | Integer::U8(_) => 1,
            Integer::I16(_) | Integer::U16(_) => 2,
            Integer::I32(_) | Integer::U32(_) => 4,
            Integer::I64(_) | Integer::U64(_) => 8,
            Integer::I128(_) | Integer::U128(_) => 16,
        }
    }

    /// The bytes the integer is stored with.
    #[verifier::when_used_as_spec(spec_width)]
    pub fn width(&self) -> (width: u8)
        ensures
            width == self.spec_width(),
    {
        match self {
            Integer::I8(_) | Integer::U8(_) => 1,
            Integer::I16(_) | Integer::U16(_) => 2,
            Integer::I32(_) | Integer::U32(_) => 4,
            Integer::I64(_) | Integer::U64(_) => 8,
            Integer::I128(_) | Integer::U128(_) => 16,
        }
    }

    /// Whether the integer is stored signed.
    pub open spec fn signed(&self) -> bool {
        match *self {
            Integer::I8(_) | Integer::I16(_) | Integer::I32(_) | Integer::I64(_) | Integer::I128(
                _,
            ) => true,
            _ => false,
        }
    }

    /// The kind of atom that holds the integer: that of signed or that of
    /// unsigned integers.
    pub open spec fn spec_kind(&self) -> u8 {
        if self.signed() {
            crate::codec::KIND_INT
        } else {
            crate::codec::KIND_UINT
        }
    }

    /// The kind of atom that holds the integer: that of signed or that of
    /// unsigned integers.
    #[verifier::when_used_as_spec(spec_kind)]
    pub fn kind(&self) -> (kind: u8)
        ensures
            kind == self.spec_kind(),
    {
        match self {
            Integer::I8(_) | Integer::I16(_) | Integer::I32(_) | Integer::I64(_) | Integer::I128(
                _,
            ) => crate::codec::KIND_INT,
            _ => crate::codec::KIND_UINT,
        }
    }

    /// The number held.
    pub open spec fn value(&self) -> int {
        match *self {
            Integer::I8(v) => v as int,
            Integer::I16(v) => v as int,
            Integer::I32(v) => v as int,
            Integer::I64(v) => v as int,
            Integer::I128(v) => v as int,
            Integer::U8(v) => v as int,
            Integer::U16(v) => v as int,
            Integer::U32(v) => v as int,
            Integer::U64(v) => v as int,
            Integer::U128(v) => v as int,
        }
    }

    /// The number held in 128 bits, a negative number in two's complement.
    pub open spec fn spec_bits(&self) -> u128 {
        if self.value() < 0 {
            (self.value() + u128::MAX + 1) as u128
        } else {
            self.value() as u128
        }
    }

    /// The number held in 128 bits, a negative number in two's complement.
    #[verifier::when_used_as_spec(spec_bits)]
    pub fn bits(&self) -> (bits: u128)
        ensures
            bits == self.spec_bits(),
    {
        let signed: i128 = match self {
            Integer::I8(v) => *v as i128,
            Integer::I16(v) => *v as i128,
            Integer::I32(v) => *v as i128,
            Integer::I64(v) => *v as i128,
            Integer::I128(v) => *v,
            Integer::U8(v) => {
                return *v as u128;
            },
            Integer::U16(v) => {
                return *v as u128;
            },
            Integer::U32(v) => {
                return *v as u128;
            },
            Integer::U64(v) => {
                return *v as u128;
            },
            Integer::U128(v) => {
                return *v;
            },
        };
        if signed < 0 {
            u128::MAX - ((-(signed + 1)) as u128)
        } else {
            signed as u128
        }
    }
}

impl Float {
    /// The float with the bits of a 64-bit float: held in 32 bits where
    /// those hold it without loss, so that a float has one form only.
    pub open spec fn canonical(bits: u64) -> Float {
        match crate::codec::narrowed(bits) {
            Some(single) => Float::Single(single),
            None => Float::Double(bits),
        }
    }

    /// The float with the bits of a 64-bit float: see [`Float::canonical`].
    pub fn from_double(bits: u64) -> (float: Float)
        ensures
            float == Float::canonical(bits),
    {
        match crate::codec::narrow(bits) {
            Some(single) => Float::Single(single),
            None => Float::Double(bits),
        }
    }

    /// The bytes of the pattern: four or eight.
    pub open spec fn spec_width(&self) -> u8 {
        match *self {
            Float::Single(_) => 4,
            Float::Double(_) => 8,
        }
    }

    /// The bytes of the pattern: four or eight.
    #[verifier::when_used_as_spec(spec_width)]
    pub fn width(&self) -> (width: u8)
        ensures
            width == self.spec_width(),
    {
        match self {
            Float::Single(_) => 4,
            Float::Double(_) => 8,
        }
    }

    /// The bit pattern, as 64 bits.
    pub open spec fn spec_bits(&self) -> u64 {
        match *self {
            Float::Single(bits) => bits as u64,
            Float::Double(bits) => bits,
        }
    }

    /// The bit pattern, as 64 bits.
    #[verifier::when_used_as_spec(spec_bits)]
    pub fn bits(&self) -> (bits: u64)
        ensures
            bits == self.spec_bits(),
    {
        match self {
            Float::Single(bits) => *bits as u64,
            Float::Double(bits) => *bits,
        }
    }
}

/// A node of a value tree.
#[derive(Debug)]
pub enum Value {
    Nil,
    Unit,
    Bool(bool),
    Integer(Integer),
    Float(Float),
    Bytes(Vec<u8>),
    String(String),
    Sequence(Vec<Value>),
    Mappings(Vec<(Value, Value)>),
}

/// The mathematical content of a [`Value`].
pub enum ValueView {
    Nil,
    Unit,
    Bool(bool),
    Integer(Integer),
    Float(Float),
    Bytes(Seq<u8>),
    String(Seq<char>),
    Sequence(Seq<ValueView>),
    Mappings(Seq<(ValueView, ValueView)>),
}

/// The content of a value, read off the tree node by node.
pub open spec fn value_view(value: Value) -> ValueView
    decreases value,
{
    match value {
        Value::Nil => ValueView::Nil,
        Value::Unit => ValueView::Unit,
        Value::Bool(b) => ValueView::Bool(b),
        Value::Integer(i) => ValueView::Integer(i),
        Value::Float(f) => ValueView::Float(f),
        Value::Bytes(bs) => ValueView::Bytes(bs@),
        Value::String(s) => ValueView::String(s@),
        Value::Sequence(vs) => ValueView::Sequence(
            Seq::new(
                vs@.len(),
                |i: int|
                    if 0 <= i < vs@.len() {
                        value_view(vs@[i])
                    } else {
                        ValueView::Nil
                    },
            ),
        ),
        Value::Mappings(es) => ValueView::Mappings(
            Seq::new(
                es@.len(),
                |i: int|
                    if 0 <= i < es@.len() {
                        (value_view(es@[i].0), value_view(es@[i].1))
                    } else {
                        (ValueView::Nil, ValueView::Nil)
                    },
            ),
        ),
    }
}

impl View for Value {
    type V = ValueView;

    open spec fn view(&self) -> ValueView {
        value_view(*self)
    }
}

/// Copies a byte vector.
pub fn clone_bytes(bytes: &Vec<u8>) -> (copy: Vec<u8>)
    ensures
        copy@ == bytes@,
{
    let mut copy: Vec<u8> = Vec::with_capacity(bytes.len());
    let mut i: usize = 0;
    while i < bytes.len()
        invariant
            i <= bytes.len(),
            copy@ == bytes@.subrange(0, i as int),
        decreases bytes.len() - i,
    {
        copy.push(bytes[i]);
        i += 1;
        assert(copy@ =~= bytes@.subrange(0, i as int));
    }
    assert(bytes@.subrange(0, bytes.len() as int) =~= bytes@);
    copy
}

/// Compares two byte vectors.
pub fn bytes_equal(a: &Vec<u8>, b: &Vec<u8>) -> (equal: bool)
    ensures
        equal == (a@ == b@),
{
    if a.len() != b.len() {
        return false;
    }
    let mut i: usize = 0;
    while i < a.len()
        invariant
            i <= a.len(),
            a.len() == b.len(),
            a@.subrange(0, i as int) == b@.subrange(0, i as int),
        decreases a.len() - i,
    {
        if a[i] != b[i] {
            return false;
        }
        i += 1;
        assert(a@.subrange(0, i as int) =~= a@.subrange(0, i - 1).push(a@[i - 1]));
        assert(b@.subrange(0, i as int) =~= b@.subrange(0, i - 1).push(b@[i - 1]));
    }
    assert(a@.subrange(0, a.len() as int) =~= a@);
    assert(b@.subrange(0, b.len() as int) =~= b@);
    true
}

/// The views of the elements of a sequence of values.
pub open spec fn views(values: Seq<Value>) -> Seq<ValueView> {
    Seq::new(values.len(), |i: int| values[i]@)
}

/// The views of the entries of a sequence of key-value pairs.
pub open spec fn entry_views(entries: Seq<(Value, Value)>) -> Seq<(ValueView, ValueView)> {
    Seq::new(entries.len(), |i: int| (entries[i].0@, entries[i].1@))
}

/// A sequence value's view is the views of its elements.
pub proof fn lemma_view_sequence(values: Vec<Value>)
    ensures
        Value::Sequence(values)@ == ValueView::Sequence(views(values@)),
{
    let whole = Value::Sequence(values);
    assert(whole@ is Sequence);
    assert(whole@->Sequence_0.len() == values@.len());
    assert forall|i: int| 0 <= i < values@.len() implies whole@->Sequence_0[i] == values@[i]@ by {}
    assert(whole@->Sequence_0 =~= views(values@));
}

/// A mappings value's view is the views of its entries.
pub proof fn lemma_view_mappings(entries: Vec<(Value, Value)>)
    ensures
        Value::Mappings(entries)@ == ValueView::Mappings(entry_views(entries@)),
{
    let whole = Value::Mappings(entries);
    assert(whole@ is Mappings);
    assert(whole@->Mappings_0.len() == entries@.len());
    assert forall|i: int| 0 <= i < entries@.len() implies whole@->Mappings_0[i] == (
        entries@[i].0@,
        entries@[i].1@,
    ) by {}
    assert(whole@->Mappings_0 =~= entry_views(entries@));
}

impl Value {
    /// Deep structural equality.
    pub fn equals(&self, other: &Value) -> (equal: bool)
        ensures
            equal == (self@ == other@),
        decreases self,
    {
        match self {
            Value::Nil => matches!(other, Value::Nil),
            Value::Unit => matches!(other, Value::Unit),
            Value::Bool(a) => match other {
                Value::Bool(b) => *a == *b,
                _ => false,
            },
            Value::Integer(a) => match other {
                Value::Integer(b) => *a == *b,
                _ => false,
            },
            Value::Float(a) => match other {
                Value::Float(b) => *a == *b,
                _ => false,
            },
            Value::Bytes(a) => match other {
                Value::Bytes(b) => bytes_equal(a, b),
                _ => false,
            },
            Value::String(a) => match other {
                Value::String(b) => *a == *b,
                _ => false,
            },
            Value::Sequence(a) => match other {
                Value::Sequence(b) => {
                    proof {
                        lemma_view_sequence(*a);
                        lemma_view_sequence(*b);
                    }
                    if a.len() != b.len() {
                        assert(views(a@).len() != views(b@).len());
                        return false;
                    }
                    let mut i: usize = 0;
                    while i < a.len()
                        invariant
                            i <= a.len(),
                            a.len() == b.len(),
                            forall|j: int| 0 <= j < i ==> a@[j]@ == b@[j]@,
                            *self == Value::Sequence(*a),
                            self@ == ValueView::Sequence(views(a@)),
                            other@ == ValueView::Sequence(views(b@)),
                        decreases a.len() - i,
                    {
                        if !a[i].equals(&b[i]) {
                            assert(views(a@)[i as int] != views(b@)[i as int]);
                            return false;
                        }
                        i += 1;
                    }
                    assert(views(a@) =~= views(b@));
                    true
                },
                _ => false,
            },
            Value::Mappings(a) => match other {
                Value::Mappings(b) => {
                    proof {
                        lemma_view_mappings(*a);
                        lemma_view_mappings(*b);
                    }
                    if a.len() != b.len() {
                        assert(entry_views(a@).len() != entry_views(b@).len());
                        return false;
                    }
                    let mut i: usize = 0;
                    while i < a.len()
                        invariant
                            i <= a.len(),
                            a.len() == b.len(),
                            forall|j: int| 0 <= j < i ==> a@[j].0@ == b@[j].0@ && a@[j].1@ == b@[j].1@,
                            *self == Value::Mappings(*a),
                            self@ == ValueView::Mappings(entry_views(a@)),
                            other@ == ValueView::Mappings(entry_views(b@)),
                        decreases a.len() - i,
                    {
                        if !a[i].0.equals(&b[i].0) || !a[i].1.equals(&b[i].1) {
                            assert(entry_views(a@)[i as int] != entry_views(b@)[i as int]);
                            return false;
                        }
                        i += 1;
                    }
                    assert(entry_views(a@) =~= entry_views(b@));
                    true
                },
                _ => false,
            },
        }
    }
}

impl Value {
    /// A deep copy of the tree.
    pub fn duplicate(&self) -> (copy: Value)
        ensures
            copy@ == self@,
        decreases self,
    {
        match self {
            Value::Nil => Value::Nil,
            Value::Unit => Value::Unit,
            Value::Bool(b) => Value::Bool(*b),
            Value::Integer(i) => Value::Integer(*i),
            Value::Float(f) => Value::Float(*f),
            Value::Bytes(bs) => Value::Bytes(clone_bytes(bs)),
            Value::String(s) => Value::String(s.clone()),
            Value::Sequence(vs) => {
                let mut copy: Vec<Value> = Vec::with_capacity(vs.len());
                let mut i: usize = 0;
                while i < vs.len()
                    invariant
                        i <= vs.len(),
                        copy.len() == i,
                        forall|j: int| 0 <= j < i ==> copy@[j]@ == vs@[j]@,
                        self is Sequence,
                        self->Sequence_0 == *vs,
                    decreases vs.len() - i,
                {
                    let element = vs[i].duplicate();
                    copy.push(element);
                    i += 1;
                }
                proof {
                    lemma_view_sequence(*vs);
                    lemma_view_sequence(copy);
                    assert(views(copy@) =~= views(vs@));
                }
                Value::Sequence(copy)
            },
            Value::Mappings(es) => {
                let mut copy: Vec<(Value, Value)> = Vec::with_capacity(es.len());
                let mut i: usize = 0;
                while i < es.len()
                    invariant
                        i <= es.len(),
                        copy.len() == i,
                        forall|j: int| 0 <= j < i ==> copy@[j].0@ == es@[j].0@ && copy@[j].1@ == es@[j].1@,
                        self is Mappings,
                        self->Mappings_0 == *es,
                    decreases es.len() - i,
                {
                    let key = es[i].0.duplicate();
                    let value = es[i].1.duplicate();
                    copy.push((key, value));
                    i += 1;
                }
                proof {
                    lemma_view_mappings(*es);
                    lemma_view_mappings(copy);
                    assert(entry_views(copy@) =~= entry_views(es@));
                }
                Value::Mappings(copy)
            },
        }
    }
}

impl Clone for Value {
    fn clone(&self) -> (copy: Value)
        ensures
            copy@ == self@,
    {
        self.duplicate()
    }
}

impl PartialEq for Value {
    fn eq(&self, other: &Value) -> (equal: bool) {
        self.equals(other)
    }
}

impl PartialEqSpecImpl for Value {
    open spec fn obeys_eq_spec() -> bool {
        true
    }

    open spec fn eq_spec(&self, other: &Value) -> bool {
        self@ == other@
    }
}

} // verus!
