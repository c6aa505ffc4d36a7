//! Cheap size estimates for value trees, cached at every node.

use vstd::prelude::*;

use crate::codec::{narrow, narrowed};
use crate::value::{
    bytes_equal, clone_bytes, entry_views, lemma_view_mappings, lemma_view_sequence, views, Float,
    Integer, Value, ValueView,
};

verus! {

/// The bytes an index or a length is estimated to take: 1, 2, 4 or 8.
pub open spec fn usize_bytes(value: nat) -> nat {
    if value <= 0xff {
        1
    } else if value <= 0xffff {
        2
    } else if value <= 0xffff_ffff {
        4
    } else {
        8
    }
}

/// Estimates the bytes taken by an index or a length.
pub fn estimate_usize_bytes(value: usize) -> (bytes: usize)
    ensures
        bytes == usize_bytes(value as nat),
{
    if value <= 0xff {
        1
    } else if value <= 0xffff {
        2
    } else if value <= 0xffff_ffff {
        4
    } else {
        8
    }
}

/// The payload bytes an integer is estimated to take: the width it is stored with.
pub open spec fn integer_bytes(integer: Integer) -> nat {
    integer.width() as nat
}

/// Estimates the payload bytes of an integer.
pub fn integer_size(integer: Integer) -> (bytes: usize)
    ensures
        bytes == integer_bytes(integer),
{
    integer.width() as usize
}

/// The payload bytes a float is estimated to take: 4 when 32 bits hold it, else 8.
pub open spec fn float_bytes(float: Float) -> nat {
    match float {
        Float::Single(_) => 4,
        Float::Double(bits) => if narrowed(bits) is Some {
            4
        } else {
            8
        },
    }
}

/// Estimates the payload bytes of a float.
pub fn float_size(float: Float) -> (bytes: usize)
    ensures
        bytes == float_bytes(float),
{
    match float {
        Float::Single(_) => 4,
        Float::Double(bits) => if narrow(bits).is_some() {
            4
        } else {
            8
        },
    }
}

/// The estimated encoded size of a value tree:
/// one byte for the head of a node, plus the payload of an atom or, for a
/// container, one byte per child and the children's own estimates.
pub open spec fn estimated_bytes(value: ValueView) -> nat
    decreases value, 0nat,
{
    match value {
        ValueView::Nil | ValueView::Unit => 1,
        ValueView::Bool(_) => 2,
        ValueView::Integer(i) => 1 + integer_bytes(i),
        ValueView::Float(f) => 1 + float_bytes(f),
        ValueView::Bytes(bs) => 1 + bs.len(),
        ValueView::String(s) => 1 + vstd::utf8::encode_utf8(s).len(),
        ValueView::Sequence(vs) => vs.len() + 1 + sequence_bytes(vs, vs.len()),
        ValueView::Mappings(es) => 2 * es.len() + 1 + mappings_bytes(es, es.len()),
    }
}

/// The sum of the estimates of the first `count` values.
pub open spec fn sequence_bytes(values: Seq<ValueView>, count: nat) -> nat
    decreases values, count,
{
    if count == 0 || count > values.len() {
        0
    } else {
        sequence_bytes(values, (count - 1) as nat) + estimated_bytes(values[count - 1])
    }
}

/// The sum of the estimates of the keys and values of the first `count` entries.
pub open spec fn mappings_bytes(entries: Seq<(ValueView, ValueView)>, count: nat) -> nat
    decreases entries, count,
{
    if count == 0 || count > entries.len() {
        0
    } else {
        mappings_bytes(entries, (count - 1) as nat) + estimated_bytes(entries[count - 1].0)
            + estimated_bytes(entries[count - 1].1)
    }
}

/// A value tree that carries, at every node, the estimate of its own size.
#[derive(Debug)]
pub struct Estimated {
    pub estimated_bytes: usize,
    pub value: EstimatedValue,
}

/// The node of an [`Estimated`] tree.
#[derive(Debug)]
pub enum EstimatedValue {
    Nil,
    Unit,
    Bool(bool),
    Integer(Integer),
    Float(Float),
    Bytes(Vec<u8>),
    String(String),
    Sequence(Vec<Estimated>),
    Mappings(Vec<(Estimated, Estimated)>),
}

/// The value that an estimated tree stands for.
pub open spec fn estimated_view(tree: Estimated) -> ValueView
    decreases tree,
{
    match tree.value {
        EstimatedValue::Nil => ValueView::Nil,
        EstimatedValue::Unit => ValueView::Unit,
        EstimatedValue::Bool(b) => ValueView::Bool(b),
        EstimatedValue::Integer(i) => ValueView::Integer(i),
        EstimatedValue::Float(f) => ValueView::Float(f),
        EstimatedValue::Bytes(bs) => ValueView::Bytes(bs@),
        EstimatedValue::String(s) => ValueView::String(s@),
        EstimatedValue::Sequence(vs) => ValueView::Sequence(
            Seq::new(
                vs@.len(),
                |i: int|
                    if 0 <= i < vs@.len() {
                        estimated_view(vs@[i])
                    } else {
                        ValueView::Nil
                    },
            ),
        ),
        EstimatedValue::Mappings(es) => ValueView::Mappings(
            Seq::new(
                es@.len(),
                |i: int|
                    if 0 <= i < es@.len() {
                        (estimated_view(es@[i].0), estimated_view(es@[i].1))
                    } else {
                        (ValueView::Nil, ValueView::Nil)
                    },
            ),
        ),
    }
}

/// Whether every node of the tree carries the estimate of its own value,
/// and that estimate is below `usize::MAX`.
pub open spec fn estimated_wf(tree: Estimated) -> bool
    decreases tree,
{
    &&& tree.estimated_bytes == estimated_bytes(estimated_view(tree))
    &&& tree.estimated_bytes < usize::MAX
    &&& match tree.value {
        EstimatedValue::Sequence(vs) => forall|i: int|
            0 <= i < vs@.len() ==> estimated_wf(#[trigger] vs@[i]),
        EstimatedValue::Mappings(es) => forall|i: int|
            0 <= i < es@.len() ==> estimated_wf((#[trigger] es@[i]).0) && estimated_wf(es@[i].1),
        _ => true,
    }
}

impl View for Estimated {
    type V = ValueView;

    open spec fn view(&self) -> ValueView {
        estimated_view(*self)
    }
}

impl Estimated {
    /// See [`estimated_wf`].
    pub open spec fn wf(&self) -> bool {
        estimated_wf(*self)
    }
}

/// The views of the elements of a sequence of estimated trees.
pub open spec fn estimated_views(trees: Seq<Estimated>) -> Seq<ValueView> {
    Seq::new(trees.len(), |i: int| trees[i]@)
}

/// The views of the entries of a sequence of estimated key-value pairs.
pub open spec fn estimated_entry_views(entries: Seq<(Estimated, Estimated)>) -> Seq<
    (ValueView, ValueView),
> {
    Seq::new(entries.len(), |i: int| (entries[i].0@, entries[i].1@))
}

/// An estimated sequence's view is the views of its elements.
pub proof fn lemma_estimated_sequence(tree: Estimated)
    requires
        tree.value is Sequence,
    ensures
        tree@ == ValueView::Sequence(estimated_views(tree.value->Sequence_0@)),
{
    let trees = tree.value->Sequence_0;
    assert(tree@ is Sequence);
    assert(tree@->Sequence_0.len() == trees@.len());
    assert forall|i: int| 0 <= i < trees@.len() implies tree@->Sequence_0[i] == trees@[i]@ by {}
    assert(tree@->Sequence_0 =~= estimated_views(trees@));
}

/// An estimated mappings' view is the views of its entries.
pub proof fn lemma_estimated_mappings(tree: Estimated)
    requires
        tree.value is Mappings,
    ensures
        tree@ == ValueView::Mappings(estimated_entry_views(tree.value->Mappings_0@)),
{
    let entries = tree.value->Mappings_0;
    assert(tree@ is Mappings);
    assert(tree@->Mappings_0.len() == entries@.len());
    assert forall|i: int| 0 <= i < entries@.len() implies tree@->Mappings_0[i] == (
        entries@[i].0@,
        entries@[i].1@,
    ) by {}
    assert(tree@->Mappings_0 =~= estimated_entry_views(entries@));
}

/// The sum over a shorter prefix is no larger.
pub proof fn lemma_sequence_bytes_monotone(values: Seq<ValueView>, shorter: nat, longer: nat)
    requires
        shorter <= longer <= values.len(),
    ensures
        sequence_bytes(values, shorter) <= sequence_bytes(values, longer),
    decreases longer,
{
    if shorter < longer {
        lemma_sequence_bytes_monotone(values, shorter, (longer - 1) as nat);
    }
}

/// The sum over a shorter prefix is no larger.
pub proof fn lemma_mappings_bytes_monotone(
    entries: Seq<(ValueView, ValueView)>,
    shorter: nat,
    longer: nat,
)
    requires
        shorter <= longer <= entries.len(),
    ensures
        mappings_bytes(entries, shorter) <= mappings_bytes(entries, longer),
    decreases longer,
{
    if shorter < longer {
        lemma_mappings_bytes_monotone(entries, shorter, (longer - 1) as nat);
    }
}

/// A sequence is estimated to take more than any of its elements.
pub proof fn lemma_element_estimate(values: Seq<ValueView>, i: int)
    requires
        0 <= i < values.len(),
    ensures
        estimated_bytes(values[i]) < estimated_bytes(ValueView::Sequence(values)),
{
    lemma_sequence_bytes_monotone(values, (i + 1) as nat, values.len());
}

/// A mappings container is estimated to take more than any of its entries.
pub proof fn lemma_entry_estimate(entries: Seq<(ValueView, ValueView)>, i: int)
    requires
        0 <= i < entries.len(),
    ensures
        estimated_bytes(entries[i].0) + estimated_bytes(entries[i].1) < estimated_bytes(
            ValueView::Mappings(entries),
        ),
{
    lemma_mappings_bytes_monotone(entries, (i + 1) as nat, entries.len());
}

impl Estimated {
    /// Builds the estimated companion of `value`, bottom-up. There is none
    /// when the estimate of the whole tree does not stay below `usize::MAX`.
    pub fn from_value(value: &Value) -> (tree: Option<Estimated>)
        ensures
            match tree {
                Some(tree) => tree.wf() && tree@ == value@,
                None => estimated_bytes(value@) >= usize::MAX,
            },
        decreases value,
    {
        match value {
            Value::Nil => Some(Estimated { estimated_bytes: 1, value: EstimatedValue::Nil }),
            Value::Unit => Some(Estimated { estimated_bytes: 1, value: EstimatedValue::Unit }),
            Value::Bool(b) => Some(Estimated { estimated_bytes: 2, value: EstimatedValue::Bool(*b) }),
            Value::Integer(i) => Some(
                Estimated { estimated_bytes: 1 + integer_size(*i), value: EstimatedValue::Integer(*i) },
            ),
            Value::Float(f) => Some(
                Estimated { estimated_bytes: 1 + float_size(*f), value: EstimatedValue::Float(*f) },
            ),
            Value::Bytes(bs) => {
                if bs.len() >= usize::MAX - 1 {
                    return None;
                }
                Some(
                    Estimated {
                        estimated_bytes: 1 + bs.len(),
                        value: EstimatedValue::Bytes(clone_bytes(bs)),
                    },
                )
            },
            Value::String(s) => {
                let length = s.as_str().as_bytes().len();
                if length >= usize::MAX - 1 {
                    return None;
                }
                Some(
                    Estimated { estimated_bytes: 1 + length, value: EstimatedValue::String(s.clone()) },
                )
            },
            Value::Sequence(vs) => {
                proof {
                    lemma_view_sequence(*vs);
                }
                let mut trees: Vec<Estimated> = Vec::with_capacity(vs.len());
                let mut sum: usize = 0;
                let mut i: usize = 0;
                while i < vs.len()
                    invariant
                        i <= vs.len(),
                        trees.len() == i,
                        value is Sequence,
                        value->Sequence_0 == *vs,
                        value@ == ValueView::Sequence(views(vs@)),
                        forall|j: int| 0 <= j < i ==> (#[trigger] trees@[j]).wf() && trees@[j]@ == vs@[j]@,
                        sum == sequence_bytes(views(vs@), i as nat),
                    decreases vs.len() - i,
                {
                    proof {
                        lemma_sequence_bytes_monotone(views(vs@), (i + 1) as nat, vs@.len());
                    }
                    let tree = match Estimated::from_value(&vs[i]) {
                        Some(tree) => tree,
                        None => {
                            return None;
                        },
                    };
                    sum = match sum.checked_add(tree.estimated_bytes) {
                        Some(sum) => sum,
                        None => {
                            return None;
                        },
                    };
                    trees.push(tree);
                    i += 1;
                }
                let heads = match vs.len().checked_add(1) {
                    Some(heads) => heads,
                    None => {
                        return None;
                    },
                };
                let total = match heads.checked_add(sum) {
                    Some(total) => total,
                    None => {
                        return None;
                    },
                };
                if total == usize::MAX {
                    return None;
                }
                let tree = Estimated { estimated_bytes: total, value: EstimatedValue::Sequence(trees) };
                proof {
                    lemma_estimated_sequence(tree);
                    assert(estimated_views(trees@) =~= views(vs@));
                }
                Some(tree)
            },
            Value::Mappings(es) => {
                proof {
                    lemma_view_mappings(*es);
                }
                let mut trees: Vec<(Estimated, Estimated)> = Vec::with_capacity(es.len());
                let mut sum: usize = 0;
                let mut i: usize = 0;
                while i < es.len()
                    invariant
                        i <= es.len(),
                        trees.len() == i,
                        value is Mappings,
                        value->Mappings_0 == *es,
                        value@ == ValueView::Mappings(entry_views(es@)),
                        forall|j: int|
                            0 <= j < i ==> (#[trigger] trees@[j]).0.wf() && trees@[j].1.wf()
                                && trees@[j].0@ == es@[j].0@ && trees@[j].1@ == es@[j].1@,
                        sum == mappings_bytes(entry_views(es@), i as nat),
                    decreases es.len() - i,
                {
                    proof {
                        lemma_mappings_bytes_monotone(entry_views(es@), (i + 1) as nat, es@.len());
                    }
                    let key = match Estimated::from_value(&es[i].0) {
                        Some(key) => key,
                        None => {
                            return None;
                        },
                    };
                    let entry_value = match Estimated::from_value(&es[i].1) {
                        Some(entry_value) => entry_value,
                        None => {
                            return None;
                        },
                    };
                    sum = match sum.checked_add(key.estimated_bytes) {
                        Some(sum) => sum,
                        None => {
                            return None;
                        },
                    };
                    sum = match sum.checked_add(entry_value.estimated_bytes) {
                        Some(sum) => sum,
                        None => {
                            return None;
                        },
                    };
                    trees.push((key, entry_value));
                    i += 1;
                }
                let heads = match es.len().checked_mul(2) {
                    Some(heads) => heads,
                    None => {
                        return None;
                    },
                };
                let heads = match heads.checked_add(1) {
                    Some(heads) => heads,
                    None => {
                        return None;
                    },
                };
                let total = match heads.checked_add(sum) {
                    Some(total) => total,
                    None => {
                        return None;
                    },
                };
                if total == usize::MAX {
                    return None;
                }
                let tree = Estimated { estimated_bytes: total, value: EstimatedValue::Mappings(trees) };
                proof {
                    lemma_estimated_mappings(tree);
                    assert(estimated_entry_views(trees@) =~= entry_views(es@));
                }
                Some(tree)
            },
        }
    }

    /// The value that this tree stands for, as a tree of its own.
    pub fn to_value(&self) -> (value: Value)
        ensures
            value@ == self@,
        decreases self,
    {
        match &self.value {
            EstimatedValue::Nil => Value::Nil,
            EstimatedValue::Unit => Value::Unit,
            EstimatedValue::Bool(b) => Value::Bool(*b),
            EstimatedValue::Integer(i) => Value::Integer(*i),
            EstimatedValue::Float(f) => Value::Float(*f),
            EstimatedValue::Bytes(bs) => Value::Bytes(clone_bytes(bs)),
            EstimatedValue::String(s) => Value::String(s.clone()),
            EstimatedValue::Sequence(trees) => {
                let mut values: Vec<Value> = Vec::with_capacity(trees.len());
                let mut i: usize = 0;
                while i < trees.len()
                    invariant
                        i <= trees.len(),
                        values.len() == i,
                        self.value is Sequence,
                        self.value->Sequence_0 == *trees,
                        forall|j: int| 0 <= j < i ==> values@[j]@ == trees@[j]@,
                    decreases trees.len() - i,
                {
                    let element = trees[i].to_value();
                    values.push(element);
                    i += 1;
                }
                proof {
                    lemma_estimated_sequence(*self);
                    lemma_view_sequence(values);
                    assert(views(values@) =~= estimated_views(trees@));
                }
                Value::Sequence(values)
            },
            EstimatedValue::Mappings(trees) => {
                let mut entries: Vec<(Value, Value)> = Vec::with_capacity(trees.len());
                let mut i: usize = 0;
                while i < trees.len()
                    invariant
                        i <= trees.len(),
                        entries.len() == i,
                        self.value is Mappings,
                        self.value->Mappings_0 == *trees,
                        forall|j: int|
                            0 <= j < i ==> entries@[j].0@ == trees@[j].0@ && entries@[j].1@
                                == trees@[j].1@,
                    decreases trees.len() - i,
                {
                    let key = trees[i].0.to_value();
                    let entry_value = trees[i].1.to_value();
                    entries.push((key, entry_value));
                    i += 1;
                }
                proof {
                    lemma_estimated_mappings(*self);
                    lemma_view_mappings(entries);
                    assert(entry_views(entries@) =~= estimated_entry_views(trees@));
                }
                Value::Mappings(entries)
            },
        }
    }

    /// Deep structural equality between this tree and a value.
    pub fn eq_value(&self, other: &Value) -> (equal: bool)
        ensures
            equal == (self@ == other@),
        decreases self,
    {
        match &self.value {
            EstimatedValue::Nil => matches!(other, Value::Nil),
            EstimatedValue::Unit => matches!(other, Value::Unit),
            EstimatedValue::Bool(a) => match other {
                Value::Bool(b) => *a == *b,
                _ => false,
            },
            EstimatedValue::Integer(a) => match other {
                Value::Integer(b) => *a == *b,
                _ => false,
            },
            EstimatedValue::Float(a) => match other {
                Value::Float(b) => *a == *b,
                _ => false,
            },
            EstimatedValue::Bytes(a) => match other {
                Value::Bytes(b) => bytes_equal(a, b),
                _ => false,
            },
            EstimatedValue::String(a) => match other {
                Value::String(b) => *a == *b,
                _ => false,
            },
            EstimatedValue::Sequence(a) => match other {
                Value::Sequence(b) => {
                    proof {
                        lemma_estimated_sequence(*self);
                        lemma_view_sequence(*b);
                    }
                    if a.len() != b.len() {
                        assert(estimated_views(a@).len() != views(b@).len());
                        return false;
                    }
                    let mut i: usize = 0;
                    while i < a.len()
                        invariant
                            i <= a.len(),
                            a.len() == b.len(),
                            forall|j: int| 0 <= j < i ==> a@[j]@ == b@[j]@,
                            self.value is Sequence,
                            self.value->Sequence_0 == *a,
                            self@ == ValueView::Sequence(estimated_views(a@)),
                            other@ == ValueView::Sequence(views(b@)),
                        decreases a.len() - i,
                    {
                        if !a[i].eq_value(&b[i]) {
                            assert(estimated_views(a@)[i as int] != views(b@)[i as int]);
                            return false;
                        }
                        i += 1;
                    }
                    assert(estimated_views(a@) =~= views(b@));
                    true
                },
                _ => false,
            },
            EstimatedValue::Mappings(a) => match other {
                Value::Mappings(b) => {
                    proof {
                        lemma_estimated_mappings(*self);
                        lemma_view_mappings(*b);
                    }
                    if a.len() != b.len() {
                        assert(estimated_entry_views(a@).len() != entry_views(b@).len());
                        return false;
                    }
                    let mut i: usize = 0;
                    while i < a.len()
                        invariant
                            i <= a.len(),
                            a.len() == b.len(),
                            forall|j: int|
                                0 <= j < i ==> a@[j].0@ == b@[j].0@ && a@[j].1@ == b@[j].1@,
                            self.value is Mappings,
                            self.value->Mappings_0 == *a,
                            self@ == ValueView::Mappings(estimated_entry_views(a@)),
                            other@ == ValueView::Mappings(entry_views(b@)),
                        decreases a.len() - i,
                    {
                        if !a[i].0.eq_value(&b[i].0) || !a[i].1.eq_value(&b[i].1) {
                            assert(estimated_entry_views(a@)[i as int] != entry_views(b@)[i as int]);
                            return false;
                        }
                        i += 1;
                    }
                    assert(estimated_entry_views(a@) =~= entry_views(b@));
                    true
                },
                _ => false,
            },
        }
    }
}

} // verus!
