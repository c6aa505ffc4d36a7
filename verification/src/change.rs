//! Changes and the scripts made of them.

use vstd::prelude::*;
use vstd::std_specs::cmp::PartialEqSpecImpl;

use crate::value::{Value, ValueView};

verus! {

/// One operation of a script.
///
/// A script is read against a stack of containers whose bottom is the root:
/// the two `Enter` changes push the container found at `index`, `Exit` pops.
/// Inside a mappings container, `key` tells `Enter` to descend into the key
/// of the entry instead of its value.
#[derive(Debug)]
#[allow(inconsistent_fields)]
pub enum Change {
    EnterSequence { index: Option<usize>, key: bool },
    EnterMap { index: Option<usize>, key: bool },
    Exit,
    Replace { index: Option<usize>, value: Value },
    ReplaceKey { index: usize, key: Value },
    ReplaceMapping { index: usize, key: Value, value: Value },
    Remove { index: usize, length: usize },
    Truncate { length: usize },
    Insert { index: usize, value: Value },
    InsertMapping { index: usize, key: Value, value: Value },
}

/// The mathematical content of a [`Change`].
#[allow(inconsistent_fields)]
pub enum ChangeView {
    EnterSequence { index: Option<nat>, key: bool },
    EnterMap { index: Option<nat>, key: bool },
    Exit,
    Replace { index: Option<nat>, value: ValueView },
    ReplaceKey { index: nat, key: ValueView },
    ReplaceMapping { index: nat, key: ValueView, value: ValueView },
    Remove { index: nat, length: nat },
    Truncate { length: nat },
    Insert { index: nat, value: ValueView },
    InsertMapping { index: nat, key: ValueView, value: ValueView },
}

/// An optional index as a natural number.
pub open spec fn index_view(index: Option<usize>) -> Option<nat> {
    match index {
        Some(i) => Some(i as nat),
        None => None,
    }
}

impl View for Change {
    type V = ChangeView;

    open spec fn view(&self) -> ChangeView {
        match *self {
            Change::EnterSequence { index, key } => ChangeView::EnterSequence {
                index: index_view(index),
                key,
            },
            Change::EnterMap { index, key } => ChangeView::EnterMap { index: index_view(index), key },
            Change::Exit => ChangeView::Exit,
            Change::Replace { index, value } => ChangeView::Replace {
                index: index_view(index),
                value: value@,
            },
            Change::ReplaceKey { index, key } => ChangeView::ReplaceKey { index: index as nat, key: key@ },
            Change::ReplaceMapping { index, key, value } => ChangeView::ReplaceMapping {
                index: index as nat,
                key: key@,
                value: value@,
            },
            Change::Remove { index, length } => ChangeView::Remove {
                index: index as nat,
                length: length as nat,
            },
            Change::Truncate { length } => ChangeView::Truncate { length: length as nat },
            Change::Insert { index, value } => ChangeView::Insert { index: index as nat, value: value@ },
            Change::InsertMapping { index, key, value } => ChangeView::InsertMapping {
                index: index as nat,
                key: key@,
                value: value@,
            },
        }
    }
}

/// Compares two optional indices.
fn same_index(a: &Option<usize>, b: &Option<usize>) -> (same: bool)
    ensures
        same == (index_view(*a) == index_view(*b)),
{
    match (a, b) {
        (Some(a), Some(b)) => *a == *b,
        (None, None) => true,
        _ => false,
    }
}

impl Change {
    /// Whether two changes have the same content.
    pub fn equals(&self, other: &Change) -> (equal: bool)
        ensures
            equal == (self@ == other@),
    {
        match self {
            Change::EnterSequence { index, key } => match other {
                Change::EnterSequence { index: i, key: k } => same_index(index, i) && *key == *k,
                _ => false,
            },
            Change::EnterMap { index, key } => match other {
                Change::EnterMap { index: i, key: k } => same_index(index, i) && *key == *k,
                _ => false,
            },
            Change::Exit => matches!(other, Change::Exit),
            Change::Replace { index, value } => match other {
                Change::Replace { index: i, value: v } => same_index(index, i) && value.equals(v),
                _ => false,
            },
            Change::ReplaceKey { index, key } => match other {
                Change::ReplaceKey { index: i, key: k } => *index == *i && key.equals(k),
                _ => false,
            },
            Change::ReplaceMapping { index, key, value } => match other {
                Change::ReplaceMapping { index: i, key: k, value: v } => *index == *i && key.equals(k)
                    && value.equals(v),
                _ => false,
            },
            Change::Remove { index, length } => match other {
                Change::Remove { index: i, length: l } => *index == *i && *length == *l,
                _ => false,
            },
            Change::Truncate { length } => match other {
                Change::Truncate { length: l } => *length == *l,
                _ => false,
            },
            Change::Insert { index, value } => match other {
                Change::Insert { index: i, value: v } => *index == *i && value.equals(v),
                _ => false,
            },
            Change::InsertMapping { index, key, value } => match other {
                Change::InsertMapping { index: i, key: k, value: v } => *index == *i && key.equals(k)
                    && value.equals(v),
                _ => false,
            },
        }
    }
}

impl Clone for Change {
    fn clone(&self) -> (copy: Change)
        ensures
            copy@ == self@,
    {
        match self {
            Change::EnterSequence { index, key } => Change::EnterSequence { index: *index, key: *key },
            Change::EnterMap { index, key } => Change::EnterMap { index: *index, key: *key },
            Change::Exit => Change::Exit,
            Change::Replace { index, value } => Change::Replace {
                index: *index,
                value: value.duplicate(),
            },
            Change::ReplaceKey { index, key } => Change::ReplaceKey { index: *index, key: key.duplicate() },
            Change::ReplaceMapping { index, key, value } => Change::ReplaceMapping {
                index: *index,
                key: key.duplicate(),
                value: value.duplicate(),
            },
            Change::Remove { index, length } => Change::Remove { index: *index, length: *length },
            Change::Truncate { length } => Change::Truncate { length: *length },
            Change::Insert { index, value } => Change::Insert { index: *index, value: value.duplicate() },
            Change::InsertMapping { index, key, value } => Change::InsertMapping {
                index: *index,
                key: key.duplicate(),
                value: value.duplicate(),
            },
        }
    }
}

impl PartialEq for Change {
    fn eq(&self, other: &Change) -> (equal: bool) {
        self.equals(other)
    }
}

impl PartialEqSpecImpl for Change {
    open spec fn obeys_eq_spec() -> bool {
        true
    }

    open spec fn eq_spec(&self, other: &Change) -> bool {
        self@ == other@
    }
}

/// The contents of a sequence of changes.
pub open spec fn change_views(changes: Seq<Change>) -> Seq<ChangeView> {
    Seq::new(changes.len(), |i: int| changes[i]@)
}

/// A script: an ordered list of changes.
#[derive(Debug)]
pub struct Diff {
    pub changes: Vec<Change>,
}

impl View for Diff {
    type V = Seq<ChangeView>;

    open spec fn view(&self) -> Seq<ChangeView> {
        change_views(self.changes@)
    }
}

impl Diff {
    /// Whether two scripts hold the same changes.
    pub fn equals(&self, other: &Diff) -> (equal: bool)
        ensures
            equal == (self@ == other@),
    {
        if self.changes.len() != other.changes.len() {
            assert(self@.len() != other@.len());
            return false;
        }
        let mut i: usize = 0;
        while i < self.changes.len()
            invariant
                i <= self.changes.len(),
                self.changes.len() == other.changes.len(),
                forall|j: int| 0 <= j < i ==> self.changes@[j]@ == other.changes@[j]@,
            decreases self.changes.len() - i,
        {
            if !self.changes[i].equals(&other.changes[i]) {
                assert(self@[i as int] != other@[i as int]);
                return false;
            }
            i += 1;
        }
        assert(self@ =~= other@);
        true
    }
}

impl PartialEq for Diff {
    fn eq(&self, other: &Diff) -> (equal: bool) {
        self.equals(other)
    }
}

impl PartialEqSpecImpl for Diff {
    open spec fn obeys_eq_spec() -> bool {
        true
    }

    open spec fn eq_spec(&self, other: &Diff) -> bool {
        self@ == other@
    }
}

} // verus!
