//! Applying a script to a value tree.
//!
//! A script is read as a flat stream. [`apply`] reads the first change at
//! the root; [`apply_sequence`] and [`apply_mappings`] read the changes
//! inside a container until its `Exit` or the end of the script.

use vstd::prelude::*;

use crate::change::{change_views, Change, ChangeView, Diff};
use crate::value::{entry_views, lemma_view_mappings, lemma_view_sequence, views, Value, ValueView};

verus! {

/// How a change failed to fit the tree it was applied to.
#[derive(Clone, Copy, Debug, PartialEq, Eq, Structural)]
pub enum Mismatch {
    /// The change cannot stand where it was found.
    UnexpectedChange,
    /// The change names a position that the container does not have.
    IndexOutOfBounds,
    /// The change enters a sequence, and what it names is none.
    NotASequence,
    /// The change enters a mappings container, and what it names is none.
    NotMappings,
    /// Changes are left after the one that finished the root.
    TrailingChanges,
}

/// Why a script could not be applied.
#[derive(Debug)]
pub enum Error {
    /// The updated value could not be turned back into the caller's type.
    ValueDeserialization(String),
    /// A change did not fit the tree.
    Structure(Mismatch),
}

/// A sequence without the `length` elements that start at `index`.
pub open spec fn without_range<T>(items: Seq<T>, index: nat, length: nat) -> Seq<T> {
    items.subrange(0, index as int) + items.subrange((index + length) as int, items.len() as int)
}

/// The result of reading the changes of `changes` from `position` on inside
/// a sequence that holds `values`: the sequence as the changes leave it, and
/// the position after the `Exit` that closed it.
pub open spec fn apply_sequence(changes: Seq<ChangeView>, position: nat, values: Seq<ValueView>) -> Result<
    (Seq<ValueView>, nat),
    Mismatch,
>
    decreases changes.len() - position,
{
    if position >= changes.len() {
        Ok((values, position))
    } else {
        match changes[position as int] {
            ChangeView::Exit => Ok((values, position + 1)),
            ChangeView::Replace { index: Some(index), value } => if index < values.len() {
                apply_sequence(changes, position + 1, values.update(index as int, value))
            } else {
                Err(Mismatch::IndexOutOfBounds)
            },
            ChangeView::Remove { index, length } => if index + length <= values.len() {
                apply_sequence(changes, position + 1, without_range(values, index, length))
            } else {
                Err(Mismatch::IndexOutOfBounds)
            },
            ChangeView::Truncate { length } => if length <= values.len() {
                apply_sequence(changes, position + 1, values.subrange(0, length as int))
            } else {
                Err(Mismatch::IndexOutOfBounds)
            },
            ChangeView::Insert { index, value } => if index <= values.len() {
                apply_sequence(changes, position + 1, values.insert(index as int, value))
            } else {
                Err(Mismatch::IndexOutOfBounds)
            },
            ChangeView::EnterSequence { index: Some(index), key: false } => if index >= values.len() {
                Err(Mismatch::IndexOutOfBounds)
            } else {
                match values[index as int] {
                    ValueView::Sequence(inner) => match apply_sequence(changes, position + 1, inner) {
                        Ok((inner, next)) => if position < next <= changes.len() {
                            apply_sequence(
                                changes,
                                next,
                                values.update(index as int, ValueView::Sequence(inner)),
                            )
                        } else {
                            Err(Mismatch::UnexpectedChange)
                        },
                        Err(mismatch) => Err(mismatch),
                    },
                    _ => Err(Mismatch::NotASequence),
                }
            },
            ChangeView::EnterMap { index: Some(index), key: false } => if index >= values.len() {
                Err(Mismatch::IndexOutOfBounds)
            } else {
                match values[index as int] {
                    ValueView::Mappings(inner) => match apply_mappings(changes, position + 1, inner) {
                        Ok((inner, next)) => if position < next <= changes.len() {
                            apply_sequence(
                                changes,
                                next,
                                values.update(index as int, ValueView::Mappings(inner)),
                            )
                        } else {
                            Err(Mismatch::UnexpectedChange)
                        },
                        Err(mismatch) => Err(mismatch),
                    },
                    _ => Err(Mismatch::NotMappings),
                }
            },
            _ => Err(Mismatch::UnexpectedChange),
        }
    }
}

/// One half of an entry: its key if `key`, else its value.
pub open spec fn half(entry: (ValueView, ValueView), key: bool) -> ValueView {
    if key {
        entry.0
    } else {
        entry.1
    }
}

/// The entry with one half replaced: its key if `key`, else its value.
pub open spec fn with_half(entry: (ValueView, ValueView), key: bool, value: ValueView) -> (
    ValueView,
    ValueView,
) {
    if key {
        (value, entry.1)
    } else {
        (entry.0, value)
    }
}

/// The result of reading the changes of `changes` from `position` on inside
/// a mappings container that holds `entries`: the entries as the changes
/// leave them, and the position after the `Exit` that closed the container.
pub open spec fn apply_mappings(
    changes: Seq<ChangeView>,
    position: nat,
    entries: Seq<(ValueView, ValueView)>,
) -> Result<(Seq<(ValueView, ValueView)>, nat), Mismatch>
    decreases changes.len() - position,
{
    if position >= changes.len() {
        Ok((entries, position))
    } else {
        match changes[position as int] {
            ChangeView::Exit => Ok((entries, position + 1)),
            ChangeView::ReplaceMapping { index, key, value } => if index < entries.len() {
                apply_mappings(changes, position + 1, entries.update(index as int, (key, value)))
            } else {
                Err(Mismatch::IndexOutOfBounds)
            },
            ChangeView::Replace { index: Some(index), value } => if index < entries.len() {
                apply_mappings(
                    changes,
                    position + 1,
                    entries.update(index as int, (entries[index as int].0, value)),
                )
            } else {
                Err(Mismatch::IndexOutOfBounds)
            },
            ChangeView::ReplaceKey { index, key } => if index < entries.len() {
                apply_mappings(
                    changes,
                    position + 1,
                    entries.update(index as int, (key, entries[index as int].1)),
                )
            } else {
                Err(Mismatch::IndexOutOfBounds)
            },
            ChangeView::Remove { index, length } => if index + length <= entries.len() {
                apply_mappings(changes, position + 1, without_range(entries, index, length))
            } else {
                Err(Mismatch::IndexOutOfBounds)
            },
            ChangeView::Truncate { length } => if length <= entries.len() {
                apply_mappings(changes, position + 1, entries.subrange(0, length as int))
            } else {
                Err(Mismatch::IndexOutOfBounds)
            },
            ChangeView::InsertMapping { index, key, value } => if index <= entries.len() {
                apply_mappings(changes, position + 1, entries.insert(index as int, (key, value)))
            } else {
                Err(Mismatch::IndexOutOfBounds)
            },
            ChangeView::EnterSequence { index: Some(index), key } => if index >= entries.len() {
                Err(Mismatch::IndexOutOfBounds)
            } else {
                match half(entries[index as int], key) {
                    ValueView::Sequence(inner) => match apply_sequence(changes, position + 1, inner) {
                        Ok((inner, next)) => if position < next <= changes.len() {
                            apply_mappings(
                                changes,
                                next,
                                entries.update(
                                    index as int,
                                    with_half(entries[index as int], key, ValueView::Sequence(inner)),
                                ),
                            )
                        } else {
                            Err(Mismatch::UnexpectedChange)
                        },
                        Err(mismatch) => Err(mismatch),
                    },
                    _ => Err(Mismatch::NotASequence),
                }
            },
            ChangeView::EnterMap { index: Some(index), key } => if index >= entries.len() {
                Err(Mismatch::IndexOutOfBounds)
            } else {
                match half(entries[index as int], key) {
                    ValueView::Mappings(inner) => match apply_mappings(changes, position + 1, inner) {
                        Ok((inner, next)) => if position < next <= changes.len() {
                            apply_mappings(
                                changes,
                                next,
                                entries.update(
                                    index as int,
                                    with_half(entries[index as int], key, ValueView::Mappings(inner)),
                                ),
                            )
                        } else {
                            Err(Mismatch::UnexpectedChange)
                        },
                        Err(mismatch) => Err(mismatch),
                    },
                    _ => Err(Mismatch::NotMappings),
                }
            },
            _ => Err(Mismatch::UnexpectedChange),
        }
    }
}

/// The value that a script turns `root` into.
///
/// An empty script leaves the root as it is. A script that starts by
/// replacing the root must end there. A script that starts by entering the
/// root must find a container of that kind, and must end with, or before,
/// the `Exit` that closes it. No other change can start a script.
pub open spec fn apply(changes: Seq<ChangeView>, root: ValueView) -> Result<ValueView, Mismatch> {
    if changes.len() == 0 {
        Ok(root)
    } else {
        match changes[0] {
            ChangeView::Replace { index: None, value } => if changes.len() == 1 {
                Ok(value)
            } else {
                Err(Mismatch::TrailingChanges)
            },
            ChangeView::EnterSequence { index: None, key: false } => match root {
                ValueView::Sequence(values) => match apply_sequence(changes, 1, values) {
                    Ok((values, next)) => if next >= changes.len() {
                        Ok(ValueView::Sequence(values))
                    } else {
                        Err(Mismatch::TrailingChanges)
                    },
                    Err(mismatch) => Err(mismatch),
                },
                _ => Err(Mismatch::NotASequence),
            },
            ChangeView::EnterMap { index: None, key: false } => match root {
                ValueView::Mappings(entries) => match apply_mappings(changes, 1, entries) {
                    Ok((entries, next)) => if next >= changes.len() {
                        Ok(ValueView::Mappings(entries))
                    } else {
                        Err(Mismatch::TrailingChanges)
                    },
                    Err(mismatch) => Err(mismatch),
                },
                _ => Err(Mismatch::NotMappings),
            },
            _ => Err(Mismatch::UnexpectedChange),
        }
    }
}

/// Deletes `length` items starting at `index`.
fn remove_range<T>(items: &mut Vec<T>, index: usize, length: usize)
    requires
        index + length <= old(items).len(),
    ensures
        final(items)@ == without_range(old(items)@, index as nat, length as nat),
{
    let mut tail = items.split_off(index + length);
    items.truncate(index);
    items.append(&mut tail);
    assert(old(items)@.subrange(0, (index + length) as int).subrange(0, index as int) =~= old(
        items,
    )@.subrange(0, index as int));
}

/// The views of a changed sequence are the changed views.
proof fn lemma_views_update(values: Seq<Value>, index: int, value: Value)
    requires
        0 <= index < values.len(),
    ensures
        views(values.update(index, value)) == views(values).update(index, value@),
{
    assert(views(values.update(index, value)) =~= views(values).update(index, value@));
}

/// The views of a changed sequence are the changed views.
proof fn lemma_entry_views_update(entries: Seq<(Value, Value)>, index: int, entry: (Value, Value))
    requires
        0 <= index < entries.len(),
    ensures
        entry_views(entries.update(index, entry)) == entry_views(entries).update(
            index,
            (entry.0@, entry.1@),
        ),
{
    assert(entry_views(entries.update(index, entry)) =~= entry_views(entries).update(
        index,
        (entry.0@, entry.1@),
    ));
}

/// Applies the changes from `start` on to the elements of a sequence, up to
/// its `Exit` or the end of the script, and returns the position after
/// them: see [`apply_sequence`]. After an error the elements are of no use:
/// some changes have been applied, and an element that was entered is
/// missing.
pub fn apply_changes_to_sequence(values: &mut Vec<Value>, changes: &Vec<Change>, start: usize) -> (result:
    Result<usize, Error>)
    requires
        start <= changes.len(),
    ensures
        match result {
            Ok(next) => apply_sequence(change_views(changes@), start as nat, views(old(values)@))
                == Ok::<_, Mismatch>((views(final(values)@), next as nat)) && start <= next
                <= changes.len(),
            Err(Error::Structure(mismatch)) => apply_sequence(
                change_views(changes@),
                start as nat,
                views(old(values)@),
            ) == Err::<(Seq<ValueView>, nat), _>(mismatch),
            Err(_) => false,
        },
    decreases changes.len() - start,
{
    let ghost script = change_views(changes@);
    let ghost goal = apply_sequence(script, start as nat, views(values@));
    let mut position = start;
    loop
        invariant
            start <= position <= changes.len(),
            script == change_views(changes@),
            goal == apply_sequence(script, start as nat, views(old(values)@)),
            apply_sequence(script, position as nat, views(values@)) == goal,
        decreases changes.len() - position,
    {
        if position >= changes.len() {
            return Ok(position);
        }
        let ghost current = views(values@);
        let ghost before = values@;
        match &changes[position] {
            Change::Exit => {
                return Ok(position + 1);
            },
            Change::Replace { index: Some(index), value } => {
                if *index >= values.len() {
                    return Err(Error::Structure(Mismatch::IndexOutOfBounds));
                }
                let value = value.duplicate();
                proof {
                    lemma_views_update(before, *index as int, value);
                }
                values.set(*index, value);
            },
            Change::Remove { index, length } => {
                if *length > values.len() || *index > values.len() - *length {
                    return Err(Error::Structure(Mismatch::IndexOutOfBounds));
                }
                remove_range(values, *index, *length);
                assert(views(values@) =~= without_range(current, *index as nat, *length as nat));
            },
            Change::Truncate { length } => {
                if *length > values.len() {
                    return Err(Error::Structure(Mismatch::IndexOutOfBounds));
                }
                values.truncate(*length);
                assert(views(values@) =~= current.subrange(0, *length as int));
            },
            Change::Insert { index, value } => {
                if *index > values.len() {
                    return Err(Error::Structure(Mismatch::IndexOutOfBounds));
                }
                let value = value.duplicate();
                values.insert(*index, value);
                assert(views(values@) =~= current.insert(*index as int, value@));
            },
            Change::EnterSequence { index: Some(index), key } => {
                if *key {
                    return Err(Error::Structure(Mismatch::UnexpectedChange));
                }
                if *index >= values.len() {
                    return Err(Error::Structure(Mismatch::IndexOutOfBounds));
                }
                let mut entered = Value::Nil;
                values.set_and_swap(*index, &mut entered);
                match entered {
                    Value::Sequence(mut inner) => {
                        proof {
                            lemma_view_sequence(inner);
                        }
                        let next = match apply_changes_to_sequence(&mut inner, changes, position + 1) {
                            Ok(next) => next,
                            Err(error) => {
                                return Err(error);
                            },
                        };
                        proof {
                            lemma_view_sequence(inner);
                            lemma_views_update(values@, *index as int, Value::Sequence(inner));
                            assert(views(values@.update(*index as int, Value::Sequence(inner)))
                                =~= current.update(*index as int, Value::Sequence(inner)@));
                        }
                        values.set(*index, Value::Sequence(inner));
                        position = next;
                        continue ;
                    },
                    _ => {
                        return Err(Error::Structure(Mismatch::NotASequence));
                    },
                }
            },
            Change::EnterMap { index: Some(index), key } => {
                if *key {
                    return Err(Error::Structure(Mismatch::UnexpectedChange));
                }
                if *index >= values.len() {
                    return Err(Error::Structure(Mismatch::IndexOutOfBounds));
                }
                let mut entered = Value::Nil;
                values.set_and_swap(*index, &mut entered);
                match entered {
                    Value::Mappings(mut inner) => {
                        proof {
                            lemma_view_mappings(inner);
                        }
                        let next = match apply_changes_to_mappings(&mut inner, changes, position + 1) {
                            Ok(next) => next,
                            Err(error) => {
                                return Err(error);
                            },
                        };
                        proof {
                            lemma_view_mappings(inner);
                            lemma_views_update(values@, *index as int, Value::Mappings(inner));
                            assert(views(values@.update(*index as int, Value::Mappings(inner)))
                                =~= current.update(*index as int, Value::Mappings(inner)@));
                        }
                        values.set(*index, Value::Mappings(inner));
                        position = next;
                        continue ;
                    },
                    _ => {
                        return Err(Error::Structure(Mismatch::NotMappings));
                    },
                }
            },
            _ => {
                return Err(Error::Structure(Mismatch::UnexpectedChange));
            },
        }
        position += 1;
    }
}

/// Applies the changes from `start` on to the entries of a mappings
/// container, up to its `Exit` or the end of the script, and returns the
/// position after them: see [`apply_mappings`]. After an error the entries
/// are of no use: some changes have been applied, and an entry that was
/// entered is missing.
pub fn apply_changes_to_mappings(
    values: &mut Vec<(Value, Value)>,
    changes: &Vec<Change>,
    start: usize,
) -> (result: Result<usize, Error>)
    requires
        start <= changes.len(),
    ensures
        match result {
            Ok(next) => apply_mappings(
                change_views(changes@),
                start as nat,
                entry_views(old(values)@),
            ) == Ok::<_, Mismatch>((entry_views(final(values)@), next as nat)) && start <= next
                <= changes.len(),
            Err(Error::Structure(mismatch)) => apply_mappings(
                change_views(changes@),
                start as nat,
                entry_views(old(values)@),
            ) == Err::<(Seq<(ValueView, ValueView)>, nat), _>(mismatch),
            Err(_) => false,
        },
    decreases changes.len() - start,
{
    let ghost script = change_views(changes@);
    let ghost goal = apply_mappings(script, start as nat, entry_views(values@));
    let mut position = start;
    loop
        invariant
            start <= position <= changes.len(),
            script == change_views(changes@),
            goal == apply_mappings(script, start as nat, entry_views(old(values)@)),
            apply_mappings(script, position as nat, entry_views(values@)) == goal,
        decreases changes.len() - position,
    {
        if position >= changes.len() {
            return Ok(position);
        }
        let ghost current = entry_views(values@);
        let ghost before = values@;
        match &changes[position] {
            Change::Exit => {
                return Ok(position + 1);
            },
            Change::ReplaceMapping { index, key, value } => {
                if *index >= values.len() {
                    return Err(Error::Structure(Mismatch::IndexOutOfBounds));
                }
                let entry = (key.duplicate(), value.duplicate());
                proof {
                    lemma_entry_views_update(before, *index as int, entry);
                }
                values.set(*index, entry);
            },
            Change::Replace { index: Some(index), value } => {
                if *index >= values.len() {
                    return Err(Error::Structure(Mismatch::IndexOutOfBounds));
                }
                let mut entry = (Value::Nil, Value::Nil);
                values.set_and_swap(*index, &mut entry);
                let entry = (entry.0, value.duplicate());
                proof {
                    lemma_entry_views_update(values@, *index as int, entry);
                    assert(entry_views(values@.update(*index as int, entry)) =~= current.update(
                        *index as int,
                        (entry.0@, entry.1@),
                    ));
                }
                values.set(*index, entry);
            },
            Change::ReplaceKey { index, key } => {
                if *index >= values.len() {
                    return Err(Error::Structure(Mismatch::IndexOutOfBounds));
                }
                let mut entry = (Value::Nil, Value::Nil);
                values.set_and_swap(*index, &mut entry);
                let entry = (key.duplicate(), entry.1);
                proof {
                    lemma_entry_views_update(values@, *index as int, entry);
                    assert(entry_views(values@.update(*index as int, entry)) =~= current.update(
                        *index as int,
                        (entry.0@, entry.1@),
                    ));
                }
                values.set(*index, entry);
            },
            Change::Remove { index, length } => {
                if *length > values.len() || *index > values.len() - *length {
                    return Err(Error::Structure(Mismatch::IndexOutOfBounds));
                }
                remove_range(values, *index, *length);
                assert(entry_views(values@) =~= without_range(
                    current,
                    *index as nat,
                    *length as nat,
                ));
            },
            Change::Truncate { length } => {
                if *length > values.len() {
                    return Err(Error::Structure(Mismatch::IndexOutOfBounds));
                }
                values.truncate(*length);
                assert(entry_views(values@) =~= current.subrange(0, *length as int));
            },
            Change::InsertMapping { index, key, value } => {
                if *index > values.len() {
                    return Err(Error::Structure(Mismatch::IndexOutOfBounds));
                }
                let entry = (key.duplicate(), value.duplicate());
                values.insert(*index, entry);
                assert(entry_views(values@) =~= current.insert(
                    *index as int,
                    (entry.0@, entry.1@),
                ));
            },
            Change::EnterSequence { index: Some(index), key } => {
                if *index >= values.len() {
                    return Err(Error::Structure(Mismatch::IndexOutOfBounds));
                }
                let mut entry = (Value::Nil, Value::Nil);
                values.set_and_swap(*index, &mut entry);
                let (entry_key, entry_value) = entry;
                let (entered, other) = if *key {
                    (entry_key, entry_value)
                } else {
                    (entry_value, entry_key)
                };
                match entered {
                    Value::Sequence(mut inner) => {
                        proof {
                            lemma_view_sequence(inner);
                        }
                        let next = match apply_changes_to_sequence(&mut inner, changes, position + 1) {
                            Ok(next) => next,
                            Err(error) => {
                                return Err(error);
                            },
                        };
                        let entry = if *key {
                            (Value::Sequence(inner), other)
                        } else {
                            (other, Value::Sequence(inner))
                        };
                        proof {
                            lemma_view_sequence(inner);
                            lemma_entry_views_update(values@, *index as int, entry);
                            assert(entry_views(values@.update(*index as int, entry))
                                =~= current.update(*index as int, (entry.0@, entry.1@)));
                        }
                        values.set(*index, entry);
                        position = next;
                        continue ;
                    },
                    _ => {
                        return Err(Error::Structure(Mismatch::NotASequence));
                    },
                }
            },
            Change::EnterMap { index: Some(index), key } => {
                if *index >= values.len() {
                    return Err(Error::Structure(Mismatch::IndexOutOfBounds));
                }
                let mut entry = (Value::Nil, Value::Nil);
                values.set_and_swap(*index, &mut entry);
                let (entry_key, entry_value) = entry;
                let (entered, other) = if *key {
                    (entry_key, entry_value)
                } else {
                    (entry_value, entry_key)
                };
                match entered {
                    Value::Mappings(mut inner) => {
                        proof {
                            lemma_view_mappings(inner);
                        }
                        let next = match apply_changes_to_mappings(&mut inner, changes, position + 1) {
                            Ok(next) => next,
                            Err(error) => {
                                return Err(error);
                            },
                        };
                        let entry = if *key {
                            (Value::Mappings(inner), other)
                        } else {
                            (other, Value::Mappings(inner))
                        };
                        proof {
                            lemma_view_mappings(inner);
                            lemma_entry_views_update(values@, *index as int, entry);
                            assert(entry_views(values@.update(*index as int, entry))
                                =~= current.update(*index as int, (entry.0@, entry.1@)));
                        }
                        values.set(*index, entry);
                        position = next;
                        continue ;
                    },
                    _ => {
                        return Err(Error::Structure(Mismatch::NotMappings));
                    },
                }
            },
            _ => {
                return Err(Error::Structure(Mismatch::UnexpectedChange));
            },
        }
        position += 1;
    }
}

impl Diff {
    /// Applies the script to `value` and returns the updated tree: see
    /// [`apply`].
    pub fn apply_to_value(&self, value: Value) -> (result: Result<Value, Error>)
        ensures
            match result {
                Ok(updated) => apply(self@, value@) == Ok::<_, Mismatch>(updated@),
                Err(Error::Structure(mismatch)) => apply(self@, value@) == Err::<ValueView, _>(
                    mismatch,
                ),
                Err(_) => false,
            },
    {
        if self.changes.len() == 0 {
            return Ok(value);
        }
        match &self.changes[0] {
            Change::Replace { index: None, value: replacement } => {
                if self.changes.len() > 1 {
                    return Err(Error::Structure(Mismatch::TrailingChanges));
                }
                Ok(replacement.duplicate())
            },
            Change::EnterSequence { index: None, key } => {
                if *key {
                    return Err(Error::Structure(Mismatch::UnexpectedChange));
                }
                match value {
                    Value::Sequence(mut values) => {
                        proof {
                            lemma_view_sequence(values);
                        }
                        let next = match apply_changes_to_sequence(&mut values, &self.changes, 1) {
                            Ok(next) => next,
                            Err(error) => {
                                return Err(error);
                            },
                        };
                        if next < self.changes.len() {
                            return Err(Error::Structure(Mismatch::TrailingChanges));
                        }
                        proof {
                            lemma_view_sequence(values);
                        }
                        Ok(Value::Sequence(values))
                    },
                    _ => Err(Error::Structure(Mismatch::NotASequence)),
                }
            },
            Change::EnterMap { index: None, key } => {
                if *key {
                    return Err(Error::Structure(Mismatch::UnexpectedChange));
                }
                match value {
                    Value::Mappings(mut entries) => {
                        proof {
                            lemma_view_mappings(entries);
                        }
                        let next = match apply_changes_to_mappings(&mut entries, &self.changes, 1) {
                            Ok(next) => next,
                            Err(error) => {
                                return Err(error);
                            },
                        };
                        if next < self.changes.len() {
                            return Err(Error::Structure(Mismatch::TrailingChanges));
                        }
                        proof {
                            lemma_view_mappings(entries);
                        }
                        Ok(Value::Mappings(entries))
                    },
                    _ => Err(Error::Structure(Mismatch::NotMappings)),
                }
            },
            _ => Err(Error::Structure(Mismatch::UnexpectedChange)),
        }
    }
}

} // verus!
