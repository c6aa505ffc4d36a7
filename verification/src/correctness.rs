//! What holds between the differ and the applier.

use vstd::prelude::*;

use crate::apply::{
    apply, apply_mappings, apply_sequence, half, with_half, without_range, Mismatch,
};
use crate::change::ChangeView;
use crate::differ::{
    between, chain, cheaper, entry_value_diff, first_key_match, first_match, insert_mapping_run,
    insert_run, lemma_first_key_match, lemma_first_match, lemma_strip_exits, mappings_diff,
    node_diff, nothing, replace_root, sequence_diff, single, strip_exits, };
use crate::estimate::{estimated_bytes, usize_bytes};
use crate::value::ValueView;

verus! {

/// Whether `script` stands in `changes` at `position`.
pub open spec fn holds_at(changes: Seq<ChangeView>, position: nat, script: Seq<ChangeView>) -> bool {
    &&& position + script.len() <= changes.len()
    &&& forall|k: int| 0 <= k < script.len() ==> changes[position + k] == #[trigger] script[k]
}

/// Where two scripts stand one after the other, each stands in its place.
proof fn lemma_holds_split(
    changes: Seq<ChangeView>,
    position: nat,
    first: Seq<ChangeView>,
    second: Seq<ChangeView>,
)
    requires
        holds_at(changes, position, first + second),
    ensures
        holds_at(changes, position, first),
        holds_at(changes, position + first.len(), second),
{
    assert forall|k: int| 0 <= k < first.len() implies changes[position + k] == #[trigger] first[k] by {
        assert((first + second)[k] == first[k]);
    }
    assert forall|k: int| 0 <= k < second.len() implies changes[position + first.len() + k]
        == #[trigger] second[k] by {
        assert((first + second)[first.len() + k] == second[k]);
    }
}

/// The first `count` items of `updated`, followed by `original[from..]`:
/// the container while it is being edited.
pub open spec fn merged<T>(updated: Seq<T>, count: nat, original: Seq<T>, from: nat) -> Seq<T> {
    updated.subrange(0, count as int) + original.subrange(from as int, original.len() as int)
}

/// A run of insertions brings the next values of `updated` into place.
proof fn lemma_insert_run(
    changes: Seq<ChangeView>,
    position: nat,
    updated: Seq<ValueView>,
    from: nat,
    to: nat,
    tail: Seq<ValueView>,
)
    requires
        from <= to <= updated.len(),
        holds_at(changes, position, insert_run(updated, from, to).script),
    ensures
        insert_run(updated, from, to).script.len() == to - from,
        apply_sequence(changes, position, updated.subrange(0, from as int) + tail) == apply_sequence(
            changes,
            position + (to - from) as nat,
            updated.subrange(0, to as int) + tail,
        ),
    decreases to - from,
{
    if from < to {
        let step = single(
            estimated_bytes(updated[from as int]) + usize_bytes(from),
            ChangeView::Insert { index: from, value: updated[from as int] },
        );
        let rest = insert_run(updated, from + 1, to);
        lemma_holds_split(changes, position, step.script, rest.script);
        lemma_insert_run(changes, position + 1, updated, from + 1, to, tail);
        assert(changes[position as int] == step.script[0]);
        let current = updated.subrange(0, from as int) + tail;
        assert(current.insert(from as int, updated[from as int]) =~= updated.subrange(
            0,
            (from + 1) as int,
        ) + tail);
    }
}

/// A run of insertions brings the next entries of `updated` into place.
proof fn lemma_insert_mapping_run(
    changes: Seq<ChangeView>,
    position: nat,
    updated: Seq<(ValueView, ValueView)>,
    from: nat,
    to: nat,
    tail: Seq<(ValueView, ValueView)>,
)
    requires
        from <= to <= updated.len(),
        holds_at(changes, position, insert_mapping_run(updated, from, to).script),
    ensures
        insert_mapping_run(updated, from, to).script.len() == to - from,
        apply_mappings(changes, position, updated.subrange(0, from as int) + tail) == apply_mappings(
            changes,
            position + (to - from) as nat,
            updated.subrange(0, to as int) + tail,
        ),
    decreases to - from,
{
    if from < to {
        let step = single(
            estimated_bytes(updated[from as int].0) + estimated_bytes(updated[from as int].1)
                + usize_bytes(from),
            ChangeView::InsertMapping {
                index: from,
                key: updated[from as int].0,
                value: updated[from as int].1,
            },
        );
        let rest = insert_mapping_run(updated, from + 1, to);
        lemma_holds_split(changes, position, step.script, rest.script);
        lemma_insert_mapping_run(changes, position + 1, updated, from + 1, to, tail);
        assert(changes[position as int] == step.script[0]);
        let current = updated.subrange(0, from as int) + tail;
        assert(current.insert(from as int, updated[from as int]) =~= updated.subrange(
            0,
            (from + 1) as int,
        ) + tail);
    }
}

/// Inside a sequence, the script of two nodes turns the one at `index` into
/// the other and leaves the rest alone.
pub proof fn lemma_node_in_sequence(
    changes: Seq<ChangeView>,
    position: nat,
    current: Seq<ValueView>,
    index: nat,
    original: ValueView,
    updated: ValueView,
)
    requires
        index < current.len(),
        current[index as int] == original,
        node_diff(Some(index), false, original, updated).cost <= estimated_bytes(updated),
        holds_at(changes, position, node_diff(Some(index), false, original, updated).script),
    ensures
        apply_sequence(changes, position, current) == apply_sequence(
            changes,
            position + node_diff(Some(index), false, original, updated).script.len(),
            current.update(index as int, updated),
        ),
    decreases updated, 0nat,
{
    if original == updated {
        assert(current.update(index as int, updated) =~= current);
    } else {
        let enter_cost = usize_bytes(index);
        let leave = single(0, ChangeView::Exit);
        match updated {
            ValueView::Sequence(updated_values) => match original {
                ValueView::Sequence(original_values) => {
                    let enter = single(
                        enter_cost,
                        ChangeView::EnterSequence { index: Some(index), key: false },
                    );
                    let inner = sequence_diff(original_values, 0, updated_values, 0);
                    lemma_holds_split(changes, position, enter.script, chain(inner, leave).script);
                    lemma_holds_split(changes, position + 1, inner.script, leave.script);
                    lemma_sequence_script(
                        changes,
                        position + 1,
                        original_values,
                        0,
                        updated_values,
                        0,
                    );
                    assert(merged(updated_values, 0, original_values, 0) =~= original_values);
                    assert(changes[position as int] == enter.script[0]);
                    assert(changes[(position + 1 + inner.script.len()) as int] == leave.script[0]);
                },
                _ => {},
            },
            ValueView::Mappings(updated_entries) => match original {
                ValueView::Mappings(original_entries) => {
                    let enter = single(
                        index,
                        ChangeView::EnterMap { index: Some(index), key: false },
                    );
                    let inner = mappings_diff(original_entries, 0, updated_entries, 0);
                    lemma_holds_split(changes, position, enter.script, chain(inner, leave).script);
                    lemma_holds_split(changes, position + 1, inner.script, leave.script);
                    lemma_mappings_script(
                        changes,
                        position + 1,
                        original_entries,
                        0,
                        updated_entries,
                        0,
                    );
                    assert(merged(updated_entries, 0, original_entries, 0) =~= original_entries);
                    assert(changes[position as int] == enter.script[0]);
                    assert(changes[(position + 1 + inner.script.len()) as int] == leave.script[0]);
                },
                _ => {},
            },
            _ => {},
        }
    }
}

/// Inside a sequence, the script of two lists of elements turns the one,
/// edited as far as `at`, into the other.
#[verifier::rlimit(30)]
pub proof fn lemma_sequence_script(
    changes: Seq<ChangeView>,
    position: nat,
    original: Seq<ValueView>,
    from: nat,
    updated: Seq<ValueView>,
    at: nat,
)
    requires
        from <= original.len(),
        at <= updated.len(),
        holds_at(changes, position, sequence_diff(original, from, updated, at).script),
    ensures
        apply_sequence(changes, position, merged(updated, at, original, from)) == apply_sequence(
            changes,
            position + sequence_diff(original, from, updated, at).script.len(),
            updated,
        ),
    decreases updated, updated.len() - at,
{
    let current = merged(updated, at, original, from);
    let script = sequence_diff(original, from, updated, at).script;
    if at >= updated.len() {
        if from < original.len() {
            assert(changes[position as int] == script[0]);
            assert(current.subrange(0, at as int) =~= updated);
        } else {
            assert(current =~= updated);
        }
    } else if from >= original.len() {
        let step = single(
            estimated_bytes(updated[at as int]) + usize_bytes(at),
            ChangeView::Insert { index: at, value: updated[at as int] },
        );
        let rest = sequence_diff(original, from, updated, at + 1);
        lemma_holds_split(changes, position, step.script, rest.script);
        lemma_sequence_script(changes, position + 1, original, from, updated, at + 1);
        assert(changes[position as int] == step.script[0]);
        assert(current.insert(at as int, updated[at as int]) =~= merged(
            updated,
            at + 1,
            original,
            from,
        ));
    } else {
        let kept = first_match(original, from, updated[at as int]);
        let awaited = first_match(updated, at + 1, original[from as int]);
        lemma_first_match(original, from, updated[at as int]);
        lemma_first_match(updated, at + 1, original[from as int]);
        if kept < original.len() {
            let rest = sequence_diff(original, kept + 1, updated, at + 1);
            if kept > from {
                let step = single(
                    usize_bytes(at) + usize_bytes((kept - from) as nat),
                    ChangeView::Remove { index: at, length: (kept - from) as nat },
                );
                lemma_holds_split(changes, position, step.script, rest.script);
                lemma_sequence_script(changes, position + 1, original, kept + 1, updated, at + 1);
                assert(changes[position as int] == step.script[0]);
                assert(without_range(current, at, (kept - from) as nat) =~= merged(
                    updated,
                    at + 1,
                    original,
                    kept + 1,
                ));
            } else {
                lemma_sequence_script(changes, position, original, kept + 1, updated, at + 1);
                assert(current =~= merged(updated, at + 1, original, kept + 1));
            }
        } else if at < awaited && awaited < updated.len() {
            let run = insert_run(updated, at, awaited);
            let rest = sequence_diff(original, from + 1, updated, awaited + 1);
            let tail = original.subrange(from as int, original.len() as int);
            lemma_holds_split(changes, position, run.script, rest.script);
            lemma_insert_run(changes, position, updated, at, awaited, tail);
            lemma_sequence_script(
                changes,
                position + (awaited - at) as nat,
                original,
                from + 1,
                updated,
                awaited + 1,
            );
            assert(updated.subrange(0, awaited as int) + tail =~= merged(
                updated,
                awaited + 1,
                original,
                from + 1,
            ));
        } else {
            let nested = node_diff(Some(at), false, original[from as int], updated[at as int]);
            let replacement = single(
                estimated_bytes(updated[at as int]) + usize_bytes(at),
                ChangeView::Replace { index: Some(at), value: updated[at as int] },
            );
            let step = cheaper(nested, updated[at as int], replacement);
            let rest = sequence_diff(original, from + 1, updated, at + 1);
            lemma_holds_split(changes, position, step.script, rest.script);
            lemma_sequence_script(
                changes,
                position + step.script.len(),
                original,
                from + 1,
                updated,
                at + 1,
            );
            assert(current.update(at as int, updated[at as int]) =~= merged(
                updated,
                at + 1,
                original,
                from + 1,
            ));
            if nested.cost > estimated_bytes(updated[at as int]) {
                assert(changes[position as int] == replacement.script[0]);
            } else {
                lemma_node_in_sequence(
                    changes,
                    position,
                    current,
                    at,
                    original[from as int],
                    updated[at as int],
                );
            }
        }
    }
}

/// Inside a mappings container, the script of two nodes turns one half of
/// the entry at `index` into the other node and leaves the rest alone.
pub proof fn lemma_node_in_mappings(
    changes: Seq<ChangeView>,
    position: nat,
    current: Seq<(ValueView, ValueView)>,
    index: nat,
    key: bool,
    original: ValueView,
    updated: ValueView,
)
    requires
        index < current.len(),
        half(current[index as int], key) == original,
        node_diff(Some(index), key, original, updated).cost <= estimated_bytes(updated),
        holds_at(changes, position, node_diff(Some(index), key, original, updated).script),
    ensures
        apply_mappings(changes, position, current) == apply_mappings(
            changes,
            position + node_diff(Some(index), key, original, updated).script.len(),
            current.update(index as int, with_half(current[index as int], key, updated)),
        ),
    decreases updated, 0nat,
{
    if original == updated {
        assert(current.update(index as int, with_half(current[index as int], key, updated))
            =~= current);
    } else {
        let leave = single(0, ChangeView::Exit);
        match updated {
            ValueView::Sequence(updated_values) => match original {
                ValueView::Sequence(original_values) => {
                    let enter = single(
                        usize_bytes(index),
                        ChangeView::EnterSequence { index: Some(index), key },
                    );
                    let inner = sequence_diff(original_values, 0, updated_values, 0);
                    lemma_holds_split(changes, position, enter.script, chain(inner, leave).script);
                    lemma_holds_split(changes, position + 1, inner.script, leave.script);
                    lemma_sequence_script(
                        changes,
                        position + 1,
                        original_values,
                        0,
                        updated_values,
                        0,
                    );
                    assert(merged(updated_values, 0, original_values, 0) =~= original_values);
                    assert(changes[position as int] == enter.script[0]);
                    assert(changes[(position + 1 + inner.script.len()) as int] == leave.script[0]);
                },
                _ => {},
            },
            ValueView::Mappings(updated_entries) => match original {
                ValueView::Mappings(original_entries) => {
                    let enter = single(index, ChangeView::EnterMap { index: Some(index), key });
                    let inner = mappings_diff(original_entries, 0, updated_entries, 0);
                    lemma_holds_split(changes, position, enter.script, chain(inner, leave).script);
                    lemma_holds_split(changes, position + 1, inner.script, leave.script);
                    lemma_mappings_script(
                        changes,
                        position + 1,
                        original_entries,
                        0,
                        updated_entries,
                        0,
                    );
                    assert(merged(updated_entries, 0, original_entries, 0) =~= original_entries);
                    assert(changes[position as int] == enter.script[0]);
                    assert(changes[(position + 1 + inner.script.len()) as int] == leave.script[0]);
                },
                _ => {},
            },
            _ => {},
        }
    }
}

/// Inside a mappings container, the script that brings a value up to date
/// turns the value of the entry at `index` into `updated`.
pub proof fn lemma_entry_value(
    changes: Seq<ChangeView>,
    position: nat,
    current: Seq<(ValueView, ValueView)>,
    index: nat,
    updated: ValueView,
)
    requires
        index < current.len(),
        holds_at(changes, position, entry_value_diff(index, current[index as int].1, updated).script),
    ensures
        apply_mappings(changes, position, current) == apply_mappings(
            changes,
            position + entry_value_diff(index, current[index as int].1, updated).script.len(),
            current.update(index as int, (current[index as int].0, updated)),
        ),
    decreases updated, 1nat,
{
    let original = current[index as int].1;
    if original == updated {
        assert(current.update(index as int, (current[index as int].0, updated)) =~= current);
    } else {
        let nested = node_diff(Some(index), false, original, updated);
        let replacement = single(
            estimated_bytes(updated) + usize_bytes(index),
            ChangeView::Replace { index: Some(index), value: updated },
        );
        if nested.cost > estimated_bytes(updated) {
            assert(changes[position as int] == replacement.script[0]);
        } else {
            lemma_node_in_mappings(changes, position, current, index, false, original, updated);
        }
    }
}

/// The case of [`lemma_mappings_script`] where the updated key stands
/// further on in the original.
proof fn lemma_mappings_kept(
    changes: Seq<ChangeView>,
    position: nat,
    original: Seq<(ValueView, ValueView)>,
    from: nat,
    updated: Seq<(ValueView, ValueView)>,
    at: nat,
)
    requires
        from < original.len(),
        at < updated.len(),
        holds_at(changes, position, mappings_diff(original, from, updated, at).script),
        first_key_match(original, from, updated[at as int].0) < original.len(),
    ensures
        apply_mappings(changes, position, merged(updated, at, original, from)) == apply_mappings(
            changes,
            position + mappings_diff(original, from, updated, at).script.len(),
            updated,
        ),
    decreases updated, updated.len() - at, 0nat,
{
    let current = merged(updated, at, original, from);
    let kept = first_key_match(original, from, updated[at as int].0);
    lemma_first_key_match(original, from, updated[at as int].0);
    let aligned = merged(updated, at, original, kept);
    let value_step = entry_value_diff(at, original[kept as int].1, updated[at as int].1);
    let tail = mappings_diff(original, kept + 1, updated, at + 1);
    let rest = chain(value_step, tail);
    let after_remove: nat = if kept > from {
        position + 1
    } else {
        position
    };
    if kept > from {
        let step = single(
            usize_bytes(at) * ((kept - from) as nat),
            ChangeView::Remove { index: at, length: (kept - from) as nat },
        );
        lemma_holds_split(changes, position, step.script, rest.script);
        assert(changes[position as int] == step.script[0]);
        assert(without_range(current, at, (kept - from) as nat) =~= aligned);
    } else {
        assert(current =~= aligned);
    }
    lemma_holds_split(changes, after_remove, value_step.script, tail.script);
    assert(aligned[at as int] == original[kept as int]);
    lemma_entry_value(changes, after_remove, aligned, at, updated[at as int].1);
    lemma_mappings_script(
        changes,
        after_remove + value_step.script.len(),
        original,
        kept + 1,
        updated,
        at + 1,
    );
    assert(aligned.update(at as int, (aligned[at as int].0, updated[at as int].1)) =~= merged(
        updated,
        at + 1,
        original,
        kept + 1,
    ));
}

/// The case of [`lemma_mappings_script`] where the original key stands
/// further on in the updated entries.
proof fn lemma_mappings_awaited(
    changes: Seq<ChangeView>,
    position: nat,
    original: Seq<(ValueView, ValueView)>,
    from: nat,
    updated: Seq<(ValueView, ValueView)>,
    at: nat,
)
    requires
        from < original.len(),
        at < updated.len(),
        holds_at(changes, position, mappings_diff(original, from, updated, at).script),
        first_key_match(original, from, updated[at as int].0) >= original.len(),
        at < first_key_match(updated, at + 1, original[from as int].0) < updated.len(),
    ensures
        apply_mappings(changes, position, merged(updated, at, original, from)) == apply_mappings(
            changes,
            position + mappings_diff(original, from, updated, at).script.len(),
            updated,
        ),
    decreases updated, updated.len() - at, 0nat,
{
    let awaited = first_key_match(updated, at + 1, original[from as int].0);
    lemma_first_key_match(updated, at + 1, original[from as int].0);
    let run = insert_mapping_run(updated, at, awaited);
    let value_step = entry_value_diff(awaited, original[from as int].1, updated[awaited as int].1);
    let tail = mappings_diff(original, from + 1, updated, awaited + 1);
    let rest = chain(value_step, tail);
    let left = original.subrange(from as int, original.len() as int);
    let aligned = updated.subrange(0, awaited as int) + left;
    lemma_holds_split(changes, position, run.script, rest.script);
    lemma_insert_mapping_run(changes, position, updated, at, awaited, left);
    let after_run = position + (awaited - at) as nat;
    lemma_holds_split(changes, after_run, value_step.script, tail.script);
    assert(aligned[awaited as int] == original[from as int]);
    lemma_entry_value(changes, after_run, aligned, awaited, updated[awaited as int].1);
    lemma_mappings_script(
        changes,
        after_run + value_step.script.len(),
        original,
        from + 1,
        updated,
        awaited + 1,
    );
    assert(aligned.update(awaited as int, (aligned[awaited as int].0, updated[awaited as int].1))
        =~= merged(updated, awaited + 1, original, from + 1));
}

/// The case of [`lemma_mappings_script`] where neither key stands further
/// on: the entry is replaced, or its key is.
proof fn lemma_mappings_unmatched(
    changes: Seq<ChangeView>,
    position: nat,
    original: Seq<(ValueView, ValueView)>,
    from: nat,
    updated: Seq<(ValueView, ValueView)>,
    at: nat,
)
    requires
        from < original.len(),
        at < updated.len(),
        holds_at(changes, position, mappings_diff(original, from, updated, at).script),
        first_key_match(original, from, updated[at as int].0) >= original.len(),
        !(at < first_key_match(updated, at + 1, original[from as int].0) < updated.len()),
    ensures
        apply_mappings(changes, position, merged(updated, at, original, from)) == apply_mappings(
            changes,
            position + mappings_diff(original, from, updated, at).script.len(),
            updated,
        ),
    decreases updated, updated.len() - at, 0nat,
{
    let current = merged(updated, at, original, from);
    let rest = mappings_diff(original, from + 1, updated, at + 1);
    assert(current[at as int] == original[from as int]);
    if original[from as int].1 == updated[at as int].1 {
        let nested = node_diff(Some(at), true, original[from as int].0, updated[at as int].0);
        let replacement = single(
            estimated_bytes(updated[at as int].0) + usize_bytes(at),
            ChangeView::ReplaceKey { index: at, key: updated[at as int].0 },
        );
        let step = cheaper(nested, updated[at as int].0, replacement);
        lemma_holds_split(changes, position, step.script, rest.script);
        lemma_mappings_script(
            changes,
            position + step.script.len(),
            original,
            from + 1,
            updated,
            at + 1,
        );
        assert(current.update(at as int, (updated[at as int].0, current[at as int].1)) =~= merged(
            updated,
            at + 1,
            original,
            from + 1,
        ));
        if nested.cost > estimated_bytes(updated[at as int].0) {
            assert(changes[position as int] == replacement.script[0]);
        } else {
            lemma_node_in_mappings(
                changes,
                position,
                current,
                at,
                true,
                original[from as int].0,
                updated[at as int].0,
            );
        }
    } else {
        let step = single(
            estimated_bytes(updated[at as int].0) + estimated_bytes(updated[at as int].1)
                + usize_bytes(at),
            ChangeView::ReplaceMapping {
                index: at,
                key: updated[at as int].0,
                value: updated[at as int].1,
            },
        );
        lemma_holds_split(changes, position, step.script, rest.script);
        lemma_mappings_script(changes, position + 1, original, from + 1, updated, at + 1);
        assert(changes[position as int] == step.script[0]);
        assert(current.update(at as int, updated[at as int]) =~= merged(
            updated,
            at + 1,
            original,
            from + 1,
        ));
    }
}

/// Inside a mappings container, the script of two lists of entries turns
/// the one, edited as far as `at`, into the other.
pub proof fn lemma_mappings_script(
    changes: Seq<ChangeView>,
    position: nat,
    original: Seq<(ValueView, ValueView)>,
    from: nat,
    updated: Seq<(ValueView, ValueView)>,
    at: nat,
)
    requires
        from <= original.len(),
        at <= updated.len(),
        holds_at(changes, position, mappings_diff(original, from, updated, at).script),
    ensures
        apply_mappings(changes, position, merged(updated, at, original, from)) == apply_mappings(
            changes,
            position + mappings_diff(original, from, updated, at).script.len(),
            updated,
        ),
    decreases updated, updated.len() - at, 1nat,
{
    let current = merged(updated, at, original, from);
    let script = mappings_diff(original, from, updated, at).script;
    if at >= updated.len() {
        if from < original.len() {
            assert(changes[position as int] == script[0]);
            assert(current.subrange(0, at as int) =~= updated);
        } else {
            assert(current =~= updated);
        }
    } else if from >= original.len() {
        let step = single(
            estimated_bytes(updated[at as int].0) + estimated_bytes(updated[at as int].1)
                + usize_bytes(at),
            ChangeView::InsertMapping {
                index: at,
                key: updated[at as int].0,
                value: updated[at as int].1,
            },
        );
        let rest = mappings_diff(original, from, updated, at + 1);
        lemma_holds_split(changes, position, step.script, rest.script);
        lemma_mappings_script(changes, position + 1, original, from, updated, at + 1);
        assert(changes[position as int] == step.script[0]);
        assert(current.insert(at as int, updated[at as int]) =~= merged(
            updated,
            at + 1,
            original,
            from,
        ));
    } else {
        let kept = first_key_match(original, from, updated[at as int].0);
        let awaited = first_key_match(updated, at + 1, original[from as int].0);
        if kept < original.len() {
            lemma_mappings_kept(changes, position, original, from, updated, at);
        } else if at < awaited && awaited < updated.len() {
            lemma_mappings_awaited(changes, position, original, from, updated, at);
        } else {
            lemma_mappings_unmatched(changes, position, original, from, updated, at);
        }
    }
}

/// Whether a result of the applier ends within the script, after where it
/// started unless it started at the end.
pub open spec fn moves_on<T>(result: Result<(Seq<T>, nat), Mismatch>, position: nat, length: nat) -> bool {
    match result {
        Ok((_, next)) => position <= next <= length && (position < length ==> position < next),
        Err(_) => true,
    }
}

/// Inside a sequence, the applier ends within the script, and past the
/// changes it has read.
pub proof fn lemma_apply_sequence_moves_on(
    changes: Seq<ChangeView>,
    position: nat,
    values: Seq<ValueView>,
)
    requires
        position <= changes.len(),
    ensures
        moves_on(apply_sequence(changes, position, values), position, changes.len()),
    decreases changes.len() - position,
{
    if position < changes.len() {
        match changes[position as int] {
            ChangeView::Replace { index: Some(index), value } => {
                lemma_apply_sequence_moves_on(
                    changes,
                    position + 1,
                    values.update(index as int, value),
                );
            },
            ChangeView::Remove { index, length } => {
                lemma_apply_sequence_moves_on(
                    changes,
                    position + 1,
                    without_range(values, index, length),
                );
            },
            ChangeView::Truncate { length } => {
                lemma_apply_sequence_moves_on(
                    changes,
                    position + 1,
                    values.subrange(0, length as int),
                );
            },
            ChangeView::Insert { index, value } => {
                lemma_apply_sequence_moves_on(
                    changes,
                    position + 1,
                    values.insert(index as int, value),
                );
            },
            ChangeView::EnterSequence { index: Some(index), key: false } => {
                if index < values.len() {
                    if let ValueView::Sequence(inner) = values[index as int] {
                        lemma_apply_sequence_moves_on(changes, position + 1, inner);
                        if let Ok((inner, next)) = apply_sequence(changes, position + 1, inner) {
                            lemma_apply_sequence_moves_on(
                                changes,
                                next,
                                values.update(index as int, ValueView::Sequence(inner)),
                            );
                        }
                    }
                }
            },
            ChangeView::EnterMap { index: Some(index), key: false } => {
                if index < values.len() {
                    if let ValueView::Mappings(inner) = values[index as int] {
                        lemma_apply_mappings_moves_on(changes, position + 1, inner);
                        if let Ok((inner, next)) = apply_mappings(changes, position + 1, inner) {
                            lemma_apply_sequence_moves_on(
                                changes,
                                next,
                                values.update(index as int, ValueView::Mappings(inner)),
                            );
                        }
                    }
                }
            },
            _ => {},
        }
    }
}

/// Inside a mappings container, the applier ends within the script, and
/// past the changes it has read.
pub proof fn lemma_apply_mappings_moves_on(
    changes: Seq<ChangeView>,
    position: nat,
    entries: Seq<(ValueView, ValueView)>,
)
    requires
        position <= changes.len(),
    ensures
        moves_on(apply_mappings(changes, position, entries), position, changes.len()),
    decreases changes.len() - position,
{
    if position < changes.len() {
        match changes[position as int] {
            ChangeView::ReplaceMapping { index, key, value } => {
                lemma_apply_mappings_moves_on(
                    changes,
                    position + 1,
                    entries.update(index as int, (key, value)),
                );
            },
            ChangeView::Replace { index: Some(index), value } => {
                lemma_apply_mappings_moves_on(
                    changes,
                    position + 1,
                    entries.update(index as int, (entries[index as int].0, value)),
                );
            },
            ChangeView::ReplaceKey { index, key } => {
                lemma_apply_mappings_moves_on(
                    changes,
                    position + 1,
                    entries.update(index as int, (key, entries[index as int].1)),
                );
            },
            ChangeView::Remove { index, length } => {
                lemma_apply_mappings_moves_on(
                    changes,
                    position + 1,
                    without_range(entries, index, length),
                );
            },
            ChangeView::Truncate { length } => {
                lemma_apply_mappings_moves_on(
                    changes,
                    position + 1,
                    entries.subrange(0, length as int),
                );
            },
            ChangeView::InsertMapping { index, key, value } => {
                lemma_apply_mappings_moves_on(
                    changes,
                    position + 1,
                    entries.insert(index as int, (key, value)),
                );
            },
            ChangeView::EnterSequence { index: Some(index), key } => {
                if index < entries.len() {
                    if let ValueView::Sequence(inner) = half(entries[index as int], key) {
                        lemma_apply_sequence_moves_on(changes, position + 1, inner);
                        if let Ok((inner, next)) = apply_sequence(changes, position + 1, inner) {
                            lemma_apply_mappings_moves_on(
                                changes,
                                next,
                                entries.update(
                                    index as int,
                                    with_half(entries[index as int], key, ValueView::Sequence(inner)),
                                ),
                            );
                        }
                    }
                }
            },
            ChangeView::EnterMap { index: Some(index), key } => {
                if index < entries.len() {
                    if let ValueView::Mappings(inner) = half(entries[index as int], key) {
                        lemma_apply_mappings_moves_on(changes, position + 1, inner);
                        if let Ok((inner, next)) = apply_mappings(changes, position + 1, inner) {
                            lemma_apply_mappings_moves_on(
                                changes,
                                next,
                                entries.update(
                                    index as int,
                                    with_half(entries[index as int], key, ValueView::Mappings(inner)),
                                ),
                            );
                        }
                    }
                }
            },
            _ => {},
        }
    }
}

/// Whether all of `full` from `length` on is `Exit`.
pub open spec fn exits_from(full: Seq<ChangeView>, length: nat) -> bool {
    &&& length <= full.len()
    &&& forall|i: int| length <= i < full.len() ==> full[i] is Exit
}

/// Whether a script cut to `length` and the whole script left a container
/// in the same state: both failed alike, or both hold the same items and
/// ended at the same place, or past the cut.
pub open spec fn same_outcome<T>(
    cut: Result<(Seq<T>, nat), Mismatch>,
    whole: Result<(Seq<T>, nat), Mismatch>,
    length: nat,
) -> bool {
    match (cut, whole) {
        (Ok((cut_items, cut_next)), Ok((whole_items, whole_next))) => cut_items == whole_items && (
        cut_next == whole_next || (cut_next >= length && whole_next >= length)),
        (Err(cut_mismatch), Err(whole_mismatch)) => cut_mismatch == whole_mismatch,
        _ => false,
    }
}

/// Inside a sequence, a script does what it does without the `Exit`
/// changes at its end.
pub proof fn lemma_cut_sequence(
    full: Seq<ChangeView>,
    length: nat,
    cut_position: nat,
    position: nat,
    values: Seq<ValueView>,
)
    requires
        exits_from(full, length),
        cut_position <= length,
        position <= full.len(),
        cut_position == position || (cut_position >= length && position >= length),
    ensures
        same_outcome(
            apply_sequence(full.subrange(0, length as int), cut_position, values),
            apply_sequence(full, position, values),
            length,
        ),
    decreases length - cut_position,
{
    let cut = full.subrange(0, length as int);
    if cut_position >= length {
        if position < full.len() {
            assert(full[position as int] is Exit);
        }
    } else {
        assert(cut[cut_position as int] == full[position as int]);
        match full[position as int] {
            ChangeView::Replace { index: Some(index), value } => {
                lemma_cut_sequence(
                    full,
                    length,
                    cut_position + 1,
                    position + 1,
                    values.update(index as int, value),
                );
            },
            ChangeView::Remove { index, length: count } => {
                lemma_cut_sequence(
                    full,
                    length,
                    cut_position + 1,
                    position + 1,
                    without_range(values, index, count),
                );
            },
            ChangeView::Truncate { length: count } => {
                lemma_cut_sequence(
                    full,
                    length,
                    cut_position + 1,
                    position + 1,
                    values.subrange(0, count as int),
                );
            },
            ChangeView::Insert { index, value } => {
                lemma_cut_sequence(
                    full,
                    length,
                    cut_position + 1,
                    position + 1,
                    values.insert(index as int, value),
                );
            },
            ChangeView::EnterSequence { index: Some(index), key: false } => {
                if index < values.len() {
                    if let ValueView::Sequence(inner) = values[index as int] {
                        lemma_cut_sequence(full, length, cut_position + 1, position + 1, inner);
                        lemma_apply_sequence_moves_on(cut, cut_position + 1, inner);
                        lemma_apply_sequence_moves_on(full, position + 1, inner);
                        if let Ok((entered, cut_next)) = apply_sequence(cut, cut_position + 1, inner) {
                            let next = apply_sequence(full, position + 1, inner)->Ok_0.1;
                            lemma_cut_sequence(
                                full,
                                length,
                                cut_next,
                                next,
                                values.update(index as int, ValueView::Sequence(entered)),
                            );
                        }
                    }
                }
            },
            ChangeView::EnterMap { index: Some(index), key: false } => {
                if index < values.len() {
                    if let ValueView::Mappings(inner) = values[index as int] {
                        lemma_cut_mappings(full, length, cut_position + 1, position + 1, inner);
                        lemma_apply_mappings_moves_on(cut, cut_position + 1, inner);
                        lemma_apply_mappings_moves_on(full, position + 1, inner);
                        if let Ok((entered, cut_next)) = apply_mappings(cut, cut_position + 1, inner) {
                            let next = apply_mappings(full, position + 1, inner)->Ok_0.1;
                            lemma_cut_sequence(
                                full,
                                length,
                                cut_next,
                                next,
                                values.update(index as int, ValueView::Mappings(entered)),
                            );
                        }
                    }
                }
            },
            _ => {},
        }
    }
}

/// Inside a mappings container, a script does what it does without the
/// `Exit` changes at its end.
pub proof fn lemma_cut_mappings(
    full: Seq<ChangeView>,
    length: nat,
    cut_position: nat,
    position: nat,
    entries: Seq<(ValueView, ValueView)>,
)
    requires
        exits_from(full, length),
        cut_position <= length,
        position <= full.len(),
        cut_position == position || (cut_position >= length && position >= length),
    ensures
        same_outcome(
            apply_mappings(full.subrange(0, length as int), cut_position, entries),
            apply_mappings(full, position, entries),
            length,
        ),
    decreases length - cut_position,
{
    let cut = full.subrange(0, length as int);
    if cut_position >= length {
        if position < full.len() {
            assert(full[position as int] is Exit);
        }
    } else {
        assert(cut[cut_position as int] == full[position as int]);
        match full[position as int] {
            ChangeView::ReplaceMapping { index, key, value } => {
                lemma_cut_mappings(
                    full,
                    length,
                    cut_position + 1,
                    position + 1,
                    entries.update(index as int, (key, value)),
                );
            },
            ChangeView::Replace { index: Some(index), value } => {
                lemma_cut_mappings(
                    full,
                    length,
                    cut_position + 1,
                    position + 1,
                    entries.update(index as int, (entries[index as int].0, value)),
                );
            },
            ChangeView::ReplaceKey { index, key } => {
                lemma_cut_mappings(
                    full,
                    length,
                    cut_position + 1,
                    position + 1,
                    entries.update(index as int, (key, entries[index as int].1)),
                );
            },
            ChangeView::Remove { index, length: count } => {
                lemma_cut_mappings(
                    full,
                    length,
                    cut_position + 1,
                    position + 1,
                    without_range(entries, index, count),
                );
            },
            ChangeView::Truncate { length: count } => {
                lemma_cut_mappings(
                    full,
                    length,
                    cut_position + 1,
                    position + 1,
                    entries.subrange(0, count as int),
                );
            },
            ChangeView::InsertMapping { index, key, value } => {
                lemma_cut_mappings(
                    full,
                    length,
                    cut_position + 1,
                    position + 1,
                    entries.insert(index as int, (key, value)),
                );
            },
            ChangeView::EnterSequence { index: Some(index), key } => {
                if index < entries.len() {
                    if let ValueView::Sequence(inner) = half(entries[index as int], key) {
                        lemma_cut_sequence(full, length, cut_position + 1, position + 1, inner);
                        lemma_apply_sequence_moves_on(cut, cut_position + 1, inner);
                        lemma_apply_sequence_moves_on(full, position + 1, inner);
                        if let Ok((entered, cut_next)) = apply_sequence(cut, cut_position + 1, inner) {
                            let next = apply_sequence(full, position + 1, inner)->Ok_0.1;
                            lemma_cut_mappings(
                                full,
                                length,
                                cut_next,
                                next,
                                entries.update(
                                    index as int,
                                    with_half(entries[index as int], key, ValueView::Sequence(entered)),
                                ),
                            );
                        }
                    }
                }
            },
            ChangeView::EnterMap { index: Some(index), key } => {
                if index < entries.len() {
                    if let ValueView::Mappings(inner) = half(entries[index as int], key) {
                        lemma_cut_mappings(full, length, cut_position + 1, position + 1, inner);
                        lemma_apply_mappings_moves_on(cut, cut_position + 1, inner);
                        lemma_apply_mappings_moves_on(full, position + 1, inner);
                        if let Ok((entered, cut_next)) = apply_mappings(cut, cut_position + 1, inner) {
                            let next = apply_mappings(full, position + 1, inner)->Ok_0.1;
                            lemma_cut_mappings(
                                full,
                                length,
                                cut_next,
                                next,
                                entries.update(
                                    index as int,
                                    with_half(entries[index as int], key, ValueView::Mappings(entered)),
                                ),
                            );
                        }
                    }
                }
            },
            _ => {},
        }
    }
}

/// Applying the script that was computed between two trees to the first
/// gives the second: for all `original` and `updated`,
/// `apply(between(original, updated), original)` is `updated`.
pub proof fn lemma_apply_between(original: ValueView, updated: ValueView)
    ensures
        apply(between(original, updated).script, original) == Ok::<_, Mismatch>(updated),
{
    let nested = node_diff(None, false, original, updated);
    let full = nested.script;
    let cut = strip_exits(full);
    let leave = single(0, ChangeView::Exit);
    lemma_strip_exits(full);
    if estimated_bytes(updated) >= usize::MAX || nested.cost > estimated_bytes(updated) {
        assert(replace_root(updated).script[0] == ChangeView::Replace {
            index: None,
            value: updated,
        });
    } else if original != updated {
        match updated {
            ValueView::Sequence(updated_values) => match original {
                ValueView::Sequence(original_values) => {
                    let enter = single(
                        usize_bytes(0),
                        ChangeView::EnterSequence { index: None, key: false },
                    );
                    let inner = sequence_diff(original_values, 0, updated_values, 0);
                    assert(full =~= enter.script + (inner.script + leave.script));
                    assert(full[0] == enter.script[0]);
                    assert(holds_at(full, 0, full));
                    lemma_holds_split(full, 0, enter.script, inner.script + leave.script);
                    lemma_holds_split(full, 1, inner.script, leave.script);
                    lemma_sequence_script(full, 1, original_values, 0, updated_values, 0);
                    assert(merged(updated_values, 0, original_values, 0) =~= original_values);
                    assert(full[(1 + inner.script.len()) as int] == leave.script[0]);
                    assert(cut.len() > 0) by {
                        if cut.len() == 0 {
                            assert(full[0] is Exit);
                        }
                    }
                    assert(cut[0] == full[0]);
                    lemma_cut_sequence(full, cut.len(), 1, 1, original_values);
                },
                _ => {},
            },
            ValueView::Mappings(updated_entries) => match original {
                ValueView::Mappings(original_entries) => {
                    let enter = single(0, ChangeView::EnterMap { index: None, key: false });
                    let inner = mappings_diff(original_entries, 0, updated_entries, 0);
                    assert(full =~= enter.script + (inner.script + leave.script));
                    assert(full[0] == enter.script[0]);
                    assert(holds_at(full, 0, full));
                    lemma_holds_split(full, 0, enter.script, inner.script + leave.script);
                    lemma_holds_split(full, 1, inner.script, leave.script);
                    lemma_mappings_script(full, 1, original_entries, 0, updated_entries, 0);
                    assert(merged(updated_entries, 0, original_entries, 0) =~= original_entries);
                    assert(full[(1 + inner.script.len()) as int] == leave.script[0]);
                    assert(cut.len() > 0) by {
                        if cut.len() == 0 {
                            assert(full[0] is Exit);
                        }
                    }
                    assert(cut[0] == full[0]);
                    lemma_cut_mappings(full, cut.len(), 1, 1, original_entries);
                },
                _ => {},
            },
            _ => {},
        }
    }
}

/// A script between two trees never ends in `Exit`.
pub proof fn lemma_between_ends_open(original: ValueView, updated: ValueView)
    ensures
        between(original, updated).script.len() > 0 ==> !(between(
            original,
            updated,
        ).script.last() is Exit),
{
    lemma_strip_exits(node_diff(None, false, original, updated).script);
}

/// A script between two trees costs no more than one byte above what the
/// updated tree is estimated to take.
pub proof fn lemma_between_cost(original: ValueView, updated: ValueView)
    ensures
        between(original, updated).cost <= estimated_bytes(updated) + 1,
{
}

/// Between a tree and itself nothing changes: the script brings the tree
/// back, and is empty unless the tree is too large to estimate.
pub proof fn lemma_between_same(tree: ValueView)
    ensures
        apply(between(tree, tree).script, tree) == Ok::<_, Mismatch>(tree),
        estimated_bytes(tree) < usize::MAX ==> between(tree, tree).script.len() == 0,
{
    lemma_apply_between(tree, tree);
}

} // verus!
