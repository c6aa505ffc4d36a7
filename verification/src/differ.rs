//! Computing the script that turns one value tree into another.
//!
//! The script is described by the spec functions of this module: [`node_diff`]
//! for a pair of nodes, [`sequence_diff`] and [`mappings_diff`] for the
//! children of two containers, [`between`] for two whole trees. Each gives
//! the changes together with their estimated cost; wherever a nested script
//! would cost more than the value it produces, the value is replaced whole.

use vstd::prelude::*;

use crate::change::{change_views, Change, ChangeView, Diff};
use crate::estimate::{
    estimate_usize_bytes, estimated_bytes, estimated_entry_views, estimated_views,
    lemma_estimated_mappings, lemma_estimated_sequence, usize_bytes, Estimated, EstimatedValue,
};
use crate::value::{entry_views, lemma_view_mappings, lemma_view_sequence, views, Value, ValueView};

verus! {

/// A script with its estimated cost: one byte per change plus what each
/// change is estimated to carry.
pub struct Outcome {
    pub cost: nat,
    pub script: Seq<ChangeView>,
}

/// The outcome that changes nothing.
pub open spec fn nothing() -> Outcome {
    Outcome { cost: 0, script: Seq::empty() }
}

/// The outcome of one change that carries `estimated` bytes.
pub open spec fn single(estimated: nat, change: ChangeView) -> Outcome {
    Outcome { cost: 1 + estimated, script: seq![change] }
}

/// One outcome followed by another.
pub open spec fn chain(first: Outcome, second: Outcome) -> Outcome {
    Outcome { cost: first.cost + second.cost, script: first.script + second.script }
}

/// The first index at or after `start` whose value is `target`; the length
/// of `values` if there is none.
pub open spec fn first_match(values: Seq<ValueView>, start: nat, target: ValueView) -> nat
    decreases values.len() - start,
{
    if start >= values.len() {
        values.len()
    } else if values[start as int] == target {
        start
    } else {
        first_match(values, start + 1, target)
    }
}

/// The first index at or after `start` whose entry has the key `target`;
/// the length of `entries` if there is none.
pub open spec fn first_key_match(
    entries: Seq<(ValueView, ValueView)>,
    start: nat,
    target: ValueView,
) -> nat
    decreases entries.len() - start,
{
    if start >= entries.len() {
        entries.len()
    } else if entries[start as int].0 == target {
        start
    } else {
        first_key_match(entries, start + 1, target)
    }
}

/// Insertions of `values[from..to]`, each at its own position.
pub open spec fn insert_run(values: Seq<ValueView>, from: nat, to: nat) -> Outcome
    decreases to - from,
{
    if from >= to {
        nothing()
    } else {
        chain(
            single(
                estimated_bytes(values[from as int]) + usize_bytes(from),
                ChangeView::Insert { index: from, value: values[from as int] },
            ),
            insert_run(values, from + 1, to),
        )
    }
}

/// Insertions of `entries[from..to]`, each at its own position.
pub open spec fn insert_mapping_run(entries: Seq<(ValueView, ValueView)>, from: nat, to: nat) -> Outcome
    decreases to - from,
{
    if from >= to {
        nothing()
    } else {
        chain(
            single(
                estimated_bytes(entries[from as int].0) + estimated_bytes(entries[from as int].1)
                    + usize_bytes(from),
                ChangeView::InsertMapping {
                    index: from,
                    key: entries[from as int].0,
                    value: entries[from as int].1,
                },
            ),
            insert_mapping_run(entries, from + 1, to),
        )
    }
}

/// What a nested script is traded for when it costs more than the value it
/// produces: `replacement`. Otherwise the nested script itself.
pub open spec fn cheaper(nested: Outcome, value: ValueView, replacement: Outcome) -> Outcome {
    if nested.cost > estimated_bytes(value) {
        replacement
    } else {
        nested
    }
}

/// The changes that turn `original` into `updated`, where both sit at
/// `index` of the enclosing container (`None` for the root) and `key` tells
/// whether they are the key of a mappings entry.
///
/// Equal nodes need no change. Two containers of the same kind are entered,
/// edited and left. Any other pair cannot be edited in place: it has no
/// script of its own, and its cost, one more than the estimate of `updated`,
/// makes whoever owns the slot replace the value.
pub open spec fn node_diff(
    index: Option<nat>,
    key: bool,
    original: ValueView,
    updated: ValueView,
) -> Outcome
    decreases updated, 0nat,
{
    if original == updated {
        nothing()
    } else {
        match updated {
            ValueView::Sequence(updated_values) => match original {
                ValueView::Sequence(original_values) => chain(
                    single(
                        usize_bytes(index.unwrap_or(0)),
                        ChangeView::EnterSequence { index, key },
                    ),
                    chain(
                        sequence_diff(original_values, 0, updated_values, 0),
                        single(0, ChangeView::Exit),
                    ),
                ),
                _ => Outcome { cost: 1 + estimated_bytes(updated), script: Seq::empty() },
            },
            ValueView::Mappings(updated_entries) => match original {
                ValueView::Mappings(original_entries) => chain(
                    single(index.unwrap_or(0), ChangeView::EnterMap { index, key }),
                    chain(
                        mappings_diff(original_entries, 0, updated_entries, 0),
                        single(0, ChangeView::Exit),
                    ),
                ),
                _ => Outcome { cost: 1 + estimated_bytes(updated), script: Seq::empty() },
            },
            _ => Outcome { cost: 1 + estimated_bytes(updated), script: Seq::empty() },
        }
    }
}

/// The changes that finish turning a sequence into `updated`, once its first
/// `at` elements are in place and are followed by `original[from..]`.
pub open spec fn sequence_diff(
    original: Seq<ValueView>,
    from: nat,
    updated: Seq<ValueView>,
    at: nat,
) -> Outcome
    decreases updated, updated.len() - at,
{
    if at >= updated.len() {
        if from < original.len() {
            single(usize_bytes(at), ChangeView::Truncate { length: at })
        } else {
            nothing()
        }
    } else if from >= original.len() {
        chain(
            single(
                estimated_bytes(updated[at as int]) + usize_bytes(at),
                ChangeView::Insert { index: at, value: updated[at as int] },
            ),
            sequence_diff(original, from, updated, at + 1),
        )
    } else {
        let kept = first_match(original, from, updated[at as int]);
        let awaited = first_match(updated, at + 1, original[from as int]);
        if kept < original.len() {
            // The updated value is further on in the original: drop what
            // stands before it.
            let rest = sequence_diff(original, kept + 1, updated, at + 1);
            if kept > from {
                chain(
                    single(
                        usize_bytes(at) + usize_bytes((kept - from) as nat),
                        ChangeView::Remove { index: at, length: (kept - from) as nat },
                    ),
                    rest,
                )
            } else {
                rest
            }
        } else if at < awaited && awaited < updated.len() {
            // The original value is further on in the updated values:
            // insert what stands before it.
            chain(
                insert_run(updated, at, awaited),
                sequence_diff(original, from + 1, updated, awaited + 1),
            )
        } else {
            chain(
                cheaper(
                    node_diff(Some(at), false, original[from as int], updated[at as int]),
                    updated[at as int],
                    single(
                        estimated_bytes(updated[at as int]) + usize_bytes(at),
                        ChangeView::Replace { index: Some(at), value: updated[at as int] },
                    ),
                ),
                sequence_diff(original, from + 1, updated, at + 1),
            )
        }
    }
}

/// The changes that turn the value of the entry at `index` from `original`
/// into `updated`; none if they are equal.
pub open spec fn entry_value_diff(index: nat, original: ValueView, updated: ValueView) -> Outcome
    decreases updated, 1nat,
{
    if original == updated {
        nothing()
    } else {
        cheaper(
            node_diff(Some(index), false, original, updated),
            updated,
            single(
                estimated_bytes(updated) + usize_bytes(index),
                ChangeView::Replace { index: Some(index), value: updated },
            ),
        )
    }
}

/// The changes that finish turning a mappings container into `updated`,
/// once its first `at` entries are in place and are followed by
/// `original[from..]`. Entries are aligned by their keys.
pub open spec fn mappings_diff(
    original: Seq<(ValueView, ValueView)>,
    from: nat,
    updated: Seq<(ValueView, ValueView)>,
    at: nat,
) -> Outcome
    decreases updated, updated.len() - at,
{
    if at >= updated.len() {
        if from < original.len() {
            single(usize_bytes(at), ChangeView::Truncate { length: at })
        } else {
            nothing()
        }
    } else if from >= original.len() {
        chain(
            single(
                estimated_bytes(updated[at as int].0) + estimated_bytes(updated[at as int].1)
                    + usize_bytes(at),
                ChangeView::InsertMapping {
                    index: at,
                    key: updated[at as int].0,
                    value: updated[at as int].1,
                },
            ),
            mappings_diff(original, from, updated, at + 1),
        )
    } else {
        let kept = first_key_match(original, from, updated[at as int].0);
        let awaited = first_key_match(updated, at + 1, original[from as int].0);
        if kept < original.len() {
            // The updated key is further on in the original: drop what
            // stands before it, then bring its value up to date.
            let rest = chain(
                entry_value_diff(at, original[kept as int].1, updated[at as int].1),
                mappings_diff(original, kept + 1, updated, at + 1),
            );
            if kept > from {
                chain(
                    single(
                        usize_bytes(at) * ((kept - from) as nat),
                        ChangeView::Remove { index: at, length: (kept - from) as nat },
                    ),
                    rest,
                )
            } else {
                rest
            }
        } else if at < awaited && awaited < updated.len() {
            // The original key is further on in the updated entries: insert
            // what stands before it, then bring its value up to date.
            chain(
                insert_mapping_run(updated, at, awaited),
                chain(
                    entry_value_diff(awaited, original[from as int].1, updated[awaited as int].1),
                    mappings_diff(original, from + 1, updated, awaited + 1),
                ),
            )
        } else if original[from as int].1 == updated[at as int].1 {
            // Only the key differs.
            chain(
                cheaper(
                    node_diff(Some(at), true, original[from as int].0, updated[at as int].0),
                    updated[at as int].0,
                    single(
                        estimated_bytes(updated[at as int].0) + usize_bytes(at),
                        ChangeView::ReplaceKey { index: at, key: updated[at as int].0 },
                    ),
                ),
                mappings_diff(original, from + 1, updated, at + 1),
            )
        } else {
            chain(
                single(
                    estimated_bytes(updated[at as int].0) + estimated_bytes(updated[at as int].1)
                        + usize_bytes(at),
                    ChangeView::ReplaceMapping {
                        index: at,
                        key: updated[at as int].0,
                        value: updated[at as int].1,
                    },
                ),
                mappings_diff(original, from + 1, updated, at + 1),
            )
        }
    }
}

/// The script without the `Exit` changes at its end.
pub open spec fn strip_exits(script: Seq<ChangeView>) -> Seq<ChangeView>
    decreases script.len(),
{
    if script.len() > 0 && script.last() is Exit {
        strip_exits(script.drop_last())
    } else {
        script
    }
}

/// The root replaced by `updated`.
pub open spec fn replace_root(updated: ValueView) -> Outcome {
    single(estimated_bytes(updated), ChangeView::Replace { index: None, value: updated })
}

/// The script that turns the tree `original` into the tree `updated`, with
/// its cost.
///
/// It is the script of the two roots, without the `Exit` changes at its
/// end. Where that script costs more than `updated` is estimated to take,
/// or the estimate does not stay below `usize::MAX`, the root is replaced.
pub open spec fn between(original: ValueView, updated: ValueView) -> Outcome {
    let nested = node_diff(None, false, original, updated);
    if estimated_bytes(updated) >= usize::MAX || nested.cost > estimated_bytes(updated) {
        replace_root(updated)
    } else {
        Outcome { cost: nested.cost, script: strip_exits(nested.script) }
    }
}

/// A cost as a counter holds it: costs that do not fit stay at `usize::MAX`.
pub open spec fn clamp(cost: int) -> usize {
    if cost > usize::MAX {
        usize::MAX
    } else if cost < 0 {
        0
    } else {
        cost as usize
    }
}

/// The sum of two estimates, held at `usize::MAX` if it does not fit.
pub fn add_estimates(a: usize, b: usize) -> (sum: usize)
    ensures
        sum == clamp(a + b),
{
    if a > usize::MAX - b {
        usize::MAX
    } else {
        a + b
    }
}

/// The product of two estimates, held at `usize::MAX` if it does not fit.
pub fn multiply_estimates(a: usize, b: usize) -> (product: usize)
    ensures
        product == clamp(a * b),
{
    match a.checked_mul(b) {
        Some(product) => product,
        None => usize::MAX,
    }
}

/// A change that has not been built yet: it borrows the values it would carry.
#[allow(inconsistent_fields)]
pub enum Draft<'a> {
    EnterSequence { index: Option<usize>, key: bool },
    EnterMap { index: Option<usize>, key: bool },
    Exit,
    Replace { index: Option<usize>, value: &'a Estimated },
    ReplaceKey { index: usize, key: &'a Estimated },
    ReplaceMapping { index: usize, key: &'a Estimated, value: &'a Estimated },
    Remove { index: usize, length: usize },
    Truncate { length: usize },
    Insert { index: usize, value: &'a Estimated },
    InsertMapping { index: usize, key: &'a Estimated, value: &'a Estimated },
}

impl<'a> View for Draft<'a> {
    type V = ChangeView;

    open spec fn view(&self) -> ChangeView {
        match *self {
            Draft::EnterSequence { index, key } => ChangeView::EnterSequence {
                index: crate::change::index_view(index),
                key,
            },
            Draft::EnterMap { index, key } => ChangeView::EnterMap {
                index: crate::change::index_view(index),
                key,
            },
            Draft::Exit => ChangeView::Exit,
            Draft::Replace { index, value } => ChangeView::Replace {
                index: crate::change::index_view(index),
                value: value@,
            },
            Draft::ReplaceKey { index, key } => ChangeView::ReplaceKey { index: index as nat, key: key@ },
            Draft::ReplaceMapping { index, key, value } => ChangeView::ReplaceMapping {
                index: index as nat,
                key: key@,
                value: value@,
            },
            Draft::Remove { index, length } => ChangeView::Remove {
                index: index as nat,
                length: length as nat,
            },
            Draft::Truncate { length } => ChangeView::Truncate { length: length as nat },
            Draft::Insert { index, value } => ChangeView::Insert { index: index as nat, value: value@ },
            Draft::InsertMapping { index, key, value } => ChangeView::InsertMapping {
                index: index as nat,
                key: key@,
                value: value@,
            },
        }
    }
}

impl<'a> Draft<'a> {
    /// Builds the change, copying the values it carries.
    pub fn build(&self) -> (change: Change)
        ensures
            change@ == self@,
    {
        match self {
            Draft::EnterSequence { index, key } => Change::EnterSequence { index: *index, key: *key },
            Draft::EnterMap { index, key } => Change::EnterMap { index: *index, key: *key },
            Draft::Exit => Change::Exit,
            Draft::Replace { index, value } => Change::Replace { index: *index, value: value.to_value() },
            Draft::ReplaceKey { index, key } => Change::ReplaceKey { index: *index, key: key.to_value() },
            Draft::ReplaceMapping { index, key, value } => Change::ReplaceMapping {
                index: *index,
                key: key.to_value(),
                value: value.to_value(),
            },
            Draft::Remove { index, length } => Change::Remove { index: *index, length: *length },
            Draft::Truncate { length } => Change::Truncate { length: *length },
            Draft::Insert { index, value } => Change::Insert { index: *index, value: value.to_value() },
            Draft::InsertMapping { index, key, value } => Change::InsertMapping {
                index: *index,
                key: key.to_value(),
                value: value.to_value(),
            },
        }
    }
}

/// Where the differ logs its changes: a sink either collects the changes or
/// only measures what they would cost.
pub trait Differ {
    /// Whether this sink collects the changes it is given.
    spec fn collects(&self) -> bool;

    /// The cost measured so far.
    spec fn cost(&self) -> nat;

    /// The changes collected so far.
    spec fn script(&self) -> Seq<ChangeView>;

    /// Logs one change that is estimated to carry `estimated_bytes`. A sink
    /// that only measures needs no draft.
    fn log_change(&mut self, estimated_bytes: usize, change: Option<Draft<'_>>)
        requires
            old(self).collects() ==> change is Some,
        ensures
            final(self).collects() == old(self).collects(),
            old(self).collects() ==> final(self).script() == old(self).script().push(
                change->Some_0@,
            ) && final(self).cost() == old(self).cost(),
            !old(self).collects() ==> final(self).script() == old(self).script()
                && final(self).cost() == clamp(old(self).cost() + 1 + estimated_bytes),
    ;
}

/// A sink that only adds up what the changes would cost.
pub struct Counter {
    pub estimated_bytes: usize,
}

impl Counter {
    /// A counter at zero.
    pub fn new() -> (counter: Counter)
        ensures
            counter.estimated_bytes == 0,
    {
        Counter { estimated_bytes: 0 }
    }
}

impl Differ for Counter {
    open spec fn collects(&self) -> bool {
        false
    }

    open spec fn cost(&self) -> nat {
        self.estimated_bytes as nat
    }

    open spec fn script(&self) -> Seq<ChangeView> {
        Seq::empty()
    }

    fn log_change(&mut self, estimated_bytes: usize, change: Option<Draft<'_>>) {
        self.estimated_bytes = add_estimates(self.estimated_bytes, add_estimates(1, estimated_bytes));
    }
}

impl Differ for Diff {
    open spec fn collects(&self) -> bool {
        true
    }

    open spec fn cost(&self) -> nat {
        0
    }

    open spec fn script(&self) -> Seq<ChangeView> {
        self@
    }

    fn log_change(&mut self, estimated_bytes: usize, change: Option<Draft<'_>>) {
        if let Some(draft) = change {
            let built = draft.build();
            self.changes.push(built);
            assert(change_views(self.changes@) =~= change_views(old(self).changes@).push(draft@));
        }
    }
}

/// Finds where `target` stands in `values`, at or after `start`.
pub fn find_value(values: &Vec<Value>, start: usize, target: &Estimated) -> (found: usize)
    ensures
        found == first_match(views(values@), start as nat, target@),
{
    let mut i: usize = start;
    while i < values.len()
        invariant
            first_match(views(values@), i as nat, target@) == first_match(
                views(values@),
                start as nat,
                target@,
            ),
        decreases values.len() - i,
    {
        if target.eq_value(&values[i]) {
            return i;
        }
        i += 1;
    }
    values.len()
}

/// Finds where `target` stands in `trees`, at or after `start`.
pub fn find_estimated(trees: &Vec<Estimated>, start: usize, target: &Value) -> (found: usize)
    ensures
        found == first_match(estimated_views(trees@), start as nat, target@),
{
    let mut i: usize = start;
    while i < trees.len()
        invariant
            first_match(estimated_views(trees@), i as nat, target@) == first_match(
                estimated_views(trees@),
                start as nat,
                target@,
            ),
        decreases trees.len() - i,
    {
        if trees[i].eq_value(target) {
            return i;
        }
        i += 1;
    }
    trees.len()
}

/// Finds the entry of `entries` with the key `target`, at or after `start`.
pub fn find_key(entries: &Vec<(Value, Value)>, start: usize, target: &Estimated) -> (found: usize)
    ensures
        found == first_key_match(entry_views(entries@), start as nat, target@),
{
    let mut i: usize = start;
    while i < entries.len()
        invariant
            first_key_match(entry_views(entries@), i as nat, target@) == first_key_match(
                entry_views(entries@),
                start as nat,
                target@,
            ),
        decreases entries.len() - i,
    {
        if target.eq_value(&entries[i].0) {
            return i;
        }
        i += 1;
    }
    entries.len()
}

/// Finds the entry of `trees` with the key `target`, at or after `start`.
pub fn find_estimated_key(trees: &Vec<(Estimated, Estimated)>, start: usize, target: &Value) -> (found:
    usize)
    ensures
        found == first_key_match(estimated_entry_views(trees@), start as nat, target@),
{
    let mut i: usize = start;
    while i < trees.len()
        invariant
            first_key_match(estimated_entry_views(trees@), i as nat, target@) == first_key_match(
                estimated_entry_views(trees@),
                start as nat,
                target@,
            ),
        decreases trees.len() - i,
    {
        if trees[i].0.eq_value(target) {
            return i;
        }
        i += 1;
    }
    trees.len()
}

/// Whether the sink went from `before` to `after` by logging `outcome`.
pub open spec fn logged<D: Differ>(before: D, after: D, outcome: Outcome) -> bool {
    &&& after.collects() == before.collects()
    &&& before.collects() ==> after.script() == before.script() + outcome.script && after.cost()
        == before.cost()
    &&& !before.collects() ==> after.script() == before.script() && clamp(after.cost() as int)
        == clamp((before.cost() + outcome.cost) as int)
}

/// Whether a sink that started at `start` and is to log `total` has come to
/// `now` with `rest` still to log.
pub open spec fn remaining<D: Differ>(start: D, now: D, total: Outcome, rest: Outcome) -> bool {
    &&& now.collects() == start.collects()
    &&& start.collects() ==> now.script() + rest.script == start.script() + total.script
        && now.cost() == start.cost()
    &&& !start.collects() ==> now.script() == start.script() && clamp(
        (now.cost() + rest.cost) as int,
    ) == clamp((start.cost() + total.cost) as int)
}

/// Logging the first part of what remains leaves the second part.
pub proof fn lemma_remaining_step<D: Differ>(
    start: D,
    now: D,
    next: D,
    total: Outcome,
    step: Outcome,
    rest: Outcome,
)
    requires
        remaining(start, now, total, chain(step, rest)),
        logged(now, next, step),
    ensures
        remaining(start, next, total, rest),
{
    if start.collects() {
        assert(next.script() + rest.script =~= now.script() + (step.script + rest.script));
    }
}

/// Nothing has been logged at the start.
pub proof fn lemma_remaining_start<D: Differ>(start: D, total: Outcome)
    ensures
        remaining(start, start, total, total),
{
}

/// When nothing remains, the total has been logged.
pub proof fn lemma_remaining_done<D: Differ>(start: D, now: D, total: Outcome)
    requires
        remaining(start, now, total, nothing()),
    ensures
        logged(start, now, total),
{
    if start.collects() {
        assert(now.script() + nothing().script =~= now.script());
    }
}

/// A match is found at or after the start, and holds the target.
pub proof fn lemma_first_match(values: Seq<ValueView>, start: nat, target: ValueView)
    requires
        start <= values.len(),
    ensures
        start <= first_match(values, start, target) <= values.len(),
        first_match(values, start, target) < values.len() ==> values[first_match(
            values,
            start,
            target,
        ) as int] == target,
    decreases values.len() - start,
{
    if start < values.len() && values[start as int] != target {
        lemma_first_match(values, start + 1, target);
    }
}

/// A match is found at or after the start, and holds the key.
pub proof fn lemma_first_key_match(
    entries: Seq<(ValueView, ValueView)>,
    start: nat,
    target: ValueView,
)
    requires
        start <= entries.len(),
    ensures
        start <= first_key_match(entries, start, target) <= entries.len(),
        first_key_match(entries, start, target) < entries.len() ==> entries[first_key_match(
            entries,
            start,
            target,
        ) as int].0 == target,
    decreases entries.len() - start,
{
    if start < entries.len() && entries[start as int].0 != target {
        lemma_first_key_match(entries, start + 1, target);
    }
}

/// Logs the changes that turn `original` into `updated`: see [`node_diff`].
///
/// A sink that collects may only be handed a pair whose script costs no more
/// than `updated` is estimated to take.
pub fn create_diff<D: Differ>(
    diff_index: Option<usize>,
    original: &Value,
    updated: &Estimated,
    is_key: bool,
    diff: &mut D,
)
    requires
        updated.wf(),
        old(diff).collects() ==> node_diff(
            crate::change::index_view(diff_index),
            is_key,
            original@,
            updated@,
        ).cost <= estimated_bytes(updated@),
    ensures
        logged(
            *old(diff),
            *final(diff),
            node_diff(crate::change::index_view(diff_index), is_key, original@, updated@),
        ),
    decreases updated, 0nat,
{
    let ghost start = *diff;
    let ghost index = crate::change::index_view(diff_index);
    if updated.eq_value(original) {
        assert(diff.script() + nothing().script =~= diff.script());
        return ;
    }
    match &updated.value {
        EstimatedValue::Sequence(updated_values) => {
            if let Value::Sequence(original_values) = original {
                proof {
                    lemma_estimated_sequence(*updated);
                    lemma_view_sequence(*original_values);
                }
                let ghost inner = sequence_diff(
                    views(original_values@),
                    0,
                    estimated_views(updated_values@),
                    0,
                );
                let ghost enter = single(
                    usize_bytes(index.unwrap_or(0)),
                    ChangeView::EnterSequence { index, key: is_key },
                );
                let ghost leave = single(0, ChangeView::Exit);
                let ghost total = chain(enter, chain(inner, leave));
                proof {
                    lemma_remaining_start(start, total);
                }
                let index_bytes = match diff_index {
                    Some(index) => estimate_usize_bytes(index),
                    None => estimate_usize_bytes(0),
                };
                let ghost before = *diff;
                diff.log_change(
                    index_bytes,
                    Some(Draft::EnterSequence { index: diff_index, key: is_key }),
                );
                proof {
                    assert(before.script().push(enter.script[0]) =~= before.script() + enter.script);
                    lemma_remaining_step(start, before, *diff, total, enter, chain(inner, leave));
                }
                let ghost before = *diff;
                create_sequence_diff(original_values, updated_values, diff);
                proof {
                    lemma_remaining_step(start, before, *diff, total, inner, leave);
                }
                let ghost before = *diff;
                diff.log_change(0, Some(Draft::Exit));
                proof {
                    assert(before.script().push(leave.script[0]) =~= before.script() + leave.script);
                    assert(chain(leave, nothing()).script =~= leave.script);
                    lemma_remaining_step(start, before, *diff, total, leave, nothing());
                    lemma_remaining_done(start, *diff, total);
                }
                return ;
            }
        },
        EstimatedValue::Mappings(updated_entries) => {
            if let Value::Mappings(original_entries) = original {
                proof {
                    lemma_estimated_mappings(*updated);
                    lemma_view_mappings(*original_entries);
                }
                let ghost inner = mappings_diff(
                    entry_views(original_entries@),
                    0,
                    estimated_entry_views(updated_entries@),
                    0,
                );
                let ghost enter = single(
                    index.unwrap_or(0),
                    ChangeView::EnterMap { index, key: is_key },
                );
                let ghost leave = single(0, ChangeView::Exit);
                let ghost total = chain(enter, chain(inner, leave));
                proof {
                    lemma_remaining_start(start, total);
                }
                let index_cost = match diff_index {
                    Some(index) => index,
                    None => 0,
                };
                let ghost before = *diff;
                diff.log_change(index_cost, Some(Draft::EnterMap { index: diff_index, key: is_key }));
                proof {
                    assert(before.script().push(enter.script[0]) =~= before.script() + enter.script);
                    lemma_remaining_step(start, before, *diff, total, enter, chain(inner, leave));
                }
                let ghost before = *diff;
                create_map_diff(original_entries, updated_entries, diff);
                proof {
                    lemma_remaining_step(start, before, *diff, total, inner, leave);
                }
                let ghost before = *diff;
                diff.log_change(0, Some(Draft::Exit));
                proof {
                    assert(before.script().push(leave.script[0]) =~= before.script() + leave.script);
                    assert(chain(leave, nothing()).script =~= leave.script);
                    lemma_remaining_step(start, before, *diff, total, leave, nothing());
                    lemma_remaining_done(start, *diff, total);
                }
                return ;
            }
        },
        _ => {},
    }
    // The pair cannot be edited in place. Only a sink that measures comes
    // here: it is charged more than the value is worth, so that the owner of
    // the slot replaces the value.
    proof {
        if updated.value is Sequence {
            lemma_estimated_sequence(*updated);
        }
        if updated.value is Mappings {
            lemma_estimated_mappings(*updated);
        }
    }
    diff.log_change(updated.estimated_bytes, None);
}

/// Logs the changes that turn the sequence `original_values` into
/// `updated_values`: see [`sequence_diff`].
pub fn create_sequence_diff<D: Differ>(
    original_values: &Vec<Value>,
    updated_values: &Vec<Estimated>,
    diff: &mut D,
)
    requires
        forall|i: int| 0 <= i < updated_values@.len() ==> (#[trigger] updated_values@[i]).wf(),
    ensures
        logged(
            *old(diff),
            *final(diff),
            sequence_diff(views(original_values@), 0, estimated_views(updated_values@), 0),
        ),
    decreases updated_values, updated_values.len(),
{
    let ghost start = *diff;
    let ghost os = views(original_values@);
    let ghost us = estimated_views(updated_values@);
    let ghost total = sequence_diff(os, 0, us, 0);
    let mut original_index: usize = 0;
    let mut insert_index: usize = 0;
    proof {
        lemma_remaining_start(start, total);
    }
    while insert_index < updated_values.len()
        invariant
            original_index <= original_values.len(),
            insert_index <= updated_values.len(),
            os == views(original_values@),
            us == estimated_views(updated_values@),
            total == sequence_diff(os, 0, us, 0),
            forall|i: int| 0 <= i < updated_values@.len() ==> (#[trigger] updated_values@[i]).wf(),
            remaining(
                start,
                *diff,
                total,
                sequence_diff(os, original_index as nat, us, insert_index as nat),
            ),
        decreases updated_values.len() - insert_index,
    {
        let updated = &updated_values[insert_index];
        let ghost at = insert_index as nat;
        let ghost from = original_index as nat;
        let ghost before = *diff;
        assert(updated.wf());
        if original_index < original_values.len() {
            let original = &original_values[original_index];
            let kept = find_value(original_values, original_index, updated);
            proof {
                lemma_first_match(os, from, us[at as int]);
                lemma_first_match(us, at + 1, os[from as int]);
            }
            if kept < original_values.len() {
                let ghost rest = sequence_diff(os, (kept + 1) as nat, us, at + 1);
                if kept > original_index {
                    let length = kept - original_index;
                    let ghost step = single(
                        usize_bytes(at) + usize_bytes(length as nat),
                        ChangeView::Remove { index: at, length: length as nat },
                    );
                    diff.log_change(
                        add_estimates(
                            estimate_usize_bytes(insert_index),
                            estimate_usize_bytes(length),
                        ),
                        Some(Draft::Remove { index: insert_index, length }),
                    );
                    proof {
                        assert(before.script().push(step.script[0]) =~= before.script()
                            + step.script);
                        lemma_remaining_step(start, before, *diff, total, step, rest);
                    }
                }
                original_index = kept + 1;
                insert_index += 1;
            } else {
                let awaited = find_estimated(updated_values, insert_index + 1, original);
                if awaited < updated_values.len() {
                    let ghost rest = sequence_diff(os, from + 1, us, (awaited + 1) as nat);
                    while insert_index < awaited
                        invariant
                            insert_index <= awaited < updated_values.len(),
                            us == estimated_views(updated_values@),
                            forall|i: int|
                                0 <= i < updated_values@.len() ==> (
                                #[trigger] updated_values@[i]).wf(),
                            remaining(
                                start,
                                *diff,
                                total,
                                chain(insert_run(us, insert_index as nat, awaited as nat), rest),
                            ),
                        decreases awaited - insert_index,
                    {
                        let inserted = &updated_values[insert_index];
                        let ghost before = *diff;
                        let ghost step = single(
                            estimated_bytes(us[insert_index as int]) + usize_bytes(
                                insert_index as nat,
                            ),
                            ChangeView::Insert {
                                index: insert_index as nat,
                                value: us[insert_index as int],
                            },
                        );
                        let ghost run = insert_run(us, (insert_index + 1) as nat, awaited as nat);
                        assert(inserted.wf());
                        diff.log_change(
                            add_estimates(
                                inserted.estimated_bytes,
                                estimate_usize_bytes(insert_index),
                            ),
                            Some(Draft::Insert { index: insert_index, value: inserted }),
                        );
                        proof {
                            assert(before.script().push(step.script[0]) =~= before.script()
                                + step.script);
                            assert(chain(chain(step, run), rest).script =~= chain(
                                step,
                                chain(run, rest),
                            ).script);
                            lemma_remaining_step(
                                start,
                                before,
                                *diff,
                                total,
                                step,
                                chain(run, rest),
                            );
                        }
                        insert_index += 1;
                    }
                    proof {
                        assert(chain(nothing(), rest).script =~= rest.script);
                    }
                    original_index += 1;
                    insert_index += 1;
                } else {
                    let ghost rest = sequence_diff(os, from + 1, us, at + 1);
                    let ghost nested = node_diff(Some(at), false, os[from as int], us[at as int]);
                    let ghost replacement = single(
                        estimated_bytes(us[at as int]) + usize_bytes(at),
                        ChangeView::Replace { index: Some(at), value: us[at as int] },
                    );
                    let mut stats = Counter::new();
                    create_diff(Some(insert_index), original, updated, false, &mut stats);
                    if stats.estimated_bytes > updated.estimated_bytes {
                        diff.log_change(
                            add_estimates(
                                updated.estimated_bytes,
                                estimate_usize_bytes(insert_index),
                            ),
                            Some(Draft::Replace { index: Some(insert_index), value: updated }),
                        );
                        proof {
                            assert(before.script().push(replacement.script[0]) =~= before.script()
                                + replacement.script);
                            lemma_remaining_step(start, before, *diff, total, replacement, rest);
                        }
                    } else {
                        create_diff(Some(insert_index), original, updated, false, diff);
                        proof {
                            lemma_remaining_step(start, before, *diff, total, nested, rest);
                        }
                    }
                    original_index += 1;
                    insert_index += 1;
                }
            }
        } else {
            let ghost rest = sequence_diff(os, from, us, at + 1);
            let ghost step = single(
                estimated_bytes(us[at as int]) + usize_bytes(at),
                ChangeView::Insert { index: at, value: us[at as int] },
            );
            diff.log_change(
                add_estimates(updated.estimated_bytes, estimate_usize_bytes(insert_index)),
                Some(Draft::Insert { index: insert_index, value: updated }),
            );
            proof {
                assert(before.script().push(step.script[0]) =~= before.script() + step.script);
                lemma_remaining_step(start, before, *diff, total, step, rest);
            }
            insert_index += 1;
        }
    }
    if original_index < original_values.len() {
        let ghost before = *diff;
        let ghost step = single(
            usize_bytes(insert_index as nat),
            ChangeView::Truncate { length: insert_index as nat },
        );
        diff.log_change(
            estimate_usize_bytes(insert_index),
            Some(Draft::Truncate { length: insert_index }),
        );
        proof {
            assert(before.script().push(step.script[0]) =~= before.script() + step.script);
            assert(chain(step, nothing()).script =~= step.script);
            lemma_remaining_step(start, before, *diff, total, step, nothing());
        }
    }
    proof {
        lemma_remaining_done(start, *diff, total);
    }
}

/// Logs the changes that bring the value of the entry at `index` from
/// `original` to `updated`: see [`entry_value_diff`].
pub fn create_entry_value_diff<D: Differ>(
    index: usize,
    original: &Value,
    updated: &Estimated,
    diff: &mut D,
)
    requires
        updated.wf(),
    ensures
        logged(*old(diff), *final(diff), entry_value_diff(index as nat, original@, updated@)),
    decreases updated, 1nat,
{
    let ghost before = *diff;
    if updated.eq_value(original) {
        assert(diff.script() + nothing().script =~= diff.script());
        return ;
    }
    let ghost replacement = single(
        estimated_bytes(updated@) + usize_bytes(index as nat),
        ChangeView::Replace { index: Some(index as nat), value: updated@ },
    );
    let mut stats = Counter::new();
    create_diff(Some(index), original, updated, false, &mut stats);
    if stats.estimated_bytes > updated.estimated_bytes {
        diff.log_change(
            add_estimates(updated.estimated_bytes, estimate_usize_bytes(index)),
            Some(Draft::Replace { index: Some(index), value: updated }),
        );
        proof {
            assert(before.script().push(replacement.script[0]) =~= before.script()
                + replacement.script);
        }
    } else {
        create_diff(Some(index), original, updated, false, diff);
    }
}

/// Logs the changes that turn the entries `original_values` into
/// `updated_values`: see [`mappings_diff`].
pub fn create_map_diff<D: Differ>(
    original_values: &Vec<(Value, Value)>,
    updated_values: &Vec<(Estimated, Estimated)>,
    diff: &mut D,
)
    requires
        forall|i: int|
            0 <= i < updated_values@.len() ==> (#[trigger] updated_values@[i]).0.wf()
                && updated_values@[i].1.wf(),
    ensures
        logged(
            *old(diff),
            *final(diff),
            mappings_diff(entry_views(original_values@), 0, estimated_entry_views(updated_values@), 0),
        ),
    decreases updated_values, updated_values.len(),
{
    let ghost start = *diff;
    let ghost os = entry_views(original_values@);
    let ghost us = estimated_entry_views(updated_values@);
    let ghost total = mappings_diff(os, 0, us, 0);
    let mut original_index: usize = 0;
    let mut insert_index: usize = 0;
    proof {
        lemma_remaining_start(start, total);
    }
    while insert_index < updated_values.len()
        invariant
            original_index <= original_values.len(),
            insert_index <= updated_values.len(),
            os == entry_views(original_values@),
            us == estimated_entry_views(updated_values@),
            total == mappings_diff(os, 0, us, 0),
            forall|i: int|
                0 <= i < updated_values@.len() ==> (#[trigger] updated_values@[i]).0.wf()
                    && updated_values@[i].1.wf(),
            remaining(
                start,
                *diff,
                total,
                mappings_diff(os, original_index as nat, us, insert_index as nat),
            ),
        decreases updated_values.len() - insert_index,
    {
        let updated = &updated_values[insert_index];
        let ghost at = insert_index as nat;
        let ghost from = original_index as nat;
        let ghost before = *diff;
        assert(updated.0.wf() && updated.1.wf());
        if original_index < original_values.len() {
            let original = &original_values[original_index];
            let kept = find_key(original_values, original_index, &updated.0);
            proof {
                lemma_first_key_match(os, from, us[at as int].0);
                lemma_first_key_match(us, at + 1, os[from as int].0);
            }
            if kept < original_values.len() {
                let ghost value_step = entry_value_diff(at, os[kept as int].1, us[at as int].1);
                let ghost rest = mappings_diff(os, (kept + 1) as nat, us, at + 1);
                if kept > original_index {
                    let length = kept - original_index;
                    let ghost step = single(
                        usize_bytes(at) * (length as nat),
                        ChangeView::Remove { index: at, length: length as nat },
                    );
                    diff.log_change(
                        multiply_estimates(estimate_usize_bytes(insert_index), length),
                        Some(Draft::Remove { index: insert_index, length }),
                    );
                    proof {
                        assert(before.script().push(step.script[0]) =~= before.script()
                            + step.script);
                        lemma_remaining_step(
                            start,
                            before,
                            *diff,
                            total,
                            step,
                            chain(value_step, rest),
                        );
                    }
                }
                let ghost before = *diff;
                create_entry_value_diff(insert_index, &original_values[kept].1, &updated.1, diff);
                proof {
                    lemma_remaining_step(start, before, *diff, total, value_step, rest);
                }
                original_index = kept + 1;
                insert_index += 1;
            } else {
                let awaited = find_estimated_key(updated_values, insert_index + 1, &original.0);
                if awaited < updated_values.len() {
                    let ghost value_step = entry_value_diff(
                        awaited as nat,
                        os[from as int].1,
                        us[awaited as int].1,
                    );
                    let ghost rest = chain(
                        value_step,
                        mappings_diff(os, from + 1, us, (awaited + 1) as nat),
                    );
                    while insert_index < awaited
                        invariant
                            insert_index <= awaited < updated_values.len(),
                            us == estimated_entry_views(updated_values@),
                            forall|i: int|
                                0 <= i < updated_values@.len() ==> (
                                #[trigger] updated_values@[i]).0.wf() && updated_values@[i].1.wf(),
                            remaining(
                                start,
                                *diff,
                                total,
                                chain(
                                    insert_mapping_run(us, insert_index as nat, awaited as nat),
                                    rest,
                                ),
                            ),
                        decreases awaited - insert_index,
                    {
                        let inserted = &updated_values[insert_index];
                        let ghost before = *diff;
                        let ghost step = single(
                            estimated_bytes(us[insert_index as int].0) + estimated_bytes(
                                us[insert_index as int].1,
                            ) + usize_bytes(insert_index as nat),
                            ChangeView::InsertMapping {
                                index: insert_index as nat,
                                key: us[insert_index as int].0,
                                value: us[insert_index as int].1,
                            },
                        );
                        let ghost run = insert_mapping_run(
                            us,
                            (insert_index + 1) as nat,
                            awaited as nat,
                        );
                        assert(inserted.0.wf() && inserted.1.wf());
                        diff.log_change(
                            add_estimates(
                                add_estimates(inserted.0.estimated_bytes, inserted.1.estimated_bytes),
                                estimate_usize_bytes(insert_index),
                            ),
                            Some(
                                Draft::InsertMapping {
                                    index: insert_index,
                                    key: &inserted.0,
                                    value: &inserted.1,
                                },
                            ),
                        );
                        proof {
                            assert(before.script().push(step.script[0]) =~= before.script()
                                + step.script);
                            assert(chain(chain(step, run), rest).script =~= chain(
                                step,
                                chain(run, rest),
                            ).script);
                            lemma_remaining_step(
                                start,
                                before,
                                *diff,
                                total,
                                step,
                                chain(run, rest),
                            );
                        }
                        insert_index += 1;
                    }
                    proof {
                        assert(chain(nothing(), rest).script =~= rest.script);
                    }
                    let ghost before = *diff;
                    assert(updated_values@[awaited as int].1.wf());
                    create_entry_value_diff(
                        insert_index,
                        &original.1,
                        &updated_values[awaited].1,
                        diff,
                    );
                    proof {
                        lemma_remaining_step(
                            start,
                            before,
                            *diff,
                            total,
                            value_step,
                            mappings_diff(os, from + 1, us, (awaited + 1) as nat),
                        );
                    }
                    original_index += 1;
                    insert_index += 1;
                } else {
                    let ghost rest = mappings_diff(os, from + 1, us, at + 1);
                    if updated.1.eq_value(&original.1) {
                        // Only the key differs.
                        let ghost nested = node_diff(
                            Some(at),
                            true,
                            os[from as int].0,
                            us[at as int].0,
                        );
                        let ghost replacement = single(
                            estimated_bytes(us[at as int].0) + usize_bytes(at),
                            ChangeView::ReplaceKey { index: at, key: us[at as int].0 },
                        );
                        let mut stats = Counter::new();
                        create_diff(Some(insert_index), &original.0, &updated.0, true, &mut stats);
                        if stats.estimated_bytes > updated.0.estimated_bytes {
                            diff.log_change(
                                add_estimates(
                                    updated.0.estimated_bytes,
                                    estimate_usize_bytes(insert_index),
                                ),
                                Some(Draft::ReplaceKey { index: insert_index, key: &updated.0 }),
                            );
                            proof {
                                assert(before.script().push(replacement.script[0])
                                    =~= before.script() + replacement.script);
                                lemma_remaining_step(
                                    start,
                                    before,
                                    *diff,
                                    total,
                                    replacement,
                                    rest,
                                );
                            }
                        } else {
                            create_diff(Some(insert_index), &original.0, &updated.0, true, diff);
                            proof {
                                lemma_remaining_step(start, before, *diff, total, nested, rest);
                            }
                        }
                    } else {
                        let ghost step = single(
                            estimated_bytes(us[at as int].0) + estimated_bytes(us[at as int].1)
                                + usize_bytes(at),
                            ChangeView::ReplaceMapping {
                                index: at,
                                key: us[at as int].0,
                                value: us[at as int].1,
                            },
                        );
                        diff.log_change(
                            add_estimates(
                                add_estimates(updated.0.estimated_bytes, updated.1.estimated_bytes),
                                estimate_usize_bytes(insert_index),
                            ),
                            Some(
                                Draft::ReplaceMapping {
                                    index: insert_index,
                                    key: &updated.0,
                                    value: &updated.1,
                                },
                            ),
                        );
                        proof {
                            assert(before.script().push(step.script[0]) =~= before.script()
                                + step.script);
                            lemma_remaining_step(start, before, *diff, total, step, rest);
                        }
                    }
                    original_index += 1;
                    insert_index += 1;
                }
            }
        } else {
            let ghost rest = mappings_diff(os, from, us, at + 1);
            let ghost step = single(
                estimated_bytes(us[at as int].0) + estimated_bytes(us[at as int].1) + usize_bytes(
                    at,
                ),
                ChangeView::InsertMapping {
                    index: at,
                    key: us[at as int].0,
                    value: us[at as int].1,
                },
            );
            diff.log_change(
                add_estimates(
                    add_estimates(updated.0.estimated_bytes, updated.1.estimated_bytes),
                    estimate_usize_bytes(insert_index),
                ),
                Some(Draft::InsertMapping { index: insert_index, key: &updated.0, value: &updated.1 }),
            );
            proof {
                assert(before.script().push(step.script[0]) =~= before.script() + step.script);
                lemma_remaining_step(start, before, *diff, total, step, rest);
            }
            insert_index += 1;
        }
    }
    if original_index < original_values.len() {
        let ghost before = *diff;
        let ghost step = single(
            usize_bytes(insert_index as nat),
            ChangeView::Truncate { length: insert_index as nat },
        );
        diff.log_change(
            estimate_usize_bytes(insert_index),
            Some(Draft::Truncate { length: insert_index }),
        );
        proof {
            assert(before.script().push(step.script[0]) =~= before.script() + step.script);
            assert(chain(step, nothing()).script =~= step.script);
            lemma_remaining_step(start, before, *diff, total, step, nothing());
        }
    }
    proof {
        lemma_remaining_done(start, *diff, total);
    }
}

/// A stripped script does not end in `Exit`, and is a prefix of the script
/// it was made from, which holds nothing but `Exit` after it.
pub proof fn lemma_strip_exits(script: Seq<ChangeView>)
    ensures
        strip_exits(script).len() > 0 ==> !(strip_exits(script).last() is Exit),
        strip_exits(script).len() <= script.len(),
        strip_exits(script) == script.subrange(0, strip_exits(script).len() as int),
        forall|i: int| strip_exits(script).len() <= i < script.len() ==> script[i] is Exit,
    decreases script.len(),
{
    if script.len() > 0 && script.last() is Exit {
        lemma_strip_exits(script.drop_last());
        let stripped = strip_exits(script);
        assert(stripped =~= script.subrange(0, stripped.len() as int));
    } else {
        assert(script =~= script.subrange(0, script.len() as int));
    }
}

impl Diff {
    /// Computes the script that turns `original` into `updated`: see
    /// [`between`]. The script never ends in `Exit`.
    pub fn between_values(original: &Value, updated: Value) -> (diff: Diff)
        ensures
            diff@ == between(original@, updated@).script,
            diff@.len() > 0 ==> !(diff@.last() is Exit),
    {
        let mut diff = Diff { changes: Vec::new() };
        proof {
            lemma_strip_exits(node_diff(None, false, original@, updated@).script);
        }
        let estimated = match Estimated::from_value(&updated) {
            Some(estimated) => estimated,
            None => {
                diff.changes.push(Change::Replace { index: None, value: updated });
                assert(diff@ =~= replace_root(updated@).script);
                return diff;
            },
        };
        // Measure the script first: if it costs more than the value, the
        // value is sent instead.
        let mut stats = Counter::new();
        create_diff(None, original, &estimated, false, &mut stats);
        if stats.estimated_bytes > estimated.estimated_bytes {
            diff.changes.push(Change::Replace { index: None, value: updated });
            assert(diff@ =~= replace_root(updated@).script);
            return diff;
        }
        assert(diff@ =~= Seq::<ChangeView>::empty());
        create_diff(None, original, &estimated, false, &mut diff);
        let ghost whole = diff@;
        assert(whole =~= node_diff(None, false, original@, updated@).script);
        // Exits at the end say nothing: the end of the script closes every
        // container.
        while diff.changes.len() > 0 && matches!(diff.changes[diff.changes.len() - 1], Change::Exit)
            invariant
                strip_exits(diff@) == strip_exits(whole),
            decreases diff.changes.len(),
        {
            let ghost before = diff@;
            diff.changes.pop();
            assert(diff@ =~= before.drop_last());
        }
        diff
    }
}

} // verus!
