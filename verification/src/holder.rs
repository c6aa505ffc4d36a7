//! Remembering the last snapshot of a value, to diff against it on demand.

use vstd::prelude::*;

use crate::change::Diff;
use crate::differ::between;
use crate::value::Value;

verus! {

/// The last snapshot of a value that changes over time, and whether the
/// value may have changed since it was taken.
#[derive(Debug)]
pub struct Diffable {
    pub dirty: bool,
    pub latest: Value,
}

impl Diffable {
    /// Starts from `latest`, with nothing changed.
    pub fn new(latest: Value) -> (holder: Diffable)
        ensures
            !holder.dirty,
            holder.latest@ == latest@,
    {
        Diffable { dirty: false, latest }
    }

    /// Notes that the value may have changed.
    pub fn mark_dirty(&mut self)
        ensures
            final(self).dirty,
            final(self).latest == old(self).latest,
    {
        self.dirty = true;
    }

    /// Takes `updated` as the new snapshot and returns the script that
    /// leads to it from the last one, if the value was marked as changed and
    /// the script is not empty. A value that was not marked leaves the
    /// holder as it is.
    pub fn diff(&mut self, updated: Value) -> (script: Option<Diff>)
        ensures
            !old(self).dirty ==> script is None && *final(self) == *old(self),
            old(self).dirty ==> !final(self).dirty && final(self).latest@ == updated@ && ({
                let changes = between(old(self).latest@, updated@).script;
                match script {
                    Some(diff) => diff@ == changes && changes.len() > 0,
                    None => changes.len() == 0,
                }
            }),
    {
        if self.dirty {
            self.dirty = false;
            let diff = Diff::between_values(&self.latest, updated.clone());
            self.latest = updated;
            if diff.changes.len() == 0 {
                None
            } else {
                Some(diff)
            }
        } else {
            None
        }
    }
}

} // verus!
