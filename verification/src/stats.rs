//! The record of a compaction.

use std::time::Duration;

use vstd::prelude::*;

use crate::compaction::CompactionKind;

verus! {

/// What one compaction took in, what it left, and how long it took.
#[derive(Clone, Copy, Debug, PartialEq, Eq)]
pub struct CompactionStats {
    pub id: u64,
    pub kind: CompactionKind,
    pub input_tables: usize,
    pub output_tables: usize,
    pub input_entries: usize,
    pub output_entries: usize,
    pub elapsed: Duration,
}

impl CompactionStats {
    /// The number of entries that the compaction removed, 0 where it removed none.
    pub fn removed_entries(&self) -> (removed: usize)
        ensures
            removed == if self.input_entries >= self.output_entries {
                self.input_entries - self.output_entries
            } else {
                0
            },
    {
        self.input_entries.saturating_sub(self.output_entries)
    }
}

} // verus!
