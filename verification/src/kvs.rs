//! The key-value store.

use std::time::Duration;

use vstd::prelude::*;

use crate::clock::{elapsed_since, now};
use crate::columns::EntryColumns;
use crate::commands::Command;
use crate::compaction::{
    all_entries, compact, compaction, law_all_entries, law_compaction_shrinks,
    lemma_all_entries_prefix, lemma_all_entries_push, views, CompactionKind,
};
use crate::entry::{last_of, value_of, Entry};
use crate::laws::{law_compacted_in_full, law_entries};
use crate::run::{law_stepped_settles, map_after};
use crate::state::{
    law_compacted, law_flushed, law_initial, law_installed, law_lookup, law_written,
    lemma_sealed_len, newest_in_tables, KvsState,
};
use crate::stats::CompactionStats;
use crate::table::SsTable;

verus! {

/// A key-value store in memory: a buffer of the latest writes and, behind it, tables of earlier
/// ones. A full buffer becomes a table, and as soon as there are enough tables they are compacted
/// into one.
///
/// A compaction on a GPU needs a device, which the store does not reach. It then waits, with
/// `device_due`, for the compacted table: `device_columns` gives what the device has to compact,
/// `finish_compaction` takes what came of it. Keys can be read meanwhile, but not written.
#[derive(Debug)]
pub struct Kvs {
    buf: Vec<Entry>,
    tables: Vec<SsTable>,
    next_seq: u32,
    buf_capacity: usize,
    compaction_threshold: usize,
    compaction_kind: CompactionKind,
    next_compaction_id: u64,
    compaction_stats: Vec<CompactionStats>,
    device_due: bool,
}

impl View for Kvs {
    type V = KvsState;

    closed spec fn view(&self) -> KvsState {
        KvsState {
            buf: self.buf@,
            tables: views(self.tables@),
            next_seq: self.next_seq,
            buf_capacity: self.buf_capacity,
            compaction_threshold: self.compaction_threshold,
            compaction_kind: self.compaction_kind,
            next_compaction_id: self.next_compaction_id,
            compaction_stats: self.compaction_stats@,
            device_due: self.device_due,
        }
    }
}

impl Clone for Kvs {
    fn clone(&self) -> (kvs: Self)
        ensures
            kvs@ == self@,
    {
        let kvs = Self {
            buf: self.buf.clone(),
            tables: self.tables.clone(),
            next_seq: self.next_seq,
            buf_capacity: self.buf_capacity,
            compaction_threshold: self.compaction_threshold,
            compaction_kind: self.compaction_kind,
            next_compaction_id: self.next_compaction_id,
            compaction_stats: self.compaction_stats.clone(),
            device_due: self.device_due,
        };
        kvs
    }
}

impl Default for Kvs {
    /// A store that buffers 64 entries and compacts 4 tables at a time, on the CPU.
    fn default() -> (kvs: Self)
        ensures
            kvs@ == KvsState::initial(64, 4, CompactionKind::Cpu),
            kvs@.buf_capacity == 64,
            kvs@.compaction_threshold == 4,
            kvs@.compaction_kind == CompactionKind::Cpu,
            kvs@.buf.len() == 0,
            kvs@.tables.len() == 0,
            kvs@.next_seq == 0,
            kvs@.next_compaction_id == 0,
            kvs@.compaction_stats.len() == 0,
            !kvs@.device_due,
            kvs@.wf(),
            kvs@.faithful(),
            kvs@.contents() == Map::<u32, u64>::empty(),
    {
        Self::new(64, 4)
    }
}

impl Kvs {
    /// An empty store that buffers `buf_capacity` entries and compacts `compaction_threshold`
    /// tables at a time, on the CPU.
    pub fn new(buf_capacity: usize, compaction_threshold: usize) -> (kvs: Self)
        requires
            buf_capacity > 0,
            compaction_threshold > 0,
        ensures
            kvs@ == KvsState::initial(buf_capacity, compaction_threshold, CompactionKind::Cpu),
            kvs@.buf_capacity == buf_capacity,
            kvs@.compaction_threshold == compaction_threshold,
            kvs@.compaction_kind == CompactionKind::Cpu,
            kvs@.buf.len() == 0,
            kvs@.tables.len() == 0,
            kvs@.next_seq == 0,
            kvs@.next_compaction_id == 0,
            kvs@.compaction_stats.len() == 0,
            !kvs@.device_due,
            kvs@.wf(),
            kvs@.faithful(),
            kvs@.contents() == Map::<u32, u64>::empty(),
    {
        Self::new_with_compaction(buf_capacity, compaction_threshold, CompactionKind::Cpu)
    }

    /// An empty store that buffers `buf_capacity` entries and compacts `compaction_threshold`
    /// tables at a time, in the way of `compaction_kind`.
    pub fn new_with_compaction(
        buf_capacity: usize,
        compaction_threshold: usize,
        compaction_kind: CompactionKind,
    ) -> (kvs: Self)
        requires
            buf_capacity > 0,
            compaction_threshold > 0,
        ensures
            kvs@ == KvsState::initial(buf_capacity, compaction_threshold, compaction_kind),
            kvs@.buf_capacity == buf_capacity,
            kvs@.compaction_threshold == compaction_threshold,
            kvs@.compaction_kind == compaction_kind,
            kvs@.buf.len() == 0,
            kvs@.tables.len() == 0,
            kvs@.next_seq == 0,
            kvs@.next_compaction_id == 0,
            kvs@.compaction_stats.len() == 0,
            !kvs@.device_due,
            kvs@.wf(),
            kvs@.faithful(),
            kvs@.contents() == Map::<u32, u64>::empty(),
    {
        let kvs = Self {
            buf: Vec::new(),
            tables: Vec::new(),
            next_seq: 0,
            buf_capacity,
            compaction_threshold,
            compaction_kind,
            next_compaction_id: 0,
            compaction_stats: Vec::new(),
            device_due: false,
        };
        proof {
            law_initial(buf_capacity, compaction_threshold, compaction_kind);
        }
        kvs
    }

    /// The value of `key`.
    pub fn get(&self, key: u32) -> (value: Option<u64>)
        ensures
            value == self@.lookup(key),
            value == if self@.contents().contains_key(key) {
                Some(self@.contents()[key])
            } else {
                None
            },
            self@.wf() && self@.faithful() ==> value == value_of(self@.all(), key),
    {
        proof {
            if self@.wf() && self@.faithful() {
                law_lookup(self@, key);
            }
        }
        let ghost buf = self.buf@;
        let mut i: usize = self.buf.len();
        assert(buf.take(i as int) =~= buf);
        while i > 0
            invariant
                self@.wf() && self@.faithful() ==> self@.lookup(key) == value_of(self@.all(), key),
                buf == self.buf@,
                i <= self.buf@.len(),
                last_of(buf, key) == last_of(buf.take(i as int), key),
            decreases i,
        {
            i -= 1;
            assert(buf.take(i + 1).drop_last() =~= buf.take(i as int));
            let entry: Entry = self.buf[i];
            if entry.key == key {
                return entry.value;
            }
        }
        let ghost tables = views(self.tables@);
        let mut n: usize = self.tables.len();
        assert(tables.take(n as int) =~= tables);
        while n > 0
            invariant
                self@.wf() && self@.faithful() ==> self@.lookup(key) == value_of(self@.all(), key),
                tables == views(self.tables@),
                n <= self.tables@.len(),
                last_of(self.buf@, key) is None,
                newest_in_tables(tables, key) == newest_in_tables(tables.take(n as int), key),
            decreases n,
        {
            n -= 1;
            assert(tables.take(n + 1).drop_last() =~= tables.take(n as int));
            if let Some(entry) = self.tables[n].get_entry(key) {
                return entry.value;
            }
        }
        None
    }

    /// Sets `key` to `value`.
    pub fn put(&mut self, key: u32, value: u64)
        requires
            old(self)@.wf(),
            old(self)@.may_write(),
        ensures
            final(self)@.wf(),
            final(self)@ == old(self)@.written(key, Some(value), final(self)@.last_elapsed()),
            old(self)@.faithful() ==> final(self)@.faithful(),
            old(self)@.faithful() || final(self)@.next_compaction_id
                == old(self)@.next_compaction_id ==> final(self)@.contents()
                == old(self)@.contents().insert(key, value),
    {
        let seq: u32 = self.alloc_seq();
        self.push_entry(Entry::put(key, seq, value));
        proof {
            law_written(old(self)@, key, Some(value), self@.last_elapsed());
        }
    }

    /// Removes `key`.
    pub fn delete(&mut self, key: u32)
        requires
            old(self)@.wf(),
            old(self)@.may_write(),
        ensures
            final(self)@.wf(),
            final(self)@ == old(self)@.written(key, None, final(self)@.last_elapsed()),
            old(self)@.faithful() ==> final(self)@.faithful(),
            old(self)@.faithful() || final(self)@.next_compaction_id
                == old(self)@.next_compaction_id ==> final(self)@.contents()
                == old(self)@.contents().remove(key),
    {
        let seq: u32 = self.alloc_seq();
        self.push_entry(Entry::delete(key, seq));
        proof {
            law_written(old(self)@, key, None, self@.last_elapsed());
        }
    }

    /// Carries out `command` and returns the value that a get finds. Where a write leads to a wait
    /// for a device, it is done once the device is.
    pub fn apply(&mut self, command: Command) -> (found: Option<u64>)
        requires
            old(self)@.wf(),
            old(self)@.may_step(command),
        ensures
            final(self)@.wf(),
            final(self)@ == old(self)@.stepped(command, final(self)@.last_elapsed()),
            final(self)@ == match command {
                Command::Put { key, value } => old(self)@.written(
                    key,
                    Some(value),
                    final(self)@.last_elapsed(),
                ),
                Command::Delete { key } => old(self)@.written(
                    key,
                    None,
                    final(self)@.last_elapsed(),
                ),
                Command::Get { .. } => old(self)@,
            },
            found == match command {
                Command::Get { key } => old(self)@.lookup(key),
                _ => None,
            },
            !final(self)@.device_due ==> final(self)@ == old(self)@.after(
                command,
                final(self)@.last_elapsed(),
            ),
            !old(self)@.device_due && final(self)@.device_due ==> forall|elapsed: Duration|
                #[trigger] final(self)@.settled(elapsed) == old(self)@.after(command, elapsed),
            old(self)@.faithful() ==> final(self)@.faithful(),
            old(self)@.faithful() || final(self)@.next_compaction_id
                == old(self)@.next_compaction_id ==> final(self)@.contents() == map_after(
                old(self)@.contents(),
                command,
            ),
            old(self)@.faithful() ==> final(self)@.contents() == match command {
                Command::Put { key, value } => old(self)@.contents().insert(key, value),
                Command::Delete { key } => old(self)@.contents().remove(key),
                Command::Get { .. } => old(self)@.contents(),
            },
    {
        let found = match command {
            Command::Put { key, value } => {
                self.put(key, value);
                None
            },
            Command::Delete { key } => {
                self.delete(key);
                None
            },
            Command::Get { key } => self.get(key),
        };
        proof {
            let last = self@.last_elapsed();
            assert forall|elapsed: Duration|
                !old(self)@.device_due && self@.device_due implies #[trigger] self@.settled(elapsed)
                == old(self)@.after(command, elapsed) by {
                law_stepped_settles(old(self)@, command, last, elapsed);
            }
        }
        found
    }

    /// Turns the buffer into a table, unless it is empty, and compacts the tables if there are
    /// enough of them.
    pub fn flush(&mut self)
        requires
            old(self)@.wf(),
            old(self)@.may_flush(),
        ensures
            final(self)@.wf(),
            final(self)@ == old(self)@.flushed(final(self)@.last_elapsed()),
            old(self)@.faithful() ==> final(self)@.faithful(),
            old(self)@.faithful() || final(self)@.next_compaction_id
                == old(self)@.next_compaction_id ==> final(self)@.contents()
                == old(self)@.contents(),
    {
        self.flush_buffer();
        proof {
            law_flushed(old(self)@, self@.last_elapsed());
        }
    }

    /// Compacts the tables into one and returns the record of it. Where a device is needed, the
    /// store waits for it instead.
    pub fn compact(&mut self) -> (stats: Option<CompactionStats>)
        requires
            old(self)@.wf(),
            old(self)@.may_compact(),
        ensures
            final(self)@.wf(),
            final(self)@ == old(self)@.compacted(final(self)@.last_elapsed()),
            stats == if old(self)@.tables.len() == 0 || old(self)@.needs_device() {
                None
            } else {
                Some(final(self)@.compaction_stats.last())
            },
            stats is Some ==> {
                &&& final(self)@.tables.len() == 1
                &&& forall|a: int, b: int|
                    #![trigger final(self)@.tables[0][a], final(self)@.tables[0][b]]
                    0 <= a < b < final(self)@.tables[0].len() ==> final(self)@.tables[0][a].key
                        < final(self)@.tables[0][b].key
                &&& forall|e: Entry| #[trigger]
                    final(self)@.tables[0].contains(e) <==> e.value is Some && exists|i: int|
                        {
                            let before = old(self)@.tables.flatten();
                            &&& 0 <= i < before.len()
                            &&& #[trigger] old(self)@.tables.flatten()[i] == e
                            &&& forall|j: int|
                                0 <= j < before.len() && (#[trigger] before[j]).key == e.key
                                    ==> before[j].seq < e.seq || (before[j].seq == e.seq && i <= j)
                        }
                &&& stats->0.id == old(self)@.next_compaction_id
                &&& stats->0.kind == old(self)@.compaction_kind
                &&& stats->0.input_tables == old(self)@.tables.len()
                &&& stats->0.output_tables == 1
                &&& stats->0.input_entries == old(self)@.tables.flatten().len()
                &&& stats->0.output_entries == final(self)@.tables[0].len()
                &&& final(self)@.compaction_stats == old(self)@.compaction_stats.push(stats->0)
            },
            old(self)@.faithful() ==> final(self)@.faithful(),
            old(self)@.faithful() || final(self)@.next_compaction_id
                == old(self)@.next_compaction_id ==> final(self)@.contents()
                == old(self)@.contents(),
    {
        let stats = self.compact_tables();
        proof {
            law_compacted(old(self)@, self@.last_elapsed());
            law_compacted_in_full(old(self)@, self@.last_elapsed());
            law_entries(old(self)@);
            if stats is Some {
                assert(self@.compaction_stats =~= self@.compaction_stats.drop_last().push(
                    self@.compaction_stats.last(),
                ));
            }
        }
        stats
    }

    /// The columns of the entries that a device has to compact, if one is waited for.
    pub fn device_columns(&self) -> (columns: Option<EntryColumns>)
        ensures
            columns is Some <==> self@.device_due,
            columns is Some ==> columns->0.holds(self@.stored()),
            columns is Some ==> ({
                let s = self@.tables.flatten();
                &&& columns->0.keys@.len() == s.len()
                &&& columns->0.seqs@.len() == s.len()
                &&& columns->0.values@.len() == s.len()
                &&& columns->0.is_deleted@.len() == s.len()
                &&& forall|i: int|
                    0 <= i < s.len() ==> {
                        &&& #[trigger] columns->0.keys@[i] == s[i].key
                        &&& columns->0.seqs@[i] == s[i].seq
                        &&& columns->0.values@[i] == match s[i].value {
                            Some(value) => value,
                            None => 0,
                        }
                        &&& columns->0.is_deleted@[i] == if s[i].value is None {
                            1u32
                        } else {
                            0
                        }
                    }
            }),
    {
        proof {
            law_all_entries(self@.tables);
        }
        if self.device_due {
            Some(EntryColumns::of_tables(&self.tables))
        } else {
            None
        }
    }

    /// Puts `output`, which a device handed back after `elapsed`, in the place of the tables,
    /// whatever it holds, and returns the record of it. Nothing happens where no device is waited
    /// for.
    pub fn finish_compaction(&mut self, output: SsTable, elapsed: Duration) -> (stats: Option<
        CompactionStats,
    >)
        requires
            old(self)@.wf(),
        ensures
            final(self)@.wf(),
            final(self)@ == if old(self)@.device_due {
                old(self)@.installed(output@, elapsed)
            } else {
                old(self)@
            },
            stats == if old(self)@.device_due {
                Some(final(self)@.compaction_stats.last())
            } else {
                None
            },
            stats is Some ==> {
                &&& final(self)@.tables.len() == 1
                &&& final(self)@.tables[0] == output@
                &&& stats->0.id == old(self)@.next_compaction_id
                &&& stats->0.kind == old(self)@.compaction_kind
                &&& stats->0.input_tables == old(self)@.tables.len()
                &&& stats->0.output_tables == 1
                &&& stats->0.input_entries == old(self)@.tables.flatten().len()
                &&& stats->0.output_entries == final(self)@.tables[0].len()
                &&& final(self)@.compaction_stats == old(self)@.compaction_stats.push(stats->0)
                &&& stats->0.elapsed == elapsed
            },
            old(self)@.faithful() && (old(self)@.device_due ==> old(self)@.fits(output@))
                ==> final(self)@.faithful(),
            old(self)@.faithful() && output@ == compaction(old(self)@.stored()) ==> {
                &&& final(self)@ == old(self)@.settled(elapsed)
                &&& final(self)@.faithful()
                &&& final(self)@.contents() == old(self)@.contents()
            },
    {
        if !self.device_due {
            return None;
        }
        proof {
            law_installed(self@, output@, elapsed);
            law_entries(self@);
        }
        let input_tables: usize = self.tables.len();
        let input_entries: usize = self.stored_len().unwrap();
        Some(self.install(output, input_tables, input_entries, elapsed))
    }

    /// The number of tables.
    pub fn table_count(&self) -> (count: usize)
        ensures
            count == self@.tables.len(),
    {
        self.tables.len()
    }

    /// The number of entries in the buffer.
    pub fn buffered_len(&self) -> (len: usize)
        ensures
            len == self@.buf.len(),
    {
        self.buf.len()
    }

    /// Whether a key can be written now.
    pub fn can_write(&self) -> (can: bool)
        requires
            self@.wf(),
        ensures
            can == self@.may_write(),
            can <==> {
                &&& !self@.device_due
                &&& self@.next_seq < u32::MAX
                &&& self@.buf.len() + 1 < self@.buf_capacity || self@.tables.len() + 1
                    < self@.compaction_threshold || (self@.next_compaction_id < u64::MAX
                    && self@.tables.flatten().len() + self@.buf.len() < usize::MAX)
            },
    {
        proof {
            law_entries(self@);
        }
        if self.device_due || self.next_seq == u32::MAX {
            return false;
        }
        if self.buf.len() < self.buf_capacity - 1 || self.tables.len() < self.compaction_threshold
            - 1 {
            return true;
        }
        match self.stored_len() {
            Some(len) => self.next_compaction_id < u64::MAX && len < usize::MAX - self.buf.len(),
            None => false,
        }
    }

    /// Hands out the records of the compactions since the last time.
    pub fn take_compaction_stats(&mut self) -> (stats: Vec<CompactionStats>)
        requires
            old(self)@.wf(),
        ensures
            final(self)@.wf(),
            stats@ == old(self)@.compaction_stats,
            final(self)@ == (KvsState { compaction_stats: Seq::empty(), ..old(self)@ }),
            old(self)@.faithful() ==> final(self)@.faithful(),
            final(self)@.contents() == old(self)@.contents(),
    {
        let mut stats: Vec<CompactionStats> = Vec::new();
        std::mem::swap(&mut stats, &mut self.compaction_stats);
        stats
    }

    /// The next sequence number.
    fn alloc_seq(&mut self) -> (seq: u32)
        requires
            old(self)@.next_seq < u32::MAX,
        ensures
            seq == old(self)@.next_seq,
            final(self)@ == (KvsState { next_seq: (seq + 1) as u32, ..old(self)@ }),
    {
        let seq: u32 = self.next_seq;
        self.next_seq = seq + 1;
        seq
    }

    /// Adds `entry` to the buffer and flushes it if it is full.
    fn push_entry(&mut self, entry: Entry)
        requires
            ({
                let s = KvsState { buf: old(self)@.buf.push(entry), ..old(self)@ };
                s.buf.len() >= s.buf_capacity ==> s.may_flush()
            }),
        ensures
            ({
                let s = KvsState { buf: old(self)@.buf.push(entry), ..old(self)@ };
                final(self)@ == if s.buf.len() >= s.buf_capacity {
                    s.flushed(final(self)@.last_elapsed())
                } else {
                    s
                }
            }),
    {
        self.buf.push(entry);
        if self.buf.len() >= self.buf_capacity {
            self.flush_buffer();
        }
    }

    /// Flushes the buffer, whether it is full or not.
    fn flush_buffer(&mut self)
        requires
            old(self)@.may_flush(),
        ensures
            final(self)@ == old(self)@.flushed(final(self)@.last_elapsed()),
    {
        if self.buf.is_empty() {
            return;
        }
        proof {
            lemma_sealed_len(self@);
        }
        let mut entries: Vec<Entry> = Vec::new();
        std::mem::swap(&mut entries, &mut self.buf);
        let table = SsTable::new(entries);
        self.tables.push(table);
        assert(self@ =~= old(self)@.sealed());
        if self.tables.len() >= self.compaction_threshold {
            self.compact_tables();
        }
    }

    /// Compacts the tables, or notes that a device has to.
    fn compact_tables(&mut self) -> (stats: Option<CompactionStats>)
        requires
            old(self)@.may_compact(),
        ensures
            final(self)@ == old(self)@.compacted(final(self)@.last_elapsed()),
            stats == if old(self)@.tables.len() == 0 || old(self)@.needs_device() {
                None
            } else {
                Some(final(self)@.compaction_stats.last())
            },
    {
        if self.tables.is_empty() {
            return None;
        }
        let input_tables: usize = self.tables.len();
        let input_entries: usize = self.stored_len().unwrap();
        let started = now();
        let output = match self.compaction_kind {
            CompactionKind::Cpu => {
                let mut tables: Vec<SsTable> = Vec::new();
                std::mem::swap(&mut tables, &mut self.tables);
                compact(tables)
            },
            CompactionKind::Gpu => {
                if input_entries > 0 {
                    self.device_due = true;
                    return None;
                }
                proof {
                    law_compaction_shrinks(self@.stored());
                }
                SsTable::default()
            },
        };
        let elapsed = elapsed_since(&started);
        let stats = self.install(output, input_tables, input_entries, elapsed);
        assert(output@ == compaction(old(self)@.stored()));
        Some(stats)
    }

    /// Makes `output` the only table and records the compaction that led to it.
    fn install(
        &mut self,
        output: SsTable,
        input_tables: usize,
        input_entries: usize,
        elapsed: Duration,
    ) -> (stats: CompactionStats)
        requires
            old(self)@.next_compaction_id < u64::MAX,
        ensures
            stats == (CompactionStats {
                id: old(self)@.next_compaction_id,
                kind: old(self)@.compaction_kind,
                input_tables,
                output_tables: 1,
                input_entries,
                output_entries: output@.len() as usize,
                elapsed,
            }),
            stats.output_entries == output@.len(),
            final(self)@ == (KvsState {
                tables: seq![output@],
                next_compaction_id: (old(self)@.next_compaction_id + 1) as u64,
                compaction_stats: old(self)@.compaction_stats.push(stats),
                device_due: false,
                ..old(self)@
            }),
    {
        let output_entries: usize = output.len();
        let mut tables: Vec<SsTable> = Vec::new();
        tables.push(output);
        self.tables = tables;
        let stats = CompactionStats {
            id: self.next_compaction_id,
            kind: self.compaction_kind,
            input_tables,
            output_tables: self.tables.len(),
            input_entries,
            output_entries,
            elapsed,
        };
        self.next_compaction_id += 1;
        self.compaction_stats.push(stats);
        self.device_due = false;
        stats
    }

    /// The number of entries in the tables, unless it is too large to be counted.
    fn stored_len(&self) -> (len: Option<usize>)
        ensures
            len is Some <==> self@.stored().len() <= usize::MAX,
            len is Some ==> len->0 == self@.stored().len(),
    {
        let ghost tables = views(self.tables@);
        let mut len: usize = 0;
        let mut i: usize = 0;
        while i < self.tables.len()
            invariant
                tables == views(self.tables@),
                i <= self.tables@.len(),
                len == all_entries(tables.take(i as int)).len(),
                self@.stored() == all_entries(tables),
            decreases self.tables@.len() - i,
        {
            proof {
                assert(tables.take(i + 1) =~= tables.take(i as int).push(tables[i as int]));
                lemma_all_entries_push(tables.take(i as int), tables[i as int]);
                lemma_all_entries_prefix(tables, i + 1);
            }
            match len.checked_add(self.tables[i].len()) {
                Some(sum) => {
                    len = sum;
                },
                None => {
                    return None;
                },
            }
            i += 1;
        }
        assert(tables.take(i as int) =~= tables);
        Some(len)
    }
}

} // verus!
