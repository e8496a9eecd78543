//! The states of the store, what its operations make of them, and what they keep.

use std::time::Duration;

use vstd::prelude::*;

use crate::columns::{device_output, is_row_sort, law_device_matches_compaction, row_of, Row};
use crate::compaction::{
    all_entries, compaction, keys_increase, law_compaction_newest, law_compaction_shrinks,
    lemma_all_entries_push, lemma_compaction, versions_differ, CompactionKind,
};
use crate::entry::{
    last_of, lemma_last_is_newest, lemma_newest_append, lemma_newest_exists, newest, older,
    seqs_below, seqs_increase, value_of, Entry,
};
use crate::order::{by_key_then_seq, is_stable_sort_with};
use crate::stats::CompactionStats;
use crate::table::{law_table_newest, lemma_table_of, table_of};

verus! {

/// A state of the store: the buffered entries, the tables from the oldest to the newest, and the
/// counters and settings. `device_due` says that the tables wait to be compacted on a device.
#[verifier::ext_equal]
pub struct KvsState {
    pub buf: Seq<Entry>,
    pub tables: Seq<Seq<Entry>>,
    pub next_seq: u32,
    pub buf_capacity: usize,
    pub compaction_threshold: usize,
    pub compaction_kind: CompactionKind,
    pub next_compaction_id: u64,
    pub compaction_stats: Seq<CompactionStats>,
    pub device_due: bool,
}

impl KvsState {
    /// The state of a new store.
    pub open spec fn initial(
        buf_capacity: usize,
        compaction_threshold: usize,
        compaction_kind: CompactionKind,
    ) -> Self {
        KvsState {
            buf: Seq::empty(),
            tables: Seq::empty(),
            next_seq: 0,
            buf_capacity,
            compaction_threshold,
            compaction_kind,
            next_compaction_id: 0,
            compaction_stats: Seq::empty(),
            device_due: false,
        }
    }

    /// The entries in the tables.
    pub open spec fn stored(self) -> Seq<Entry> {
        all_entries(self.tables)
    }

    /// All entries, from the oldest table to the newest, then the buffer.
    pub open spec fn all(self) -> Seq<Entry> {
        self.stored() + self.buf
    }

    /// The value of `key`: that of its last entry in the buffer, or else of its newest entry in
    /// the newest table that has one.
    pub open spec fn lookup(self, key: u32) -> Option<u64> {
        let entry = if last_of(self.buf, key) is Some {
            last_of(self.buf, key)
        } else {
            newest_in_tables(self.tables, key)
        };
        match entry {
            Some(entry) => entry.value,
            None => None,
        }
    }

    /// The key-value map that the store stands for.
    pub open spec fn contents(self) -> Map<u32, u64> {
        Map::new(|key: u32| self.lookup(key) is Some, |key: u32| self.lookup(key)->0)
    }

    /// The settings are usable, and the sequence numbers in the buffer increase and are used up.
    pub open spec fn numbered(self) -> bool {
        &&& 0 < self.buf_capacity
        &&& 0 < self.compaction_threshold
        &&& seqs_below(self.buf, self.next_seq)
        &&& seqs_increase(self.buf)
    }

    /// The records that have not been taken are those of the last compactions, numbered in turn,
    /// and each compaction left one table.
    pub open spec fn recorded(self) -> bool {
        &&& self.compaction_stats.len() <= self.next_compaction_id
        &&& forall|i: int|
            #![trigger self.compaction_stats[i]]
            0 <= i < self.compaction_stats.len() ==> {
                let stats = self.compaction_stats[i];
                &&& stats.id == self.next_compaction_id - self.compaction_stats.len() + i
                &&& stats.kind == self.compaction_kind
                &&& 0 < stats.input_tables
                &&& stats.output_tables == 1
            }
    }

    /// A device is asked only for what a GPU has to compact, and its compaction can be counted and
    /// numbered.
    pub open spec fn device_due_for_work(self) -> bool {
        self.device_due ==> {
            &&& self.compaction_kind is Gpu
            &&& 0 < self.stored().len() <= usize::MAX
            &&& self.next_compaction_id < u64::MAX
        }
    }

    /// What holds of every state between two operations: besides the above, the buffer is never
    /// full, and there is a table too many only while a device is waited for.
    pub open spec fn wf(self) -> bool {
        &&& self.numbered()
        &&& self.recorded()
        &&& self.device_due_for_work()
        &&& self.buf.len() < self.buf_capacity
        &&& self.tables.len() <= self.resting_tables() + if self.device_due {
            1int
        } else {
            0
        }
    }

    /// Sequence numbers grow from table to table and on to the buffer, and are all used up; there
    /// is at most one entry per sequence number given out.
    pub open spec fn ordered(self) -> bool {
        &&& self.all().len() <= self.next_seq
        &&& seqs_below(self.all(), self.next_seq)
        &&& tables_in_order(self.tables)
        &&& older(self.stored(), self.buf)
        &&& versions_differ(self.stored())
    }

    /// What holds besides of every state in which all that devices handed back could be a
    /// compaction of what they were given: the order above, and no compaction on record left more
    /// entries than it took in.
    pub open spec fn faithful(self) -> bool {
        &&& self.ordered()
        &&& forall|i: int|
            #![trigger self.compaction_stats[i]]
            0 <= i < self.compaction_stats.len() ==> self.compaction_stats[i].output_entries
                <= self.compaction_stats[i].input_entries
    }

    /// The most tables that there are while none of them waits to be compacted: one below the
    /// threshold, but not below the one that a compaction leaves.
    pub open spec fn resting_tables(self) -> int {
        if self.compaction_threshold > 1 {
            self.compaction_threshold - 1
        } else {
            1
        }
    }

    /// `output` could be a compaction of the tables: one entry per key in the order of the keys, no
    /// more entries than there were, and all of them older than the buffer.
    pub open spec fn fits(self, output: Seq<Entry>) -> bool {
        &&& keys_increase(output)
        &&& output.len() <= self.stored().len()
        &&& older(output, self.buf)
        &&& seqs_below(output, self.next_seq)
    }

    /// The state once `output` has taken the place of the tables, after `elapsed`.
    pub open spec fn installed(self, output: Seq<Entry>, elapsed: Duration) -> Self {
        KvsState {
            tables: seq![output],
            next_compaction_id: (self.next_compaction_id + 1) as u64,
            compaction_stats: self.compaction_stats.push(
                CompactionStats {
                    id: self.next_compaction_id,
                    kind: self.compaction_kind,
                    input_tables: self.tables.len() as usize,
                    output_tables: 1,
                    input_entries: self.stored().len() as usize,
                    output_entries: output.len() as usize,
                    elapsed,
                },
            ),
            device_due: false,
            ..self
        }
    }

    /// Whether a compaction has to be done by a device.
    pub open spec fn needs_device(self) -> bool {
        self.compaction_kind is Gpu && self.stored().len() > 0
    }

    /// The state after a compaction: as it was where there are no tables, waiting for a device
    /// where one is needed, and with one table in place of the others where not.
    pub open spec fn compacted(self, elapsed: Duration) -> Self {
        if self.tables.len() == 0 {
            self
        } else if self.needs_device() {
            KvsState { device_due: true, ..self }
        } else {
            self.installed(compaction(self.stored()), elapsed)
        }
    }

    /// The state with the buffer turned into the newest table.
    pub open spec fn sealed(self) -> Self {
        KvsState { buf: Seq::empty(), tables: self.tables.push(table_of(self.buf)), ..self }
    }

    /// The state after a flush: the buffer, unless it is empty, is the newest table, and where
    /// this brings the tables to the threshold they are compacted.
    pub open spec fn flushed(self, elapsed: Duration) -> Self {
        if self.buf.len() == 0 {
            self
        } else if self.sealed().tables.len() >= self.compaction_threshold {
            self.sealed().compacted(elapsed)
        } else {
            self.sealed()
        }
    }

    /// The state with one more entry in the buffer.
    pub open spec fn appended(self, key: u32, value: Option<u64>) -> Self {
        KvsState {
            buf: self.buf.push(Entry { key, seq: self.next_seq, value }),
            next_seq: (self.next_seq + 1) as u32,
            ..self
        }
    }

    /// The state after a write: one more entry in the buffer, and a flush where that fills it.
    pub open spec fn written(self, key: u32, value: Option<u64>, elapsed: Duration) -> Self {
        if self.appended(key, value).buf.len() >= self.buf_capacity {
            self.appended(key, value).flushed(elapsed)
        } else {
            self.appended(key, value)
        }
    }

    /// How long the last compaction on record took.
    pub open spec fn last_elapsed(self) -> Duration {
        self.compaction_stats.last().elapsed
    }

    /// No device is waited for, and the compaction, where there is one, can be counted and
    /// numbered.
    pub open spec fn may_compact(self) -> bool {
        &&& !self.device_due
        &&& self.tables.len() > 0 ==> {
            &&& self.next_compaction_id < u64::MAX
            &&& self.stored().len() <= usize::MAX
        }
    }

    /// No device is waited for, and the compaction that the flush leads to, where it does, can be
    /// counted and numbered.
    pub open spec fn may_flush(self) -> bool {
        &&& !self.device_due
        &&& self.buf.len() > 0 && self.tables.len() + 1 >= self.compaction_threshold ==> {
            &&& self.next_compaction_id < u64::MAX
            &&& self.all().len() <= usize::MAX
        }
    }

    /// No device is waited for, there is a number for the entry, and the compaction that the write
    /// leads to, where it does, can be counted and numbered.
    pub open spec fn may_write(self) -> bool {
        &&& !self.device_due
        &&& self.next_seq < u32::MAX
        &&& self.buf.len() + 1 >= self.buf_capacity && self.tables.len() + 1
            >= self.compaction_threshold ==> {
            &&& self.next_compaction_id < u64::MAX
            &&& self.all().len() < usize::MAX
        }
    }
}

/// The newest entry of `key` in the last of the tables that has one.
pub open spec fn newest_in_tables(tables: Seq<Seq<Entry>>, key: u32) -> Option<Entry>
    decreases tables.len(),
{
    if tables.len() == 0 {
        None
    } else if newest(tables.last(), key) is Some {
        newest(tables.last(), key)
    } else {
        newest_in_tables(tables.drop_last(), key)
    }
}

/// Every entry of a table is newer than all entries of the tables before it.
pub open spec fn tables_in_order(tables: Seq<Seq<Entry>>) -> bool {
    forall|t: int|
        0 <= t < tables.len() ==> older(all_entries(tables.take(t)), #[trigger] tables[t])
}

/// Where the tables are in order, what is found from the newest table back is the newest entry of
/// all.
proof fn lemma_newest_in_tables(tables: Seq<Seq<Entry>>, key: u32)
    requires
        tables_in_order(tables),
    ensures
        newest_in_tables(tables, key) == newest(all_entries(tables), key),
    decreases tables.len(),
{
    if tables.len() == 0 {
        lemma_newest_exists(Seq::empty(), key);
    } else {
        let rest = tables.drop_last();
        let n = tables.len() - 1;
        assert(tables.take(n) =~= rest);
        assert(older(all_entries(tables.take(n)), tables[n]));
        assert forall|t: int| 0 <= t < rest.len() implies older(
            all_entries(rest.take(t)),
            #[trigger] rest[t],
        ) by {
            assert(rest.take(t) =~= tables.take(t));
            assert(rest[t] == tables[t]);
        }
        lemma_newest_in_tables(rest, key);
        lemma_newest_append(all_entries(rest), tables.last(), key);
        lemma_newest_exists(tables.last(), key);
    }
}

/// In a faithful state the value of a key is that of its entry with the highest sequence number,
/// wherever it is held.
pub proof fn law_lookup(s: KvsState, key: u32)
    requires
        s.wf(),
        s.faithful(),
    ensures
        s.lookup(key) == value_of(s.all(), key),
{
    lemma_lookup(s, key);
}

/// The same without the bounds on the buffer and the tables.
proof fn lemma_lookup(s: KvsState, key: u32)
    requires
        s.numbered(),
        s.ordered(),
    ensures
        s.lookup(key) == value_of(s.all(), key),
{
    lemma_last_is_newest(s.buf, key);
    lemma_newest_in_tables(s.tables, key);
    lemma_newest_append(s.stored(), s.buf, key);
}

/// A new store is empty.
pub proof fn law_initial(
    buf_capacity: usize,
    compaction_threshold: usize,
    compaction_kind: CompactionKind,
)
    requires
        0 < buf_capacity,
        0 < compaction_threshold,
    ensures
        KvsState::initial(buf_capacity, compaction_threshold, compaction_kind).wf(),
        KvsState::initial(buf_capacity, compaction_threshold, compaction_kind).faithful(),
        KvsState::initial(buf_capacity, compaction_threshold, compaction_kind).contents()
            == Map::<u32, u64>::empty(),
{
    let s = KvsState::initial(buf_capacity, compaction_threshold, compaction_kind);
    assert forall|key: u32| #[trigger] s.lookup(key) is None by {
        assert(last_of(s.buf, key) is None);
        assert(newest_in_tables(s.tables, key) is None);
    }
}

/// The same values make the same key-value map.
proof fn lemma_same_contents(s: KvsState, t: KvsState)
    requires
        forall|key: u32| #[trigger] s.lookup(key) == t.lookup(key),
    ensures
        s.contents() == t.contents(),
{
}

/// One more entry in the buffer sets or removes its key and nothing else.
proof fn lemma_appended(s: KvsState, key: u32, value: Option<u64>)
    requires
        s.numbered(),
        s.next_seq < u32::MAX,
    ensures
        s.appended(key, value).numbered(),
        s.faithful() ==> s.appended(key, value).faithful(),
        s.appended(key, value).contents() == match value {
            Some(v) => s.contents().insert(key, v),
            None => s.contents().remove(key),
        },
{
    let t = s.appended(key, value);
    let e = Entry { key, seq: s.next_seq, value };
    assert(t.buf.drop_last() =~= s.buf);
    assert forall|k: u32| #[trigger] t.lookup(k) == if k == key {
        value
    } else {
        s.lookup(k)
    } by {
        assert(last_of(t.buf, k) == if k == key {
            Some(e)
        } else {
            last_of(s.buf, k)
        });
    }
    if s.faithful() {
        assert(t.all() =~= s.all().push(e));
        assert forall|i: int| 0 <= i < s.stored().len() implies (#[trigger] s.stored()[i]).seq
            < s.next_seq by {
            assert(s.all()[i] == s.stored()[i]);
        }
    }
}

/// Turning the buffer into a table keeps the order and the key-value map.
proof fn lemma_sealed(s: KvsState)
    requires
        s.numbered(),
    ensures
        s.sealed().numbered(),
        s.faithful() ==> s.sealed().faithful(),
        s.sealed().contents() == s.contents(),
{
    let t = s.sealed();
    let table = table_of(s.buf);
    lemma_table_of(s.buf);
    assert(t.tables.drop_last() =~= s.tables);
    assert forall|k: u32| #[trigger] t.lookup(k) == s.lookup(k) by {
        lemma_last_is_newest(s.buf, k);
        law_table_newest(s.buf, k);
        assert(last_of(t.buf, k) is None);
        assert(newest_in_tables(t.tables, k) == if newest(table, k) is Some {
            newest(table, k)
        } else {
            newest_in_tables(s.tables, k)
        });
    }
    lemma_same_contents(t, s);
    if s.faithful() {
        lemma_sealed_ordered(s);
    }
}

/// Turning the buffer into a table keeps the order.
proof fn lemma_sealed_ordered(s: KvsState)
    requires
        s.numbered(),
        s.ordered(),
    ensures
        s.sealed().ordered(),
{
    let t = s.sealed();
    let table = table_of(s.buf);
    lemma_table_of(s.buf);
    lemma_all_entries_push(s.tables, table);
    let p = choose|p: Seq<int>| is_stable_sort_with(s.buf, table, by_key_then_seq(), p);
    assert forall|i: int| 0 <= i < t.all().len() implies (#[trigger] t.all()[i]).seq
        < t.next_seq by {
        if i < s.stored().len() {
            assert(s.all()[i] == t.all()[i]);
        } else {
            let j = i - s.stored().len();
            assert(s.all()[s.stored().len() + p[j]] == table[j]);
        }
    }
    assert(older(s.stored(), table));
    assert forall|n: int| 0 <= n < t.tables.len() implies older(
        all_entries(t.tables.take(n)),
        #[trigger] t.tables[n],
    ) by {
        if n < s.tables.len() {
            assert(t.tables.take(n) =~= s.tables.take(n));
        } else {
            assert(t.tables.take(n) =~= s.tables);
        }
    }
    assert(versions_differ(t.stored()));
}

/// The newest table has as many entries as the buffer had.
pub proof fn lemma_sealed_len(s: KvsState)
    ensures
        s.sealed().stored().len() == s.all().len(),
{
    lemma_table_of(s.buf);
    lemma_all_entries_push(s.tables, table_of(s.buf));
}

/// Any table can take the place of the others. Where it could be their compaction the state stays
/// faithful, and where it is their compaction the key-value map stays as it is.
proof fn lemma_installed(s: KvsState, output: Seq<Entry>, elapsed: Duration)
    requires
        s.numbered(),
        s.recorded(),
        s.buf.len() < s.buf_capacity,
        0 < s.tables.len() <= usize::MAX,
        s.next_compaction_id < u64::MAX,
    ensures
        s.installed(output, elapsed).wf(),
        s.faithful() && s.fits(output) ==> s.installed(output, elapsed).faithful(),
        s.faithful() && output == compaction(s.stored()) ==> s.installed(
            output,
            elapsed,
        ).contents() == s.contents(),
{
    let t = s.installed(output, elapsed);
    lemma_all_entries_push(Seq::empty(), output);
    if s.faithful() && s.fits(output) {
        assert forall|i: int| 0 <= i < t.all().len() implies (#[trigger] t.all()[i]).seq
            < t.next_seq by {
            if i >= output.len() {
                let j = i - output.len();
                assert(s.all()[s.stored().len() + j] == s.buf[j]);
            }
        }
        assert(t.tables.take(0) =~= Seq::empty());
    }
    if s.faithful() && output == compaction(s.stored()) {
        law_compaction_fits(s);
        assert forall|k: u32| #[trigger] t.lookup(k) == s.lookup(k) by {
            lemma_lookup(s, k);
            lemma_lookup(t, k);
            lemma_newest_append(s.stored(), s.buf, k);
            lemma_newest_append(output, s.buf, k);
            law_compaction_newest(s.stored(), k);
        }
        lemma_same_contents(t, s);
    }
}

/// The compaction of the tables fits.
pub proof fn law_compaction_fits(s: KvsState)
    requires
        s.ordered(),
    ensures
        s.fits(compaction(s.stored())),
{
    let output = compaction(s.stored());
    lemma_compaction(s.stored());
    law_compaction_shrinks(s.stored());
    assert forall|i: int| 0 <= i < output.len() implies exists|j: int|
        0 <= j < s.stored().len() && s.stored()[j] == #[trigger] output[i] by {
        assert(output.contains(output[i]));
    }
    assert forall|i: int| 0 <= i < output.len() implies (#[trigger] output[i]).seq
        < s.next_seq by {
        let j = choose|j: int| 0 <= j < s.stored().len() && s.stored()[j] == output[i];
        assert(s.all()[j] == output[i]);
    }
}

/// A compaction keeps the invariant, and of a faithful state the key-value map, also where the
/// tables have just reached the threshold.
proof fn lemma_compacted(s: KvsState, elapsed: Duration)
    requires
        s.numbered(),
        s.recorded(),
        s.buf.len() < s.buf_capacity,
        s.tables.len() <= s.resting_tables() + 1,
        s.may_compact(),
    ensures
        s.compacted(elapsed).wf(),
        s.faithful() ==> s.compacted(elapsed).faithful(),
        s.faithful() || s.compacted(elapsed).next_compaction_id == s.next_compaction_id
            ==> s.compacted(elapsed).contents() == s.contents(),
{
    if s.tables.len() > 0 {
        if s.needs_device() {
            lemma_same_contents(s.compacted(elapsed), s);
        } else {
            lemma_installed(s, compaction(s.stored()), elapsed);
            if s.faithful() {
                law_compaction_fits(s);
            }
        }
    }
}

/// A flush of what is in the buffer keeps the invariant, and of a faithful state the key-value map,
/// also where the buffer is full.
proof fn lemma_flushed(s: KvsState, elapsed: Duration)
    requires
        s.numbered(),
        s.recorded(),
        s.buf.len() > 0,
        s.tables.len() <= s.resting_tables(),
        s.may_flush(),
    ensures
        s.flushed(elapsed).wf(),
        s.flushed(elapsed).buf.len() == 0,
        s.faithful() ==> s.flushed(elapsed).faithful(),
        s.faithful() || s.flushed(elapsed).next_compaction_id == s.next_compaction_id
            ==> s.flushed(elapsed).contents() == s.contents(),
{
    lemma_sealed(s);
    lemma_sealed_len(s);
    if s.sealed().tables.len() >= s.compaction_threshold {
        lemma_compacted(s.sealed(), elapsed);
    }
}

/// Any table can take the place of those that wait for a device. Where it could be their compaction
/// the state stays faithful, and where it is their compaction the key-value map stays as it is.
pub proof fn law_installed(s: KvsState, output: Seq<Entry>, elapsed: Duration)
    requires
        s.wf(),
        s.device_due,
    ensures
        s.installed(output, elapsed).wf(),
        s.faithful() && s.fits(output) ==> s.installed(output, elapsed).faithful(),
        s.faithful() && output == compaction(s.stored()) ==> {
            &&& s.installed(output, elapsed).faithful()
            &&& s.installed(output, elapsed).contents() == s.contents()
        },
{
    if s.tables.len() == 0 {
        assert(s.stored().len() == 0);
    }
    lemma_installed(s, output, elapsed);
    if s.faithful() {
        law_compaction_fits(s);
    }
}

/// A compaction leaves the key-value map of a faithful state as it is, and that of any other state
/// until its tables are replaced.
pub proof fn law_compacted(s: KvsState, elapsed: Duration)
    requires
        s.wf(),
        s.may_compact(),
    ensures
        s.compacted(elapsed).wf(),
        s.faithful() ==> s.compacted(elapsed).faithful(),
        s.faithful() || s.compacted(elapsed).next_compaction_id == s.next_compaction_id
            ==> s.compacted(elapsed).contents() == s.contents(),
{
    lemma_compacted(s, elapsed);
}

/// A flush leaves the buffer empty, the key-value map of a faithful state as it is, and that of any
/// other state unless it replaces the tables.
pub proof fn law_flushed(s: KvsState, elapsed: Duration)
    requires
        s.wf(),
        s.may_flush(),
    ensures
        s.flushed(elapsed).wf(),
        s.flushed(elapsed).buf.len() == 0,
        s.faithful() ==> s.flushed(elapsed).faithful(),
        s.faithful() || s.flushed(elapsed).next_compaction_id == s.next_compaction_id
            ==> s.flushed(elapsed).contents() == s.contents(),
{
    if s.buf.len() > 0 {
        lemma_flushed(s, elapsed);
    }
}

/// A put sets its key to its value, a delete removes its key, and every other key stays as it is:
/// in a faithful state, and in any other unless the write leads to tables being replaced.
pub proof fn law_written(s: KvsState, key: u32, value: Option<u64>, elapsed: Duration)
    requires
        s.wf(),
        s.may_write(),
    ensures
        s.written(key, value, elapsed).wf(),
        s.faithful() ==> s.written(key, value, elapsed).faithful(),
        s.faithful() || s.written(key, value, elapsed).next_compaction_id == s.next_compaction_id
            ==> s.written(key, value, elapsed).contents() == match value {
            Some(v) => s.contents().insert(key, v),
            None => s.contents().remove(key),
        },
{
    lemma_appended(s, key, value);
    let t = s.appended(key, value);
    if t.buf.len() >= s.buf_capacity {
        lemma_flushed(t, elapsed);
    }
}

/// A write takes the next sequence number, which no later write takes again. Its entry is the last
/// in the buffer, and nothing else changes, until it fills the buffer; then the buffer is empty and
/// all that was in it is one new table, unless that is compacted with the others.
pub proof fn law_write_buffers(s: KvsState, key: u32, value: Option<u64>, elapsed: Duration)
    requires
        s.wf(),
        s.may_write(),
    ensures
        s.written(key, value, elapsed).next_seq == s.next_seq + 1,
        ({
            let t = s.written(key, value, elapsed);
            let buf = s.buf.push(Entry { key, seq: s.next_seq, value });
            if s.buf.len() + 1 < s.buf_capacity {
                t == (KvsState { buf, next_seq: t.next_seq, ..s })
            } else {
                &&& s.buf.len() + 1 == s.buf_capacity
                &&& t.buf.len() == 0
                &&& s.tables.len() + 1 < s.compaction_threshold ==> t.tables == s.tables.push(
                    table_of(buf),
                )
                &&& s.tables.len() + 1 >= s.compaction_threshold && !t.device_due
                    ==> t.tables.len() == 1
            }
        }),
{
    lemma_appended(s, key, value);
    let t = s.appended(key, value);
    if t.buf.len() >= s.buf_capacity {
        lemma_flushed(t, elapsed);
    }
}

/// Where a device does to the rows of the tables what it is asked to, the table of what it hands
/// back fits, and taking it in leaves the key-value map as it is.
pub proof fn law_device_compaction(s: KvsState, sorted: Seq<Row>, elapsed: Duration)
    requires
        s.wf(),
        s.faithful(),
        s.device_due,
        is_row_sort(s.stored().map_values(|e: Entry| row_of(e)), sorted),
    ensures
        s.fits(table_of(device_output(sorted))),
        s.installed(table_of(device_output(sorted)), elapsed).wf(),
        s.installed(table_of(device_output(sorted)), elapsed).faithful(),
        s.installed(table_of(device_output(sorted)), elapsed).contents() == s.contents(),
{
    law_device_matches_compaction(s.stored(), sorted);
    law_compaction_fits(s);
    law_installed(s, compaction(s.stored()), elapsed);
}

} // verus!
