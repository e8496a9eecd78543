//! What the operations of the store do, said of the entries, tables and numbers they start from and
//! end with.

use std::time::Duration;

use vstd::prelude::*;

use crate::columns::{device_output, law_columns_are_compacted, EntryColumns, Row};
use crate::commands::Command;
use crate::compaction::{
    compaction, law_all_entries, law_compaction_by_newest, law_compaction_in_full,
    law_compaction_shrinks, lemma_all_entries_push, lemma_compaction_table, CompactionKind,
};
use crate::entry::{
    is_newest_at, law_absent_key, law_last_of, law_newest_counts, lemma_newest_at,
    lemma_newest_exists, newest, Entry,
};
use crate::order::{by_key_then_seq, is_stable_sort_with};
use crate::run::{law_store_matches_map, map_after, map_after_all};
use crate::state::{law_installed, newest_in_tables, KvsState};
use crate::table::{lemma_table_of, table_of};

verus! {

/// A new store has the settings it was asked for, and nothing else in it.
pub proof fn law_new_store(
    buf_capacity: usize,
    compaction_threshold: usize,
    compaction_kind: CompactionKind,
)
    ensures
        ({
            let s = KvsState::initial(buf_capacity, compaction_threshold, compaction_kind);
            &&& s.buf_capacity == buf_capacity
            &&& s.compaction_threshold == compaction_threshold
            &&& s.compaction_kind == compaction_kind
            &&& s.buf.len() == 0
            &&& s.tables.len() == 0
            &&& s.next_seq == 0
            &&& s.next_compaction_id == 0
            &&& s.compaction_stats.len() == 0
            &&& !s.device_due
        }),
{
}

/// The entries of the store are its tables one behind the other and then the buffer.
pub proof fn law_entries(s: KvsState)
    ensures
        s.stored() == s.tables.flatten(),
        s.all() == s.tables.flatten() + s.buf,
{
    law_all_entries(s.tables);
}

/// Between two operations there is room in the buffer, its sequence numbers increase and have been
/// given out, and there are fewer tables than the threshold, except for the one that a compaction
/// leaves and the one too many that a device is waited for with.
pub proof fn law_bounds(s: KvsState)
    requires
        s.wf(),
    ensures
        s.buf.len() < s.buf_capacity,
        forall|i: int, j: int|
            #![trigger s.buf[i], s.buf[j]]
            0 <= i < j < s.buf.len() ==> s.buf[i].seq < s.buf[j].seq,
        forall|i: int| 0 <= i < s.buf.len() ==> (#[trigger] s.buf[i]).seq < s.next_seq,
        !s.device_due ==> s.tables.len() < s.compaction_threshold || s.tables.len() <= 1,
        s.device_due ==> s.compaction_kind is Gpu && s.tables.flatten().len() > 0,
        forall|i: int|
            0 <= i < s.compaction_stats.len() ==> (#[trigger] s.compaction_stats[i]).id
                == s.next_compaction_id - s.compaction_stats.len() + i,
{
    law_entries(s);
}

/// When the store can be written, flushed and compacted.
pub proof fn law_permissions(s: KvsState)
    ensures
        s.may_write() <==> {
            &&& !s.device_due
            &&& s.next_seq < u32::MAX
            &&& s.buf.len() + 1 < s.buf_capacity || s.tables.len() + 1 < s.compaction_threshold || (
            s.next_compaction_id < u64::MAX && s.tables.flatten().len() + s.buf.len() < usize::MAX)
        },
        s.may_flush() <==> {
            &&& !s.device_due
            &&& s.buf.len() == 0 || s.tables.len() + 1 < s.compaction_threshold || (
            s.next_compaction_id < u64::MAX && s.tables.flatten().len() + s.buf.len() <= usize::MAX)
        },
        s.may_compact() <==> {
            &&& !s.device_due
            &&& s.tables.len() == 0 || (s.next_compaction_id < u64::MAX && s.tables.flatten().len()
                <= usize::MAX)
        },
        forall|command: Command| #[trigger]
            s.may_step(command) <==> (match command {
                Command::Get { .. } => true,
                _ => s.may_write(),
            }),
{
    law_entries(s);
}

/// A key in the buffer has the value of its last entry there.
pub proof fn law_lookup_buffered(s: KvsState, key: u32, i: int)
    requires
        0 <= i < s.buf.len(),
        s.buf[i].key == key,
        forall|j: int| i < j < s.buf.len() ==> (#[trigger] s.buf[j]).key != key,
    ensures
        s.lookup(key) == s.buf[i].value,
        s.contents().contains_key(key) <==> s.buf[i].value is Some,
        s.buf[i].value is Some ==> s.contents()[key] == s.buf[i].value->0,
{
    law_last_of(s.buf, key, i);
}

/// A key that is not in the buffer has the value of the entry with the highest sequence number, the
/// first of them where several have it, in the newest table that the key is in.
pub proof fn law_lookup_stored(s: KvsState, key: u32, n: int, i: int)
    requires
        forall|j: int| 0 <= j < s.buf.len() ==> (#[trigger] s.buf[j]).key != key,
        0 <= n < s.tables.len(),
        forall|m: int, j: int|
            #![trigger s.tables[m][j]]
            n < m < s.tables.len() && 0 <= j < s.tables[m].len() ==> s.tables[m][j].key != key,
        0 <= i < s.tables[n].len(),
        s.tables[n][i].key == key,
        forall|j: int|
            0 <= j < s.tables[n].len() && (#[trigger] s.tables[n][j]).key == key
                ==> s.tables[n][j].seq < s.tables[n][i].seq || (s.tables[n][j].seq
                == s.tables[n][i].seq && i <= j),
    ensures
        s.lookup(key) == s.tables[n][i].value,
        s.contents().contains_key(key) <==> s.tables[n][i].value is Some,
        s.tables[n][i].value is Some ==> s.contents()[key] == s.tables[n][i].value->0,
{
    law_absent_key(s.buf, key);
    law_newest_counts(s.tables[n], key, i);
    lemma_found_in(s.tables, key, n);
}

/// What is found from the newest table back is what the first table with the key holds.
proof fn lemma_found_in(tables: Seq<Seq<Entry>>, key: u32, n: int)
    requires
        0 <= n < tables.len(),
        newest(tables[n], key) is Some,
        forall|m: int, j: int|
            #![trigger tables[m][j]]
            n < m < tables.len() && 0 <= j < tables[m].len() ==> tables[m][j].key != key,
    ensures
        newest_in_tables(tables, key) == newest(tables[n], key),
    decreases tables.len(),
{
    if n < tables.len() - 1 {
        law_absent_key(tables.last(), key);
        let rest = tables.drop_last();
        assert forall|m: int, j: int|
            #![trigger rest[m][j]]
            n < m < rest.len() && 0 <= j < rest[m].len() implies rest[m][j].key != key by {
            assert(rest[m] == tables[m]);
            assert(tables[m][j].key != key);
        }
        lemma_found_in(rest, key, n);
    }
}

/// A key that has no entry has no value.
pub proof fn law_lookup_absent(s: KvsState, key: u32)
    requires
        forall|j: int| 0 <= j < s.buf.len() ==> (#[trigger] s.buf[j]).key != key,
        forall|m: int, j: int|
            #![trigger s.tables[m][j]]
            0 <= m < s.tables.len() && 0 <= j < s.tables[m].len() ==> s.tables[m][j].key != key,
    ensures
        s.lookup(key) is None,
        !s.contents().contains_key(key),
{
    law_absent_key(s.buf, key);
    lemma_found_nowhere(s.tables, key);
}

/// Nothing is found in tables without the key.
proof fn lemma_found_nowhere(tables: Seq<Seq<Entry>>, key: u32)
    requires
        forall|m: int, j: int|
            #![trigger tables[m][j]]
            0 <= m < tables.len() && 0 <= j < tables[m].len() ==> tables[m][j].key != key,
    ensures
        newest_in_tables(tables, key) is None,
    decreases tables.len(),
{
    if tables.len() > 0 {
        law_absent_key(tables.last(), key);
        let rest = tables.drop_last();
        assert forall|m: int, j: int|
            #![trigger rest[m][j]]
            0 <= m < rest.len() && 0 <= j < rest[m].len() implies rest[m][j].key != key by {
            assert(rest[m] == tables[m]);
            assert(tables[m][j].key != key);
        }
        lemma_found_nowhere(rest, key);
    }
}

/// A table that takes the place of the others is the only one, with the entries it had. The record
/// counts the tables and the entries that there were and the entries that there are, and has the
/// next number, the kind and the time. Nothing else changes, but that no device is waited for.
pub proof fn law_installed_in_full(s: KvsState, output: Seq<Entry>, elapsed: Duration)
    requires
        s.tables.len() <= usize::MAX,
        s.tables.flatten().len() <= usize::MAX,
        output.len() <= usize::MAX,
        s.next_compaction_id < u64::MAX,
    ensures
        ({
            let t = s.installed(output, elapsed);
            let record = t.compaction_stats.last();
            &&& t.tables.len() == 1
            &&& t.tables[0] == output
            &&& !t.device_due
            &&& t.buf == s.buf
            &&& t.next_seq == s.next_seq
            &&& t.buf_capacity == s.buf_capacity
            &&& t.compaction_threshold == s.compaction_threshold
            &&& t.compaction_kind == s.compaction_kind
            &&& t.next_compaction_id == s.next_compaction_id + 1
            &&& t.compaction_stats.len() == s.compaction_stats.len() + 1
            &&& t.compaction_stats.drop_last() == s.compaction_stats
            &&& record.id == s.next_compaction_id
            &&& record.kind == s.compaction_kind
            &&& record.input_tables == s.tables.len()
            &&& record.output_tables == 1
            &&& record.input_entries == s.tables.flatten().len()
            &&& record.output_entries == output.len()
            &&& record.elapsed == elapsed
        }),
{
    law_entries(s);
    let t = s.installed(output, elapsed);
    assert(t.compaction_stats.drop_last() =~= s.compaction_stats);
}

/// A compaction without tables changes nothing. One that needs a device changes nothing but that
/// the device is waited for. Any other leaves one table, with increasing keys, which holds an entry
/// exactly where that is a put and the newest of its key in the tables that there were, and adds
/// the record of it; all else stays as it is.
pub proof fn law_compacted_in_full(s: KvsState, elapsed: Duration)
    requires
        s.wf(),
        s.may_compact(),
    ensures
        ({
            let t = s.compacted(elapsed);
            let before = s.tables.flatten();
            let record = t.compaction_stats.last();
            if s.tables.len() == 0 {
                t == s
            } else if s.compaction_kind is Gpu && before.len() > 0 {
                t == (KvsState { device_due: true, ..s })
            } else {
                &&& t.tables.len() == 1
                &&& forall|a: int, b: int|
                    #![trigger t.tables[0][a], t.tables[0][b]]
                    0 <= a < b < t.tables[0].len() ==> t.tables[0][a].key < t.tables[0][b].key
                &&& forall|e: Entry| #[trigger]
                    t.tables[0].contains(e) <==> e.value is Some && exists|i: int|
                        {
                            &&& 0 <= i < before.len()
                            &&& #[trigger] before[i] == e
                            &&& forall|j: int|
                                0 <= j < before.len() && (#[trigger] before[j]).key == e.key
                                    ==> before[j].seq < e.seq || (before[j].seq == e.seq && i <= j)
                        }
                &&& t.buf == s.buf
                &&& t.next_seq == s.next_seq
                &&& t.buf_capacity == s.buf_capacity
                &&& t.compaction_threshold == s.compaction_threshold
                &&& t.compaction_kind == s.compaction_kind
                &&& !t.device_due
                &&& t.next_compaction_id == s.next_compaction_id + 1
                &&& t.compaction_stats.len() == s.compaction_stats.len() + 1
                &&& t.compaction_stats.drop_last() == s.compaction_stats
                &&& record.id == s.next_compaction_id
                &&& record.kind == s.compaction_kind
                &&& record.input_tables == s.tables.len()
                &&& record.output_tables == 1
                &&& record.input_entries == before.len()
                &&& record.output_entries == t.tables[0].len()
                &&& record.elapsed == elapsed
            }
        }),
{
    let output = compaction(s.tables.flatten());
    law_entries(s);
    lemma_compacted_to(s, elapsed);
    if s.tables.len() > 0 && !(s.compaction_kind is Gpu && s.tables.flatten().len() > 0) {
        law_installed_in_full(s, output, elapsed);
        law_compaction_in_full(s.tables.flatten());
    }
}

/// A compaction in terms of the table that it leaves.
proof fn lemma_compacted_to(s: KvsState, elapsed: Duration)
    requires
        s.may_compact(),
        s.tables.len() <= usize::MAX,
    ensures
        s.tables.len() == 0 ==> s.compacted(elapsed) == s,
        s.tables.len() > 0 && s.compaction_kind is Gpu && s.tables.flatten().len() > 0
            ==> s.compacted(elapsed) == (KvsState { device_due: true, ..s }),
        s.tables.len() > 0 && !(s.compaction_kind is Gpu && s.tables.flatten().len() > 0)
            ==> s.compacted(elapsed) == s.installed(compaction(s.tables.flatten()), elapsed),
        compaction(s.tables.flatten()).len() <= s.tables.flatten().len(),
{
    law_entries(s);
    law_compaction_shrinks(s.tables.flatten());
}

/// Making a table of the later entries keeps the newest entry of every key.
proof fn lemma_newest_with_table(a: Seq<Entry>, b: Seq<Entry>, key: u32)
    ensures
        newest(a + table_of(b), key) == newest(a + b, key),
{
    let s = a + b;
    let t = a + table_of(b);
    lemma_table_of(b);
    let p = choose|p: Seq<int>| is_stable_sort_with(b, table_of(b), by_key_then_seq(), p);
    lemma_newest_exists(s, key);
    lemma_newest_exists(t, key);
    if newest(s, key) is Some {
        let k = choose|k: int| is_newest_at(s, key, k);
        lemma_newest_at(s, key, k);
        let i = if k < a.len() {
            k
        } else {
            assert(p.contains(k - a.len()));
            a.len() + choose|i: int| 0 <= i < p.len() && p[i] == k - a.len()
        };
        assert(t[i] == s[k]);
        assert forall|j: int| #![trigger t[j]] 0 <= j < t.len() && t[j].key == key implies {
            &&& t[j].seq <= t[i].seq
            &&& t[j].seq == t[i].seq ==> i <= j
        } by {
            if j < a.len() {
                assert(s[j] == t[j]);
            } else {
                let m = j - a.len();
                assert(table_of(b)[m] == b[p[m]]);
                assert(s[a.len() + p[m]] == t[j]);
            }
        }
        assert(is_newest_at(t, key, i));
        lemma_newest_at(t, key, i);
    } else if newest(t, key) is Some {
        let j = choose|j: int| is_newest_at(t, key, j);
        if j < a.len() {
            assert(s[j].key == key);
        } else {
            let m = j - a.len();
            assert(table_of(b)[m] == b[p[m]]);
            assert(s[a.len() + p[m]].key == key);
        }
    }
}

/// A flush below the threshold, and on a GPU any, leaves the buffer empty and what was buffered as
/// one more table, each entry once, by key and within a key by sequence number. At the threshold
/// the device is waited for. Nothing else changes.
pub proof fn law_flush_adds_a_table(s: KvsState, elapsed: Duration)
    requires
        s.wf(),
        s.may_flush(),
        s.buf.len() > 0,
        s.tables.len() + 1 < s.compaction_threshold || s.compaction_kind is Gpu,
    ensures
        ({
            let t = s.flushed(elapsed);
            let buf = s.buf;
            let table = t.tables.last();
            &&& t == (KvsState {
                buf: Seq::empty(),
                tables: s.tables.push(table),
                device_due: s.tables.len() + 1 >= s.compaction_threshold,
                ..s
            })
            &&& exists|p: Seq<int>|
                {
                    &&& #[trigger] p.no_duplicates()
                    &&& p.len() == buf.len()
                    &&& table.len() == buf.len()
                    &&& forall|i: int|
                        0 <= i < p.len() ==> 0 <= #[trigger] p[i] < buf.len() && table[i]
                            == buf[p[i]]
                    &&& forall|i: int, j: int|
                        #![trigger table[i], table[j]]
                        0 <= i < j < p.len() ==> table[i].key < table[j].key || (table[i].key
                            == table[j].key && table[i].seq < table[j].seq)
                }
        }),
{
    law_entries(s);
    lemma_flushed_to(s, elapsed);
    let p = lemma_buffer_table(s.buf);
    assert(s.flushed(elapsed).tables.last() == table_of(s.buf));
    assert(p.no_duplicates());
}

/// A flush that reaches the threshold leaves, on the CPU, one table with increasing keys, which
/// holds an entry exactly where that is a put and the newest of its key in the tables and the
/// buffer that there were, and the record of the compaction counts them.
pub proof fn law_flush_compacts(s: KvsState, elapsed: Duration)
    requires
        s.wf(),
        s.may_flush(),
        s.buf.len() > 0,
        s.tables.len() + 1 >= s.compaction_threshold,
        s.compaction_kind is Cpu,
    ensures
        ({
            let t = s.flushed(elapsed);
            let before = s.tables.flatten() + s.buf;
            let table = t.tables.last();
            let record = t.compaction_stats.last();
            &&& t.buf.len() == 0
            &&& t.tables.len() == 1
            &&& forall|a: int, b: int|
                #![trigger table[a], table[b]]
                0 <= a < b < table.len() ==> table[a].key < table[b].key
            &&& forall|e: Entry| #[trigger]
                table.contains(e) <==> e.value is Some && exists|i: int|
                    {
                        &&& 0 <= i < before.len()
                        &&& #[trigger] before[i] == e
                        &&& forall|j: int|
                            0 <= j < before.len() && (#[trigger] before[j]).key == e.key
                                ==> before[j].seq < e.seq || (before[j].seq == e.seq && i <= j)
                    }
            &&& t.next_seq == s.next_seq
            &&& t.buf_capacity == s.buf_capacity
            &&& t.compaction_threshold == s.compaction_threshold
            &&& t.compaction_kind == s.compaction_kind
            &&& !t.device_due
            &&& t.next_compaction_id == s.next_compaction_id + 1
            &&& t.compaction_stats.len() == s.compaction_stats.len() + 1
            &&& t.compaction_stats.drop_last() == s.compaction_stats
            &&& record.id == s.next_compaction_id
            &&& record.kind == s.compaction_kind
            &&& record.input_tables == s.tables.len() + 1
            &&& record.output_tables == 1
            &&& record.input_entries == before.len()
            &&& record.output_entries == table.len()
            &&& record.elapsed == elapsed
        }),
{
    let before = s.tables.flatten() + s.buf;
    let u = KvsState { buf: Seq::empty(), tables: s.tables.push(table_of(s.buf)), ..s };
    law_entries(s);
    lemma_flushed_to(s, elapsed);
    law_installed_in_full(u, compaction(before), elapsed);
    law_compaction_in_full(before);
}

/// A flush of an empty buffer changes nothing.
pub proof fn law_flush_of_nothing(s: KvsState, elapsed: Duration)
    requires
        s.buf.len() == 0,
    ensures
        s.flushed(elapsed) == s,
{
}

/// A flush in terms of the table that it leaves.
proof fn lemma_flushed_to(s: KvsState, elapsed: Duration)
    requires
        s.numbered(),
        s.buf.len() > 0,
        s.tables.len() <= s.resting_tables(),
        s.may_flush(),
    ensures
        ({
            let t = s.flushed(elapsed);
            let before = s.tables.flatten() + s.buf;
            let u = KvsState {
                buf: Seq::empty(),
                tables: s.tables.push(table_of(s.buf)),
                ..s
            };
            &&& u.tables.flatten().len() == before.len()
            &&& compaction(before).len() <= before.len()
            &&& if s.tables.len() + 1 < s.compaction_threshold {
                t == u
            } else if s.compaction_kind is Gpu {
                t == (KvsState { device_due: true, ..u })
            } else {
                t == u.installed(compaction(before), elapsed)
            }
        }),
{
    let u = s.sealed();
    let sorted = table_of(s.buf);
    let before = s.tables.flatten() + s.buf;
    law_entries(s);
    law_entries(u);
    lemma_table_of(s.buf);
    lemma_all_entries_push(s.tables, sorted);
    assert forall|key: u32| #[trigger]
        newest(s.tables.flatten() + sorted, key) == newest(before, key) by {
        lemma_newest_with_table(s.tables.flatten(), s.buf, key);
    }
    law_compaction_by_newest(s.tables.flatten() + sorted, before);
    law_compaction_shrinks(before);
    if s.tables.len() + 1 >= s.compaction_threshold {
        lemma_compacted_to(u, elapsed);
    }
}

/// The table of a buffer is strictly sorted, since no two entries share a sequence number.
proof fn lemma_buffer_table(buf: Seq<Entry>) -> (p: Seq<int>)
    requires
        forall|i: int, j: int|
            #![trigger buf[i], buf[j]]
            0 <= i < j < buf.len() ==> buf[i].seq < buf[j].seq,
    ensures
        p.no_duplicates(),
        p.len() == buf.len(),
        table_of(buf).len() == buf.len(),
        forall|i: int|
            0 <= i < p.len() ==> 0 <= #[trigger] p[i] < buf.len() && table_of(buf)[i] == buf[p[i]],
        forall|i: int, j: int|
            #![trigger table_of(buf)[i], table_of(buf)[j]]
            0 <= i < j < p.len() ==> table_of(buf)[i].key < table_of(buf)[j].key || (table_of(
                buf,
            )[i].key == table_of(buf)[j].key && table_of(buf)[i].seq < table_of(buf)[j].seq),
{
    let t = table_of(buf);
    lemma_table_of(buf);
    let p = choose|p: Seq<int>| is_stable_sort_with(buf, t, by_key_then_seq(), p);
    assert(p.no_duplicates());
    assert forall|i: int| 0 <= i < p.len() implies 0 <= #[trigger] p[i] < buf.len() && t[i]
        == buf[p[i]] by {
        assert(t[i] == buf[p[i]]);
    }
    assert forall|i: int, j: int|
        #![trigger t[i], t[j]]
        0 <= i < j < p.len() implies t[i].key < t[j].key || (t[i].key == t[j].key && t[i].seq
        < t[j].seq) by {
        assert(by_key_then_seq()(t[i], t[j]) || (!by_key_then_seq()(t[j], t[i]) && p[i] < p[j]));
        assert(t[i] == buf[p[i]] && t[j] == buf[p[j]]);
    }
    p
}

/// A write that does not fill the buffer takes the next sequence number, its entry is the last in
/// the buffer, and nothing else changes.
pub proof fn law_write_is_buffered(s: KvsState, key: u32, value: Option<u64>, elapsed: Duration)
    requires
        s.wf(),
        s.may_write(),
        s.buf.len() + 1 < s.buf_capacity,
    ensures
        ({
            let t = s.written(key, value, elapsed);
            &&& t.next_seq == s.next_seq + 1
            &&& t == (KvsState {
                buf: s.buf.push(Entry { key, seq: s.next_seq, value }),
                next_seq: t.next_seq,
                ..s
            })
        }),
{
}

/// A write that fills the buffer below the threshold, and on a GPU any that fills it, leaves the
/// buffer empty and what was buffered, with the new entry, as one more table, each entry once, by
/// key and within a key by sequence number. At the threshold the device is waited for. Nothing else
/// changes but the next sequence number.
pub proof fn law_write_adds_a_table(
    s: KvsState,
    key: u32,
    value: Option<u64>,
    elapsed: Duration,
)
    requires
        s.wf(),
        s.may_write(),
        s.buf.len() + 1 >= s.buf_capacity,
        s.tables.len() + 1 < s.compaction_threshold || s.compaction_kind is Gpu,
    ensures
        ({
            let t = s.written(key, value, elapsed);
            let buf = s.buf.push(Entry { key, seq: s.next_seq, value });
            let table = t.tables.last();
            &&& t == (KvsState {
                buf: Seq::empty(),
                tables: s.tables.push(table),
                next_seq: t.next_seq,
                device_due: s.tables.len() + 1 >= s.compaction_threshold,
                ..s
            })
            &&& t.next_seq == s.next_seq + 1
            &&& exists|p: Seq<int>|
                {
                    &&& #[trigger] p.no_duplicates()
                    &&& p.len() == buf.len()
                    &&& table.len() == buf.len()
                    &&& forall|i: int|
                        0 <= i < p.len() ==> 0 <= #[trigger] p[i] < buf.len() && table[i]
                            == buf[p[i]]
                    &&& forall|i: int, j: int|
                        #![trigger table[i], table[j]]
                        0 <= i < j < p.len() ==> table[i].key < table[j].key || (table[i].key
                            == table[j].key && table[i].seq < table[j].seq)
                }
        }),
{
    let u = s.appended(key, value);
    law_entries(s);
    law_entries(u);
    assert(u.numbered());
    lemma_flushed_to(u, elapsed);
    let p = lemma_buffer_table(u.buf);
    assert(u.flushed(elapsed).tables.last() == table_of(u.buf));
    assert(p.no_duplicates());
}

/// A write that fills the buffer and reaches the threshold leaves, on the CPU, one table with
/// increasing keys, which holds an entry exactly where that is a put and the newest of its key in
/// the tables, the buffer and the write, and the record of the compaction counts them.
pub proof fn law_write_compacts(
    s: KvsState,
    key: u32,
    value: Option<u64>,
    elapsed: Duration,
)
    requires
        s.wf(),
        s.may_write(),
        s.buf.len() + 1 >= s.buf_capacity,
        s.tables.len() + 1 >= s.compaction_threshold,
        s.compaction_kind is Cpu,
    ensures
        ({
            let t = s.written(key, value, elapsed);
            let before = s.tables.flatten() + s.buf.push(Entry { key, seq: s.next_seq, value });
            let table = t.tables.last();
            let record = t.compaction_stats.last();
            &&& t.buf.len() == 0
            &&& t.tables.len() == 1
            &&& forall|a: int, b: int|
                #![trigger table[a], table[b]]
                0 <= a < b < table.len() ==> table[a].key < table[b].key
            &&& forall|e: Entry| #[trigger]
                table.contains(e) <==> e.value is Some && exists|i: int|
                    {
                        &&& 0 <= i < before.len()
                        &&& #[trigger] before[i] == e
                        &&& forall|j: int|
                            0 <= j < before.len() && (#[trigger] before[j]).key == e.key
                                ==> before[j].seq < e.seq || (before[j].seq == e.seq && i <= j)
                    }
            &&& t.next_seq == s.next_seq + 1
            &&& t.buf_capacity == s.buf_capacity
            &&& t.compaction_threshold == s.compaction_threshold
            &&& t.compaction_kind == s.compaction_kind
            &&& !t.device_due
            &&& t.next_compaction_id == s.next_compaction_id + 1
            &&& t.compaction_stats.len() == s.compaction_stats.len() + 1
            &&& t.compaction_stats.drop_last() == s.compaction_stats
            &&& record.id == s.next_compaction_id
            &&& record.kind == s.compaction_kind
            &&& record.input_tables == s.tables.len() + 1
            &&& record.output_tables == 1
            &&& record.input_entries == before.len()
            &&& record.output_entries == table.len()
            &&& record.elapsed == elapsed
        }),
{
    let u = s.appended(key, value);
    let before = s.tables.flatten() + u.buf;
    let v = KvsState { buf: Seq::empty(), tables: s.tables.push(table_of(u.buf)), ..u };
    law_entries(s);
    law_entries(u);
    assert(u.numbered());
    lemma_flushed_to(u, elapsed);
    law_installed_in_full(v, compaction(before), elapsed);
    law_compaction_in_full(before);
}

/// A store that waits for a device, and takes in the table of what the device made of the columns
/// it was given, has the newest entry of each key where it is a put, and every key has the value
/// that it had, provided that the device sorts the rows by key and from the newest to the oldest,
/// takes the first row of each key and leaves out the deletes.
pub proof fn law_device_round_trip(
    s: KvsState,
    columns: EntryColumns,
    sorted: Seq<Row>,
    p: Seq<int>,
    elapsed: Duration,
)
    requires
        s.wf(),
        s.faithful(),
        s.device_due,
        columns.holds(s.tables.flatten()),
        p.len() == columns.keys@.len(),
        p.no_duplicates(),
        forall|k: int| 0 <= k < p.len() ==> #[trigger] p.contains(k),
        sorted.len() == p.len(),
        forall|i: int|
            0 <= i < p.len() ==> {
                &&& 0 <= #[trigger] p[i] < p.len()
                &&& sorted[i].key == columns.keys@[p[i]]
                &&& sorted[i].seq == columns.seqs@[p[i]]
                &&& sorted[i].value == columns.values@[p[i]]
                &&& sorted[i].is_deleted == columns.is_deleted@[p[i]]
            },
        forall|i: int, j: int|
            #![trigger sorted[i], sorted[j]]
            0 <= i < j < sorted.len() ==> sorted[i].key < sorted[j].key || (sorted[i].key
                == sorted[j].key && sorted[i].seq >= sorted[j].seq),
    ensures
        ({
            let t = s.installed(table_of(device_output(sorted)), elapsed);
            let before = s.tables.flatten();
            &&& t.wf()
            &&& t.faithful()
            &&& t.tables.len() == 1
            &&& forall|a: int, b: int|
                #![trigger t.tables[0][a], t.tables[0][b]]
                0 <= a < b < t.tables[0].len() ==> t.tables[0][a].key < t.tables[0][b].key
            &&& forall|e: Entry| #[trigger]
                t.tables[0].contains(e) <==> e.value is Some && exists|i: int|
                    {
                        &&& 0 <= i < before.len()
                        &&& #[trigger] before[i] == e
                        &&& forall|j: int|
                            0 <= j < before.len() && (#[trigger] before[j]).key == e.key
                                ==> before[j].seq < e.seq || (before[j].seq == e.seq && i <= j)
                    }
            &&& t.contents() == s.contents()
        }),
{
    let before = s.tables.flatten();
    law_entries(s);
    law_columns_are_compacted(columns, before, sorted, p);
    lemma_compaction_table(before);
    law_compaction_in_full(before);
    law_installed(s, compaction(before), elapsed);
}

/// What a command makes of a state: a put and a delete are a write, with the value and without one,
/// and a get changes nothing. Where that leaves a device to be waited for, its compaction of the
/// tables takes their place.
pub proof fn law_after(s: KvsState, command: Command, elapsed: Duration)
    ensures
        ({
            let t = match command {
                Command::Put { key, value } => s.written(key, Some(value), elapsed),
                Command::Delete { key } => s.written(key, None, elapsed),
                Command::Get { .. } => s,
            };
            &&& s.stepped(command, elapsed) == t
            &&& s.after(command, elapsed) == if t.device_due {
                t.installed(compaction(t.tables.flatten()), elapsed)
            } else {
                t
            }
        }),
{
    law_entries(s.stepped(command, elapsed));
}

/// Commands are carried out one after the other, each with the time listed for it.
pub proof fn law_after_all(
    s: KvsState,
    commands: Seq<Command>,
    command: Command,
    elapsed: Seq<Duration>,
)
    ensures
        s.after_all(Seq::empty(), elapsed) == s,
        s.after_all(commands.push(command), elapsed) == s.after_all(commands, elapsed).after(
            command,
            elapsed[commands.len() as int],
        ),
        s.may_run(Seq::empty(), elapsed),
        s.may_run(commands.push(command), elapsed) <==> s.may_run(commands, elapsed) && (
        command is Get || s.after_all(commands, elapsed).may_write()),
{
    assert(commands.push(command).drop_last() =~= commands);
}

/// After any commands a key has the value of the last put of it, where no delete of it came later,
/// and none where a delete was last.
pub proof fn law_last_write_counts(
    s: KvsState,
    commands: Seq<Command>,
    elapsed: Seq<Duration>,
    key: u32,
    value: u64,
    i: int,
)
    requires
        s.wf(),
        s.faithful(),
        !s.device_due,
        s.may_run(commands, elapsed),
        0 <= i < commands.len(),
        forall|j: int|
            i < j < commands.len() ==> (match #[trigger] commands[j] {
                Command::Put { key: k, .. } => k != key,
                Command::Delete { key: k } => k != key,
                Command::Get { .. } => true,
            }),
    ensures
        commands[i] == (Command::Put { key, value }) ==> s.after_all(commands, elapsed).lookup(key)
            == Some(value),
        commands[i] == (Command::Delete { key }) ==> s.after_all(commands, elapsed).lookup(key)
            is None,
{
    law_store_matches_map(s, commands, elapsed);
    let t = s.after_all(commands, elapsed);
    assert(t.contents().contains_key(key) <==> t.lookup(key) is Some);
    lemma_map_after_last(s.contents(), commands, key, i);
}

/// A key that no command puts or deletes keeps its value.
pub proof fn law_other_keys_stay(
    s: KvsState,
    commands: Seq<Command>,
    elapsed: Seq<Duration>,
    key: u32,
)
    requires
        s.wf(),
        s.faithful(),
        !s.device_due,
        s.may_run(commands, elapsed),
        forall|j: int|
            0 <= j < commands.len() ==> (match #[trigger] commands[j] {
                Command::Put { key: k, .. } => k != key,
                Command::Delete { key: k } => k != key,
                Command::Get { .. } => true,
            }),
    ensures
        s.after_all(commands, elapsed).lookup(key) == s.lookup(key),
{
    law_store_matches_map(s, commands, elapsed);
    let t = s.after_all(commands, elapsed);
    assert(t.contents().contains_key(key) <==> t.lookup(key) is Some);
    assert(s.contents().contains_key(key) <==> s.lookup(key) is Some);
    lemma_map_keeps(s.contents(), commands, key, 0);
}

/// Commands that neither put nor delete a key, from number `n` on, leave it in a map as it is.
proof fn lemma_map_keeps(map: Map<u32, u64>, commands: Seq<Command>, key: u32, n: int)
    requires
        0 <= n <= commands.len(),
        forall|j: int|
            n <= j < commands.len() ==> (match #[trigger] commands[j] {
                Command::Put { key: k, .. } => k != key,
                Command::Delete { key: k } => k != key,
                Command::Get { .. } => true,
            }),
    ensures
        ({
            let before = map_after_all(map, commands.take(n));
            let after = map_after_all(map, commands);
            &&& after.contains_key(key) <==> before.contains_key(key)
            &&& before.contains_key(key) ==> after[key] == before[key]
        }),
    decreases commands.len(),
{
    if n == commands.len() {
        assert(commands.take(n) =~= commands);
    } else {
        let front = commands.drop_last();
        let last = commands.len() - 1;
        assert(front.take(n) =~= commands.take(n));
        assert forall|j: int| n <= j < front.len() implies (match #[trigger] front[j] {
            Command::Put { key: k, .. } => k != key,
            Command::Delete { key: k } => k != key,
            Command::Get { .. } => true,
        }) by {
            assert(front[j] == commands[j]);
        }
        lemma_map_keeps(map, front, key, n);
        assert(commands[last] == commands.last());
    }
}

/// The last command on a key decides what a map holds of it.
proof fn lemma_map_after_last(map: Map<u32, u64>, commands: Seq<Command>, key: u32, i: int)
    requires
        0 <= i < commands.len(),
        forall|j: int|
            i < j < commands.len() ==> (match #[trigger] commands[j] {
                Command::Put { key: k, .. } => k != key,
                Command::Delete { key: k } => k != key,
                Command::Get { .. } => true,
            }),
    ensures
        ({
            let after = map_after_all(map, commands);
            match commands[i] {
                Command::Put { key: k, value } => k == key ==> after.contains_key(key)
                    && after[key] == value,
                Command::Delete { key: k } => k == key ==> !after.contains_key(key),
                Command::Get { .. } => true,
            }
        }),
{
    let upto = commands.take(i + 1);
    assert(upto.drop_last() =~= commands.take(i));
    assert(upto.last() == commands[i]);
    assert(map_after_all(map, upto) == map_after(
        map_after_all(map, commands.take(i)),
        commands[i],
    ));
    lemma_map_keeps(map, commands, key, i + 1);
}

} // verus!
