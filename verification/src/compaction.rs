//! Compaction of tables into one.

use vstd::prelude::*;

use crate::columns::EntryColumns;
use crate::entry::{
    contents, has_key, is_newest_at, law_newest_in_full, lemma_newest_at, lemma_newest_exists,
    lemma_newest_member, newest, value_of, Entry,
};
use crate::order::{
    by_key_newest_first, by_key_then_seq, is_permutation, is_sorted, lemma_stable_sort,
    lemma_stable_sort_newest, lemma_stable_sort_of_sorted, sort_by_key_newest_first,
};
use crate::table::{lemma_table_of, table_of, SsTable};

verus! {

/// Where the work of a compaction is done.
#[derive(Clone, Copy, Debug, PartialEq, Eq, Structural)]
pub enum CompactionKind {
    Cpu,
    Gpu,
}

/// How far a compaction has come without a device: to the compacted table, or to the columns that
/// a device has to work on.
#[derive(Debug)]
pub enum CompactionWork {
    Table(SsTable),
    Device(EntryColumns),
}

/// The entries of all the tables, in the order of the tables.
pub open spec fn all_entries(tables: Seq<Seq<Entry>>) -> Seq<Entry>
    decreases tables.len(),
{
    if tables.len() == 0 {
        Seq::empty()
    } else {
        all_entries(tables.drop_last()) + tables.last()
    }
}

/// The entries of each of the tables.
pub open spec fn views(tables: Seq<SsTable>) -> Seq<Seq<Entry>> {
    tables.map_values(|table: SsTable| table@)
}

/// The newest entries of the keys below `bound`, in the order of the keys, without the deletes.
pub open spec fn live_below(s: Seq<Entry>, bound: nat) -> Seq<Entry>
    decreases bound,
{
    if bound == 0 {
        Seq::empty()
    } else {
        let below = live_below(s, (bound - 1) as nat);
        let entry = newest(s, (bound - 1) as u32);
        if entry is Some && entry->0.value is Some {
            below.push(entry->0)
        } else {
            below
        }
    }
}

/// What compaction makes of the entries `s`: for each key in turn its newest entry, unless that is
/// a delete.
pub open spec fn compaction(s: Seq<Entry>) -> Seq<Entry> {
    live_below(s, 0x1_0000_0000)
}

/// The keys of `s` increase from each entry to the next.
pub open spec fn keys_increase(s: Seq<Entry>) -> bool {
    forall|i: int, j: int| #![trigger s[i], s[j]] 0 <= i < j < s.len() ==> s[i].key < s[j].key
}

/// Whether `e` is what is left of its key after compaction of `s`.
pub open spec fn is_live(s: Seq<Entry>, e: Entry) -> bool {
    newest(s, e.key) == Some(e) && e.value is Some
}

/// Index `j` of `s`, before `at`, holds `e`, what is left of its key after compaction of `s`.
pub open spec fn is_live_at(s: Seq<Entry>, at: int, e: Entry, j: int) -> bool {
    0 <= j < at && s[j] == e && is_newest_at(s, e.key, j) && e.value is Some
}

/// No two entries of `s` have both the key and the sequence number in common.
pub open spec fn versions_differ(s: Seq<Entry>) -> bool {
    forall|i: int, j: int|
        #![trigger s[i], s[j]]
        0 <= i < j < s.len() ==> s[i].key != s[j].key || s[i].seq != s[j].seq
}

/// Compaction leaves one entry per key, in the order of the keys: the newest, where it is a put.
pub proof fn lemma_compaction(s: Seq<Entry>)
    ensures
        keys_increase(compaction(s)),
        forall|e: Entry| #[trigger] compaction(s).contains(e) <==> is_live(s, e),
{
    lemma_live_below(s, 0x1_0000_0000);
}

/// What holds of all keys holds of those below a bound.
proof fn lemma_live_below(s: Seq<Entry>, bound: nat)
    requires
        bound <= 0x1_0000_0000,
    ensures
        keys_increase(live_below(s, bound)),
        forall|i: int|
            #![trigger live_below(s, bound)[i]]
            0 <= i < live_below(s, bound).len() ==> live_below(s, bound)[i].key < bound,
        forall|e: Entry| #[trigger]
            live_below(s, bound).contains(e) <==> is_live(s, e) && e.key < bound,
    decreases bound,
{
    if bound > 0 {
        let t = live_below(s, bound);
        let below = live_below(s, (bound - 1) as nat);
        let key = (bound - 1) as u32;
        lemma_live_below(s, (bound - 1) as nat);
        if newest(s, key) is Some {
            lemma_newest_member(s, key);
        }
        assert forall|e: Entry| #[trigger] t.contains(e) <==> is_live(s, e) && e.key < bound by {
            if t.contains(e) {
                let i = choose|i: int| 0 <= i < t.len() && t[i] == e;
                if i < below.len() {
                    assert(below.contains(e));
                }
            }
            if is_live(s, e) && e.key < bound {
                if e.key == key {
                    assert(t[t.len() - 1] == e);
                } else {
                    assert(below.contains(e));
                    let i = choose|i: int| 0 <= i < below.len() && below[i] == e;
                    assert(t[i] == e);
                }
            }
        }
    }
}

/// Entries with increasing keys are determined by which entries they are.
proof fn lemma_same_members(a: Seq<Entry>, b: Seq<Entry>)
    requires
        keys_increase(a),
        keys_increase(b),
        forall|e: Entry| #[trigger] a.contains(e) <==> b.contains(e),
    ensures
        a == b,
    decreases a.len(),
{
    if a.len() == 0 {
        if b.len() > 0 {
            assert(a.contains(b[0]));
        }
    } else {
        let x = a.last();
        assert(a.contains(x));
        let j = choose|j: int| 0 <= j < b.len() && b[j] == x;
        let y = b.last();
        assert(a.contains(y));
        let i = choose|i: int| 0 <= i < a.len() && a[i] == y;
        assert(j == b.len() - 1);
        let c = a.drop_last();
        let d = b.drop_last();
        assert forall|e: Entry| #[trigger] c.contains(e) <==> d.contains(e) by {
            if c.contains(e) {
                let k = choose|k: int| 0 <= k < c.len() && c[k] == e;
                assert(a[k] == e && a.contains(e));
                let l = choose|l: int| 0 <= l < b.len() && b[l] == e;
                assert(d[l] == e);
            }
            if d.contains(e) {
                let k = choose|k: int| 0 <= k < d.len() && d[k] == e;
                assert(a.contains(e));
                let l = choose|l: int| 0 <= l < a.len() && a[l] == e;
                assert(c[l] == e);
            }
        }
        lemma_same_members(c, d);
        assert(b =~= d.push(x));
    }
}

/// Compaction is the only sequence with one entry per key, in the order of the keys, that holds
/// the newest entry of each key where it is a put, and nothing else.
pub proof fn lemma_compaction_unique(s: Seq<Entry>, t: Seq<Entry>)
    requires
        keys_increase(t),
        forall|e: Entry| #[trigger] t.contains(e) <==> is_live(s, e),
    ensures
        t == compaction(s),
{
    lemma_compaction(s);
    lemma_same_members(t, compaction(s));
}

/// Entries that agree on the newest entry of every key are compacted to the same.
pub proof fn law_compaction_by_newest(s: Seq<Entry>, t: Seq<Entry>)
    requires
        forall|key: u32| #[trigger] newest(s, key) == newest(t, key),
    ensures
        compaction(s) == compaction(t),
{
    lemma_compaction(s);
    lemma_compaction(t);
    lemma_same_members(compaction(s), compaction(t));
}

/// Rearranging entries no two of which share key and sequence number keeps the newest of each key.
pub proof fn lemma_rearranged_newest(s: Seq<Entry>, t: Seq<Entry>, p: Seq<int>, key: u32)
    requires
        versions_differ(s),
        is_permutation(p, s.len()),
        t == Seq::new(s.len(), |i: int| s[p[i]]),
    ensures
        newest(t, key) == newest(s, key),
{
    lemma_newest_exists(s, key);
    lemma_newest_exists(t, key);
    if newest(s, key) is Some {
        let k = choose|k: int| is_newest_at(s, key, k);
        lemma_newest_at(s, key, k);
        assert(p.contains(k));
        let i = choose|i: int| 0 <= i < p.len() && p[i] == k;
        lemma_newest_at(t, key, i);
    }
}

/// Where no two entries share key and sequence number, the order of the entries, and so that of the
/// tables, makes no difference to the compaction.
pub proof fn law_compaction_any_order(s: Seq<Entry>, t: Seq<Entry>, p: Seq<int>)
    requires
        versions_differ(s),
        is_permutation(p, s.len()),
        t == Seq::new(s.len(), |i: int| s[p[i]]),
    ensures
        compaction(t) == compaction(s),
{
    assert forall|key: u32| #[trigger] newest(t, key) == newest(s, key) by {
        lemma_rearranged_newest(s, t, p, key);
    }
    law_compaction_by_newest(t, s);
}

/// A compacted sequence has the newest entry of every key whose newest entry was a put, and none
/// of the other keys.
pub proof fn law_compaction_newest(s: Seq<Entry>, key: u32)
    ensures
        newest(compaction(s), key) == if newest(s, key) is Some && newest(s, key)->0.value is Some {
            newest(s, key)
        } else {
            None
        },
{
    let t = compaction(s);
    lemma_compaction(s);
    lemma_newest_exists(t, key);
    if has_key(t, key) {
        let i = choose|i: int| 0 <= i < t.len() && (#[trigger] t[i]).key == key;
        assert(t.contains(t[i]));
        lemma_newest_at(t, key, i);
    } else if newest(s, key) is Some && newest(s, key)->0.value is Some {
        let e = newest(s, key)->0;
        lemma_newest_member(s, key);
        assert(t.contains(e));
    }
}

/// Compaction does not change the key-value map.
pub proof fn law_compaction_contents(s: Seq<Entry>)
    ensures
        contents(compaction(s)) == contents(s),
{
    assert forall|key: u32| #[trigger] value_of(compaction(s), key) == value_of(s, key) by {
        law_compaction_newest(s, key);
    }
}

/// Compacting what is compacted changes nothing.
pub proof fn law_compaction_idempotent(s: Seq<Entry>)
    ensures
        compaction(compaction(s)) == compaction(s),
{
    let t = compaction(s);
    lemma_compaction(s);
    assert forall|e: Entry| #[trigger] t.contains(e) <==> is_live(t, e) by {
        law_compaction_newest(s, e.key);
    }
    lemma_compaction_unique(t, t);
}

/// Compaction adds no entry: each one it leaves is one it was given, and there are no more of them.
pub proof fn law_compaction_shrinks(s: Seq<Entry>)
    ensures
        forall|e: Entry| #[trigger] compaction(s).contains(e) ==> s.contains(e),
        compaction(s).len() <= s.len(),
{
    let t = compaction(s);
    lemma_compaction(s);
    assert forall|e: Entry| #[trigger] t.contains(e) implies s.contains(e) by {
        lemma_newest_member(s, e.key);
    }
    t.unique_seq_to_set();
    s.lemma_cardinality_of_set();
    vstd::set_lib::lemma_len_subset(t.to_set(), s.to_set());
}

/// A compacted sequence is a table already.
pub proof fn lemma_compaction_table(s: Seq<Entry>)
    ensures
        table_of(compaction(s)) == compaction(s),
{
    let t = compaction(s);
    lemma_compaction(s);
    lemma_table_of(t);
    lemma_stable_sort_of_sorted(t, table_of(t), by_key_then_seq());
}

/// What the tables one by one add to all the entries.
pub proof fn lemma_all_entries_push(tables: Seq<Seq<Entry>>, table: Seq<Entry>)
    ensures
        all_entries(tables.push(table)) == all_entries(tables) + table,
{
    assert(tables.push(table).drop_last() =~= tables);
}

/// The entries of all the tables are the tables one behind the other.
pub proof fn law_all_entries(tables: Seq<Seq<Entry>>)
    ensures
        all_entries(tables) == tables.flatten(),
    decreases tables.len(),
{
    tables.lemma_flatten_and_flatten_alt_are_equivalent();
    if tables.len() > 0 {
        law_all_entries(tables.drop_last());
        tables.drop_last().lemma_flatten_and_flatten_alt_are_equivalent();
    }
}

/// Compaction leaves entries with increasing keys: of the entries of a key the one with the highest
/// sequence number, the first of them where several have it, provided that it is a put.
pub proof fn law_compaction_in_full(s: Seq<Entry>)
    ensures
        forall|a: int, b: int|
            #![trigger compaction(s)[a], compaction(s)[b]]
            0 <= a < b < compaction(s).len() ==> compaction(s)[a].key < compaction(s)[b].key,
        forall|e: Entry| #[trigger]
            compaction(s).contains(e) <==> e.value is Some && exists|i: int|
                {
                    &&& 0 <= i < s.len()
                    &&& #[trigger] s[i] == e
                    &&& forall|j: int|
                        0 <= j < s.len() && (#[trigger] s[j]).key == e.key ==> s[j].seq < e.seq || (
                        s[j].seq == e.seq && i <= j)
                },
{
    lemma_compaction(s);
    assert forall|e: Entry| #[trigger]
        compaction(s).contains(e) <==> e.value is Some && exists|i: int|
            {
                &&& 0 <= i < s.len()
                &&& #[trigger] s[i] == e
                &&& forall|j: int|
                    0 <= j < s.len() && (#[trigger] s[j]).key == e.key ==> s[j].seq < e.seq || (
                    s[j].seq == e.seq && i <= j)
            } by {
        law_newest_in_full(s, e);
    }
}

/// The first of the tables hold no more entries than all of them.
pub proof fn lemma_all_entries_prefix(tables: Seq<Seq<Entry>>, n: int)
    requires
        0 <= n <= tables.len(),
    ensures
        all_entries(tables.take(n)).len() <= all_entries(tables).len(),
    decreases tables.len() - n,
{
    if n == tables.len() {
        assert(tables.take(n) =~= tables);
    } else {
        lemma_all_entries_prefix(tables, n + 1);
        assert(tables.take(n + 1) =~= tables.take(n).push(tables[n]));
        lemma_all_entries_push(tables.take(n), tables[n]);
    }
}

/// Compacts `tables` into one.
pub fn compact(tables: Vec<SsTable>) -> (table: SsTable)
    ensures
        table@ == compaction(all_entries(views(tables@))),
        keys_increase(table@),
        forall|e: Entry| #[trigger]
            table@.contains(e) <==> is_live(all_entries(views(tables@)), e),
        forall|a: int, b: int|
            #![trigger table@[a], table@[b]]
            0 <= a < b < table@.len() ==> table@[a].key < table@[b].key,
        ({
            let s = tables@.map_values(|t: SsTable| t@).flatten();
            forall|e: Entry| #[trigger]
                table@.contains(e) <==> e.value is Some && exists|i: int|
                    {
                        &&& 0 <= i < s.len()
                        &&& #[trigger] s[i] == e
                        &&& forall|j: int|
                            0 <= j < s.len() && (#[trigger] s[j]).key == e.key ==> s[j].seq < e.seq
                                || (s[j].seq == e.seq && i <= j)
                    }
        }),
{
    proof {
        lemma_compaction(all_entries(views(tables@)));
        law_compaction_in_full(all_entries(views(tables@)));
        lemma_views(tables@);
    }
    compact_cpu(tables)
}

/// Compacts `tables` into one, as far as `kind` lets this be done here: on a GPU only where there
/// are no entries.
pub fn compact_with_kind(tables: Vec<SsTable>, kind: CompactionKind) -> (work: CompactionWork)
    ensures
        work is Device <==> kind is Gpu && all_entries(views(tables@)).len() > 0,
        match work {
            CompactionWork::Table(table) => table@ == compaction(all_entries(views(tables@))),
            CompactionWork::Device(columns) => columns.holds(all_entries(views(tables@))),
        },
        ({
            let s = tables@.map_values(|t: SsTable| t@).flatten();
            match work {
                CompactionWork::Table(table) => {
                    &&& kind is Cpu || s.len() == 0
                    &&& forall|a: int, b: int|
                        #![trigger table@[a], table@[b]]
                        0 <= a < b < table@.len() ==> table@[a].key < table@[b].key
                    &&& forall|e: Entry| #[trigger]
                        table@.contains(e) <==> e.value is Some && exists|i: int|
                            {
                                &&& 0 <= i < s.len()
                                &&& #[trigger] s[i] == e
                                &&& forall|j: int|
                                    0 <= j < s.len() && (#[trigger] s[j]).key == e.key ==> s[j].seq
                                        < e.seq || (s[j].seq == e.seq && i <= j)
                            }
                },
                CompactionWork::Device(columns) => {
                    &&& kind is Gpu
                    &&& s.len() > 0
                    &&& columns.keys@.len() == s.len()
                    &&& columns.seqs@.len() == s.len()
                    &&& columns.values@.len() == s.len()
                    &&& columns.is_deleted@.len() == s.len()
                    &&& forall|i: int|
                        0 <= i < s.len() ==> {
                            &&& #[trigger] columns.keys@[i] == s[i].key
                            &&& columns.seqs@[i] == s[i].seq
                            &&& columns.values@[i] == match s[i].value {
                                Some(value) => value,
                                None => 0,
                            }
                            &&& columns.is_deleted@[i] == if s[i].value is None {
                                1u32
                            } else {
                                0
                            }
                        }
                },
            }
        }),
{
    proof {
        law_compaction_in_full(all_entries(views(tables@)));
        lemma_views(tables@);
    }
    match kind {
        CompactionKind::Cpu => CompactionWork::Table(compact_cpu(tables)),
        CompactionKind::Gpu => compact_gpu(&tables),
    }
}

/// The entries of the tables one behind the other.
pub proof fn lemma_views(tables: Seq<SsTable>)
    ensures
        all_entries(views(tables)) == tables.map_values(|t: SsTable| t@).flatten(),
{
    assert(views(tables) =~= tables.map_values(|t: SsTable| t@));
    law_all_entries(views(tables));
}

/// Lays the entries of `tables` out in columns for a device, or gives the empty table where there
/// are none.
fn compact_gpu(tables: &Vec<SsTable>) -> (work: CompactionWork)
    ensures
        work is Device <==> all_entries(views(tables@)).len() > 0,
        match work {
            CompactionWork::Table(table) => table@ == compaction(all_entries(views(tables@))),
            CompactionWork::Device(columns) => columns.holds(all_entries(views(tables@))),
        },
{
    let columns = EntryColumns::of_tables(tables);
    if columns.keys.len() == 0 {
        proof {
            law_compaction_shrinks(all_entries(views(tables@)));
        }
        CompactionWork::Table(SsTable::default())
    } else {
        CompactionWork::Device(columns)
    }
}

/// The entries of all the tables, in the order of the tables.
fn concat(tables: Vec<SsTable>) -> (entries: Vec<Entry>)
    ensures
        entries@ == all_entries(views(tables@)),
{
    let mut entries: Vec<Entry> = Vec::new();
    for table in it: tables
        invariant
            it.seq() == tables@,
            entries@ == all_entries(views(tables@).take(it.index())),
    {
        proof {
            let done = views(tables@).take(it.index());
            assert(views(tables@).take(it.index() + 1) =~= done.push(table@));
            lemma_all_entries_push(done, table@);
        }
        let mut moved = table.into_entries();
        entries.append(&mut moved);
    }
    assert(views(tables@).take(tables@.len() as int) =~= views(tables@));
    entries
}

/// Keeps the first entry of each run of equal keys, unless it is a delete.
fn compact_cpu(tables: Vec<SsTable>) -> (table: SsTable)
    ensures
        table@ == compaction(all_entries(views(tables@))),
{
    let mut entries = concat(tables);
    let ghost s = entries@;
    sort_by_key_newest_first(&mut entries);
    let ghost t = entries@;
    proof {
        lemma_stable_sort(s, t, by_key_newest_first());
    }
    let mut compacted: Vec<Entry> = Vec::new();
    let mut last_key: Option<u32> = None;
    let mut at: usize = 0;
    while at < entries.len()
        invariant
            at <= entries@.len(),
            entries@ == t,
            is_sorted(t, by_key_newest_first()),
            last_key == (if at == 0 {
                None
            } else {
                Some(t[at - 1].key)
            }),
            keys_increase(compacted@),
            forall|i: int|
                0 <= i < compacted@.len() ==> at > 0 && (#[trigger] compacted@[i]).key <= t[at
                    - 1].key,
            forall|e: Entry| #[trigger]
                compacted@.contains(e) <==> exists|j: int| is_live_at(t, at as int, e, j),
        decreases t.len() - at,
    {
        let entry: Entry = entries[at];
        let key: u32 = entry.key;
        let first: bool = match last_key {
            Some(last) => last != key,
            None => true,
        };
        let ghost before = compacted@;
        let ghost was = at as int;
        if first {
            if entry.value.is_some() {
                compacted.push(entry);
            }
            last_key = Some(key);
        }
        at += 1;
        proof {
            assert forall|e: Entry| #[trigger] compacted@.contains(e) <==> exists|j: int|
                is_live_at(t, at as int, e, j) by {
                if compacted@.contains(e) {
                    let i = choose|i: int| 0 <= i < compacted@.len() && compacted@[i] == e;
                    if i < before.len() {
                        assert(before.contains(e));
                        let j = choose|j: int| is_live_at(t, was, e, j);
                        assert(is_live_at(t, at as int, e, j));
                    } else {
                        assert(is_live_at(t, at as int, e, was));
                    }
                }
                if exists|j: int| is_live_at(t, at as int, e, j) {
                    let j = choose|j: int| is_live_at(t, at as int, e, j);
                    if j < was {
                        assert(is_live_at(t, was, e, j));
                        assert(before.contains(e));
                        let i = choose|i: int| 0 <= i < before.len() && before[i] == e;
                        assert(compacted@[i] == e);
                    } else {
                        assert(compacted@[compacted@.len() - 1] == e);
                    }
                }
            }
        }
    }
    proof {
        let c = compacted@;
        assert forall|e: Entry| #[trigger] c.contains(e) <==> is_live(s, e) by {
            lemma_stable_sort_newest(s, t, by_key_newest_first(), e.key);
            if c.contains(e) {
                let j = choose|j: int| is_live_at(t, at as int, e, j);
                lemma_newest_at(t, e.key, j);
            }
            if is_live(s, e) {
                lemma_newest_exists(t, e.key);
                let j = choose|j: int| is_newest_at(t, e.key, j);
                lemma_newest_at(t, e.key, j);
                assert(is_live_at(t, at as int, e, j));
            }
        }
        lemma_compaction_unique(s, c);
        lemma_compaction_table(s);
    }
    SsTable::new(compacted)
}

} // verus!
