//! Entries as columns, the form in which a device compacts them.

use vstd::prelude::*;

use crate::compaction::{
    all_entries, compaction, is_live, is_live_at, keys_increase, law_compaction_in_full,
    lemma_all_entries_push, lemma_compaction_table, lemma_compaction_unique,
    lemma_rearranged_newest, lemma_views, versions_differ, views,
};
use crate::entry::{is_newest_at, lemma_newest_at, lemma_newest_exists, newest, Entry};
use crate::order::is_permutation;
use crate::table::{table_of, SsTable};

verus! {

/// Entries one field per column. A delete has the value 0 and the mark 1 in the last column, a put
/// has the mark 0.
#[derive(Debug, PartialEq, Eq)]
pub struct EntryColumns {
    pub keys: Vec<u32>,
    pub seqs: Vec<u32>,
    pub values: Vec<u64>,
    pub is_deleted: Vec<u32>,
}

/// The value column of an entry.
pub open spec fn value_column(entry: Entry) -> u64 {
    match entry.value {
        Some(value) => value,
        None => 0,
    }
}

/// The mark column of an entry.
pub open spec fn is_deleted_column(entry: Entry) -> u32 {
    if entry.value is None {
        1
    } else {
        0
    }
}

impl EntryColumns {
    /// The columns are those of the entries `s`, in that order.
    pub open spec fn holds(self, s: Seq<Entry>) -> bool {
        &&& self.keys@ == s.map_values(|e: Entry| e.key)
        &&& self.seqs@ == s.map_values(|e: Entry| e.seq)
        &&& self.values@ == s.map_values(|e: Entry| value_column(e))
        &&& self.is_deleted@ == s.map_values(|e: Entry| is_deleted_column(e))
    }

    /// The columns of the entries of all the tables, in the order of the tables.
    pub fn of_tables(tables: &Vec<SsTable>) -> (columns: Self)
        ensures
            columns.holds(all_entries(views(tables@))),
            ({
                let s = tables@.map_values(|t: SsTable| t@).flatten();
                &&& columns.keys@.len() == s.len()
                &&& columns.seqs@.len() == s.len()
                &&& columns.values@.len() == s.len()
                &&& columns.is_deleted@.len() == s.len()
                &&& forall|i: int|
                    0 <= i < s.len() ==> {
                        &&& #[trigger] columns.keys@[i] == s[i].key
                        &&& columns.seqs@[i] == s[i].seq
                        &&& columns.values@[i] == match s[i].value {
                            Some(value) => value,
                            None => 0,
                        }
                        &&& columns.is_deleted@[i] == if s[i].value is None {
                            1u32
                        } else {
                            0
                        }
                    }
            }),
    {
        let mut columns = EntryColumns {
            keys: Vec::new(),
            seqs: Vec::new(),
            values: Vec::new(),
            is_deleted: Vec::new(),
        };
        let mut i: usize = 0;
        proof {
            let none = Seq::<Entry>::empty();
            assert(columns.keys@ =~= none.map_values(|e: Entry| e.key));
            assert(columns.seqs@ =~= none.map_values(|e: Entry| e.seq));
            assert(columns.values@ =~= none.map_values(|e: Entry| value_column(e)));
            assert(columns.is_deleted@ =~= none.map_values(|e: Entry| is_deleted_column(e)));
        }
        while i < tables.len()
            invariant
                i <= tables@.len(),
                columns.holds(all_entries(views(tables@).take(i as int))),
            decreases tables@.len() - i,
        {
            let entries: &[Entry] = tables[i].entries();
            let ghost done = all_entries(views(tables@).take(i as int));
            let mut j: usize = 0;
            while j < entries.len()
                invariant
                    j <= entries@.len(),
                    columns.holds(done + entries@.take(j as int)),
                decreases entries@.len() - j,
            {
                let entry: Entry = entries[j];
                let ghost s = done + entries@.take(j as int);
                assert(done + entries@.take(j + 1) =~= s.push(entry));
                columns.push(entry, Ghost(s));
                j += 1;
            }
            proof {
                assert(entries@.take(j as int) =~= entries@);
                assert(views(tables@).take(i + 1) =~= views(tables@).take(i as int).push(entries@));
                lemma_all_entries_push(views(tables@).take(i as int), entries@);
            }
            i += 1;
        }
        assert(views(tables@).take(i as int) =~= views(tables@));
        proof {
            lemma_views(tables@);
        }
        columns
    }

    /// Adds the columns of one more entry.
    fn push(&mut self, entry: Entry, Ghost(s): Ghost<Seq<Entry>>)
        requires
            old(self).holds(s),
        ensures
            final(self).holds(s.push(entry)),
    {
        self.keys.push(entry.key);
        self.seqs.push(entry.seq);
        match entry.value {
            Some(value) => {
                self.values.push(value);
                self.is_deleted.push(0);
            },
            None => {
                self.values.push(0);
                self.is_deleted.push(1);
            },
        }
        assert(self.keys@ =~= s.push(entry).map_values(|e: Entry| e.key));
        assert(self.seqs@ =~= s.push(entry).map_values(|e: Entry| e.seq));
        assert(self.values@ =~= s.push(entry).map_values(|e: Entry| value_column(e)));
        assert(self.is_deleted@ =~= s.push(entry).map_values(|e: Entry| is_deleted_column(e)));
    }
}

/// The puts that the columns `keys`, `seqs` and `values` hold, row by row up to the end of the
/// shortest column.
pub open spec fn rows_as_puts(keys: Seq<u32>, seqs: Seq<u32>, values: Seq<u64>) -> Seq<Entry> {
    Seq::new(
        if keys.len() <= seqs.len() && keys.len() <= values.len() {
            keys.len()
        } else if seqs.len() <= values.len() {
            seqs.len()
        } else {
            values.len()
        },
        |i: int| Entry { key: keys[i], seq: seqs[i], value: Some(values[i]) },
    )
}

impl SsTable {
    /// The table of the puts in the columns that a device hands back.
    pub fn from_columns(keys: &Vec<u32>, seqs: &Vec<u32>, values: &Vec<u64>) -> (table: Self)
        ensures
            table@ == table_of(rows_as_puts(keys@, seqs@, values@)),
            exists|p: Seq<int>|
                {
                    &&& #[trigger] p.no_duplicates()
                    &&& p.len() == table@.len()
                    &&& table@.len() == keys@.len() || table@.len() == seqs@.len() || table@.len()
                        == values@.len()
                    &&& table@.len() <= keys@.len()
                    &&& table@.len() <= seqs@.len()
                    &&& table@.len() <= values@.len()
                    &&& forall|i: int|
                        0 <= i < p.len() ==> {
                            &&& 0 <= #[trigger] p[i] < p.len()
                            &&& table@[i].key == keys@[p[i]]
                            &&& table@[i].seq == seqs@[p[i]]
                            &&& table@[i].value == Some(values@[p[i]])
                        }
                    &&& forall|i: int, j: int|
                        #![trigger p[i], p[j]]
                        0 <= i < j < p.len() ==> {
                            ||| table@[i].key < table@[j].key
                            ||| table@[i].key == table@[j].key && table@[i].seq < table@[j].seq
                            ||| table@[i].key == table@[j].key && table@[i].seq == table@[j].seq
                                && p[i] < p[j]
                        }
                },
    {
        let mut entries: Vec<Entry> = Vec::new();
        let mut i: usize = 0;
        let ghost rows = rows_as_puts(keys@, seqs@, values@);
        while i < keys.len() && i < seqs.len() && i < values.len()
            invariant
                rows == rows_as_puts(keys@, seqs@, values@),
                i <= rows.len(),
                entries@ == rows.take(i as int),
            decreases keys@.len() - i,
        {
            entries.push(Entry::put(keys[i], seqs[i], values[i]));
            i += 1;
        }
        assert(rows.take(i as int) =~= rows);
        let table = SsTable::new(entries);
        proof {
            let t = table@;
            let p = choose|p: Seq<int>|
                {
                    &&& #[trigger] p.no_duplicates()
                    &&& p.len() == rows.len()
                    &&& t.len() == rows.len()
                    &&& forall|i: int|
                        0 <= i < p.len() ==> 0 <= #[trigger] p[i] < rows.len() && t[i] == rows[p[i]]
                    &&& forall|i: int, j: int|
                        #![trigger p[i], p[j]]
                        0 <= i < j < p.len() ==> {
                            ||| t[i].key < t[j].key
                            ||| t[i].key == t[j].key && t[i].seq < t[j].seq
                            ||| t[i].key == t[j].key && t[i].seq == t[j].seq && p[i] < p[j]
                        }
                };
            assert(p.no_duplicates());
        }
        table
    }
}

/// A row of the columns.
pub struct Row {
    pub key: u32,
    pub seq: u32,
    pub value: u64,
    pub is_deleted: u32,
}

/// The row of an entry.
pub open spec fn row_of(e: Entry) -> Row {
    Row { key: e.key, seq: e.seq, value: value_column(e), is_deleted: is_deleted_column(e) }
}

/// The first stage of a compaction on a device: `sorted` is `rows` in the order of `EntryLess`,
/// rows that this order does not tell apart in any order.
pub open spec fn is_row_sort(rows: Seq<Row>, sorted: Seq<Row>) -> bool {
    exists|p: Seq<int>| is_row_sort_with(rows, sorted, p)
}

/// `sorted` is `rows` rearranged by `p` into the order of `EntryLess`.
pub open spec fn is_row_sort_with(rows: Seq<Row>, sorted: Seq<Row>, p: Seq<int>) -> bool {
    &&& is_permutation(p, rows.len())
    &&& sorted.len() == rows.len()
    &&& forall|i: int| 0 <= i < sorted.len() ==> #[trigger] sorted[i] == rows[p[i]]
    &&& forall|i: int, j: int|
        #![trigger sorted[i], sorted[j]]
        0 <= i < j < sorted.len() ==> sorted[i].key < sorted[j].key || (sorted[i].key
            == sorted[j].key && sorted[i].seq >= sorted[j].seq)
}

/// The second stage: the first row of each run of rows with the same key.
pub open spec fn first_rows(rows: Seq<Row>) -> Seq<Row>
    decreases rows.len(),
{
    if rows.len() == 0 {
        rows
    } else if rows.len() == 1 || rows[rows.len() - 2].key != rows.last().key {
        first_rows(rows.drop_last()).push(rows.last())
    } else {
        first_rows(rows.drop_last())
    }
}

/// The third stage: the rows without the mark of a delete.
pub open spec fn unmarked_rows(rows: Seq<Row>) -> Seq<Row>
    decreases rows.len(),
{
    if rows.len() == 0 {
        rows
    } else if rows.last().is_deleted == 0 {
        unmarked_rows(rows.drop_last()).push(rows.last())
    } else {
        unmarked_rows(rows.drop_last())
    }
}

/// What a device hands back of the sorted rows: the key, the sequence number and the value of each
/// row that is left after the last stage.
pub open spec fn device_output(sorted: Seq<Row>) -> Seq<Entry> {
    let left = unmarked_rows(first_rows(sorted));
    rows_as_puts(
        left.map_values(|row: Row| row.key),
        left.map_values(|row: Row| row.seq),
        left.map_values(|row: Row| row.value),
    )
}

/// Where no two entries share key and sequence number, a device that sorts the rows of the entries,
/// takes the first row of each key and leaves out the marked ones hands back the compaction of the
/// entries, and the table of what it hands back is that compaction.
pub proof fn law_device_matches_compaction(s: Seq<Entry>, sorted: Seq<Row>)
    requires
        versions_differ(s),
        is_row_sort(s.map_values(|e: Entry| row_of(e)), sorted),
    ensures
        device_output(sorted) == compaction(s),
        table_of(device_output(sorted)) == compaction(s),
{
    let rows = s.map_values(|e: Entry| row_of(e));
    let p = choose|p: Seq<int>| is_row_sort_with(rows, sorted, p);
    let t = Seq::new(sorted.len(), |i: int| s[p[i]]);
    assert(sorted =~= t.map_values(|e: Entry| row_of(e)));
    assert forall|key: u32| #[trigger] newest(t, key) == newest(s, key) by {
        lemma_rearranged_newest(s, t, p, key);
    }
    lemma_device_output(t, sorted, sorted.len() as int);
    assert(sorted.take(sorted.len() as int) =~= sorted);
    assert forall|e: Entry| #[trigger] device_output(sorted).contains(e) <==> is_live(s, e) by {
        lemma_newest_exists(t, e.key);
        if device_output(sorted).contains(e) {
            let j = choose|j: int| is_live_at(t, sorted.len() as int, e, j);
            lemma_newest_at(t, e.key, j);
        }
        if is_live(s, e) {
            let j = choose|j: int| is_newest_at(t, e.key, j);
            lemma_newest_at(t, e.key, j);
            assert(is_live_at(t, sorted.len() as int, e, j));
        }
    }
    lemma_compaction_unique(s, device_output(sorted));
    lemma_compaction_table(s);
}

/// What the last two stages make of the first `n` of the sorted rows.
proof fn lemma_device_output(t: Seq<Entry>, sorted: Seq<Row>, n: int)
    requires
        0 <= n <= t.len(),
        sorted == t.map_values(|e: Entry| row_of(e)),
        forall|i: int, j: int|
            #![trigger sorted[i], sorted[j]]
            0 <= i < j < sorted.len() ==> sorted[i].key < sorted[j].key || (sorted[i].key
                == sorted[j].key && sorted[i].seq >= sorted[j].seq),
    ensures
        keys_increase(device_output(sorted.take(n))),
        forall|i: int|
            0 <= i < device_output(sorted.take(n)).len() ==> n > 0 && (#[trigger] device_output(
                sorted.take(n),
            )[i]).key <= t[n - 1].key,
        forall|e: Entry| #[trigger]
            device_output(sorted.take(n)).contains(e) <==> exists|j: int| is_live_at(t, n, e, j),
    decreases n,
{
    let out = device_output(sorted.take(n));
    if n > 0 {
        let was = n - 1;
        let x = t[was];
        let before = device_output(sorted.take(was));
        lemma_device_output(t, sorted, was);
        let taken = sorted.take(n);
        assert(taken.drop_last() =~= sorted.take(was));
        let first = n == 1 || sorted[n - 2].key != x.key;
        if first {
            assert forall|j: int| #![trigger t[j]] 0 <= j < t.len() && t[j].key == x.key implies {
                &&& t[j].seq <= x.seq
                &&& t[j].seq == x.seq ==> was <= j
            } by {
                if j < was {
                    assert(sorted[j].key <= sorted[was - 1].key);
                } else if j > was {
                    assert(sorted[was].key < sorted[j].key || sorted[was].seq >= sorted[j].seq);
                }
            }
            let firsts = first_rows(sorted.take(was)).push(row_of(x));
            assert(firsts.drop_last() =~= first_rows(sorted.take(was)));
            if x.value is Some {
                assert(out =~= before.push(x));
            }
        }
        assert forall|e: Entry| #[trigger] out.contains(e) <==> exists|j: int|
            is_live_at(t, n, e, j) by {
            if out.contains(e) {
                let i = choose|i: int| 0 <= i < out.len() && out[i] == e;
                if i < before.len() {
                    assert(before.contains(e));
                    let j = choose|j: int| is_live_at(t, was, e, j);
                    assert(is_live_at(t, n, e, j));
                } else {
                    assert(is_live_at(t, n, e, was));
                }
            }
            if exists|j: int| is_live_at(t, n, e, j) {
                let j = choose|j: int| is_live_at(t, n, e, j);
                if j < was {
                    assert(is_live_at(t, was, e, j));
                    assert(before.contains(e));
                    let i = choose|i: int| 0 <= i < before.len() && before[i] == e;
                    assert(out[i] == e);
                } else {
                    assert(out[out.len() - 1] == e);
                }
            }
        }
    }
}

/// What a device hands back of rows: a put for each row that is the first of a run of one key and
/// is not marked as a delete.
pub proof fn law_device_output(rows: Seq<Row>)
    ensures
        forall|e: Entry| #[trigger]
            device_output(rows).contains(e) <==> exists|i: int|
                {
                    &&& 0 <= i < rows.len()
                    &&& e == (Entry {
                        key: (#[trigger] rows[i]).key,
                        seq: rows[i].seq,
                        value: Some(rows[i].value),
                    })
                    &&& rows[i].is_deleted == 0
                    &&& i == 0 || rows[i - 1].key != rows[i].key
                },
    decreases rows.len(),
{
    let out = device_output(rows);
    if rows.len() > 0 {
        let front = rows.drop_last();
        let last = rows.len() - 1;
        let x = rows.last();
        let first = last == 0 || rows[last - 1].key != x.key;
        let kept = first && x.is_deleted == 0;
        let before = device_output(front);
        let put = Entry { key: x.key, seq: x.seq, value: Some(x.value) };
        law_device_output(front);
        if first {
            let firsts = first_rows(front).push(x);
            assert(firsts.drop_last() =~= first_rows(front));
            assert(first_rows(rows) == firsts);
        }
        assert(out =~= if kept {
            before.push(put)
        } else {
            before
        });
        assert forall|e: Entry| #[trigger] out.contains(e) <==> exists|i: int|
            {
                &&& 0 <= i < rows.len()
                &&& e == (Entry {
                    key: (#[trigger] rows[i]).key,
                    seq: rows[i].seq,
                    value: Some(rows[i].value),
                })
                &&& rows[i].is_deleted == 0
                &&& i == 0 || rows[i - 1].key != rows[i].key
            } by {
            if out.contains(e) {
                if kept && e == put {
                    assert(rows[last] == x);
                } else {
                    let k = choose|k: int| 0 <= k < out.len() && out[k] == e;
                    assert(before[k] == e);
                    assert(before.contains(e));
                    let i = choose|i: int|
                        {
                            &&& 0 <= i < front.len()
                            &&& e == (Entry {
                                key: (#[trigger] front[i]).key,
                                seq: front[i].seq,
                                value: Some(front[i].value),
                            })
                            &&& front[i].is_deleted == 0
                            &&& i == 0 || front[i - 1].key != front[i].key
                        };
                    assert(rows[i] == front[i]);
                    assert(i > 0 ==> rows[i - 1] == front[i - 1]);
                }
            }
            if exists|i: int|
                {
                    &&& 0 <= i < rows.len()
                    &&& e == (Entry {
                        key: (#[trigger] rows[i]).key,
                        seq: rows[i].seq,
                        value: Some(rows[i].value),
                    })
                    &&& rows[i].is_deleted == 0
                    &&& i == 0 || rows[i - 1].key != rows[i].key
                } {
                let i = choose|i: int|
                    {
                        &&& 0 <= i < rows.len()
                        &&& e == (Entry {
                            key: (#[trigger] rows[i]).key,
                            seq: rows[i].seq,
                            value: Some(rows[i].value),
                        })
                        &&& rows[i].is_deleted == 0
                        &&& i == 0 || rows[i - 1].key != rows[i].key
                    };
                if i == last {
                    assert(out[out.len() - 1] == e);
                } else {
                    assert(front[i] == rows[i]);
                    assert(i > 0 ==> front[i - 1] == rows[i - 1]);
                    assert(before.contains(e));
                    let k = choose|k: int| 0 <= k < before.len() && before[k] == e;
                    assert(out[k] == e);
                }
            }
        }
    }
}

/// A device that is given the columns of the entries `s`, no two of which share key and sequence
/// number, and that sorts their rows by key and from the newest to the oldest, takes the first row
/// of each key and leaves out the deletes, hands back the newest entry of each key where it is a
/// put, in the order of the keys, and nothing else.
pub proof fn law_columns_are_compacted(
    columns: EntryColumns,
    s: Seq<Entry>,
    sorted: Seq<Row>,
    p: Seq<int>,
)
    requires
        columns.holds(s),
        forall|i: int, j: int|
            #![trigger s[i], s[j]]
            0 <= i < j < s.len() ==> s[i].key != s[j].key || s[i].seq != s[j].seq,
        p.len() == columns.keys@.len(),
        p.no_duplicates(),
        forall|k: int| 0 <= k < p.len() ==> #[trigger] p.contains(k),
        sorted.len() == p.len(),
        forall|i: int|
            0 <= i < p.len() ==> {
                &&& 0 <= #[trigger] p[i] < p.len()
                &&& sorted[i].key == columns.keys@[p[i]]
                &&& sorted[i].seq == columns.seqs@[p[i]]
                &&& sorted[i].value == columns.values@[p[i]]
                &&& sorted[i].is_deleted == columns.is_deleted@[p[i]]
            },
        forall|i: int, j: int|
            #![trigger sorted[i], sorted[j]]
            0 <= i < j < sorted.len() ==> sorted[i].key < sorted[j].key || (sorted[i].key
                == sorted[j].key && sorted[i].seq >= sorted[j].seq),
    ensures
        columns.keys@.len() == s.len(),
        device_output(sorted) == compaction(s),
        forall|a: int, b: int|
            #![trigger device_output(sorted)[a], device_output(sorted)[b]]
            0 <= a < b < device_output(sorted).len() ==> device_output(sorted)[a].key
                < device_output(sorted)[b].key,
        forall|e: Entry| #[trigger]
            device_output(sorted).contains(e) <==> e.value is Some && exists|i: int|
                {
                    &&& 0 <= i < s.len()
                    &&& #[trigger] s[i] == e
                    &&& forall|j: int|
                        0 <= j < s.len() && (#[trigger] s[j]).key == e.key ==> s[j].seq < e.seq || (
                        s[j].seq == e.seq && i <= j)
                },
{
    let rows = s.map_values(|e: Entry| row_of(e));
    assert(is_permutation(p, rows.len()));
    assert forall|i: int| 0 <= i < sorted.len() implies #[trigger] sorted[i] == rows[p[i]] by {
        assert(rows[p[i]] == row_of(s[p[i]]));
    }
    assert(is_row_sort_with(rows, sorted, p));
    law_device_matches_compaction(s, sorted);
    law_compaction_in_full(s);
}

} // verus!
