//! Sorted tables of entries.

use vstd::prelude::*;

use crate::entry::{
    has_key, law_newest_in_full, lemma_newest_at, lemma_newest_exists, lemma_newest_member, newest,
    Entry,
};
use crate::order::{
    by_key_then_seq, is_sorted, is_stable_sort, is_stable_sort_with, lemma_stable_sort,
    lemma_stable_sort_exists, lemma_stable_sort_newest, lemma_stable_sort_unique,
    sort_by_key_then_seq,
};

verus! {

/// The entries of the table that is made of `s`: the stable sort of `s` by key and sequence number.
pub open spec fn table_of(s: Seq<Entry>) -> Seq<Entry> {
    choose|t: Seq<Entry>| is_stable_sort(s, t, by_key_then_seq())
}

/// `table_of` is the stable sort, and the only one.
pub proof fn lemma_table_of(s: Seq<Entry>)
    ensures
        is_stable_sort(s, table_of(s), by_key_then_seq()),
        is_sorted(table_of(s), by_key_then_seq()),
        table_of(s).len() == s.len(),
        forall|e: Entry| #[trigger] table_of(s).contains(e) <==> s.contains(e),
        forall|t: Seq<Entry>| #[trigger]
            is_stable_sort(s, t, by_key_then_seq()) ==> t == table_of(s),
{
    lemma_stable_sort_exists(s);
    lemma_stable_sort(s, table_of(s), by_key_then_seq());
    assert forall|t: Seq<Entry>| #[trigger] is_stable_sort(s, t, by_key_then_seq()) implies t
        == table_of(s) by {
        lemma_stable_sort_unique(s, t, table_of(s), by_key_then_seq());
    }
}

/// A table has the newest entry of every key that the entries have which it is made of.
pub proof fn law_table_newest(s: Seq<Entry>, key: u32)
    ensures
        newest(table_of(s), key) == newest(s, key),
        has_key(table_of(s), key) == has_key(s, key),
{
    lemma_table_of(s);
    lemma_stable_sort_newest(s, table_of(s), by_key_then_seq(), key);
}

/// A table is a rearrangement of the entries it is made of, each taken once, by key and within a
/// key by sequence number, and entries that share both stay in the order they had.
pub proof fn law_table_in_full(s: Seq<Entry>)
    ensures
        ({
            let t = table_of(s);
            exists|p: Seq<int>|
                {
                    &&& #[trigger] p.no_duplicates()
                    &&& p.len() == s.len()
                    &&& t.len() == s.len()
                    &&& forall|i: int|
                        0 <= i < p.len() ==> 0 <= #[trigger] p[i] < s.len() && t[i] == s[p[i]]
                    &&& forall|i: int, j: int|
                        #![trigger p[i], p[j]]
                        0 <= i < j < p.len() ==> {
                            ||| t[i].key < t[j].key
                            ||| t[i].key == t[j].key && t[i].seq < t[j].seq
                            ||| t[i].key == t[j].key && t[i].seq == t[j].seq && p[i] < p[j]
                        }
                }
        }),
{
    lemma_table_of(s);
    let t = table_of(s);
    let p = choose|p: Seq<int>| is_stable_sort_with(s, t, by_key_then_seq(), p);
    assert(p.no_duplicates());
    assert forall|i: int| 0 <= i < p.len() implies 0 <= #[trigger] p[i] < s.len() && t[i]
        == s[p[i]] by {
        assert(t[i] == s[p[i]]);
    }
    assert forall|i: int, j: int|
        #![trigger p[i], p[j]]
        0 <= i < j < p.len() implies {
        ||| t[i].key < t[j].key
        ||| t[i].key == t[j].key && t[i].seq < t[j].seq
        ||| t[i].key == t[j].key && t[i].seq == t[j].seq && p[i] < p[j]
    } by {
        assert(by_key_then_seq()(t[i], t[j]) || (!by_key_then_seq()(t[j], t[i]) && p[i] < p[j]));
    }
}

/// An immutable table of entries, sorted by key and by sequence number within a key.
#[derive(Debug, PartialEq, Eq)]
pub struct SsTable {
    entries: Vec<Entry>,
}

impl View for SsTable {
    type V = Seq<Entry>;

    closed spec fn view(&self) -> Seq<Entry> {
        self.entries@
    }
}

impl Clone for SsTable {
    fn clone(&self) -> (table: Self)
        ensures
            table@ == self@,
    {
        proof {
            use_type_invariant(self);
        }
        let entries = self.entries.clone();
        Self { entries }
    }
}

impl Default for SsTable {
    /// The table without entries.
    fn default() -> (table: Self)
        ensures
            table@ == Seq::<Entry>::empty(),
    {
        Self { entries: Vec::new() }
    }
}

impl SsTable {
    #[verifier::type_invariant]
    spec fn sorted(self) -> bool {
        is_sorted(self.entries@, by_key_then_seq())
    }

    /// The table of `entries`.
    pub fn new(entries: Vec<Entry>) -> (table: Self)
        ensures
            table@ == table_of(entries@),
            is_stable_sort(entries@, table@, by_key_then_seq()),
            exists|p: Seq<int>|
                {
                    &&& #[trigger] p.no_duplicates()
                    &&& p.len() == entries@.len()
                    &&& table@.len() == entries@.len()
                    &&& forall|i: int|
                        0 <= i < p.len() ==> 0 <= #[trigger] p[i] < entries@.len() && table@[i]
                            == entries@[p[i]]
                    &&& forall|i: int, j: int|
                        #![trigger p[i], p[j]]
                        0 <= i < j < p.len() ==> {
                            ||| table@[i].key < table@[j].key
                            ||| table@[i].key == table@[j].key && table@[i].seq < table@[j].seq
                            ||| table@[i].key == table@[j].key && table@[i].seq == table@[j].seq
                                && p[i] < p[j]
                        }
                },
    {
        let mut sorted = entries;
        sort_by_key_then_seq(&mut sorted);
        proof {
            lemma_table_of(entries@);
            law_table_in_full(entries@);
        }
        Self { entries: sorted }
    }

    /// The entries in the order of the table.
    pub fn entries(&self) -> (entries: &[Entry])
        ensures
            entries@ == self@,
            is_sorted(self@, by_key_then_seq()),
    {
        proof {
            use_type_invariant(self);
        }
        self.entries.as_slice()
    }

    /// The number of entries.
    pub fn len(&self) -> (len: usize)
        ensures
            len == self@.len(),
    {
        self.entries.len()
    }

    /// Whether there are no entries.
    pub fn is_empty(&self) -> (empty: bool)
        ensures
            empty == (self@.len() == 0),
    {
        self.entries.is_empty()
    }

    /// What the table says of `key`: nothing, that it was deleted, or its value.
    pub fn get(&self, key: u32) -> (found: Option<Option<u64>>)
        ensures
            found == match newest(self@, key) {
                Some(entry) => Some(entry.value),
                None => None,
            },
            found is None <==> forall|i: int|
                0 <= i < self@.len() ==> (#[trigger] self@[i]).key != key,
            found is Some ==> exists|i: int|
                {
                    &&& 0 <= i < self@.len()
                    &&& (#[trigger] self@[i]).key == key
                    &&& found == Some(self@[i].value)
                    &&& forall|j: int|
                        0 <= j < self@.len() && (#[trigger] self@[j]).key == key ==> self@[j].seq
                            < self@[i].seq || (self@[j].seq == self@[i].seq && i <= j)
                },
    {
        proof {
            lemma_newest_exists(self@, key);
            if newest(self@, key) is Some {
                lemma_newest_member(self@, key);
                law_newest_in_full(self@, newest(self@, key)->0);
            }
        }
        match self.get_entry(key) {
            Some(entry) => Some(entry.value),
            None => None,
        }
    }

    /// The entries themselves.
    pub(crate) fn into_entries(self) -> (entries: Vec<Entry>)
        ensures
            entries@ == self@,
    {
        self.entries
    }

    /// The index of the first entry whose key is `key` or above.
    fn start_of(&self, key: u32) -> (start: usize)
        ensures
            start <= self@.len(),
            forall|i: int| 0 <= i < start ==> (#[trigger] self@[i]).key < key,
            forall|i: int| start <= i < self@.len() ==> (#[trigger] self@[i]).key >= key,
    {
        proof {
            use_type_invariant(self);
        }
        let mut low: usize = 0;
        let mut high: usize = self.entries.len();
        while low < high
            invariant
                low <= high <= self@.len(),
                is_sorted(self@, by_key_then_seq()),
                forall|i: int| 0 <= i < low ==> (#[trigger] self@[i]).key < key,
                forall|i: int| high <= i < self@.len() ==> (#[trigger] self@[i]).key >= key,
            decreases high - low,
        {
            let mid: usize = low + (high - low) / 2;
            if self.entries[mid].key < key {
                low = mid + 1;
            } else {
                high = mid;
            }
        }
        low
    }

    /// The newest entry of `key` in the table.
    pub(crate) fn get_entry(&self, key: u32) -> (found: Option<Entry>)
        ensures
            found == newest(self@, key),
    {
        let start: usize = self.start_of(key);
        let mut latest: Option<Entry> = None;
        let mut at: usize = start;
        let ghost mut best: int = -1;
        while at < self.entries.len() && self.entries[at].key == key
            invariant
                start <= at <= self@.len(),
                forall|i: int| 0 <= i < start ==> (#[trigger] self@[i]).key < key,
                forall|i: int| start <= i < at ==> (#[trigger] self@[i]).key == key,
                latest is None <==> at == start,
                latest is Some ==> {
                    &&& start <= best < at
                    &&& latest == Some(self@[best])
                    &&& forall|j: int|
                        start <= j < at ==> {
                            &&& (#[trigger] self@[j]).seq <= self@[best].seq
                            &&& self@[j].seq == self@[best].seq ==> best <= j
                        }
                },
            decreases self@.len() - at,
        {
            let entry: Entry = self.entries[at];
            let newer: bool = match latest {
                Some(latest) => entry.seq > latest.seq,
                None => true,
            };
            if newer {
                latest = Some(entry);
                proof {
                    best = at as int;
                }
            }
            at += 1;
        }
        proof {
            use_type_invariant(self);
            lemma_newest_exists(self@, key);
            if latest is Some {
                lemma_newest_at(self@, key, best);
            }
        }
        latest
    }
}

} // verus!
