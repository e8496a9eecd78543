//! Entries, and the newest entry of a key in a sequence of them.

use vstd::prelude::*;

verus! {

/// A write to one key: a put when `value` is present, a delete when it is not.
#[derive(Clone, Copy, Debug, PartialEq, Eq)]
pub struct Entry {
    pub key: u32,
    pub seq: u32,
    pub value: Option<u64>,
}

impl Entry {
    /// An entry that sets `key` to `value`.
    pub fn put(key: u32, seq: u32, value: u64) -> (entry: Self)
        ensures
            entry == (Entry { key, seq, value: Some(value) }),
    {
        Self { key, seq, value: Some(value) }
    }

    /// A tombstone: an entry that removes `key`.
    pub fn delete(key: u32, seq: u32) -> (entry: Self)
        ensures
            entry == (Entry { key, seq, value: None }),
    {
        Self { key, seq, value: None }
    }
}

/// Index `i` of `s` holds the newest entry of `key`: no entry of the key has a higher sequence
/// number, and of those with the same number it comes first.
pub open spec fn is_newest_at(s: Seq<Entry>, key: u32, i: int) -> bool {
    &&& 0 <= i < s.len()
    &&& s[i].key == key
    &&& forall|j: int|
        #![trigger s[j]]
        0 <= j < s.len() && s[j].key == key ==> {
            &&& s[j].seq <= s[i].seq
            &&& s[j].seq == s[i].seq ==> i <= j
        }
}

/// The newest entry of `key` in `s`, if the key occurs there.
pub open spec fn newest(s: Seq<Entry>, key: u32) -> Option<Entry> {
    if exists|i: int| is_newest_at(s, key, i) {
        Some(s[choose|i: int| is_newest_at(s, key, i)])
    } else {
        None
    }
}

/// The last entry of `key` in `s`, if the key occurs there.
pub open spec fn last_of(s: Seq<Entry>, key: u32) -> Option<Entry>
    decreases s.len(),
{
    if s.len() == 0 {
        None
    } else if s.last().key == key {
        Some(s.last())
    } else {
        last_of(s.drop_last(), key)
    }
}

/// Whether some entry of `s` is for `key`.
pub open spec fn has_key(s: Seq<Entry>, key: u32) -> bool {
    exists|i: int| 0 <= i < s.len() && (#[trigger] s[i]).key == key
}

/// The value that `key` has when the writes in `s` are all there is.
pub open spec fn value_of(s: Seq<Entry>, key: u32) -> Option<u64> {
    match newest(s, key) {
        Some(entry) => entry.value,
        None => None,
    }
}

/// The key-value map that the writes in `s` amount to.
pub open spec fn contents(s: Seq<Entry>) -> Map<u32, u64> {
    Map::new(|key: u32| value_of(s, key) is Some, |key: u32| value_of(s, key)->0)
}

/// Every entry of `a` has a lower sequence number than every entry of `b`.
pub open spec fn older(a: Seq<Entry>, b: Seq<Entry>) -> bool {
    forall|i: int, j: int|
        #![trigger a[i], b[j]]
        0 <= i < a.len() && 0 <= j < b.len() ==> a[i].seq < b[j].seq
}

/// Every entry of `s` has a sequence number below `bound`.
pub open spec fn seqs_below(s: Seq<Entry>, bound: u32) -> bool {
    forall|i: int| 0 <= i < s.len() ==> (#[trigger] s[i]).seq < bound
}

/// The sequence numbers of `s` increase from each entry to the next.
pub open spec fn seqs_increase(s: Seq<Entry>) -> bool {
    forall|i: int, j: int| #![trigger s[i], s[j]] 0 <= i < j < s.len() ==> s[i].seq < s[j].seq
}

/// The index of a newest entry determines the newest entry.
pub proof fn lemma_newest_at(s: Seq<Entry>, key: u32, i: int)
    requires
        is_newest_at(s, key, i),
    ensures
        newest(s, key) == Some(s[i]),
{
}

/// A key that occurs has a newest entry, and a key that does not occur has none.
pub proof fn lemma_newest_exists(s: Seq<Entry>, key: u32)
    ensures
        newest(s, key) is Some <==> has_key(s, key),
        newest(s, key) is Some ==> exists|i: int| is_newest_at(s, key, i),
    decreases s.len(),
{
    if has_key(s, key) && s.len() > 0 {
        let front = s.drop_last();
        let last = s.len() - 1;
        lemma_newest_exists(front, key);
        if has_key(front, key) {
            let i = choose|i: int| is_newest_at(front, key, i);
            if s[last].key == key && s[last].seq > s[i].seq {
                assert forall|j: int| #![trigger s[j]] 0 <= j < s.len() && s[j].key == key implies {
                    &&& s[j].seq <= s[last].seq
                    &&& s[j].seq == s[last].seq ==> last <= j
                } by {
                    if j < last {
                        assert(front[j] == s[j]);
                    }
                }
                assert(is_newest_at(s, key, last));
            } else {
                assert forall|j: int| #![trigger s[j]] 0 <= j < s.len() && s[j].key == key implies {
                    &&& s[j].seq <= s[i].seq
                    &&& s[j].seq == s[i].seq ==> i <= j
                } by {
                    if j < last {
                        assert(front[j] == s[j]);
                    }
                }
                assert(is_newest_at(s, key, i));
            }
        } else {
            let w = choose|w: int| 0 <= w < s.len() && (#[trigger] s[w]).key == key;
            if w < last {
                assert(front[w].key == key);
            }
            assert forall|j: int| #![trigger s[j]] 0 <= j < s.len() && s[j].key == key implies {
                &&& s[j].seq <= s[last].seq
                &&& s[j].seq == s[last].seq ==> last <= j
            } by {
                if j < last {
                    assert(front[j].key == key);
                }
            }
            assert(is_newest_at(s, key, last));
        }
    }
    if exists|i: int| is_newest_at(s, key, i) {
        let i = choose|i: int| is_newest_at(s, key, i);
        assert(s[i].key == key);
    }
}

/// The newest entry of a key is an entry of the sequence, of that key.
pub proof fn lemma_newest_member(s: Seq<Entry>, key: u32)
    requires
        newest(s, key) is Some,
    ensures
        s.contains(newest(s, key)->0),
        newest(s, key)->0.key == key,
{
}

/// Where every entry of `b` is newer than every entry of `a`, the newest entry of a key in both
/// together is the one in `b`, and the one in `a` only when `b` lacks the key.
pub proof fn lemma_newest_append(a: Seq<Entry>, b: Seq<Entry>, key: u32)
    requires
        older(a, b),
    ensures
        newest(a + b, key) == if has_key(b, key) {
            newest(b, key)
        } else {
            newest(a, key)
        },
{
    let s = a + b;
    lemma_newest_exists(a, key);
    lemma_newest_exists(b, key);
    lemma_newest_exists(s, key);
    if has_key(b, key) {
        let j = choose|j: int| is_newest_at(b, key, j);
        lemma_newest_at(b, key, j);
        lemma_newest_at(s, key, a.len() + j);
    } else if has_key(a, key) {
        let i = choose|i: int| is_newest_at(a, key, i);
        lemma_newest_at(a, key, i);
        lemma_newest_at(s, key, i);
    }
}

/// Where the sequence numbers increase, the last entry of a key is its newest.
pub proof fn lemma_last_is_newest(s: Seq<Entry>, key: u32)
    requires
        seqs_increase(s),
    ensures
        last_of(s, key) == newest(s, key),
        has_key(s, key) <==> last_of(s, key) is Some,
    decreases s.len(),
{
    lemma_newest_exists(s, key);
    if s.len() > 0 {
        let front = s.drop_last();
        let one = seq![s.last()];
        assert(s =~= front + one);
        lemma_last_is_newest(front, key);
        lemma_newest_append(front, one, key);
        if s.last().key == key {
            assert(one[0].key == key);
            lemma_newest_at(one, key, 0);
        }
    }
}

/// Of the entries of a key the one with the highest sequence number counts, and among those with
/// the same number the first: it is the newest, its value is that of the key, and the key-value map
/// has the key where it is a put.
pub proof fn law_newest_counts(s: Seq<Entry>, key: u32, i: int)
    requires
        0 <= i < s.len(),
        s[i].key == key,
        forall|j: int| 0 <= j < s.len() && (#[trigger] s[j]).key == key ==> s[j].seq <= s[i].seq,
        forall|j: int| 0 <= j < i && (#[trigger] s[j]).key == key ==> s[j].seq != s[i].seq,
    ensures
        has_key(s, key),
        newest(s, key) == Some(s[i]),
        value_of(s, key) == s[i].value,
        contents(s).contains_key(key) <==> s[i].value is Some,
        s[i].value is Some ==> contents(s)[key] == s[i].value->0,
{
    assert(is_newest_at(s, key, i));
    lemma_newest_at(s, key, i);
}

/// A key without entries has no newest entry, no value and no place in the key-value map.
pub proof fn law_absent_key(s: Seq<Entry>, key: u32)
    requires
        forall|j: int| 0 <= j < s.len() ==> (#[trigger] s[j]).key != key,
    ensures
        !has_key(s, key),
        newest(s, key) is None,
        last_of(s, key) is None,
        value_of(s, key) is None,
        !contents(s).contains_key(key),
    decreases s.len(),
{
    lemma_newest_exists(s, key);
    if s.len() > 0 {
        let front = s.drop_last();
        assert forall|j: int| 0 <= j < front.len() implies (#[trigger] front[j]).key != key by {
            assert(front[j] == s[j]);
        }
        law_absent_key(front, key);
    }
}

/// The last entry of a key is the one behind which there is none of that key.
pub proof fn law_last_of(s: Seq<Entry>, key: u32, i: int)
    requires
        0 <= i < s.len(),
        s[i].key == key,
        forall|j: int| i < j < s.len() ==> (#[trigger] s[j]).key != key,
    ensures
        last_of(s, key) == Some(s[i]),
    decreases s.len(),
{
    if i < s.len() - 1 {
        let front = s.drop_last();
        assert(front[i] == s[i]);
        assert forall|j: int| i < j < front.len() implies (#[trigger] front[j]).key != key by {
            assert(front[j] == s[j]);
        }
        law_last_of(front, key, i);
    }
}

/// An entry is the newest of its key where it stands at some index, no entry of the key has a
/// higher sequence number, and none before it has the same; and only there.
pub proof fn law_newest_in_full(s: Seq<Entry>, e: Entry)
    ensures
        newest(s, e.key) == Some(e) <==> exists|i: int|
            {
                &&& 0 <= i < s.len()
                &&& #[trigger] s[i] == e
                &&& forall|j: int|
                    0 <= j < s.len() && (#[trigger] s[j]).key == e.key ==> s[j].seq < e.seq || (
                    s[j].seq == e.seq && i <= j)
            },
{
    lemma_newest_exists(s, e.key);
    if newest(s, e.key) == Some(e) {
        let i = choose|i: int| is_newest_at(s, e.key, i);
        lemma_newest_at(s, e.key, i);
        assert(s[i] == e);
    }
    if exists|i: int|
        {
            &&& 0 <= i < s.len()
            &&& #[trigger] s[i] == e
            &&& forall|j: int|
                0 <= j < s.len() && (#[trigger] s[j]).key == e.key ==> s[j].seq < e.seq || (
                s[j].seq == e.seq && i <= j)
        } {
        let i = choose|i: int|
            {
                &&& 0 <= i < s.len()
                &&& #[trigger] s[i] == e
                &&& forall|j: int|
                    0 <= j < s.len() && (#[trigger] s[j]).key == e.key ==> s[j].seq < e.seq || (
                    s[j].seq == e.seq && i <= j)
            };
        assert(is_newest_at(s, e.key, i));
        lemma_newest_at(s, e.key, i);
    }
}

} // verus!
