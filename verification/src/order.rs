//! The two orders that entries are sorted in, and what a stable sort is.

use core::cmp::Ordering;

use vstd::prelude::*;

use crate::entry::{has_key, is_newest_at, lemma_newest_at, lemma_newest_exists, newest, Entry};

verus! {

/// The order of a table: by key, and by sequence number within a key.
pub open spec fn by_key_then_seq() -> spec_fn(Entry, Entry) -> bool {
    |a: Entry, b: Entry| a.key < b.key || (a.key == b.key && a.seq < b.seq)
}

/// The order of a compaction: by key, and newest first within a key.
pub open spec fn by_key_newest_first() -> spec_fn(Entry, Entry) -> bool {
    |a: Entry, b: Entry| a.key < b.key || (a.key == b.key && a.seq > b.seq)
}

/// `p` lists each of the indices below `n` once.
pub open spec fn is_permutation(p: Seq<int>, n: nat) -> bool {
    &&& p.len() == n
    &&& forall|i: int| 0 <= i < n ==> 0 <= #[trigger] p[i] < n
    &&& forall|i: int, j: int|
        #![trigger p[i], p[j]]
        0 <= i < n && 0 <= j < n && i != j ==> p[i] != p[j]
    &&& forall|k: int| 0 <= k < n ==> #[trigger] p.contains(k)
}

/// `t` is `s` rearranged by `p` into the order `less`, with elements that neither comes before the
/// other left in the order they had.
pub open spec fn is_stable_sort_with(
    s: Seq<Entry>,
    t: Seq<Entry>,
    less: spec_fn(Entry, Entry) -> bool,
    p: Seq<int>,
) -> bool {
    &&& is_permutation(p, s.len())
    &&& t.len() == s.len()
    &&& forall|i: int| 0 <= i < t.len() ==> #[trigger] t[i] == s[p[i]]
    &&& forall|i: int, j: int|
        #![trigger t[i], t[j]]
        0 <= i < j < t.len() ==> less(t[i], t[j]) || (!less(t[j], t[i]) && p[i] < p[j])
}

/// `t` is the stable sort of `s` in the order `less`.
pub open spec fn is_stable_sort(
    s: Seq<Entry>,
    t: Seq<Entry>,
    less: spec_fn(Entry, Entry) -> bool,
) -> bool {
    exists|p: Seq<int>| is_stable_sort_with(s, t, less, p)
}

/// No entry of `s` comes before an earlier one.
pub open spec fn is_sorted(s: Seq<Entry>, less: spec_fn(Entry, Entry) -> bool) -> bool {
    forall|i: int, j: int| #![trigger s[i], s[j]] 0 <= i < j < s.len() ==> !less(s[j], s[i])
}

/// The order of a compaction on pairs of key and sequence number: by key, and newest first within a
/// key.
pub struct EntryLess;

impl EntryLess {
    /// Whether `lhs` comes before `rhs`.
    pub fn apply(lhs: (u32, u32), rhs: (u32, u32)) -> (less: bool)
        ensures
            less == (lhs.0 < rhs.0 || (lhs.0 == rhs.0 && lhs.1 > rhs.1)),
    {
        lhs.0 < rhs.0 || (lhs.0 == rhs.0 && lhs.1 > rhs.1)
    }
}

/// Of two entries, which comes first in a compaction.
fn newest_first(left: &Entry, right: &Entry) -> (ordering: Ordering)
    ensures
        ordering == Ordering::Less <==> by_key_newest_first()(*left, *right),
        ordering == Ordering::Greater <==> by_key_newest_first()(*right, *left),
{
    if EntryLess::apply((left.key, left.seq), (right.key, right.seq)) {
        Ordering::Less
    } else if EntryLess::apply((right.key, right.seq), (left.key, left.seq)) {
        Ordering::Greater
    } else {
        Ordering::Equal
    }
}

/// Calls `sort_by_key` of std's slices with the pair of key and sequence number. It sorts stably,
/// and pairs of integers compare by their first component, then by their second.
#[verifier::external_body]
pub(crate) fn sort_by_key_then_seq(entries: &mut Vec<Entry>)
    ensures
        is_stable_sort(old(entries)@, final(entries)@, by_key_then_seq()),
{
    entries.sort_by_key(|entry| (entry.key, entry.seq));
}

/// Calls `sort_by` of std's slices with `newest_first`, a total order up to equal pairs of key and
/// sequence number. It sorts stably.
#[verifier::external_body]
pub(crate) fn sort_by_key_newest_first(entries: &mut Vec<Entry>)
    ensures
        is_stable_sort(old(entries)@, final(entries)@, by_key_newest_first()),
{
    entries.sort_by(|left, right| newest_first(left, right));
}

/// A stable sort is sorted and has the same entries.
pub proof fn lemma_stable_sort(s: Seq<Entry>, t: Seq<Entry>, less: spec_fn(Entry, Entry) -> bool)
    requires
        is_stable_sort(s, t, less),
        forall|a: Entry, b: Entry| #[trigger] less(a, b) ==> !less(b, a),
    ensures
        is_sorted(t, less),
        t.len() == s.len(),
        forall|e: Entry| #[trigger] t.contains(e) <==> s.contains(e),
{
    let p = choose|p: Seq<int>| is_stable_sort_with(s, t, less, p);
    assert forall|e: Entry| #[trigger] t.contains(e) <==> s.contains(e) by {
        if s.contains(e) {
            let k = choose|k: int| 0 <= k < s.len() && s[k] == e;
            assert(p.contains(k));
            let i = choose|i: int| 0 <= i < p.len() && p[i] == k;
            assert(t[i] == e);
        }
    }
}

/// Sorting stably leaves the newest entry of every key the same, in an order that does not tell
/// apart entries of the same key and sequence number.
pub proof fn lemma_stable_sort_newest(
    s: Seq<Entry>,
    t: Seq<Entry>,
    less: spec_fn(Entry, Entry) -> bool,
    key: u32,
)
    requires
        is_stable_sort(s, t, less),
        forall|a: Entry, b: Entry|
            a.key == b.key && a.seq == b.seq ==> !(#[trigger] less(a, b)),
    ensures
        newest(t, key) == newest(s, key),
        has_key(t, key) == has_key(s, key),
{
    let p = choose|p: Seq<int>| is_stable_sort_with(s, t, less, p);
    lemma_newest_exists(s, key);
    lemma_newest_exists(t, key);
    if has_key(s, key) {
        let k = choose|k: int| is_newest_at(s, key, k);
        lemma_newest_at(s, key, k);
        assert(p.contains(k));
        let i = choose|i: int| 0 <= i < p.len() && p[i] == k;
        lemma_newest_at(t, key, i);
    }
}

/// There is only one stable sort of a sequence.
pub proof fn lemma_stable_sort_unique(
    s: Seq<Entry>,
    t: Seq<Entry>,
    u: Seq<Entry>,
    less: spec_fn(Entry, Entry) -> bool,
)
    requires
        is_stable_sort(s, t, less),
        is_stable_sort(s, u, less),
        forall|a: Entry, b: Entry| #[trigger] less(a, b) ==> !less(b, a),
    ensures
        t == u,
{
    let p = choose|p: Seq<int>| is_stable_sort_with(s, t, less, p);
    let q = choose|q: Seq<int>| is_stable_sort_with(s, u, less, q);
    lemma_same_permutation(s, t, u, less, p, q, s.len() as int);
}

/// Two stable sorts of a sequence take the first `n` of their elements from the same places.
proof fn lemma_same_permutation(
    s: Seq<Entry>,
    t: Seq<Entry>,
    u: Seq<Entry>,
    less: spec_fn(Entry, Entry) -> bool,
    p: Seq<int>,
    q: Seq<int>,
    n: int,
)
    requires
        is_stable_sort_with(s, t, less, p),
        is_stable_sort_with(s, u, less, q),
        forall|a: Entry, b: Entry| #[trigger] less(a, b) ==> !less(b, a),
        0 <= n <= s.len(),
    ensures
        forall|i: int| 0 <= i < n ==> #[trigger] p[i] == q[i],
    decreases n,
{
    if n > 0 {
        lemma_same_permutation(s, t, u, less, p, q, n - 1);
        let i = n - 1;
        if p[i] != q[i] {
            assert(p.contains(q[i]));
            let j = choose|j: int| 0 <= j < p.len() && p[j] == q[i];
            assert(q.contains(p[i]));
            let k = choose|k: int| 0 <= k < q.len() && q[k] == p[i];
            assert(j > i);
            assert(k > i) by {
                if k < i {
                    assert(p[k] == p[i]);
                }
            }
            assert(t[i] == u[k] && t[j] == u[i]);
        }
    }
}

/// What is already sorted is its own stable sort.
pub proof fn lemma_stable_sort_of_sorted(
    s: Seq<Entry>,
    t: Seq<Entry>,
    less: spec_fn(Entry, Entry) -> bool,
)
    requires
        is_stable_sort(s, t, less),
        is_sorted(s, less),
        forall|a: Entry, b: Entry| #[trigger] less(a, b) ==> !less(b, a),
    ensures
        t == s,
{
    let p = Seq::new(s.len(), |i: int| i);
    assert forall|k: int| 0 <= k < s.len() implies #[trigger] p.contains(k) by {
        assert(p[k] == k);
    }
    assert(is_stable_sort_with(s, s, less, p));
    lemma_stable_sort_unique(s, t, s, less);
}

/// Every sequence has a stable sort by key and sequence number.
pub proof fn lemma_stable_sort_exists(s: Seq<Entry>) -> (t: Seq<Entry>)
    ensures
        is_stable_sort(s, t, by_key_then_seq()),
    decreases s.len(),
{
    let less = by_key_then_seq();
    if s.len() == 0 {
        assert(is_stable_sort_with(s, s, less, Seq::empty()));
        s
    } else {
        let front = s.drop_last();
        let x = s.last();
        let last = s.len() - 1;
        let u = lemma_stable_sort_exists(front);
        let q = choose|q: Seq<int>| is_stable_sort_with(front, u, less, q);
        let k = lemma_insertion_point(u, x, u.len() as int);
        let t = u.insert(k, x);
        let p = q.insert(k, last);
        assert forall|i: int| 0 <= i < s.len() implies #[trigger] p.contains(i) by {
            if i == last {
                assert(p[k] == i);
            } else {
                assert(q.contains(i));
                let j = choose|j: int| 0 <= j < q.len() && q[j] == i;
                assert(p[if j < k { j } else { j + 1 }] == i);
            }
        }
        assert(is_stable_sort_with(s, t, less, p));
        t
    }
}

/// The place among the first `n` of `u` behind all that `x` does not come before.
proof fn lemma_insertion_point(u: Seq<Entry>, x: Entry, n: int) -> (k: int)
    requires
        0 <= n <= u.len(),
        is_sorted(u, by_key_then_seq()),
    ensures
        0 <= k <= n,
        forall|i: int| 0 <= i < k ==> !by_key_then_seq()(x, #[trigger] u[i]),
        forall|i: int| k <= i < n ==> by_key_then_seq()(x, #[trigger] u[i]),
    decreases n,
{
    if n == 0 || !by_key_then_seq()(x, u[n - 1]) {
        n
    } else {
        lemma_insertion_point(u, x, n - 1)
    }
}

} // verus!
