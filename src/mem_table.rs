use vstd::prelude::*;
use core::cmp::Ordering;

use crate::entries::{copy_bytes, Entry, EntryView};
use crate::keys::{compare_keys, lemma_lex_asymmetric, lemma_lex_irreflexive, lemma_lex_transitive, lex_lt};

verus! {

/// Bytes that a record's timestamp takes.
pub const TIMESTAMP_SIZE: usize = 16;

/// Bytes that a record's tombstone flag takes.
pub const TOMBSTONE_SIZE: usize = 1;

/// What one record adds to a MemTable's size estimate.
pub open spec fn entry_size(e: EntryView) -> nat {
    e.key.len() + match e.value {
        Some(v) => v.len(),
        None => 0,
    } + 16 + 1
}

/// The length of a record's value; 0 for a tombstone.
pub open spec fn value_len(e: EntryView) -> nat {
    match e.value {
        Some(v) => v.len(),
        None => 0,
    }
}

/// The size estimate of a sequence of records: the sum of their sizes.
pub open spec fn total_size(s: Seq<EntryView>) -> nat
    decreases s.len(),
{
    if s.len() == 0 {
        0
    } else {
        total_size(s.drop_last()) + entry_size(s.last())
    }
}

/// Records whose keys are strictly ascending.
pub open spec fn sorted_by_key(s: Seq<EntryView>) -> bool {
    forall|i: int, j: int| 0 <= i < j < s.len() ==> lex_lt(#[trigger] s[i].key, #[trigger] s[j].key)
}

/// Whether some record of `s` has key `k`.
pub open spec fn has_key(s: Seq<EntryView>, k: Seq<u8>) -> bool {
    exists|i: int| 0 <= i < s.len() && (#[trigger] s[i]).key == k
}

/// The records as a map from key to record.
pub open spec fn as_map(s: Seq<EntryView>) -> Map<Seq<u8>, EntryView> {
    Map::new(|k: Seq<u8>| has_key(s, k), |k: Seq<u8>| s[choose|i: int| 0 <= i < s.len() && (#[trigger] s[i]).key == k])
}

pub proof fn lemma_total_size_concat(a: Seq<EntryView>, b: Seq<EntryView>)
    ensures
        total_size(a + b) == total_size(a) + total_size(b),
    decreases b.len(),
{
    if b.len() == 0 {
        assert(a + b =~= a);
    } else {
        assert((a + b).drop_last() =~= a + b.drop_last());
        lemma_total_size_concat(a, b.drop_last());
    }
}

pub proof fn lemma_total_size_single(x: EntryView)
    ensures
        total_size(seq![x]) == entry_size(x),
{
    assert(seq![x].drop_last() =~= Seq::<EntryView>::empty());
    assert(total_size(Seq::<EntryView>::empty()) == 0);
}

pub proof fn lemma_entry_size_bounded(s: Seq<EntryView>, i: int)
    requires
        0 <= i < s.len(),
    ensures
        entry_size(s[i]) <= total_size(s),
{
    lemma_total_size_concat(s.subrange(0, i), s.subrange(i, s.len() as int));
    assert(s =~= s.subrange(0, i) + s.subrange(i, s.len() as int));
    let t = s.subrange(i, s.len() as int);
    lemma_total_size_concat(seq![s[i]], t.subrange(1, t.len() as int));
    assert(t =~= seq![s[i]] + t.subrange(1, t.len() as int));
    lemma_total_size_single(s[i]);
}

pub proof fn lemma_total_size_update(s: Seq<EntryView>, i: int, x: EntryView)
    requires
        0 <= i < s.len(),
    ensures
        total_size(s.update(i, x)) + entry_size(s[i]) == total_size(s) + entry_size(x),
{
    let a = s.subrange(0, i);
    let b = s.subrange(i + 1, s.len() as int);
    assert(s =~= a + seq![s[i]] + b);
    assert(s.update(i, x) =~= a + seq![x] + b);
    lemma_total_size_concat(a + seq![s[i]], b);
    lemma_total_size_concat(a, seq![s[i]]);
    lemma_total_size_concat(a + seq![x], b);
    lemma_total_size_concat(a, seq![x]);
    lemma_total_size_single(s[i]);
    lemma_total_size_single(x);
}

pub proof fn lemma_total_size_insert(s: Seq<EntryView>, i: int, x: EntryView)
    requires
        0 <= i <= s.len(),
    ensures
        total_size(s.insert(i, x)) == total_size(s) + entry_size(x),
{
    let a = s.subrange(0, i);
    let b = s.subrange(i, s.len() as int);
    assert(s =~= a + b);
    assert(s.insert(i, x) =~= a + seq![x] + b);
    lemma_total_size_concat(a, b);
    lemma_total_size_concat(a + seq![x], b);
    lemma_total_size_concat(a, seq![x]);
    lemma_total_size_single(x);
}

/// In sorted records, the map sends each record's key to that record.
pub proof fn lemma_as_map_index(s: Seq<EntryView>, i: int)
    requires
        sorted_by_key(s),
        0 <= i < s.len(),
    ensures
        as_map(s).contains_key(s[i].key),
        as_map(s)[s[i].key] == s[i],
{
    let k = s[i].key;
    assert(has_key(s, k));
    let j = choose|j: int| 0 <= j < s.len() && (#[trigger] s[j]).key == k;
    if j < i {
        lemma_lex_asymmetric(s[j].key, s[i].key);
    } else if i < j {
        lemma_lex_asymmetric(s[i].key, s[j].key);
    }
}

/// Replacing or inserting the record for `x.key` in sorted records turns the
/// map into the old map with that key set to `x`.
proof fn lemma_as_map_put(
    s: Seq<EntryView>,
    t: Seq<EntryView>,
    x: EntryView,
    idx: int,
    to_t: spec_fn(int) -> int,
    to_s: spec_fn(int) -> int,
)
    requires
        sorted_by_key(s),
        sorted_by_key(t),
        0 <= idx < t.len(),
        t[idx] == x,
        forall|i: int| 0 <= i < s.len() && (#[trigger] s[i]).key != x.key ==> 0 <= to_t(i) < t.len() && t[to_t(i)] == s[i],
        forall|j: int| 0 <= j < t.len() && j != idx ==> 0 <= to_s(j) < s.len() && #[trigger] t[j] == s[to_s(j)],
    ensures
        as_map(t) == as_map(s).insert(x.key, x),
{
    lemma_as_map_index(t, idx);
    assert forall|k: Seq<u8>| k != x.key implies (as_map(t).contains_key(k) == as_map(s).contains_key(k)) && (as_map(t).contains_key(k) ==> as_map(t)[k] == as_map(s)[k]) by {
        if as_map(s).contains_key(k) {
            let i = choose|i: int| 0 <= i < s.len() && (#[trigger] s[i]).key == k;
            lemma_as_map_index(s, i);
            lemma_as_map_index(t, to_t(i));
        }
        if as_map(t).contains_key(k) {
            let j = choose|j: int| 0 <= j < t.len() && (#[trigger] t[j]).key == k;
            lemma_as_map_index(s, to_s(j));
            lemma_as_map_index(t, j);
        }
    }
    assert(as_map(t) =~= as_map(s).insert(x.key, x));
}

proof fn lemma_put_replace(s: Seq<EntryView>, idx: int, x: EntryView)
    requires
        sorted_by_key(s),
        0 <= idx < s.len(),
        s[idx].key == x.key,
    ensures
        sorted_by_key(s.update(idx, x)),
        as_map(s.update(idx, x)) == as_map(s).insert(x.key, x),
{
    let t = s.update(idx, x);
    assert(sorted_by_key(t)) by {
        assert forall|i: int, j: int| 0 <= i < j < t.len() implies lex_lt(#[trigger] t[i].key, #[trigger] t[j].key) by {
            assert(t[i].key == s[i].key && t[j].key == s[j].key);
        }
    }
    lemma_as_map_put(s, t, x, idx, |i: int| i, |j: int| j);
}

pub proof fn lemma_put_insert(s: Seq<EntryView>, idx: int, x: EntryView)
    requires
        sorted_by_key(s),
        0 <= idx <= s.len(),
        forall|j: int| 0 <= j < idx ==> lex_lt(#[trigger] s[j].key, x.key),
        forall|j: int| idx <= j < s.len() ==> lex_lt(x.key, #[trigger] s[j].key),
    ensures
        sorted_by_key(s.insert(idx, x)),
        as_map(s.insert(idx, x)) == as_map(s).insert(x.key, x),
{
    let t = s.insert(idx, x);
    assert forall|i: int, j: int| 0 <= i < j < t.len() implies lex_lt(#[trigger] t[i].key, #[trigger] t[j].key) by {
        if j < idx {
            assert(t[i] == s[i] && t[j] == s[j]);
        } else if j == idx {
            assert(t[i] == s[i]);
        } else if i < idx {
            assert(t[i] == s[i] && t[j] == s[j - 1]);
            lemma_lex_transitive(t[i].key, x.key, t[j].key);
        } else if i == idx {
            assert(t[j] == s[j - 1]);
        } else {
            assert(t[i] == s[i - 1] && t[j] == s[j - 1]);
        }
    }
    lemma_as_map_put(s, t, x, idx, |i: int| if i < idx { i } else { i + 1 }, |j: int| if j < idx { j } else { j - 1 });
}

/// Sorted records are determined by their map: two sorted sequences with the
/// same map are the same sequence.
pub proof fn lemma_sorted_records_unique(s: Seq<EntryView>, t: Seq<EntryView>)
    requires
        sorted_by_key(s),
        sorted_by_key(t),
        as_map(s) == as_map(t),
    ensures
        s == t,
    decreases s.len(),
{
    if s.len() == 0 {
        if t.len() > 0 {
            lemma_as_map_index(t, 0);
        }
        assert(s =~= t);
    } else if t.len() == 0 {
        lemma_as_map_index(s, 0);
    } else {
        let x = s[0];
        let y = t[0];
        lemma_as_map_index(s, 0);
        lemma_as_map_index(t, 0);
        // The first key of each is the other's first key too.
        let i = choose|i: int| 0 <= i < s.len() && (#[trigger] s[i]).key == y.key;
        let j = choose|j: int| 0 <= j < t.len() && (#[trigger] t[j]).key == x.key;
        if i > 0 && j > 0 {
            lemma_lex_transitive(x.key, y.key, x.key);
            lemma_lex_irreflexive(x.key);
        } else if i > 0 {
            assert(t[0].key == x.key);
            lemma_lex_irreflexive(x.key);
        } else if j > 0 {
            assert(s[0].key == y.key);
            lemma_lex_irreflexive(y.key);
        }
        assert(x.key == y.key);
        lemma_as_map_index(s, 0);
        lemma_as_map_index(t, 0);
        assert(x == y);
        let s1 = s.drop_first();
        let t1 = t.drop_first();
        assert(s1.insert(0, x) =~= s);
        assert(t1.insert(0, y) =~= t);
        lemma_put_insert(s1, 0, x);
        lemma_put_insert(t1, 0, y);
        if as_map(s1).contains_key(x.key) {
            let k = choose|k: int| 0 <= k < s1.len() && (#[trigger] s1[k]).key == x.key;
            assert(s[k + 1] == s1[k]);
            lemma_lex_irreflexive(x.key);
        }
        if as_map(t1).contains_key(y.key) {
            let k = choose|k: int| 0 <= k < t1.len() && (#[trigger] t1[k]).key == y.key;
            assert(t[k + 1] == t1[k]);
            lemma_lex_irreflexive(y.key);
        }
        assert(as_map(s1) =~= as_map(s).remove(x.key));
        assert(as_map(t1) =~= as_map(t).remove(y.key));
        lemma_sorted_records_unique(s1, t1);
        assert(s =~= t);
    }
}

/// An in-memory table of the latest writes/// An in-memory table of the latest writes, one record per key, kept in
/// ascending key order, with a running size estimate.
pub struct MemTable {
    entries: Vec<Entry>,
    size: usize,
}

impl MemTable {
    /// The records in ascending key order.
    pub closed spec fn records(&self) -> Seq<EntryView> {
        self.entries@.map_values(|e: Entry| e@)
    }

    /// The size estimate, in bytes.
    pub closed spec fn spec_size(&self) -> nat {
        self.size as nat
    }

    /// The table as a map from key to its latest record.
    pub open spec fn view(&self) -> Map<Seq<u8>, EntryView> {
        as_map(self.records())
    }

    /// Keys strictly ascending, and the size estimate equal to the sum of the
    /// records' sizes.
    pub open spec fn wf(&self) -> bool {
        &&& sorted_by_key(self.records())
        &&& self.spec_size() == total_size(self.records())
    }

    pub fn new() -> (r: Self)
        ensures
            r.wf(),
            r.records() == Seq::<EntryView>::empty(),
            r@ == Map::<Seq<u8>, EntryView>::empty(),
    {
        let r = Self { entries: Vec::new(), size: 0 };
        assert(r.records() =~= Seq::<EntryView>::empty());
        assert(r@ =~= Map::<Seq<u8>, EntryView>::empty());
        r
    }

    /// The number of records, tombstones included.
    pub fn len(&self) -> (r: usize)
        ensures
            r == self.records().len(),
    {
        self.entries.len()
    }

    /// The size estimate: the sum over the records of key length, value
    /// length (if any), 16 and 1.
    pub fn size(&self) -> (r: usize)
        requires
            self.wf(),
        ensures
            r == total_size(self.records()),
    {
        self.size
    }

    /// The records in ascending key order.
    pub fn entries(&self) -> (r: &Vec<Entry>)
        ensures
            r@.map_values(|e: Entry| e@) == self.records(),
    {
        &self.entries
    }

    /// The record stored for `key`, a tombstone included.
    pub fn get(&self, key: &[u8]) -> (r: Option<&Entry>)
        requires
            self.wf(),
        ensures
            match r {
                Some(e) => self@.contains_key(key@) && e@ == self@[key@],
                None => !self@.contains_key(key@),
            },
    {
        match self.get_index(key) {
            Ok(idx) => {
                proof {
                    lemma_as_map_index(self.records(), idx as int);
                }
                Some(&self.entries[idx])
            },
            Err(idx) => {
                proof {
                    if self@.contains_key(key@) {
                        let s = self.records();
                        let i = choose|i: int| 0 <= i < s.len() && (#[trigger] s[i]).key == key@;
                        lemma_lex_irreflexive(key@);
                    }
                }
                None
            },
        }
    }

    /// Stores a live record for `key`, replacing any earlier record for it.
    pub fn set(&mut self, key: &[u8], value: &[u8], timestamp: u128)
        requires
            old(self).wf(),
            total_size(old(self).records()) + key@.len() + value@.len() + 17 <= usize::MAX,
        ensures
            final(self).wf(),
            final(self)@ == old(self)@.insert(
                key@,
                EntryView { key: key@, value: Some(value@), timestamp },
            ),
            total_size(final(self).records()) <= total_size(old(self).records()) + entry_size(
                EntryView { key: key@, value: Some(value@), timestamp },
            ),
            old(self)@.contains_key(key@) ==> total_size(final(self).records()) + value_len(old(self)@[key@])
                == total_size(old(self).records()) + value@.len(),
            !old(self)@.contains_key(key@) ==> total_size(final(self).records())
                == total_size(old(self).records()) + key@.len() + value@.len() + 17,
    {
        let entry = Entry::new(copy_bytes(key), Some(copy_bytes(value)), timestamp);
        self.put(entry);
    }

    /// Stores a tombstone for `key`, replacing any earlier record for it.
    pub fn delete(&mut self, key: &[u8], timestamp: u128)
        requires
            old(self).wf(),
            total_size(old(self).records()) + key@.len() + 17 <= usize::MAX,
        ensures
            final(self).wf(),
            final(self)@ == old(self)@.insert(key@, EntryView { key: key@, value: None, timestamp }),
            total_size(final(self).records()) <= total_size(old(self).records()) + entry_size(
                EntryView { key: key@, value: None, timestamp },
            ),
            old(self)@.contains_key(key@) ==> total_size(final(self).records()) + value_len(old(self)@[key@])
                == total_size(old(self).records()),
            !old(self)@.contains_key(key@) ==> total_size(final(self).records())
                == total_size(old(self).records()) + key@.len() + 17,
    {
        let entry = Entry::new(copy_bytes(key), None, timestamp);
        self.put(entry);
    }

    /// Stores `entry` as the record for its key and updates the size
    /// estimate: a replaced record gives back its value's length, a new one
    /// adds its key's length and 17.
    fn put(&mut self, entry: Entry)
        requires
            old(self).wf(),
            total_size(old(self).records()) + entry_size(entry@) <= usize::MAX,
        ensures
            final(self).wf(),
            final(self)@ == old(self)@.insert(entry@.key, entry@),
            total_size(final(self).records()) <= total_size(old(self).records()) + entry_size(entry@),
            old(self)@.contains_key(entry@.key) ==> total_size(final(self).records()) + value_len(old(self)@[entry@.key])
                == total_size(old(self).records()) + value_len(entry@),
            !old(self)@.contains_key(entry@.key) ==> total_size(final(self).records())
                == total_size(old(self).records()) + entry_size(entry@),
    {
        let ghost s = self.records();
        let ghost x = entry@;
        let new_len: usize = match &entry.value {
            Some(v) => v.len(),
            None => 0,
        };
        match self.get_index(entry.key.as_slice()) {
            Ok(idx) => {
                proof {
                    lemma_entry_size_bounded(s, idx as int);
                    lemma_total_size_update(s, idx as int, x);
                    assert(s[idx as int] == self.entries@[idx as int]@);
                    lemma_as_map_index(s, idx as int);
                }
                let old_len: usize = match &self.entries[idx].value {
                    Some(v) => v.len(),
                    None => 0,
                };
                self.size = self.size - old_len;
                self.size = self.size + new_len;
                self.entries.set(idx, entry);
                proof {
                    assert(self.records() =~= s.update(idx as int, x));
                    lemma_put_replace(s, idx as int, x);
                }
            },
            Err(idx) => {
                self.size = self.size + entry.key.len() + new_len + TIMESTAMP_SIZE + TOMBSTONE_SIZE;
                self.entries.insert(idx, entry);
                proof {
                    if as_map(s).contains_key(x.key) {
                        let i = choose|i: int| 0 <= i < s.len() && (#[trigger] s[i]).key == x.key;
                        lemma_lex_irreflexive(x.key);
                    }
                    assert(self.records() =~= s.insert(idx as int, x));
                    lemma_total_size_insert(s, idx as int, x);
                    lemma_put_insert(s, idx as int, x);
                }
            },
        }
    }

    /// Binary search: the position of `key`, or the position where it would
    /// be inserted.
    fn get_index(&self, key: &[u8]) -> (r: Result<usize, usize>)
        requires
            sorted_by_key(self.records()),
        ensures
            match r {
                Ok(i) => i < self.records().len() && self.records()[i as int].key == key@,
                Err(i) => {
                    &&& i <= self.records().len()
                    &&& forall|j: int| 0 <= j < i ==> lex_lt(#[trigger] self.records()[j].key, key@)
                    &&& forall|j: int| i <= j < self.records().len() ==> lex_lt(key@, #[trigger] self.records()[j].key)
                },
            },
    {
        let ghost s = self.records();
        let mut lo: usize = 0;
        let mut hi: usize = self.entries.len();
        while lo < hi
            invariant
                s == self.records(),
                sorted_by_key(s),
                s.len() == self.entries@.len(),
                0 <= lo <= hi <= s.len(),
                forall|j: int| 0 <= j < lo ==> lex_lt(#[trigger] s[j].key, key@),
                forall|j: int| hi <= j < s.len() ==> lex_lt(key@, #[trigger] s[j].key),
            decreases hi - lo,
        {
            let mid = lo + (hi - lo) / 2;
            assert(s[mid as int] == self.entries@[mid as int]@);
            match compare_keys(self.entries[mid].key.as_slice(), key) {
                Ordering::Equal => {
                    return Ok(mid);
                },
                Ordering::Less => {
                    assert forall|j: int| 0 <= j <= mid implies lex_lt(#[trigger] s[j].key, key@) by {
                        if j < mid {
                            lemma_lex_transitive(s[j].key, s[mid as int].key, key@);
                        }
                    }
                    lo = mid + 1;
                },
                Ordering::Greater => {
                    assert forall|j: int| mid <= j < s.len() implies lex_lt(key@, #[trigger] s[j].key) by {
                        if j > mid {
                            lemma_lex_transitive(key@, s[mid as int].key, s[j].key);
                        }
                    }
                    hi = mid;
                },
            }
        }
        Err(lo)
    }
}

/// Two well-formed tables with the same map hold the same records in the same
/// order and have the same size estimate.
pub proof fn lemma_equal_tables(a: MemTable, b: MemTable)
    requires
        a.wf(),
        b.wf(),
        a@ == b@,
    ensures
        a.records() == b.records(),
        total_size(a.records()) == total_size(b.records()),
{
    lemma_sorted_records_unique(a.records(), b.records());
}

} // verus!
