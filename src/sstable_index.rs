use vstd::prelude::*;
use vstd::bytes::spec_u64_to_le_bytes;
use core::cmp::Ordering;
use std::collections::BTreeMap;

use crate::entries::copy_bytes;
use crate::errors::Error;
use crate::keys::{compare_keys, lemma_lex_asymmetric, lemma_lex_irreflexive, lemma_lex_transitive, lex_lt};

verus! {

/// Key/offset pairs whose keys are strictly ascending.
pub open spec fn sorted_pairs(s: Seq<(Seq<u8>, u64)>) -> bool {
    forall|i: int, j: int| 0 <= i < j < s.len() ==> lex_lt(#[trigger] s[i].0, #[trigger] s[j].0)
}

pub open spec fn has_pair_key(s: Seq<(Seq<u8>, u64)>, k: Seq<u8>) -> bool {
    exists|i: int| 0 <= i < s.len() && (#[trigger] s[i]).0 == k
}

/// A position of key `k` in `s`, where there is one.
pub open spec fn pair_index(s: Seq<(Seq<u8>, u64)>, k: Seq<u8>) -> int {
    choose|i: int| 0 <= i < s.len() && (#[trigger] s[i]).0 == k
}

/// The pairs as a map from key to offset.
pub open spec fn pairs_map(s: Seq<(Seq<u8>, u64)>) -> Map<Seq<u8>, u64> {
    Map::new(|k: Seq<u8>| has_pair_key(s, k), |k: Seq<u8>| s[pair_index(s, k)].1)
}

pub open spec fn pairs_view(v: Seq<(Vec<u8>, u64)>) -> Seq<(Seq<u8>, u64)> {
    v.map_values(|p: (Vec<u8>, u64)| (p.0@, p.1))
}

/// One pair as the index file holds it: the key's length as `u64`, the key,
/// then the offset as `u64`, all little-endian.
pub open spec fn pair_bytes(p: (Seq<u8>, u64)) -> Seq<u8> {
    spec_u64_to_le_bytes(p.0.len() as u64) + p.0 + spec_u64_to_le_bytes(p.1)
}

pub open spec fn pairs_bytes(s: Seq<(Seq<u8>, u64)>) -> Seq<u8>
    decreases s.len(),
{
    if s.len() == 0 {
        Seq::empty()
    } else {
        pairs_bytes(s.drop_last()) + pair_bytes(s.last())
    }
}

/// The index file's format: the number of pairs as `u64`, then each pair in
/// ascending key order. This is how bincode 1 encodes a
/// `BTreeMap<Vec<u8>, u64>` with its default options.
pub open spec fn index_bytes(s: Seq<(Seq<u8>, u64)>) -> Seq<u8> {
    spec_u64_to_le_bytes(s.len() as u64) + pairs_bytes(s)
}

/// Whether `b` starts with the encoding of some sequence of pairs.
pub open spec fn starts_with_index(b: Seq<u8>) -> bool {
    exists|p: Seq<(Seq<u8>, u64)>, rest: Seq<u8>| #![trigger index_bytes(p) + rest] b == index_bytes(p) + rest
}

/// Relies on `bincode::serialize` (bincode 1.3, fixed-width little-endian
/// integers, no size limit): a `BTreeMap<Vec<u8>, u64>` becomes its length,
/// then each key (length, bytes) and value in the map's ascending key order.
/// Maps and vectors always know their length, so serialising into a vector
/// does not fail.
#[verifier::external_body]
fn bincode_serialize_pairs(pairs: &Vec<(Vec<u8>, u64)>) -> (r: Option<Vec<u8>>)
    requires
        sorted_pairs(pairs_view(pairs@)),
    ensures
        r is Some,
        r matches Some(b) ==> b@ == index_bytes(pairs_view(pairs@)),
{
    let map: BTreeMap<Vec<u8>, u64> = pairs.iter().cloned().collect();
    bincode::serialize(&map).ok()
}

/// Relies on `bincode::deserialize` into a `BTreeMap<Vec<u8>, u64>` (bincode
/// 1.3, fixed-width little-endian integers, no size limit, trailing bytes
/// allowed): it succeeds exactly when the bytes start with a count and that
/// many (key length, key, value) pairs; the encoding of a map decodes to that
/// map; and a decoded map yields its pairs in ascending key order.
#[verifier::external_body]
fn bincode_deserialize_pairs(bytes: &[u8]) -> (r: Option<Vec<(Vec<u8>, u64)>>)
    ensures
        r matches Some(v) ==> sorted_pairs(pairs_view(v@)),
        r is Some ==> starts_with_index(bytes@),
        forall|p: Seq<(Seq<u8>, u64)>, rest: Seq<u8>| #![trigger index_bytes(p) + rest] (r matches Some(v) && pairs_view(v@) == p) <== sorted_pairs(p) && bytes@ == index_bytes(p) + rest,
{
    bincode::deserialize::<BTreeMap<Vec<u8>, u64>>(bytes).ok().map(|m| m.into_iter().collect())
}

pub proof fn lemma_pairs_map_index(s: Seq<(Seq<u8>, u64)>, i: int)
    requires
        sorted_pairs(s),
        0 <= i < s.len(),
    ensures
        pairs_map(s).contains_key(s[i].0),
        pairs_map(s)[s[i].0] == s[i].1,
{
    let k = s[i].0;
    assert(has_pair_key(s, k));
    let j = pair_index(s, k);
    if j < i {
        lemma_lex_asymmetric(s[j].0, s[i].0);
    } else if i < j {
        lemma_lex_asymmetric(s[i].0, s[j].0);
    }
}

/// Two sorted pair sequences that agree, away from key `key`, through index
/// maps each way, have maps that agree away from `key`.
proof fn lemma_pairs_map_agree(
    s: Seq<(Seq<u8>, u64)>,
    t: Seq<(Seq<u8>, u64)>,
    key: Seq<u8>,
    to_t: spec_fn(int) -> int,
    to_s: spec_fn(int) -> int,
)
    requires
        sorted_pairs(s),
        sorted_pairs(t),
        forall|i: int| 0 <= i < s.len() && s[i].0 != key ==> 0 <= #[trigger] to_t(i) < t.len() && t[to_t(i)] == s[i],
        forall|j: int| 0 <= j < t.len() && t[j].0 != key ==> 0 <= #[trigger] to_s(j) < s.len() && t[j] == s[to_s(j)],
    ensures
        forall|k: Seq<u8>| k != key ==> (#[trigger] pairs_map(t).contains_key(k) == pairs_map(s).contains_key(k)),
        forall|k: Seq<u8>| k != key && #[trigger] pairs_map(t).contains_key(k) ==> pairs_map(t)[k] == pairs_map(s)[k],
{
    assert forall|k: Seq<u8>| k != key implies (#[trigger] pairs_map(t).contains_key(k) == pairs_map(s).contains_key(k)) && (pairs_map(t).contains_key(k) ==> pairs_map(t)[k] == pairs_map(s)[k]) by {
        lemma_pairs_map_agree_at(s, t, key, to_t, to_s, k);
    }
}

proof fn lemma_pairs_map_agree_at(
    s: Seq<(Seq<u8>, u64)>,
    t: Seq<(Seq<u8>, u64)>,
    key: Seq<u8>,
    to_t: spec_fn(int) -> int,
    to_s: spec_fn(int) -> int,
    k: Seq<u8>,
)
    requires
        sorted_pairs(s),
        sorted_pairs(t),
        forall|i: int| 0 <= i < s.len() && s[i].0 != key ==> 0 <= #[trigger] to_t(i) < t.len() && t[to_t(i)] == s[i],
        forall|j: int| 0 <= j < t.len() && t[j].0 != key ==> 0 <= #[trigger] to_s(j) < s.len() && t[j] == s[to_s(j)],
        k != key,
    ensures
        pairs_map(t).contains_key(k) == pairs_map(s).contains_key(k),
        pairs_map(t).contains_key(k) ==> pairs_map(t)[k] == pairs_map(s)[k],
{
    if has_pair_key(s, k) {
        let i = pair_index(s, k);
        lemma_pairs_map_index(s, i);
        lemma_pairs_map_index(t, to_t(i));
    }
    if has_pair_key(t, k) {
        let j = pair_index(t, k);
        lemma_pairs_map_index(s, to_s(j));
        lemma_pairs_map_index(t, j);
    }
}

/// A sorted map from key to the byte offset of the key's record in an
/// SSTable's data file, and the path of the file it is persisted to.
pub struct SSTableIndex {
    indexes: Vec<(Vec<u8>, u64)>,
    path: String,
}

/// Builds an [`SSTableIndex`]: starts empty, then loads the index file's
/// contents.
pub struct SSTableIndexBuilder(SSTableIndex);

impl SSTableIndexBuilder {
    /// The index being built.
    pub closed spec fn index(&self) -> SSTableIndex {
        self.0
    }

    /// An empty index that persists to `path`.
    pub fn new(path: String) -> (r: Self)
        ensures
            r.index().wf(),
            r.index().pairs() == Seq::<(Seq<u8>, u64)>::empty(),
            r.index().path() == path@,
    {
        let r = Self(SSTableIndex { indexes: Vec::new(), path });
        assert(r.index().pairs() =~= Seq::<(Seq<u8>, u64)>::empty());
        r
    }

    /// Loads the contents of the index file: an empty file leaves the index
    /// empty; otherwise the contents must decode as an index, or the load
    /// fails with `CorruptIndex`.
    pub fn indexes(self, bytes: &[u8]) -> (r: Result<Self, Error>)
        requires
            self.index().wf(),
        ensures
            bytes@.len() == 0 ==> r == Ok::<Self, Error>(self),
            bytes@.len() > 0 && !starts_with_index(bytes@) ==> r == Err::<Self, Error>(Error::CorruptIndex),
            r is Err ==> r == Err::<Self, Error>(Error::CorruptIndex),
            r matches Ok(b) ==> b.index().wf() && b.index().path() == self.index().path(),
            forall|p: Seq<(Seq<u8>, u64)>|
                sorted_pairs(p) && bytes@ == #[trigger] index_bytes(p) ==> (r matches Ok(b) && b.index().pairs() == p),
            forall|p: Seq<(Seq<u8>, u64)>, rest: Seq<u8>|
                sorted_pairs(p) && bytes@ == #[trigger] (index_bytes(p) + rest) ==> (r matches Ok(b) && b.index().pairs() == p),
    {
        if bytes.len() == 0 {
            proof {
                vstd::bytes::lemma_auto_spec_u64_to_from_le_bytes();
            }
            return Ok(self);
        }
        match bincode_deserialize_pairs(bytes) {
            Some(indexes) => {
                proof {
                    assert forall|p: Seq<(Seq<u8>, u64)>| sorted_pairs(p) && bytes@ == #[trigger] index_bytes(p) implies pairs_view(indexes@) == p by {
                        assert(index_bytes(p) + Seq::<u8>::empty() =~= index_bytes(p));
                    }
                }
                let SSTableIndexBuilder(index) = self;
                Ok(SSTableIndexBuilder(SSTableIndex { indexes, path: index.path }))
            },
            None => {
                proof {
                    assert forall|p: Seq<(Seq<u8>, u64)>| sorted_pairs(p) implies bytes@ != #[trigger] index_bytes(p) by {
                        assert(index_bytes(p) + Seq::<u8>::empty() =~= index_bytes(p));
                    }
                }
                Err(Error::CorruptIndex)
            },
        }
    }

    pub fn build(self) -> (r: SSTableIndex)
        ensures
            r == self.index(),
    {
        self.0
    }
}

impl SSTableIndex {
    /// The key/offset pairs in ascending key order.
    pub closed spec fn pairs(&self) -> Seq<(Seq<u8>, u64)> {
        pairs_view(self.indexes@)
    }

    /// The path the index persists to.
    pub closed spec fn path(&self) -> Seq<char> {
        self.path@
    }

    /// The index as a map from key to offset.
    pub open spec fn view(&self) -> Map<Seq<u8>, u64> {
        pairs_map(self.pairs())
    }

    pub open spec fn wf(&self) -> bool {
        sorted_pairs(self.pairs())
    }

    /// Records `offset` for `key`, replacing any earlier offset.
    pub fn insert(&mut self, key: &[u8], offset: u64)
        requires
            old(self).wf(),
        ensures
            final(self).wf(),
            final(self)@ == old(self)@.insert(key@, offset),
            final(self).path() == old(self).path(),
    {
        let ghost s = self.pairs();
        let ghost x = (key@, offset);
        match self.find(key) {
            Ok(idx) => {
                self.indexes.set(idx, (copy_bytes(key), offset));
                proof {
                    let t = self.pairs();
                    assert(t =~= s.update(idx as int, x));
                    assert(sorted_pairs(t)) by {
                        assert forall|i: int, j: int| 0 <= i < j < t.len() implies lex_lt(#[trigger] t[i].0, #[trigger] t[j].0) by {
                            assert(t[i].0 == s[i].0 && t[j].0 == s[j].0);
                        }
                    }
                    lemma_pairs_map_agree(s, t, key@, |i: int| i, |j: int| j);
                    lemma_pairs_map_index(t, idx as int);
                    assert(pairs_map(t) =~= pairs_map(s).insert(key@, offset));
                }
            },
            Err(idx) => {
                self.indexes.insert(idx, (copy_bytes(key), offset));
                proof {
                    let t = self.pairs();
                    assert(t =~= s.insert(idx as int, x));
                    assert forall|i: int, j: int| 0 <= i < j < t.len() implies lex_lt(#[trigger] t[i].0, #[trigger] t[j].0) by {
                        if j < idx {
                            assert(t[i] == s[i] && t[j] == s[j]);
                        } else if j == idx {
                            assert(t[i] == s[i]);
                        } else if i < idx {
                            assert(t[i] == s[i] && t[j] == s[j - 1]);
                            lemma_lex_transitive(t[i].0, key@, t[j].0);
                        } else if i == idx {
                            assert(t[j] == s[j - 1]);
                        } else {
                            assert(t[i] == s[i - 1] && t[j] == s[j - 1]);
                        }
                    }
                    lemma_pairs_map_agree(s, t, key@, |i: int| if i < idx { i } else { i + 1 }, |j: int| if j < idx { j } else { j - 1 });
                    lemma_pairs_map_index(t, idx as int);
                    assert(pairs_map(t) =~= pairs_map(s).insert(key@, offset));
                }
            },
        }
    }

    /// Drops `key` from the index, if it is there.
    pub fn remove(&mut self, key: &[u8])
        requires
            old(self).wf(),
        ensures
            final(self).wf(),
            final(self)@ == old(self)@.remove(key@),
            final(self).path() == old(self).path(),
    {
        let ghost s = self.pairs();
        match self.find(key) {
            Ok(idx) => {
                self.indexes.remove(idx);
                proof {
                    let t = self.pairs();
                    assert(t =~= s.remove(idx as int));
                    assert forall|i: int, j: int| 0 <= i < j < t.len() implies lex_lt(#[trigger] t[i].0, #[trigger] t[j].0) by {
                        if j < idx {
                            assert(t[i] == s[i] && t[j] == s[j]);
                        } else if i < idx {
                            assert(t[i] == s[i] && t[j] == s[j + 1]);
                        } else {
                            assert(t[i] == s[i + 1] && t[j] == s[j + 1]);
                        }
                    }
                    assert forall|i: int| 0 <= i < s.len() && (#[trigger] s[i]).0 != key@ implies i != idx by {}
                    lemma_pairs_map_agree(s, t, key@, |i: int| if i < idx { i } else { i - 1 }, |j: int| if j < idx { j } else { j + 1 });
                    if pairs_map(t).contains_key(key@) {
                        let j = choose|j: int| 0 <= j < t.len() && (#[trigger] t[j]).0 == key@;
                        lemma_lex_irreflexive(key@);
                        if j < idx {
                            assert(t[j] == s[j]);
                        } else {
                            assert(t[j] == s[j + 1]);
                        }
                    }
                    assert(pairs_map(t) =~= pairs_map(s).remove(key@));
                }
            },
            Err(idx) => {
                proof {
                    if pairs_map(s).contains_key(key@) {
                        let j = choose|j: int| 0 <= j < s.len() && (#[trigger] s[j]).0 == key@;
                        lemma_lex_irreflexive(key@);
                    }
                    assert(pairs_map(s) =~= pairs_map(s).remove(key@));
                }
            },
        }
    }

    pub fn contains_key(&self, key: &[u8]) -> (r: bool)
        requires
            self.wf(),
        ensures
            r == self@.contains_key(key@),
    {
        match self.get(key) {
            Some(_) => true,
            None => false,
        }
    }

    /// The offset recorded for `key`.
    pub fn get(&self, key: &[u8]) -> (r: Option<u64>)
        requires
            self.wf(),
        ensures
            match r {
                Some(o) => self@.contains_key(key@) && self@[key@] == o,
                None => !self@.contains_key(key@),
            },
    {
        match self.find(key) {
            Ok(idx) => {
                proof {
                    lemma_pairs_map_index(self.pairs(), idx as int);
                }
                Some(self.indexes[idx].1)
            },
            Err(_) => {
                proof {
                    if self@.contains_key(key@) {
                        let s = self.pairs();
                        let j = choose|j: int| 0 <= j < s.len() && (#[trigger] s[j]).0 == key@;
                        lemma_lex_irreflexive(key@);
                    }
                }
                None
            },
        }
    }

    /// The key/offset pairs in ascending key order.
    pub fn indexes(&self) -> (r: &Vec<(Vec<u8>, u64)>)
        ensures
            pairs_view(r@) == self.pairs(),
    {
        &self.indexes
    }

    /// The path of the index file.
    pub fn file_path(&self) -> (r: &String)
        ensures
            r@ == self.path(),
    {
        &self.path
    }

    /// The bytes to write to the index file, which replace its contents.
    pub fn persist(&self) -> (r: Vec<u8>)
        requires
            self.wf(),
        ensures
            r@ == index_bytes(self.pairs()),
    {
        match bincode_serialize_pairs(&self.indexes) {
            Some(b) => b,
            None => Vec::new(),
        }
    }

    /// Binary search: the position of `key`, or where it would be inserted.
    fn find(&self, key: &[u8]) -> (r: Result<usize, usize>)
        requires
            sorted_pairs(self.pairs()),
        ensures
            match r {
                Ok(i) => i < self.pairs().len() && self.pairs()[i as int].0 == key@,
                Err(i) => {
                    &&& i <= self.pairs().len()
                    &&& forall|j: int| 0 <= j < i ==> lex_lt(#[trigger] self.pairs()[j].0, key@)
                    &&& forall|j: int| i <= j < self.pairs().len() ==> lex_lt(key@, #[trigger] self.pairs()[j].0)
                },
            },
    {
        let ghost s = self.pairs();
        let mut lo: usize = 0;
        let mut hi: usize = self.indexes.len();
        while lo < hi
            invariant
                s == self.pairs(),
                sorted_pairs(s),
                s.len() == self.indexes@.len(),
                0 <= lo <= hi <= s.len(),
                forall|j: int| 0 <= j < lo ==> lex_lt(#[trigger] s[j].0, key@),
                forall|j: int| hi <= j < s.len() ==> lex_lt(key@, #[trigger] s[j].0),
            decreases hi - lo,
        {
            let mid = lo + (hi - lo) / 2;
            assert(s[mid as int].0 == self.indexes@[mid as int].0@);
            match compare_keys(self.indexes[mid].0.as_slice(), key) {
                Ordering::Equal => {
                    return Ok(mid);
                },
                Ordering::Less => {
                    assert forall|j: int| 0 <= j <= mid implies lex_lt(#[trigger] s[j].0, key@) by {
                        if j < mid {
                            lemma_lex_transitive(s[j].0, s[mid as int].0, key@);
                        }
                    }
                    lo = mid + 1;
                },
                Ordering::Greater => {
                    assert forall|j: int| mid <= j < s.len() implies lex_lt(key@, #[trigger] s[j].0) by {
                        if j > mid {
                            lemma_lex_transitive(key@, s[mid as int].0, s[j].0);
                        }
                    }
                    hi = mid;
                },
            }
        }
        Err(lo)
    }
}

} // verus!
