use vstd::prelude::*;
use vstd::utf8::encode_utf8;

use crate::entries::{encode_entry, Entry, EntryView};
use crate::errors::Error;
use crate::files::{get_files_with_ext_and_size, small_paths_with_ext, sort_paths, sorted_paths};
use crate::sstable::{table_lookup, SSTableWriter};
use crate::sstable_index::SSTableIndex;

verus! {

/// What a compaction writes for a stream of records read newest first: for
/// each key, the first live record met; later records of a key written
/// already are older duplicates, and tombstones are not copied.
pub open spec fn merged(recs: Seq<EntryView>) -> Map<Seq<u8>, EntryView>
    decreases recs.len(),
{
    if recs.len() == 0 {
        Map::empty()
    } else {
        let m = merged(recs.drop_last());
        let x = recs.last();
        if x.value is Some && !m.contains_key(x.key) {
            m.insert(x.key, x)
        } else {
            m
        }
    }
}

/// The keys of the tombstones among `recs`, in order.
pub open spec fn deleted_keys(recs: Seq<EntryView>) -> Seq<Seq<u8>>
    decreases recs.len(),
{
    if recs.len() == 0 {
        Seq::empty()
    } else {
        let d = deleted_keys(recs.drop_last());
        if recs.last().value is None {
            d.push(recs.last().key)
        } else {
            d
        }
    }
}

pub open spec fn keys_view(keys: Seq<Vec<u8>>) -> Seq<Seq<u8>> {
    keys.map_values(|k: Vec<u8>| k@)
}

/// Merges the SSTables below a size threshold in a directory into one.
pub struct Compaction {
    dir: String,
    size: u64,
    ext: String,
}

impl Compaction {
    pub closed spec fn spec_dir(&self) -> Seq<char> {
        self.dir@
    }

    pub closed spec fn spec_size(&self) -> u64 {
        self.size
    }

    pub closed spec fn spec_ext(&self) -> Seq<char> {
        self.ext@
    }

    pub fn new(dir: String, size: u64, ext: &str) -> (r: Self)
        ensures
            r.spec_dir() == dir@,
            r.spec_size() == size,
            r.spec_ext() == ext@,
    {
        Self { dir, size, ext: ext.to_string() }
    }

    /// The directory compacted.
    pub fn dir(&self) -> (r: &String)
        ensures
            r@ == self.spec_dir(),
    {
        &self.dir
    }

    /// The extension of the data files.
    pub fn ext(&self) -> (r: &String)
        ensures
            r@ == self.spec_ext(),
    {
        &self.ext
    }

    /// The inputs of a compaction, from a directory listing of (path, size in
    /// bytes): the data files smaller than the threshold, newest first, so
    /// that newer records shadow older ones when merged.
    pub fn select_inputs(&self, listing: Vec<(String, u64)>) -> (r: Vec<String>)
        ensures
            sorted_paths(r@, true),
            r@.to_multiset() == small_paths_with_ext(listing@, encode_utf8(self.spec_ext()), self.spec_size()).to_multiset(),
    {
        let files = get_files_with_ext_and_size(listing, self.ext.as_str(), self.size);
        sort_paths(files, true)
    }
}

/// Takes the records of the compacted tables, newest table first: copies the
/// first live record of each key to the output table and notes the keys of
/// tombstones, to be dropped from every index afterwards.
pub struct SSTableScanHandler {
    writer: SSTableWriter,
    to_be_deleted_keys: Vec<Vec<u8>>,
    seen: Ghost<Seq<EntryView>>,
}

impl SSTableScanHandler {
    /// The records handled so far.
    pub closed spec fn seen(&self) -> Seq<EntryView> {
        self.seen@
    }

    pub closed spec fn writer(&self) -> SSTableWriter {
        self.writer
    }

    pub closed spec fn deleted(&self) -> Seq<Seq<u8>> {
        keys_view(self.to_be_deleted_keys@)
    }

    /// The output holds the first live record of each key seen, indexed under
    /// that key alone, and the tombstones' keys are noted.
    pub open spec fn wf(&self) -> bool {
        &&& self.writer().wf()
        &&& self.writer().written() == merged(self.seen())
        &&& self.writer().index()@.dom() == self.writer().written().dom()
        &&& self.deleted() == deleted_keys(self.seen())
    }

    /// A handler writing to `writer`, a writer over a new, empty table.
    pub fn new(writer: SSTableWriter) -> (r: Self)
        requires
            writer.wf(),
            writer.index()@ == Map::<Seq<u8>, u64>::empty(),
            writer.written() == Map::<Seq<u8>, EntryView>::empty(),
        ensures
            r.wf(),
            r.seen() == Seq::<EntryView>::empty(),
            r.writer() == writer,
    {
        let r = Self { writer, to_be_deleted_keys: Vec::new(), seen: Ghost(Seq::empty()) };
        assert(r.deleted() =~= Seq::<Seq<u8>>::empty());
        assert(r.writer().index()@.dom() =~= r.writer().written().dom());
        r
    }

    /// Handles the next record: a tombstone's key is noted; a live record
    /// whose key the output holds already is an older duplicate and is
    /// passed over; any other is appended to the output. Fails, changing
    /// nothing, where the output's offsets would overflow.
    pub fn handle(&mut self, entry: Entry) -> (r: Result<(), Error>)
        requires
            old(self).wf(),
        ensures
            final(self).wf(),
            r is Ok ==> final(self).seen() == old(self).seen().push(entry@),
            r is Err ==> *final(self) == *old(self) && r == Err::<(), Error>(Error::OffsetOverflow),
            entry@.value is None ==> r is Ok && final(self).writer() == old(self).writer()
                && final(self).deleted() == old(self).deleted().push(entry@.key),
            entry@.value is Some ==> final(self).deleted() == old(self).deleted(),
            old(self).writer().index()@.contains_key(entry@.key) ==> final(self).writer() == old(self).writer(),
            r is Ok && entry@.value is Some && !old(self).writer().index()@.contains_key(entry@.key) ==> {
                &&& final(self).writer().index()@ == old(self).writer().index()@.insert(entry@.key, old(self).writer().offset() as u64)
                &&& final(self).writer().pending() == old(self).writer().pending() + encode_entry(entry@)
            },
            old(self).writer().index()@.contains_key(entry@.key) ==> r is Ok,
            old(self).writer().offset() + encode_entry(entry@).len() <= u64::MAX ==> r is Ok,
            final(self).writer().start() == old(self).writer().start(),
            final(self).writer().index().path() == old(self).writer().index().path(),
    {
        let ghost s = self.seen@;
        let ghost x = entry@;
        assert(s.push(x).drop_last() =~= s);
        if entry.is_deleted() {
            let ghost d = self.to_be_deleted_keys@;
            self.to_be_deleted_keys.push(entry.key);
            self.seen = Ghost(s.push(x));
            assert(keys_view(self.to_be_deleted_keys@) =~= keys_view(d).push(x.key));
            return Ok(());
        }
        if self.writer.contains_key(entry.key.as_slice()) {
            self.seen = Ghost(s.push(x));
            return Ok(());
        }
        match self.writer.set(&entry) {
            Ok(()) => {
                self.seen = Ghost(s.push(x));
                assert(self.writer().index()@.dom() =~= self.writer().written().dom());
                Ok(())
            },
            Err(e) => Err(e),
        }
    }

    /// The output writer and the keys of the tombstones met.
    pub fn into_parts(self) -> (r: (SSTableWriter, Vec<Vec<u8>>))
        ensures
            r.0 == self.writer(),
            keys_view(r.1@) == self.deleted(),
    {
        (self.writer, self.to_be_deleted_keys)
    }
}

/// Drops each of `keys` from `index`.
pub fn remove_deleted_keys(index: &mut SSTableIndex, keys: &Vec<Vec<u8>>)
    requires
        old(index).wf(),
    ensures
        final(index).wf(),
        final(index)@ == old(index)@.remove_keys(keys_view(keys@).to_set()),
        final(index).path() == old(index).path(),
{
    let mut i: usize = 0;
    let ghost start = index@;
    assert(start.remove_keys(keys_view(keys@).subrange(0, 0).to_set()) =~= start);
    while i < keys.len()
        invariant
            0 <= i <= keys@.len(),
            index.wf(),
            index.path() == old(index).path(),
            start == old(index)@,
            index@ == start.remove_keys(keys_view(keys@).subrange(0, i as int).to_set()),
        decreases keys@.len() - i,
    {
        if index.contains_key(keys[i].as_slice()) {
            index.remove(keys[i].as_slice());
        }
        proof {
            let ks = keys_view(keys@);
            assert(ks.subrange(0, i + 1) =~= ks.subrange(0, i as int).push(ks[i as int]));
            assert(ks.subrange(0, i + 1).to_set() =~= ks.subrange(0, i as int).to_set().insert(ks[i as int])) by {
                assert forall|k: Seq<u8>| ks.subrange(0, i + 1).to_set().contains(k) == ks.subrange(0, i as int).to_set().insert(ks[i as int]).contains(k) by {
                    if ks.subrange(0, i + 1).contains(k) {
                        let j = choose|j: int| 0 <= j < i + 1 && #[trigger] ks.subrange(0, i + 1)[j] == k;
                        if j < i {
                            assert(ks.subrange(0, i as int)[j] == k);
                        }
                    }
                    if ks.subrange(0, i as int).contains(k) {
                        let j = choose|j: int| 0 <= j < i && #[trigger] ks.subrange(0, i as int)[j] == k;
                        assert(ks.subrange(0, i + 1)[j] == k);
                    }
                    if k == ks[i as int] {
                        assert(ks.subrange(0, i + 1)[i as int] == k);
                    }
                }
            }
            assert(index@ =~= start.remove_keys(ks.subrange(0, i + 1).to_set()));
        }
        i += 1;
    }
    assert(keys_view(keys@).subrange(0, keys@.len() as int) =~= keys_view(keys@));
}

/// A compaction keeps the newest live version of a key: where the newest
/// table read holds live record `x`, the only record of its key there, the
/// merge of that table's records followed by any older ones writes `x`.
pub proof fn lemma_newest_version_wins(newer: Seq<EntryView>, older: Seq<EntryView>, x: EntryView)
    requires
        x.value is Some,
        newer.contains(x),
        forall|j: int| 0 <= j < newer.len() && (#[trigger] newer[j]).key == x.key ==> newer[j] == x,
    ensures
        merged(newer + older).contains_key(x.key),
        merged(newer + older)[x.key] == x,
    decreases older.len(),
{
    if older.len() == 0 {
        assert(newer + older =~= newer);
        lemma_merged_first(newer, x);
    } else {
        lemma_newest_version_wins(newer, older.drop_last(), x);
        assert((newer + older).drop_last() =~= newer + older.drop_last());
    }
}

proof fn lemma_merged_first(recs: Seq<EntryView>, x: EntryView)
    requires
        x.value is Some,
        recs.contains(x),
        forall|j: int| 0 <= j < recs.len() && (#[trigger] recs[j]).key == x.key ==> recs[j] == x,
    ensures
        merged(recs).contains_key(x.key),
        merged(recs)[x.key] == x,
    decreases recs.len(),
{
    let prev = recs.drop_last();
    if recs.last() == x {
        if merged(prev).contains_key(x.key) {
            lemma_merged_from(prev, x.key);
            let j = choose|j: int| 0 <= j < prev.len() && #[trigger] prev[j] == merged(prev)[x.key];
            assert(recs[j] == prev[j]);
        }
    } else {
        let i = choose|i: int| 0 <= i < recs.len() && #[trigger] recs[i] == x;
        assert(prev[i] == x);
        assert forall|j: int| 0 <= j < prev.len() && (#[trigger] prev[j]).key == x.key implies prev[j] == x by {
            assert(recs[j] == prev[j]);
        }
        lemma_merged_first(prev, x);
    }
}

/// Each record the merge writes is one of the records read, under its key.
proof fn lemma_merged_from(recs: Seq<EntryView>, k: Seq<u8>)
    requires
        merged(recs).contains_key(k),
    ensures
        exists|j: int| 0 <= j < recs.len() && #[trigger] recs[j] == merged(recs)[k] && recs[j].key == k,
    decreases recs.len(),
{
    let prev = recs.drop_last();
    if merged(prev).contains_key(k) {
        lemma_merged_from(prev, k);
        let j = choose|j: int| 0 <= j < prev.len() && #[trigger] prev[j] == merged(prev)[k] && prev[j].key == k;
        assert(recs[j] == prev[j]);
    } else {
        assert(recs[recs.len() - 1] == recs.last());
    }
}

/// Every tombstone's key is noted for removal from all indexes.
pub proof fn lemma_tombstones_noted(recs: Seq<EntryView>, i: int)
    requires
        0 <= i < recs.len(),
        recs[i].value is None,
    ensures
        deleted_keys(recs).contains(recs[i].key),
    decreases recs.len(),
{
    let d = deleted_keys(recs);
    if i == recs.len() - 1 {
        assert(d[d.len() - 1] == recs[i].key);
    } else {
        let prev = recs.drop_last();
        assert(prev[i] == recs[i]);
        lemma_tombstones_noted(prev, i);
        let dp = deleted_keys(prev);
        let j = choose|j: int| 0 <= j < dp.len() && #[trigger] dp[j] == recs[i].key;
        if recs.last().value is None {
            assert(d[j] == dp[j]);
        }
    }
}

/// A key that some compacted record deletes is in no index patched with the
/// keys the compaction noted: neither the output's nor any remaining table's.
pub proof fn lemma_tombstoned_key_leaves_indexes(recs: Seq<EntryView>, i: int, index: Map<Seq<u8>, u64>)
    requires
        0 <= i < recs.len(),
        recs[i].value is None,
    ensures
        !index.remove_keys(deleted_keys(recs).to_set()).contains_key(recs[i].key),
{
    lemma_tombstones_noted(recs, i);
}

/// The table a compaction writes answers a key with the newest live record
/// of it: where the newest input holds live record `x`, its only record of
/// that key, the output's index leads to `x`.
pub proof fn lemma_compacted_table_serves_newest(
    handler: SSTableScanHandler,
    newer: Seq<EntryView>,
    older: Seq<EntryView>,
    x: EntryView,
)
    requires
        handler.wf(),
        handler.writer().start() == 0,
        handler.seen() == newer + older,
        x.value is Some,
        newer.contains(x),
        forall|j: int| 0 <= j < newer.len() && (#[trigger] newer[j]).key == x.key ==> newer[j] == x,
    ensures
        table_lookup(handler.writer().index()@, handler.writer().pending(), x.key) == Some(x),
{
    lemma_newest_version_wins(newer, older, x);
    assert(handler.writer().written().contains_key(x.key));
}

} // verus!
