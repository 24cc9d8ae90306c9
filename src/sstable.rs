use vstd::prelude::*;

use crate::entries::{
    decode_entry, encode_entry, lemma_decode_encode, lemma_decode_extend, lemma_entry_encodable,
    push_all, Entry, EntryView,
};
use crate::errors::Error;
use crate::sstable_index::{pairs_view, SSTableIndex};

verus! {

/// The record at byte `offset` of a data file, if one decodes there.
pub open spec fn record_at(data: Seq<u8>, offset: int) -> Option<EntryView> {
    if 0 <= offset <= data.len() {
        match decode_entry(data.skip(offset)) {
            Some((e, _)) => Some(e),
            None => None,
        }
    } else {
        None
    }
}

/// A point lookup in one SSTable: the record at the offset that the index
/// gives for `key`, if the index holds the key and a record decodes there.
pub open spec fn table_lookup(index: Map<Seq<u8>, u64>, data: Seq<u8>, key: Seq<u8>) -> Option<EntryView> {
    if index.contains_key(key) {
        record_at(data, index[key] as int)
    } else {
        None
    }
}

/// A full scan: the records at the offsets of the index pairs, in the pairs'
/// (ascending key) order, leaving out offsets where no record decodes.
pub open spec fn scan_records(pairs: Seq<(Seq<u8>, u64)>, data: Seq<u8>) -> Seq<EntryView>
    decreases pairs.len(),
{
    if pairs.len() == 0 {
        Seq::empty()
    } else {
        let rest = scan_records(pairs.drop_last(), data);
        match record_at(data, pairs.last().1 as int) {
            Some(e) => rest.push(e),
            None => rest,
        }
    }
}

pub open spec fn opt_entry_view(r: Option<Entry>) -> Option<EntryView> {
    match r {
        Some(e) => Some(e@),
        None => None,
    }
}

/// Appends records to an SSTable's data file and records each key's offset
/// in the table's index.
///
/// The bytes to append are kept until [`SSTableWriter::take_pending`] hands
/// them to whoever writes the file; `start` is the data file's length when
/// the writer was made.
pub struct SSTableWriter {
    index: SSTableIndex,
    pending: Vec<u8>,
    start: u64,
    offset: u64,
    written: Ghost<Map<Seq<u8>, EntryView>>,
}

impl SSTableWriter {
    pub closed spec fn index(&self) -> SSTableIndex {
        self.index
    }

    /// The bytes written since the writer was made.
    pub closed spec fn pending(&self) -> Seq<u8> {
        self.pending@
    }

    /// The length of the data file when the writer was made.
    pub closed spec fn start(&self) -> nat {
        self.start as nat
    }

    /// The offset that the next record will take.
    pub closed spec fn offset(&self) -> nat {
        self.offset as nat
    }

    /// The last record set for each key since the writer was made.
    pub closed spec fn written(&self) -> Map<Seq<u8>, EntryView> {
        self.written@
    }

    /// The index is well formed, the next offset follows the bytes written,
    /// and the index sends each key written to the last record set for it.
    pub open spec fn wf(&self) -> bool {
        &&& self.index().wf()
        &&& self.offset() == self.start() + self.pending().len()
        &&& forall|k: Seq<u8>| #[trigger] self.written().contains_key(k) ==> {
            &&& self.index()@.contains_key(k)
            &&& self.start() <= self.index()@[k]
            &&& record_at(self.pending(), self.index()@[k] - self.start()) == Some(self.written()[k])
        }
    }

    /// A writer that appends to a data file of `data_len` bytes whose index
    /// is `index`.
    pub fn new(index: SSTableIndex, data_len: u64) -> (r: Self)
        requires
            index.wf(),
        ensures
            r.wf(),
            r.index() == index,
            r.start() == data_len,
            r.pending() == Seq::<u8>::empty(),
            r.written() == Map::<Seq<u8>, EntryView>::empty(),
    {
        Self {
            index,
            pending: Vec::new(),
            start: data_len,
            offset: data_len,
            written: Ghost(Map::empty()),
        }
    }

    /// Whether the index holds `key`.
    pub fn contains_key(&self, key: &[u8]) -> (r: bool)
        requires
            self.wf(),
        ensures
            r == self.index()@.contains_key(key@),
    {
        self.index.contains_key(key)
    }

    /// Appends `entry`, records its key at the offset where it starts, and
    /// advances the offset by the record's length. Fails, changing nothing,
    /// where the new offset would not fit in a `u64`.
    pub fn set(&mut self, entry: &Entry) -> (r: Result<(), Error>)
        requires
            old(self).wf(),
        ensures
            final(self).wf(),
            r is Ok <==> old(self).offset() + encode_entry(entry@).len() <= u64::MAX,
            r is Ok ==> {
                &&& final(self).pending() == old(self).pending() + encode_entry(entry@)
                &&& final(self).index()@ == old(self).index()@.insert(entry@.key, old(self).offset() as u64)
                &&& final(self).written() == old(self).written().insert(entry@.key, entry@)
                &&& final(self).offset() == old(self).offset() + encode_entry(entry@).len()
                &&& final(self).start() == old(self).start()
                &&& final(self).index().path() == old(self).index().path()
            },
            r is Err ==> *final(self) == *old(self) && r == Err::<(), Error>(Error::OffsetOverflow),
    {
        let mut bytes: Vec<u8> = Vec::new();
        entry.write_to(&mut bytes);
        assert(bytes@ =~= encode_entry(entry@));
        let n = bytes.len() as u64;
        if n > u64::MAX - self.offset {
            return Err(Error::OffsetOverflow);
        }
        let ghost old_pending = self.pending@;
        let ghost old_self = *self;
        push_all(&mut self.pending, bytes.as_slice());
        self.index.insert(entry.key.as_slice(), self.offset);
        self.offset = self.offset + n;
        self.written = Ghost(self.written@.insert(entry@.key, entry@));
        proof {
            lemma_entry_encodable(entry);
            assert forall|k: Seq<u8>| #[trigger] self.written().contains_key(k) implies {
                &&& self.index()@.contains_key(k)
                &&& self.start() <= self.index()@[k]
                &&& record_at(self.pending(), self.index()@[k] - self.start()) == Some(self.written()[k])
            } by {
                if k == entry@.key {
                    let o = old_pending.len() as int;
                    assert(self.pending().skip(o) =~= encode_entry(entry@) + Seq::<u8>::empty());
                    lemma_decode_encode(entry@, Seq::<u8>::empty());
                } else {
                    assert(old_self.written().contains_key(k));
                    let o = (old_self.index()@[k] - old_self.start()) as int;
                    assert(self.pending().skip(o) =~= old_pending.skip(o) + encode_entry(entry@));
                    lemma_decode_extend(old_pending.skip(o), encode_entry(entry@));
                }
            }
        }
        Ok(())
    }

    /// Hands over the bytes written so far, to be appended to the data file,
    /// together with the index to persist.
    pub fn into_parts(self) -> (r: (SSTableIndex, Vec<u8>))
        ensures
            r.0 == self.index(),
            r.1@ == self.pending(),
    {
        (self.index, self.pending)
    }
}

/// Reads records of one SSTable through its index.
pub struct SSTableReader {
    index: SSTableIndex,
    data: Vec<u8>,
}

impl SSTableReader {
    pub closed spec fn index(&self) -> SSTableIndex {
        self.index
    }

    /// The contents of the data file.
    pub closed spec fn data(&self) -> Seq<u8> {
        self.data@
    }

    /// A reader over a data file's contents and its index.
    pub fn new(index: SSTableIndex, data: Vec<u8>) -> (r: Self)
        requires
            index.wf(),
        ensures
            r.index() == index,
            r.data() == data@,
    {
        Self { index, data }
    }

    /// The record for `key`: the one at the offset that the index gives,
    /// `None` where the key is not indexed or nothing decodes there.
    pub fn get(&self, key: &[u8]) -> (r: Option<Entry>)
        requires
            self.index().wf(),
        ensures
            opt_entry_view(r) == table_lookup(self.index()@, self.data(), key@),
    {
        match self.index.get(key) {
            Some(offset) => self.read(offset),
            None => None,
        }
    }

    /// The record that starts at byte `offset` of the data file.
    pub fn read(&self, offset: u64) -> (r: Option<Entry>)
        ensures
            opt_entry_view(r) == record_at(self.data(), offset as int),
    {
        if offset > self.data.len() as u64 {
            return None;
        }
        match Entry::read_from(self.data.as_slice(), offset as usize) {
            Some((e, _)) => Some(e),
            None => None,
        }
    }

    /// Every record that the index points at, in ascending key order; the
    /// offsets where no record decodes are passed over.
    pub fn scan(&self) -> (r: Vec<Entry>)
        requires
            self.index().wf(),
        ensures
            r@.map_values(|e: Entry| e@) == scan_records(self.index().pairs(), self.data()),
    {
        let pairs = self.index.indexes();
        let ghost ps = self.index().pairs();
        let mut out: Vec<Entry> = Vec::new();
        let mut i: usize = 0;
        while i < pairs.len()
            invariant
                ps == pairs_view(pairs@),
                0 <= i <= pairs@.len(),
                out@.map_values(|e: Entry| e@) == scan_records(ps.subrange(0, i as int), self.data()),
            decreases pairs@.len() - i,
        {
            let ghost before = out@;
            assert(ps.subrange(0, i + 1).drop_last() =~= ps.subrange(0, i as int));
            match self.read(pairs[i].1) {
                Some(e) => {
                    out.push(e);
                    assert(out@.map_values(|e: Entry| e@) =~= before.map_values(|e: Entry| e@).push(e@));
                },
                None => {},
            }
            i += 1;
        }
        assert(ps.subrange(0, pairs@.len() as int) =~= ps);
        out
    }
}

} // verus!
