use vstd::prelude::*;

use crate::entries::{encode_entry, DbEntry, Entry, EntryView};
use crate::errors::Error;
use crate::mem_table::{as_map, entry_size, lemma_put_insert, total_size, value_len, MemTable};
use crate::sstable::{table_lookup, SSTableReader, SSTableWriter};
use crate::sstable_index::SSTableIndex;
use crate::sstable_querier::{all_wf, query_tables, SSTableQuerier};
use crate::wal::{encode_stream, lemma_encode_stream_concat, lemma_encode_stream_push, WriteAheadLog};

verus! {

/// The MemTable size, in bytes, past which it is flushed, unless configured.
pub const DEFAULT_MAX_MEM_TABLE_SIZE: usize = 10 * 1024 * 1024;

/// A record as the database reports it: a tombstone reads as absent.
pub open spec fn live(r: Option<EntryView>) -> Option<EntryView> {
    match r {
        Some(e) => if e.value is Some {
            Some(e)
        } else {
            None
        },
        None => None,
    }
}

/// A read: the MemTable answers where it holds the key, else the SSTables,
/// newest first; a tombstone from either reads as absent.
pub open spec fn db_lookup(mem: Map<Seq<u8>, EntryView>, tables: Seq<SSTableReader>, key: Seq<u8>) -> Option<EntryView> {
    live(
        if mem.contains_key(key) {
            Some(mem[key])
        } else {
            query_tables(tables, key)
        },
    )
}

pub open spec fn opt_db_view(r: Option<DbEntry>) -> Option<EntryView> {
    match r {
        Some(e) => Some(e@),
        None => None,
    }
}

/// The database façade: the write-ahead log of the active segment, the
/// MemTable, and the size past which the MemTable is flushed to an SSTable.
pub struct Database {
    dir: String,
    wal: WriteAheadLog,
    mem_table: MemTable,
    max_mem_table_size: usize,
}

/// Builds a [`Database`] from what was restored from its directory.
pub struct DatabaseBuilder(Database);

impl DatabaseBuilder {
    pub closed spec fn db(&self) -> Database {
        self.0
    }

    /// A database over `dir`, with the log and MemTable restored from it and
    /// the default flush threshold.
    pub fn new(dir: String, restored: (WriteAheadLog, MemTable)) -> (r: Self)
        requires
            restored.1.wf(),
        ensures
            r.db().wf(),
            r.db().mem() == restored.1,
            r.db().log() == restored.0,
            r.db().spec_dir() == dir@,
            r.db().max_size() == DEFAULT_MAX_MEM_TABLE_SIZE,
    {
        let (wal, mem_table) = restored;
        Self(Database { dir, wal, mem_table, max_mem_table_size: DEFAULT_MAX_MEM_TABLE_SIZE })
    }

    /// Sets the flush threshold.
    pub fn max_mem_table_size(self, max_mem_table_size: usize) -> (r: Self)
        ensures
            r.db().mem() == self.db().mem(),
            r.db().log() == self.db().log(),
            r.db().spec_dir() == self.db().spec_dir(),
            r.db().max_size() == max_mem_table_size,
    {
        let DatabaseBuilder(mut db) = self;
        db.max_mem_table_size = max_mem_table_size;
        Self(db)
    }

    pub fn build(self) -> (r: Database)
        ensures
            r == self.db(),
    {
        self.0
    }
}

impl Database {
    /// The MemTable as a map from key to its latest record.
    pub open spec fn view(&self) -> Map<Seq<u8>, EntryView> {
        self.mem()@
    }

    pub closed spec fn spec_dir(&self) -> Seq<char> {
        self.dir@
    }

    pub closed spec fn max_size(&self) -> usize {
        self.max_mem_table_size
    }

    pub closed spec fn mem(&self) -> MemTable {
        self.mem_table
    }

    pub closed spec fn log(&self) -> WriteAheadLog {
        self.wal
    }

    pub open spec fn wf(&self) -> bool {
        self.mem().wf()
    }

    /// The directory of the database's files.
    pub fn dir(&self) -> (r: &String)
        ensures
            r@ == self.spec_dir(),
    {
        &self.dir
    }

    /// The MemTable.
    pub fn mem_table(&self) -> (r: &MemTable)
        ensures
            *r == self.mem(),
    {
        &self.mem_table
    }

    /// Whether a read of `key` needs the SSTables: the MemTable holds no
    /// record for it.
    pub fn needs_tables(&self, key: &[u8]) -> (r: bool)
        requires
            self.wf(),
        ensures
            r == !self@.contains_key(key@),
    {
        self.mem_table.get(key).is_none()
    }

    /// Reads `key`: from the MemTable where it holds the key, else from
    /// `tables` (the SSTables, newest first). A tombstone reads as absent.
    pub fn get(&self, key: &[u8], tables: &Vec<SSTableReader>) -> (r: Option<DbEntry>)
        requires
            self.wf(),
            all_wf(tables@),
        ensures
            opt_db_view(r) == db_lookup(self@, tables@, key@),
    {
        let found = match self.mem_table.get(key) {
            Some(e) => Some(e.duplicate()),
            None => SSTableQuerier::query(tables, key),
        };
        match found {
            Some(e) => match e.value {
                Some(value) => Some(DbEntry { key: e.key, value, timestamp: e.timestamp }),
                None => None,
            },
            None => None,
        }
    }

    /// Writes `key` = `value` at `timestamp`: appends the record to the log
    /// and applies it to the MemTable. Returns the number of records written,
    /// 1. Fails with `SizeOverflow`, changing nothing, where the MemTable's
    /// size estimate would not fit in a `usize`.
    pub fn set(&mut self, key: &[u8], value: &[u8], timestamp: u128) -> (r: Result<usize, Error>)
        requires
            old(self).wf(),
        ensures
            final(self).wf(),
            final(self).max_size() == old(self).max_size(),
            (r is Ok) == (total_size(old(self).mem().records()) + entry_size(EntryView { key: key@, value: Some(value@), timestamp }) <= usize::MAX),
            r matches Ok(n) ==> {
                &&& n == 1
                &&& final(self)@ == old(self)@.insert(key@, EntryView { key: key@, value: Some(value@), timestamp })
                &&& old(self)@.contains_key(key@) ==> total_size(final(self).mem().records()) + value_len(old(self)@[key@])
                    == total_size(old(self).mem().records()) + value@.len()
                &&& !old(self)@.contains_key(key@) ==> total_size(final(self).mem().records())
                    == total_size(old(self).mem().records()) + key@.len() + value@.len() + 17
                &&& final(self).log().pending() == old(self).log().pending() + encode_entry(EntryView { key: key@, value: Some(value@), timestamp })
                &&& final(self).log().spec_path() == old(self).log().spec_path()
            },
            r is Err ==> *final(self) == *old(self) && r == Err::<usize, Error>(Error::SizeOverflow),
    {
        let size = self.mem_table.size();
        if (size as u128) + (key.len() as u128) + (value.len() as u128) + 17 > usize::MAX as u128 {
            return Err(Error::SizeOverflow);
        }
        self.wal.set(key, value, timestamp);
        self.mem_table.set(key, value, timestamp);
        Ok(1)
    }

    /// Deletes `key` at `timestamp`: appends a tombstone to the log and
    /// applies it to the MemTable. Returns the number of records deleted, 1.
    /// Fails with `SizeOverflow`, changing nothing, where the MemTable's size
    /// estimate would not fit in a `usize`.
    pub fn delete(&mut self, key: &[u8], timestamp: u128) -> (r: Result<usize, Error>)
        requires
            old(self).wf(),
        ensures
            final(self).wf(),
            final(self).max_size() == old(self).max_size(),
            (r is Ok) == (total_size(old(self).mem().records()) + entry_size(EntryView { key: key@, value: None, timestamp }) <= usize::MAX),
            r matches Ok(n) ==> {
                &&& n == 1
                &&& final(self)@ == old(self)@.insert(key@, EntryView { key: key@, value: None, timestamp })
                &&& old(self)@.contains_key(key@) ==> total_size(final(self).mem().records()) + value_len(old(self)@[key@])
                    == total_size(old(self).mem().records())
                &&& !old(self)@.contains_key(key@) ==> total_size(final(self).mem().records())
                    == total_size(old(self).mem().records()) + key@.len() + 17
                &&& final(self).log().pending() == old(self).log().pending() + encode_entry(EntryView { key: key@, value: None, timestamp })
                &&& final(self).log().spec_path() == old(self).log().spec_path()
            },
            r is Err ==> *final(self) == *old(self) && r == Err::<usize, Error>(Error::SizeOverflow),
    {
        let size = self.mem_table.size();
        if (size as u128) + (key.len() as u128) + 17 > usize::MAX as u128 {
            return Err(Error::SizeOverflow);
        }
        self.wal.delete(key, timestamp);
        self.mem_table.delete(key, timestamp);
        Ok(1)
    }

    /// Hands over the log bytes framed since the last flush, to be appended
    /// to the active segment file.
    pub fn flush_wal(&mut self) -> (r: Vec<u8>)
        ensures
            r@ == old(self).log().pending(),
            final(self).log().pending() == Seq::<u8>::empty(),
            final(self).log().spec_path() == old(self).log().spec_path(),
            final(self).mem() == old(self).mem(),
            final(self).max_size() == old(self).max_size(),
    {
        self.wal.flush()
    }

    /// The path of the active log segment.
    pub fn wal_path(&self) -> (r: String)
        ensures
            r@ == self.log().spec_path(),
    {
        self.wal.path()
    }

    /// Whether the MemTable has reached the flush threshold.
    pub fn should_flush(&self) -> (r: bool)
        requires
            self.wf(),
        ensures
            r == (total_size(self.mem().records()) >= self.max_size()),
    {
        self.mem_table.size() >= self.max_mem_table_size
    }

    /// The contents of a new SSTable holding every MemTable record: the data
    /// bytes and the index, built from `index`, the empty index of the new
    /// table. Every key reads from the new table as from the MemTable, and no
    /// other key is indexed. Fails with `OffsetOverflow` where an offset
    /// would not fit in a `u64`.
    pub fn sstable_contents(&self, index: SSTableIndex) -> (r: Result<(SSTableIndex, Vec<u8>), Error>)
        requires
            self.wf(),
            index.wf(),
            index@ == Map::<Seq<u8>, u64>::empty(),
        ensures
            encode_stream(self.mem().records()).len() <= u64::MAX ==> r is Ok,
            r matches Ok((idx, data)) ==> {
                &&& idx.wf()
                &&& idx.path() == index.path()
                &&& data@ == encode_stream(self.mem().records())
                &&& forall|k: Seq<u8>| #[trigger] table_lookup(idx@, data@, k) == self@.get(k)
            },
            r matches Err(e) ==> e == Error::OffsetOverflow,
    {
        let entries = self.mem_table.entries();
        let ghost recs = self.mem_table.records();
        let mut writer = SSTableWriter::new(index, 0);
        let mut i: usize = 0;
        assert(recs.subrange(0, 0) =~= Seq::<EntryView>::empty());
        assert(encode_stream(Seq::<EntryView>::empty()) =~= Seq::<u8>::empty());
        assert(as_map(Seq::<EntryView>::empty()) =~= Map::<Seq<u8>, EntryView>::empty());
        while i < entries.len()
            invariant
                entries@.map_values(|e: Entry| e@) == recs,
                recs == self.mem_table.records(),
                self.mem_table.wf(),
                0 <= i <= entries@.len(),
                writer.wf(),
                writer.start() == 0,
                writer.pending() == encode_stream(recs.subrange(0, i as int)),
                writer.index().path() == index.path(),
                writer.written() == as_map(recs.subrange(0, i as int)),
                writer.index()@.dom() == writer.written().dom(),
            decreases entries@.len() - i,
        {
            let ghost pre = recs.subrange(0, i as int);
            assert(recs[i as int] == entries@[i as int]@);
            match writer.set(&entries[i]) {
                Ok(()) => {},
                Err(e) => {
                    proof {
                        let x = recs[i as int];
                        let rest = recs.subrange(i + 1, recs.len() as int);
                        assert(pre.push(x) + rest =~= recs);
                        lemma_encode_stream_concat(pre.push(x), rest);
                        lemma_encode_stream_push(pre, x);
                    }
                    return Err(e);
                },
            }
            proof {
                let x = recs[i as int];
                lemma_encode_stream_push(pre, x);
                assert(pre.push(x) =~= recs.subrange(0, i + 1));
                assert(pre.insert(i as int, x) =~= recs.subrange(0, i + 1));
                assert forall|j: int| 0 <= j < i implies crate::keys::lex_lt(#[trigger] pre[j].key, x.key) by {
                    assert(pre[j] == recs[j]);
                }
                lemma_put_insert(pre, i as int, x);
                assert(writer.index()@.dom() =~= writer.written().dom());
            }
            i += 1;
        }
        let (idx, data) = writer.into_parts();
        proof {
            assert(recs.subrange(0, recs.len() as int) =~= recs);
            assert forall|k: Seq<u8>| #[trigger] table_lookup(idx@, data@, k) == self@.get(k) by {
                if self@.contains_key(k) {
                    assert(writer.written().contains_key(k));
                } else {
                    assert(!writer.written().dom().contains(k));
                }
            }
        }
        Ok((idx, data))
    }

    /// Replaces the log and the MemTable, as after a flush, by a fresh
    /// restore from the directory.
    pub fn reset(&mut self, restored: (WriteAheadLog, MemTable))
        requires
            restored.1.wf(),
        ensures
            final(self).mem() == restored.1,
            final(self).log() == restored.0,
            final(self).spec_dir() == old(self).spec_dir(),
            final(self).max_size() == old(self).max_size(),
    {
        let (wal, mem_table) = restored;
        self.wal = wal;
        self.mem_table = mem_table;
    }
}

/// A read after a write returns what was written, with its timestamp.
pub proof fn lemma_read_your_write(
    mem: Map<Seq<u8>, EntryView>,
    tables: Seq<SSTableReader>,
    key: Seq<u8>,
    value: Seq<u8>,
    timestamp: u128,
)
    ensures
        db_lookup(mem.insert(key, EntryView { key, value: Some(value), timestamp }), tables, key)
            == Some(EntryView { key, value: Some(value), timestamp }),
{
}

/// Of two writes to a key, a read returns the later.
pub proof fn lemma_later_write_wins(
    mem: Map<Seq<u8>, EntryView>,
    tables: Seq<SSTableReader>,
    key: Seq<u8>,
    first: Seq<u8>,
    t1: u128,
    second: Seq<u8>,
    t2: u128,
)
    ensures
        db_lookup(
            mem.insert(key, EntryView { key, value: Some(first), timestamp: t1 }).insert(
                key,
                EntryView { key, value: Some(second), timestamp: t2 },
            ),
            tables,
            key,
        ) == Some(EntryView { key, value: Some(second), timestamp: t2 }),
{
}

/// A key written and then deleted reads as absent, whatever the SSTables hold.
pub proof fn lemma_delete_hides_write(
    mem: Map<Seq<u8>, EntryView>,
    tables: Seq<SSTableReader>,
    key: Seq<u8>,
    value: Seq<u8>,
    t1: u128,
    t2: u128,
)
    ensures
        db_lookup(
            mem.insert(key, EntryView { key, value: Some(value), timestamp: t1 }).insert(
                key,
                EntryView { key, value: None, timestamp: t2 },
            ),
            tables,
            key,
        ) is None,
{
}

/// Flushing the MemTable into a new SSTable, read before all older ones, and
/// emptying the MemTable changes no read.
pub proof fn lemma_flush_preserves_reads(
    mem: Map<Seq<u8>, EntryView>,
    flushed: SSTableReader,
    older: Seq<SSTableReader>,
    key: Seq<u8>,
)
    requires
        forall|k: Seq<u8>| #[trigger] table_lookup(flushed.index()@, flushed.data(), k) == mem.get(k),
    ensures
        db_lookup(Map::empty(), seq![flushed] + older, key) == db_lookup(mem, older, key),
{
    let t = seq![flushed] + older;
    assert(t[0] == flushed);
    assert(t.drop_first() =~= older);
    assert(table_lookup(flushed.index()@, flushed.data(), key) == mem.get(key));
}

} // verus!
