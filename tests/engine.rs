use std::collections::BTreeMap;

use db_engine::{
    decode_all, get_index_path, remove_deleted_keys, Compaction, Database, DatabaseBuilder, DbEntry,
    Entry, Error, SSTableIndex, SSTableIndexBuilder, SSTableQuerier, SSTableReader,
    SSTableScanHandler, SSTableWriter, Scheduler, WriteAheadLog,
};

/// A directory held in memory: file path to contents, and a clock that
/// names new files.
struct Dir {
    name: String,
    files: BTreeMap<String, Vec<u8>>,
    clock: u128,
}

impl Dir {
    fn new(name: &str) -> Dir {
        Dir { name: name.to_string(), files: BTreeMap::new(), clock: 1_000_000 }
    }

    fn now(&mut self) -> u128 {
        self.clock += 1;
        self.clock
    }

    fn path(&self, file: &str) -> String {
        format!("{}/{}", self.name, file)
    }

    fn listing(&self) -> Vec<String> {
        self.files.keys().cloned().collect()
    }

    fn load_index(&self, data_path: &str) -> SSTableIndex {
        let idx_path = get_index_path(data_path).unwrap();
        let bytes = self.files.get(&idx_path).cloned().unwrap_or_default();
        SSTableIndexBuilder::new(idx_path).indexes(&bytes).unwrap().build()
    }

    fn store_table(&mut self, data_path: &str, index: SSTableIndex, data: Vec<u8>) {
        let bytes = index.persist();
        self.files.insert(index.file_path().clone(), bytes);
        self.files.entry(data_path.to_string()).or_default().extend(data);
    }

    fn write_sstable(&mut self, data_path: &str, entries: &[Entry]) {
        let index = self.load_index(data_path);
        let len = self.files.get(data_path).map_or(0, |d| d.len() as u64);
        let mut writer = SSTableWriter::new(index, len);
        for e in entries {
            writer.set(e).unwrap();
        }
        let (index, data) = writer.into_parts();
        self.store_table(data_path, index, data);
    }

    fn reader(&self, data_path: &str) -> SSTableReader {
        SSTableReader::new(self.load_index(data_path), self.files[data_path].clone())
    }

    fn restore(&mut self) -> (WriteAheadLog, db_engine::MemTable) {
        let wal_paths = db_engine::sort_paths(db_engine::get_files_with_ext(self.listing(), "wal"), false);
        let segments: Vec<Vec<u8>> = wal_paths.iter().map(|p| self.files[p].clone()).collect();
        let now = self.now();
        let new_path = self.path(&format!("{}.wal", now));
        self.files.insert(new_path.clone(), Vec::new());
        let (mut wal, mem) = WriteAheadLog::from_path(new_path.clone()).restore(&segments).unwrap();
        let bytes = wal.flush();
        self.files.get_mut(&new_path).unwrap().extend(bytes);
        for p in wal_paths {
            self.files.remove(&p);
        }
        (wal, mem)
    }

    fn open(&mut self, max: Option<usize>) -> Database {
        let restored = self.restore();
        let mut builder = DatabaseBuilder::new(self.name.clone(), restored);
        if let Some(m) = max {
            builder = builder.max_mem_table_size(m);
        }
        builder.build()
    }

    fn readers(&self) -> Vec<SSTableReader> {
        let querier = SSTableQuerier::new(self.listing());
        querier.path_collection().iter().map(|p| self.reader(p)).collect()
    }

    fn get(&self, db: &Database, key: &[u8]) -> Option<DbEntry> {
        let tables = if db.needs_tables(key) { self.readers() } else { Vec::new() };
        db.get(key, &tables)
    }

    fn sync_wal(&mut self, db: &mut Database) {
        let bytes = db.flush_wal();
        self.files.entry(db.wal_path()).or_default().extend(bytes);
    }

    fn set(&mut self, db: &mut Database, key: &[u8], value: &[u8]) -> (usize, u128) {
        let ts = self.now();
        let n = db.set(key, value, ts).unwrap();
        self.sync_wal(db);
        self.maybe_flush(db);
        (n, ts)
    }

    fn delete(&mut self, db: &mut Database, key: &[u8]) -> usize {
        let ts = self.now();
        let n = db.delete(key, ts).unwrap();
        self.sync_wal(db);
        self.maybe_flush(db);
        n
    }

    fn maybe_flush(&mut self, db: &mut Database) {
        if !db.should_flush() {
            return;
        }
        let now = self.now();
        let data_path = self.path(&format!("{}.db", now));
        let index = self.load_index(&data_path);
        let (index, data) = db.sstable_contents(index).unwrap();
        self.store_table(&data_path, index, data);
        self.files.remove(&db.wal_path());
        let restored = self.restore();
        db.reset(restored);
    }

    fn compact(&mut self, compaction: &Compaction) {
        let listing: Vec<(String, u64)> =
            self.files.iter().map(|(p, d)| (p.clone(), d.len() as u64)).collect();
        let inputs = compaction.select_inputs(listing);
        if inputs.is_empty() {
            return;
        }
        let now = self.now();
        let out_path = self.path(&format!("{}.db", now));
        let writer = SSTableWriter::new(self.load_index(&out_path), 0);
        let mut handler = SSTableScanHandler::new(writer);
        for p in inputs.iter() {
            for e in self.reader(p).scan() {
                handler.handle(e).unwrap();
            }
        }
        let (writer, deleted) = handler.into_parts();
        let (index, data) = writer.into_parts();
        self.store_table(&out_path, index, data);
        for p in inputs.iter() {
            self.files.remove(p);
        }
        let idx_files = db_engine::get_files_with_ext(self.listing(), "idx");
        for p in idx_files {
            let mut idx = SSTableIndexBuilder::new(p.clone()).indexes(&self.files[&p]).unwrap().build();
            remove_deleted_keys(&mut idx, &deleted);
            let bytes = idx.persist();
            self.files.insert(p, bytes);
        }
    }

    fn count_ext(&self, ext: &str) -> usize {
        db_engine::get_files_with_ext(self.listing(), ext).len()
    }
}

fn entry(key: &[u8], value: Option<&[u8]>, ts: u128) -> Entry {
    Entry::new(key.to_vec(), value.map(|v| v.to_vec()), ts)
}

fn assert_entry(a: &Entry, b: &Entry) {
    assert_eq!(a.key, b.key);
    assert_eq!(a.value, b.value);
    assert_eq!(a.timestamp, b.timestamp);
    assert_eq!(a.is_deleted(), b.is_deleted());
}

#[test]
fn it_creates_new_sstable_file() {
    let mut dir = Dir::new("sstable_file");
    let path = dir.path("test.db");
    let entry_1 = entry(b"test1", Some(b"hello"), 1);
    let entry_2 = entry(b"test2", Some(b"world"), 2);
    dir.write_sstable(&path, &[entry_1.clone(), entry_2.clone()]);

    let reader = dir.reader(&path);
    assert_entry(&reader.get(b"test1").unwrap(), &entry_1);
    assert_entry(&reader.get(b"test2").unwrap(), &entry_2);
    assert!(reader.get(b"test3").is_none());
}

#[test]
fn it_updates_the_existing_sstable_file() {
    let mut dir = Dir::new("sstable_file_update");
    let path = dir.path("test.db");
    let entry_1 = entry(b"test1", Some(b"hello"), 1);
    dir.write_sstable(&path, &[entry_1.clone()]);
    assert_entry(&dir.reader(&path).get(b"test1").unwrap(), &entry_1);

    let entry_2 = entry(b"test2", Some(b"world"), 2);
    dir.write_sstable(&path, &[entry_2.clone()]);
    let reader = dir.reader(&path);
    assert_entry(&reader.get(b"test1").unwrap(), &entry_1);
    assert_entry(&reader.get(b"test2").unwrap(), &entry_2);
    assert!(reader.get(b"test3").is_none());
}

#[test]
fn sstable_index_it_works() {
    let path = "sstable_index/sstable_index.idx".to_string();
    let mut idx = SSTableIndexBuilder::new(path.clone()).indexes(&[]).unwrap().build();
    assert_eq!(idx.indexes().len(), 0);
    idx.insert(b"hello", 1);
    assert_eq!(idx.indexes().len(), 1);
    assert_eq!(idx.get(b"hello"), Some(1));

    let bytes = idx.persist();

    let mut idx_2 = SSTableIndexBuilder::new(path.clone()).indexes(&bytes).unwrap().build();
    assert_eq!(idx_2.indexes().len(), 1);
    assert_eq!(idx_2.get(b"hello"), Some(1));

    idx_2.insert(b"world", 2);
    assert_eq!(idx.indexes().len(), 1);
    assert_eq!(idx_2.indexes().len(), 2);
    assert_eq!(idx_2.get(b"world"), Some(2));

    let bytes = idx_2.persist();
    let idx_3 = SSTableIndexBuilder::new(path).indexes(&bytes).unwrap().build();
    assert_eq!(idx_3.indexes().len(), 2);
}

#[test]
fn index_persists_in_bincode_map_format() {
    let mut idx = SSTableIndexBuilder::new("t.idx".to_string()).build();
    idx.insert(b"b", 7);
    idx.insert(b"a", 258);
    let bytes = idx.persist();
    let mut expected = vec![2, 0, 0, 0, 0, 0, 0, 0];
    expected.extend_from_slice(&[1, 0, 0, 0, 0, 0, 0, 0, b'a', 2, 1, 0, 0, 0, 0, 0, 0]);
    expected.extend_from_slice(&[1, 0, 0, 0, 0, 0, 0, 0, b'b', 7, 0, 0, 0, 0, 0, 0, 0]);
    assert_eq!(bytes, expected);
}

#[test]
fn index_reload_equals_persisted() {
    let mut idx = SSTableIndexBuilder::new("t.idx".to_string()).build();
    for (k, o) in [(&b"zeta"[..], 9u64), (b"alpha", 0), (b"mid", 40), (b"", 3)] {
        idx.insert(k, o);
    }
    let bytes = idx.persist();
    let loaded = SSTableIndexBuilder::new("t.idx".to_string()).indexes(&bytes).unwrap().build();
    assert_eq!(loaded.indexes(), idx.indexes());
    let keys: Vec<&[u8]> = loaded.indexes().iter().map(|(k, _)| k.as_slice()).collect();
    assert_eq!(keys, vec![&b""[..], b"alpha", b"mid", b"zeta"]);
}

#[test]
fn corrupt_index_is_refused() {
    let r = SSTableIndexBuilder::new("t.idx".to_string()).indexes(&[5, 0, 0]);
    assert!(matches!(r, Err(Error::CorruptIndex)));
}

#[test]
fn index_insert_overwrites_and_remove_drops() {
    let mut idx = SSTableIndexBuilder::new("t.idx".to_string()).build();
    idx.insert(b"k", 1);
    idx.insert(b"k", 2);
    assert_eq!(idx.indexes().len(), 1);
    assert_eq!(idx.get(b"k"), Some(2));
    idx.remove(b"missing");
    assert!(idx.contains_key(b"k"));
    idx.remove(b"k");
    assert!(!idx.contains_key(b"k"));
    assert_eq!(idx.get(b"k"), None);
}

#[test]
fn writer_offsets_follow_record_lengths() {
    let idx = SSTableIndexBuilder::new("t.idx".to_string()).build();
    let mut writer = SSTableWriter::new(idx, 100);
    writer.set(&entry(b"a", Some(b"1"), 1)).unwrap();
    writer.set(&entry(b"bb", None, 2)).unwrap();
    let (index, data) = writer.into_parts();
    assert_eq!(index.get(b"a"), Some(100));
    assert_eq!(index.get(b"bb"), Some(100 + 8 + 1 + 1 + 8 + 1 + 16));
    assert_eq!(data.len(), 35 + 8 + 2 + 1 + 16);
}

#[test]
fn writer_refuses_offset_overflow() {
    let idx = SSTableIndexBuilder::new("t.idx".to_string()).build();
    let mut writer = SSTableWriter::new(idx, u64::MAX - 10);
    assert_eq!(writer.set(&entry(b"a", Some(b"1"), 1)), Err(Error::OffsetOverflow));
    assert!(!writer.contains_key(b"a"));
}

#[test]
fn reader_scans_in_key_order() {
    let mut dir = Dir::new("scan");
    let path = dir.path("t.db");
    dir.write_sstable(&path, &[entry(b"b", Some(b"2"), 2), entry(b"a", None, 1), entry(b"c", Some(b"3"), 3)]);
    let scanned = dir.reader(&path).scan();
    let keys: Vec<Vec<u8>> = scanned.iter().map(|e| e.key.clone()).collect();
    assert_eq!(keys, vec![b"a".to_vec(), b"b".to_vec(), b"c".to_vec()]);
    assert!(scanned[0].is_deleted());
    assert!(dir.reader(&path).read(1_000).is_none());
}

#[test]
fn sstable_querier_it_works() {
    let mut dir = Dir::new("sstable_querier");
    let db_path_1 = dir.path("test.db");
    let db_path_2 = dir.path("test.db");
    let entry_1 = entry(b"test1", Some(b"hello"), 1);
    let entry_2 = entry(b"test2", Some(b"hello"), 2);
    dir.write_sstable(&db_path_1, &[entry_1]);
    dir.write_sstable(&db_path_2, &[entry_2]);

    let tables = dir.readers();
    assert!(SSTableQuerier::query(&tables, b"test1").is_some());
    assert!(SSTableQuerier::query(&tables, b"test2").is_some());
    assert!(SSTableQuerier::query(&tables, b"test3").is_none());
}

#[test]
fn querier_prefers_newest_table() {
    let mut dir = Dir::new("q");
    let old = dir.path("1000.db");
    let new = dir.path("2000.db");
    dir.write_sstable(&old, &[entry(b"k", Some(b"old"), 1)]);
    dir.write_sstable(&new, &[entry(b"k", None, 2)]);
    let querier = SSTableQuerier::new(dir.listing());
    assert_eq!(querier.path_collection(), &vec![new.clone(), old.clone()]);
    let found = SSTableQuerier::query(&dir.readers(), b"k").unwrap();
    assert!(found.is_deleted());
    assert_eq!(found.timestamp, 2);
}

#[test]
fn test_write_one() {
    let mut wal = WriteAheadLog::from_path("test_write_one/1.wal".to_string());
    wal.set(b"Lime", b"Lime Smoothie", 1700000000000000);
    let bytes = wal.flush();
    let recs = decode_all(&bytes);
    assert_eq!(recs.len(), 1);
    assert_entry(&recs[0], &entry(b"Lime", Some(b"Lime Smoothie"), 1700000000000000));
    assert!(wal.flush().is_empty());
}

#[test]
fn test_write_many() {
    let entries: Vec<(&[u8], Option<&[u8]>)> = vec![
        (b"Apple", Some(b"Apple Smoothie")),
        (b"Lime", Some(b"Lime Smoothie")),
        (b"Orange", Some(b"Orange Smoothie")),
    ];
    let mut wal = WriteAheadLog::from_path("test_write_many/1.wal".to_string());
    for e in entries.iter() {
        wal.set(e.0, e.1.unwrap(), 42);
    }
    let recs = decode_all(&wal.flush());
    for (r, e) in recs.iter().zip(entries.iter()) {
        assert_entry(r, &entry(e.0, e.1, 42));
    }
    assert_eq!(recs.len(), 3);
}

#[test]
fn test_write_delete() {
    let entries: Vec<(&[u8], Option<&[u8]>)> = vec![
        (b"Apple", Some(b"Apple Smoothie")),
        (b"Lime", Some(b"Lime Smoothie")),
        (b"Orange", Some(b"Orange Smoothie")),
    ];
    let mut wal = WriteAheadLog::from_path("test_write_delete/1.wal".to_string());
    for e in entries.iter() {
        wal.set(e.0, e.1.unwrap(), 42);
    }
    for e in entries.iter() {
        wal.delete(e.0, 42);
    }
    let recs = decode_all(&wal.flush());
    assert_eq!(recs.len(), 6);
    for (i, e) in entries.iter().enumerate() {
        assert_entry(&recs[i], &entry(e.0, e.1, 42));
        assert_entry(&recs[i + 3], &entry(e.0, None, 42));
    }
}

#[test]
fn test_read_wal_none() {
    let mut dir = Dir::new("test_read_wal_none");
    let (wal, mem) = dir.restore();
    assert_eq!(mem.len(), 0);
    assert_eq!(dir.files[&wal.path()].len(), 0);
}

#[test]
fn test_read_wal_one() {
    let mut dir = Dir::new("test_read_wal_one");
    let entries: Vec<(&[u8], Option<&[u8]>)> = vec![
        (b"Apple", Some(b"Apple Smoothie")),
        (b"Lime", Some(b"Lime Smoothie")),
        (b"Orange", Some(b"Orange Smoothie")),
    ];
    let mut wal = WriteAheadLog::from_path(dir.path("5.wal"));
    for (i, e) in entries.iter().enumerate() {
        wal.set(e.0, e.1.unwrap(), i as u128);
    }
    dir.files.insert(wal.path(), wal.flush());

    let (new_wal, new_mem_table) = dir.restore();
    let recs = decode_all(&dir.files[&new_wal.path()]);
    for (i, e) in entries.iter().enumerate() {
        assert_entry(&recs[i], &entry(e.0, e.1, i as u128));
        let mem_e = new_mem_table.get(e.0).unwrap();
        assert_eq!(mem_e.key, e.0);
        assert_eq!(mem_e.value.as_ref().unwrap().as_slice(), e.1.unwrap());
        assert_eq!(mem_e.timestamp, i as u128);
    }
    assert!(!dir.files.contains_key(&dir.path("5.wal")));
}

#[test]
fn test_read_wal_multiple() {
    let mut dir = Dir::new("test_read_wal_multiple");
    let entries_1: Vec<(&[u8], Option<&[u8]>)> = vec![
        (b"Apple", Some(b"Apple Smoothie")),
        (b"Lime", Some(b"Lime Smoothie")),
        (b"Orange", Some(b"Orange Smoothie")),
    ];
    let mut wal_1 = WriteAheadLog::from_path(dir.path("1.wal"));
    for (i, e) in entries_1.iter().enumerate() {
        wal_1.set(e.0, e.1.unwrap(), i as u128);
    }
    dir.files.insert(wal_1.path(), wal_1.flush());

    let entries_2: Vec<(&[u8], Option<&[u8]>)> = vec![
        (b"Strawberry", Some(b"Strawberry Smoothie")),
        (b"Blueberry", Some(b"Blueberry Smoothie")),
        (b"Orange", Some(b"Orange Milkshake")),
    ];
    let mut wal_2 = WriteAheadLog::from_path(dir.path("2.wal"));
    for (i, e) in entries_2.iter().enumerate() {
        wal_2.set(e.0, e.1.unwrap(), (i + 3) as u128);
    }
    dir.files.insert(wal_2.path(), wal_2.flush());

    let (new_wal, new_mem_table) = dir.restore();
    let recs = decode_all(&dir.files[&new_wal.path()]);
    for (i, e) in entries_1.iter().enumerate() {
        assert_entry(&recs[i], &entry(e.0, e.1, i as u128));
        let mem_e = new_mem_table.get(e.0).unwrap();
        if i != 2 {
            assert_eq!(mem_e.key, e.0);
            assert_eq!(mem_e.value.as_ref().unwrap().as_slice(), e.1.unwrap());
            assert_eq!(mem_e.timestamp, i as u128);
        } else {
            assert_eq!(mem_e.key, e.0);
            assert_ne!(mem_e.value.as_ref().unwrap().as_slice(), e.1.unwrap());
            assert_ne!(mem_e.timestamp, i as u128);
        }
    }
    for (i, e) in entries_2.iter().enumerate() {
        assert_entry(&recs[i + 3], &entry(e.0, e.1, (i + 3) as u128));
        let mem_e = new_mem_table.get(e.0).unwrap();
        assert_eq!(mem_e.key, e.0);
        assert_eq!(mem_e.value.as_ref().unwrap().as_slice(), e.1.unwrap());
        assert_eq!(mem_e.timestamp, (i + 3) as u128);
    }
}

#[test]
fn replay_equals_applying_ops_in_order() {
    let mut wal = WriteAheadLog::from_path("w/1.wal".to_string());
    let mut direct = db_engine::MemTable::new();
    let ops: Vec<(&[u8], Option<&[u8]>, u128)> =
        vec![(b"a", Some(b"1"), 1), (b"b", Some(b"2"), 2), (b"a", None, 3), (b"c", Some(b"3"), 4), (b"b", Some(b"22"), 5)];
    for (k, v, t) in ops.iter() {
        match v {
            Some(v) => {
                wal.set(k, v, *t);
                direct.set(k, v, *t);
            }
            None => {
                wal.delete(k, *t);
                direct.delete(k, *t);
            }
        }
    }
    let segment = wal.flush();
    let (_, replayed) = WriteAheadLog::from_path("w/2.wal".to_string()).restore(&vec![segment]).unwrap();
    assert_eq!(replayed.len(), direct.len());
    assert_eq!(replayed.size(), direct.size());
    for (r, d) in replayed.entries().iter().zip(direct.entries().iter()) {
        assert_entry(r, d);
    }
}

#[test]
fn it_works_with_mem_table() {
    let mut dir = Dir::new("mem_table_test");
    let mut db = dir.open(None);

    assert!(dir.get(&db, b"test").is_none());
    assert_eq!(db.mem_table().size(), 0);
    assert_eq!(db.mem_table().len(), 0);

    let (result, _) = dir.set(&mut db, b"test", b"hello");
    assert_eq!(result, 1);
    assert_ne!(db.mem_table().size(), 0);
    assert_eq!(db.mem_table().len(), 1);

    let entry = dir.get(&db, b"test").unwrap();
    assert_eq!(entry.key, b"test");
    assert_eq!(entry.value, b"hello");

    dir.delete(&mut db, b"test");
    assert!(dir.get(&db, b"test").is_none());
}

#[test]
fn it_works_with_wal_files() {
    let mut dir = Dir::new("wal_test");
    {
        let mut db = dir.open(None);
        dir.set(&mut db, b"hello", b"world");
    }
    let db = dir.open(None);
    assert!(dir.get(&db, b"test").is_none());
    assert!(dir.get(&db, b"hello").is_some());
}

#[test]
fn it_works_with_sstable() {
    let mut dir = Dir::new("sstable_test");
    let path = dir.path("test.db");
    dir.write_sstable(&path, &[entry(b"test1", Some(b"hello"), 1)]);

    let db = dir.open(None);
    let result = dir.get(&db, b"test1");
    assert!(result.is_some());
    assert_eq!(result.unwrap().value, b"hello");
    assert!(dir.get(&db, b"test").is_none());
}

#[test]
fn it_persists_data_to_sstable_when_reached_the_max_limitation() {
    let mut dir = Dir::new("persist_to_sstable");
    let mut db = dir.open(Some(64));
    dir.set(&mut db, b"test", b"helloworld");
    dir.set(&mut db, b"test1", b"helloworld1");
    assert_eq!(db.mem_table().size(), 0);
    assert_eq!(db.mem_table().len(), 0);

    let entry = dir.get(&db, b"test");
    assert!(entry.is_some());
    assert_eq!(entry.unwrap().value, b"helloworld");
}

#[test]
fn smoke_set_get_delete() {
    let mut dir = Dir::new("smoke");
    let mut db = dir.open(None);
    let (_, ts) = dir.set(&mut db, b"test", b"hello");
    let got = dir.get(&db, b"test").unwrap();
    assert_eq!((got.key.as_slice(), got.value.as_slice(), got.timestamp), (&b"test"[..], &b"hello"[..], ts));
    assert_eq!(dir.delete(&mut db, b"test"), 1);
    assert!(dir.get(&db, b"test").is_none());
}

#[test]
fn wal_recovery_after_restart() {
    let mut dir = Dir::new("recovery");
    let ts;
    {
        let mut db = dir.open(None);
        ts = dir.set(&mut db, b"hello", b"world").1;
    }
    let db = dir.open(None);
    let got = dir.get(&db, b"hello").unwrap();
    assert_eq!((got.key.as_slice(), got.value.as_slice(), got.timestamp), (&b"hello"[..], &b"world"[..], ts));
    assert!(dir.get(&db, b"test").is_none());
    assert_eq!(dir.count_ext("wal"), 1);
}

#[test]
fn later_write_after_restart_wins() {
    let mut dir = Dir::new("restart_overwrite");
    {
        let mut db = dir.open(None);
        dir.set(&mut db, b"k", b"v");
    }
    let mut db = dir.open(None);
    dir.set(&mut db, b"k", b"v2");
    assert_eq!(db.mem_table().len(), 1);
    assert_eq!(db.mem_table().get(b"k").unwrap().value.as_deref(), Some(&b"v2"[..]));
    drop(db);
    let db = dir.open(None);
    assert_eq!(dir.get(&db, b"k").unwrap().value, b"v2");
}

#[test]
fn overwrite_reads_latest_value() {
    let mut dir = Dir::new("overwrite");
    let mut db = dir.open(None);
    dir.set(&mut db, b"k", b"v");
    dir.set(&mut db, b"k", b"v'");
    assert_eq!(dir.get(&db, b"k").unwrap().value, b"v'");
}

#[test]
fn flush_keeps_reads_and_empties_mem_table() {
    let mut dir = Dir::new("flush");
    let mut db = dir.open(Some(30));
    dir.set(&mut db, b"key", b"value");
    assert_eq!(db.mem_table().len(), 1);
    dir.set(&mut db, b"other", b"value2");
    assert_eq!(db.mem_table().len(), 0);
    assert_eq!(dir.count_ext("db"), 1);
    assert_eq!(dir.get(&db, b"key").unwrap().value, b"value");
    assert_eq!(dir.get(&db, b"other").unwrap().value, b"value2");
    dir.delete(&mut db, b"key");
    assert!(dir.get(&db, b"key").is_none());
}

#[test]
fn test_compact() {
    let mut dir = Dir::new("test_compact");
    let entry_1 = entry(b"test1", Some(b"hello"), 1);
    let entry_2 = entry(b"test2", Some(b"hello"), 2);
    let first_path = dir.path("test1.db");
    let second_path = dir.path("test2.db");
    dir.write_sstable(&first_path, &[entry_1.clone()]);
    dir.write_sstable(&second_path, &[entry_2.clone()]);

    let compaction = Compaction::new(dir.name.clone(), 100, "db");
    dir.compact(&compaction);

    assert!(!dir.files.contains_key(&first_path));
    assert!(!dir.files.contains_key(&second_path));
    let files = db_engine::get_files_with_ext(dir.listing(), "db");
    assert_eq!(files.len(), 1);
    let reader = dir.reader(&files[0]);
    assert!(reader.get(&entry_1.key).is_some());
    assert!(reader.get(&entry_2.key).is_some());
}

#[test]
fn compaction_merges_and_newer_wins() {
    let mut dir = Dir::new("merge");
    dir.write_sstable(&dir.path("1000.db"), &[entry(b"test1", Some(b"hello"), 1), entry(b"k", Some(b"v"), 1)]);
    dir.write_sstable(&dir.path("2000.db"), &[entry(b"test2", Some(b"hello"), 2), entry(b"k", Some(b"v'"), 2)]);
    dir.compact(&Compaction::new(dir.name.clone(), 100, "db"));
    assert!(!dir.files.contains_key(&dir.path("1000.db")));
    assert!(!dir.files.contains_key(&dir.path("2000.db")));
    assert_eq!(dir.count_ext("db"), 1);
    let db = dir.open(None);
    assert_eq!(dir.get(&db, b"test1").unwrap().value, b"hello");
    assert_eq!(dir.get(&db, b"test2").unwrap().value, b"hello");
    assert_eq!(dir.get(&db, b"k").unwrap().value, b"v'");
}

#[test]
fn compaction_drops_tombstoned_keys_everywhere() {
    let mut dir = Dir::new("tombstones");
    dir.write_sstable(&dir.path("1000.db"), &[entry(b"k", Some(b"v"), 5)]);
    dir.write_sstable(&dir.path("2000.db"), &[entry(b"k", None, 10)]);
    let big: Vec<Entry> = (0..20u8).map(|i| entry(&[b'x', i], Some(&[0u8; 20]), 1)).collect();
    let mut peer = big.clone();
    peer.push(entry(b"k", Some(b"old"), 1));
    dir.write_sstable(&dir.path("0500.db"), &peer);
    dir.compact(&Compaction::new(dir.name.clone(), 100, "db"));
    for p in db_engine::get_files_with_ext(dir.listing(), "idx") {
        let idx = SSTableIndexBuilder::new(p.clone()).indexes(&dir.files[&p]).unwrap().build();
        assert!(!idx.contains_key(b"k"));
    }
    assert!(dir.files.contains_key(&dir.path("0500.db")));
    let db = dir.open(None);
    assert!(dir.get(&db, b"k").is_none());
    assert_eq!(dir.get(&db, &[b'x', 3]).unwrap().value, vec![0u8; 20]);
}

#[test]
fn compaction_with_no_small_tables_does_nothing() {
    let mut dir = Dir::new("nothing");
    let c = Compaction::new(dir.name.clone(), 100, "db");
    assert!(c.select_inputs(Vec::new()).is_empty());
    dir.compact(&c);
    assert!(dir.files.is_empty());
    assert_eq!(c.ext(), "db");
}

#[test]
fn scheduler_compacts_db_files() {
    let s = Scheduler::new("./db", 50 * 1024 * 1024);
    assert_eq!(s.db_dir_path(), "./db");
    assert_eq!(s.compact_limit(), 52428800);
    assert_eq!(s.file_ext(), "db");
}

#[test]
fn compaction_merges_two_small_tables() {
    let mut dir = Dir::new("compaction_merges");
    dir.write_sstable(&dir.path("1000.db"), &[entry(b"test1", Some(b"hello"), 1)]);
    dir.write_sstable(&dir.path("2000.db"), &[entry(b"test2", Some(b"hello"), 2)]);
    dir.compact(&Compaction::new(dir.name.clone(), 100, "db"));
    assert!(!dir.files.contains_key(&dir.path("1000.db")));
    assert!(!dir.files.contains_key(&dir.path("2000.db")));
    assert_eq!(dir.count_ext("db"), 1);
    let db = dir.open(None);
    assert_eq!(dir.get(&db, b"test1").unwrap().value, b"hello");
    assert_eq!(dir.get(&db, b"test2").unwrap().value, b"hello");
}

#[test]
fn truncated_index_is_refused_and_trailing_bytes_are_ignored() {
    let mut idx = SSTableIndexBuilder::new("t.idx".to_string()).build();
    idx.insert(b"key", 5);
    let bytes = idx.persist();
    for cut in 1..bytes.len() {
        let r = SSTableIndexBuilder::new("t.idx".to_string()).indexes(&bytes[..cut]);
        assert!(matches!(r, Err(Error::CorruptIndex)), "{}", cut);
    }
    let mut longer = bytes.clone();
    longer.extend_from_slice(b"junk");
    let loaded = SSTableIndexBuilder::new("t.idx".to_string()).indexes(&longer).unwrap().build();
    assert_eq!(loaded.get(b"key"), Some(5));
}

#[test]
fn handler_leaves_output_alone_for_tombstones_and_duplicates() {
    let writer = SSTableWriter::new(SSTableIndexBuilder::new("o.db.idx".to_string()).build(), 0);
    let mut handler = SSTableScanHandler::new(writer);
    handler.handle(entry(b"a", Some(b"new"), 2)).unwrap();
    handler.handle(entry(b"b", None, 3)).unwrap();
    handler.handle(entry(b"a", Some(b"old"), 1)).unwrap();
    let (writer, deleted) = handler.into_parts();
    assert_eq!(deleted, vec![b"b".to_vec()]);
    let (index, data) = writer.into_parts();
    assert_eq!(index.indexes().len(), 1);
    let reader = SSTableReader::new(index, data);
    assert_eq!(reader.get(b"a").unwrap().value.as_deref(), Some(&b"new"[..]));
    assert!(reader.get(b"b").is_none());
}
