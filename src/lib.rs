//! An embedded key-value storage engine built on a log-structured merge tree.
//!
//! The library holds the engine's logic: the record codec, the MemTable, the
//! SSTable index, writer, reader and querier, write-ahead-log replay, the
//! compaction merge and the database façade's decisions. Everything here works
//! on plain values (byte buffers, directory listings, timestamps); reading and
//! writing files is left to the caller.
pub mod keys;
pub mod entries;
pub mod errors;
pub mod mem_table;
pub mod sstable_index;
pub mod sstable;
pub mod wal;
pub mod files;
pub mod sstable_querier;
pub mod database;
pub mod compaction;
pub mod scheduler;

pub use crate::keys::compare_keys;
pub use crate::entries::{DbEntry, Entry};
pub use crate::errors::Error;
pub use crate::mem_table::MemTable;
pub use crate::sstable_index::{SSTableIndex, SSTableIndexBuilder};
pub use crate::sstable::{SSTableReader, SSTableWriter};
pub use crate::wal::{decode_all, WriteAheadLog};
pub use crate::files::{get_files_with_ext, get_files_with_ext_and_size, get_index_path, has_extension, sort_paths};
pub use crate::sstable_querier::SSTableQuerier;
pub use crate::database::{Database, DatabaseBuilder, DEFAULT_MAX_MEM_TABLE_SIZE};
pub use crate::compaction::{remove_deleted_keys, Compaction, SSTableScanHandler};
pub use crate::scheduler::Scheduler;
