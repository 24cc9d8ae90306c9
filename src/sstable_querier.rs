use vstd::prelude::*;
use vstd::utf8::encode_utf8;

use crate::entries::{Entry, EntryView};
use crate::files::{get_files_with_ext, paths_with_ext, sort_paths, sorted_paths};
use crate::sstable::{opt_entry_view, table_lookup, SSTableReader};

verus! {

/// A point lookup across SSTables, newest first: the first table that holds
/// a record for `key` answers, a tombstone included.
pub open spec fn query_tables(tables: Seq<SSTableReader>, key: Seq<u8>) -> Option<EntryView>
    decreases tables.len(),
{
    if tables.len() == 0 {
        None
    } else {
        match table_lookup(tables[0].index()@, tables[0].data(), key) {
            Some(e) => Some(e),
            None => query_tables(tables.drop_first(), key),
        }
    }
}

pub open spec fn all_wf(tables: Seq<SSTableReader>) -> bool {
    forall|i: int| 0 <= i < tables.len() ==> (#[trigger] tables[i]).index().wf()
}

/// The SSTable data files of a directory, newest first.
pub struct SSTableQuerier {
    path_collection: Vec<String>,
}

impl SSTableQuerier {
    pub closed spec fn paths(&self) -> Seq<String> {
        self.path_collection@
    }

    /// Keeps the `.db` files of a directory listing and orders them by name,
    /// descending: newest first.
    pub fn new(listing: Vec<String>) -> (r: Self)
        ensures
            sorted_paths(r.paths(), true),
            r.paths().to_multiset() == paths_with_ext(listing@, encode_utf8("db"@)).to_multiset(),
    {
        let files = get_files_with_ext(listing, "db");
        Self { path_collection: sort_paths(files, true) }
    }

    /// The data files to read, newest first.
    pub fn path_collection(&self) -> (r: &Vec<String>)
        ensures
            r@ == self.paths(),
    {
        &self.path_collection
    }

    /// Asks each table in turn, in the order given (newest first), for `key`,
    /// and returns the first record found, a tombstone included.
    pub fn query(tables: &Vec<SSTableReader>, key: &[u8]) -> (r: Option<Entry>)
        requires
            all_wf(tables@),
        ensures
            opt_entry_view(r) == query_tables(tables@, key@),
    {
        let mut i: usize = 0;
        assert(tables@.skip(0) =~= tables@);
        while i < tables.len()
            invariant
                0 <= i <= tables@.len(),
                all_wf(tables@),
                query_tables(tables@.skip(i as int), key@) == query_tables(tables@, key@),
            decreases tables@.len() - i,
        {
            assert(tables@.skip(i as int)[0] == tables@[i as int]);
            assert(tables@.skip(i as int).drop_first() =~= tables@.skip(i + 1));
            assert(tables@[i as int].index().wf());
            let found = tables[i].get(key);
            if found.is_some() {
                return found;
            }
            i += 1;
        }
        None
    }
}

} // verus!
