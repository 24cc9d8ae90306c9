use vstd::prelude::*;

verus! {

/// The settings of the periodic compaction: the database directory, the size
/// below which an SSTable is compacted, and the data files' extension.
pub struct Scheduler {
    db_dir_path: String,
    compact_limit: u64,
    file_ext: String,
}

impl Scheduler {
    pub closed spec fn spec_limit(&self) -> u64 {
        self.compact_limit
    }

    pub closed spec fn spec_dir(&self) -> Seq<char> {
        self.db_dir_path@
    }

    pub closed spec fn spec_ext(&self) -> Seq<char> {
        self.file_ext@
    }

    /// Compacts the data files (extension `db`) of `db_dir` smaller than
    /// `compact_limit` bytes.
    pub fn new(db_dir: &str, compact_limit: u64) -> (r: Self)
        ensures
            r.spec_dir() == db_dir@,
            r.spec_limit() == compact_limit,
            r.spec_ext() == "db"@,
    {
        Self { db_dir_path: db_dir.to_string(), compact_limit, file_ext: "db".to_string() }
    }

    pub fn db_dir_path(&self) -> (r: &String)
        ensures
            r@ == self.spec_dir(),
    {
        &self.db_dir_path
    }

    pub fn compact_limit(&self) -> (r: u64)
        ensures
            r == self.spec_limit(),
    {
        self.compact_limit
    }

    pub fn file_ext(&self) -> (r: &String)
        ensures
            r@ == self.spec_ext(),
    {
        &self.file_ext
    }
}

} // verus!
