use vstd::prelude::*;

verus! {

/// Errors of the engine's own rules.
#[derive(Debug, PartialEq, Eq)]
pub enum Error {
    /// A data-file path that has no file name, so no index path can be derived from it.
    InvalidPath(String),
    /// An index blob that does not decode as a key-to-offset map.
    CorruptIndex,
    /// A data file that would grow past the largest offset an index can hold.
    OffsetOverflow,
    /// A MemTable whose size estimate would not fit in a `usize`.
    SizeOverflow,
}

} // verus!
