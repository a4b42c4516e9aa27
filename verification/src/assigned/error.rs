//! What can go wrong when an allocator is created or joined.
use vstd::prelude::*;

verus! {

#[derive(Debug)]
pub enum Error {
    InvalidSlabSize,
    InvalidWorkerIndex,
    InvalidFileSize,
    /// A file operation failed, with the reason the system gave.
    IoError(String),
    /// Mapping the file failed, with the address that was returned.
    MMapError(usize),
}

} // verus!
