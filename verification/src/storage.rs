use vstd::prelude::*;

verus! {

/// Identifier of a block in block storage.
pub type BlockId = u64;

/// Errors of block storage operations.
#[derive(Debug)]
pub enum StorageError {
    /// An I/O failure, with its message.
    Io(String),
    /// The block does not exist.
    BlockNotFound(BlockId),
    /// The block's contents are not what they should be.
    BlockCorrupted(BlockId),
    /// No space is left in the storage.
    OutOfSpace,
    /// Data of the wrong size for a block.
    InvalidBlockSize { expected: usize, actual: usize },
    /// Encoding or decoding failed, with its message.
    Serialization(String),
    /// Stored data has a format version that this library does not read.
    VersionMismatch { expected: u8, actual: u8 },
    /// Stored metadata does not agree with the storage it was found in.
    MetadataMismatch(String),
}

} // verus!
