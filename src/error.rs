use vstd::prelude::*;

verus! {

/// The ways a storage operation can fail.
#[derive(Debug)]
pub enum Error {
    /// A file or socket failure, or a stream that ended early.
    IoError(String),
    /// A malformed on-disk structure: bad counts, offsets out of range, length mismatch.
    DataError(String),
    /// A bit stream that cannot be decoded.
    CompressionError(String),
    /// A memory map that could not be set up.
    MemMapError(String),
    /// A series key in an index that cannot be parsed.
    SerializationError(String),
}

/// Result of a storage operation.
pub type Result<T> = core::result::Result<T, Error>;

} // verus!
