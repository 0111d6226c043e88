//! Reader and writer for the chunk-based PNG container format: validated
//! chunk type codes, checksummed chunks, and whole-file parsing and
//! re-serialisation with exact round trips.
use vstd::prelude::*;

pub mod args;
pub mod bytes;
pub mod chunk;
pub mod chunk_type;
pub mod commands;
pub mod external;
pub mod png;

pub use chunk::Chunk;
pub use chunk_type::{ChunkType, ChunkTypeError};
pub use png::Png;


verus! {

/// Every way in which an operation of this library can fail.
#[derive(Debug, PartialEq, Eq)]
pub enum Error {
    /// The buffer does not start with the PNG signature.
    BadSignature,
    /// A declared chunk length disagrees with the bytes that are there.
    MalformedLength,
    /// The stored checksum differs from the one computed over type and payload.
    ChecksumMismatch,
    /// The type code is not four ASCII letters.
    InvalidType(ChunkTypeError),
    /// The payload asked for as text is not valid UTF-8.
    InvalidUtf8,
    /// No chunk has the requested type.
    NotFound,
}

} // verus!
