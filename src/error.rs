//! What can go wrong while decoding a stream or editing its chunks.
use vstd::prelude::*;

verus! {

/// Why decoding a chunk or a stream, or removing a chunk, failed.
#[derive(Debug, Clone, Copy, PartialEq, Eq, Structural)]
pub enum PngError {
    /// A chunk's stored checksum differs from the one computed over its type and data.
    InvalidCrc,
    /// Fewer bytes remain than a chunk's header and declared length need.
    TruncatedInput,
    /// The stream does not start with the eight signature bytes.
    SignatureMismatch,
    /// No chunk has the requested type.
    ChunkNotFound,
}

} // verus!
