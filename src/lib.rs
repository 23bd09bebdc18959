//! A codec for PNG chunk streams: typed chunk tags, checksummed chunks and the
//! signature-prefixed container that holds them.
pub mod chunk;
pub mod chunk_type;
pub mod error;
pub mod png;
pub mod text;
