//! Reader and writer for the "pak" archive format: an uncompressed archive
//! that stores named byte blobs ("chunks") inside one or more physical
//! segment files.  A segment's metadata may carry a `link` property whose
//! value names the next segment; following the chain yields one unified,
//! randomly addressable view of every chunk and property.
//!
//! Binary layout of one segment (all integers big-endian):
//!
//! ```text
//! Header  (offset 0):      byte 2, byte 1
//! Footer  (offset end-24): i32 offset, i32 size, i32 chunks_offset,
//!                          i32 chunks_count, i32 properties_offset,
//!                          i32 properties_count
//! Property record:         u16 key_len, key bytes (utf8),
//!                          u16 val_len, val bytes (utf8)
//! Chunk record:            u16 name_len, name bytes (utf8),
//!                          i32 offset, i32 size
//! ```
//!
//! The data of a chunk starts at `Info.offset + Chunk.offset` within its
//! segment.
#![allow(unused_imports)]

use vstd::prelude::*;

pub mod codec;
pub mod laws;
pub mod raw;
pub mod read;
pub mod string_map;

pub use read::{MergedChunk, MergeReader};

verus! {

/// Errors surfaced while decoding or assembling a pak archive.
#[derive(Clone, Copy, Debug, PartialEq, Eq, Structural)]
pub enum PakError {
    /// The two magic bytes at the start of a segment did not match.
    CorruptHeader,
    /// A read or seek ran past the end of the stream.
    TruncatedStream,
    /// A string payload was not valid UTF-8, or a string is too long for
    /// its two-byte length prefix.
    InvalidEncoding,
    /// A segment named by a link is not available.
    IoFailure,
    /// The requested logical file name is absent from the archive.
    NotFound,
}

} // verus!
