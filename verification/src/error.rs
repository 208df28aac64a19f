//! Error types for the zstd_rs library.
use vstd::prelude::*;

verus! {

/// Errors that can occur during compression or decompression.
#[derive(Debug, Clone, Copy)]
pub enum ZstdError {
    /// The first four bytes are not the zstd magic number (holds the value read).
    InvalidMagic(u32),
    /// The frame uses a feature this library does not decode.
    UnsupportedFrameType,
    /// The compressed data is malformed.
    CorruptData(&'static str),
    /// The stored content checksum differs from the one computed.
    ChecksumMismatch { expected: u32, actual: u32 },
    /// A block header names block type 3 (reserved).
    InvalidBlockType(u8),
    /// The decompressed size would exceed a limit.
    SizeLimit(u64),
    /// The input ended before the structure being read was complete.
    UnexpectedEof,
    /// A Huffman table could not be built or used.
    HuffmanError(&'static str),
    /// An FSE table could not be built or read.
    FseError(&'static str),
    /// The sequences section is malformed.
    SequenceError(&'static str),
    /// The frame asks for a window larger than supported.
    WindowTooLarge(u64),
    /// The compression level is outside 1..=22.
    InvalidLevel(i32),
}

pub type Result<T> = core::result::Result<T, ZstdError>;

} // verus!
