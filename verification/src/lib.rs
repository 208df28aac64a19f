//! A Zstandard compression library with verified frame, block, entropy-table
//! and match-finding logic.
//!
//! Compressing and then decompressing gives back the input: the contract of
//! [`compress`] states it, over the specification of [`decompress`].
use vstd::prelude::*;

pub mod error;
pub mod decoder;
pub mod encoder;
pub mod frame;
pub mod fse;
pub mod huffman;
pub mod tables;
pub mod xxhash;

use crate::error::{Result, ZstdError};
use crate::frame::{frame_size_bound, spec_compress_frame, spec_decompress};
use crate::encoder::lz77::spec_for_level;

verus! {

/// Compress `data` at `level` (1 to 22) into a zstd frame.
///
/// Returns `ZstdError::InvalidLevel` when `level` is outside 1 to 22.
pub fn compress(data: &[u8], level: i32) -> (r: Result<Vec<u8>>)
    ensures
        (level < 1 || level > 22) ==> r == Err::<Vec<u8>, ZstdError>(ZstdError::InvalidLevel(level)),
        !(level < 1 || level > 22) ==> (r matches Ok(out) && spec_decompress(out@) == Ok::<Seq<u8>, ZstdError>(data@)
            && out@.len() <= frame_size_bound(data@.len())),
        !(level < 1 || level > 22) ==> (r matches Ok(out) && out@ == spec_compress_frame(data@, spec_for_level(level), true)),
{
    frame::compress(data, level)
}

/// Decompress a zstd frame.
pub fn decompress(data: &[u8]) -> (r: Result<Vec<u8>>)
    ensures
        r matches Ok(out) ==> spec_decompress(data@) == Ok::<Seq<u8>, ZstdError>(out@),
        r matches Err(e) ==> spec_decompress(data@) == Err::<Seq<u8>, ZstdError>(e),
{
    frame::decompress(data)
}

/// A conservative upper bound on the size of `compress` output for an
/// input of `data_len` bytes.
pub fn compress_bound(data_len: usize) -> (r: usize)
    requires
        data_len + (data_len / 128 + 3) * 3 + 22 <= usize::MAX,
    ensures
        r == frame_size_bound(data_len as nat),
{
    data_len + (data_len / 128 + 3) * 3 + 18 + 4
}

} // verus!
