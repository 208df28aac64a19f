//! Constant tables of the zstd format.
pub mod sequences;
