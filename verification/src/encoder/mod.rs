//! The encoder: LZ77 match finding and block encoding.
pub mod block;
pub mod cheapest;
pub mod lz77;
pub mod sequence_stream;

pub use self::lz77::MatchConfig;
