use zstd_rs::fse::{BitReader, BitWriter};
use zstd_rs::frame::decompress;

// Frames written by the reference zstd compressor (raw literals, sequences
// coded with the predefined FSE tables).
const FRAME_1: &[u8] = &[
    0x28, 0xB5, 0x2F, 0xFD, 0x20, 0x39, 0xE5, 0x00, 0x00, 0x88, 0x61, 0x62, 0x63, 0x64, 0x65, 0x66, 0x67, 0x68, 0x20,
    0x31, 0x32, 0x33, 0x34, 0x35, 0x78, 0x79, 0x7A, 0x03, 0x00, 0x29, 0x19, 0x90, 0xD9, 0x69, 0x7A, 0xE5, 0x08,
];
const TEXT_1: &[u8] = b"abcdefgh abcdefgh abcdefgh 12345 abcdefgh 12345 12345 xyz";

const FRAME_2: &[u8] = &[
    0x28, 0xB5, 0x2F, 0xFD, 0x20, 0x5F, 0xE5, 0x01, 0x00, 0x44, 0x03, 0x54, 0x68, 0x65, 0x20, 0x71, 0x75, 0x69, 0x63,
    0x6B, 0x20, 0x62, 0x72, 0x6F, 0x77, 0x6E, 0x20, 0x66, 0x6F, 0x78, 0x20, 0x6A, 0x75, 0x6D, 0x70, 0x73, 0x20, 0x6F,
    0x76, 0x65, 0x72, 0x20, 0x74, 0x68, 0x65, 0x20, 0x6C, 0x61, 0x7A, 0x79, 0x20, 0x64, 0x6F, 0x67, 0x2E, 0x20, 0x20,
    0x61, 0x67, 0x61, 0x69, 0x6E, 0x2E, 0x01, 0x00, 0x05, 0x9A, 0xAA, 0x0C,
];
const TEXT_2: &[u8] = b"The quick brown fox jumps over the lazy dog. The quick brown fox jumps over the lazy dog again.";

#[test]
fn reference_frames_with_fse_sequences_decode() {
    assert_eq!(decompress(FRAME_1).unwrap(), TEXT_1.to_vec());
    assert_eq!(decompress(FRAME_2).unwrap(), TEXT_2.to_vec());
}

/// Read a backward bit stream bit by bit from below its sentinel, write the
/// bits back in the order read, and compare the bytes.
fn rewrite(stream: &[u8]) -> Vec<u8> {
    let mut r = BitReader::new(stream);
    let mut w = BitWriter::new();
    while !r.is_empty() {
        let b = r.read_bits(1);
        w.write_bits(b, 1);
    }
    w.finish()
}

#[test]
fn writer_rebuilds_reference_sequence_bitstreams() {
    let s1 = &FRAME_1[29..];
    let s2 = &FRAME_2[65..];
    assert_eq!(BitReader::new(s1).bits_left(), 7 * 8 + 3);
    assert_eq!(rewrite(s1), s1.to_vec());
    assert_eq!(rewrite(s2), s2.to_vec());
}

#[test]
fn writer_layout_of_three_fields() {
    // The first field read from the top, just below the sentinel.
    let mut w = BitWriter::new();
    w.write_bits(0b101, 3);
    w.write_bits(0b1101, 4);
    w.write_bits(0b11, 2);
    assert_eq!(w.finish(), vec![0x77, 0x03]);
    assert_eq!(BitWriter::new().finish(), vec![0x01]);
}
