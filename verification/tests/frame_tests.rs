use zstd_rs::error::ZstdError;
use zstd_rs::frame::{compress, compress_with_config, decompress, MAGIC};
use zstd_rs::encoder::lz77::MatchConfig;

#[test]
fn test_compress_decompress_empty() {
    let data = b"";
    let compressed = compress(data, 3).unwrap();
    let decompressed = decompress(&compressed).unwrap();
    assert_eq!(decompressed, data);
}

#[test]
fn test_compress_decompress_small() {
    let data = b"hello world";
    let compressed = compress(data, 3).unwrap();
    let decompressed = decompress(&compressed).unwrap();
    assert_eq!(decompressed, data);
}

#[test]
fn test_compress_decompress_repetitive() {
    let data = b"aaaaaaaaaa".repeat(1000);
    let compressed = compress(&data, 3).unwrap();
    let decompressed = decompress(&compressed).unwrap();
    assert_eq!(decompressed, data.as_slice());
    assert!(compressed.len() < data.len() / 2);
}

#[test]
fn test_invalid_magic() {
    let bad = b"\x00\x00\x00\x00hello";
    let result = decompress(bad);
    assert!(matches!(result, Err(ZstdError::InvalidMagic(_))));
}

#[test]
fn test_checksum_mismatch() {
    let data = b"hello world";
    let mut compressed = compress(data, 1).unwrap();
    let len = compressed.len();
    compressed[len - 1] ^= 0xFF;
    let result = decompress(&compressed);
    assert!(matches!(result, Err(ZstdError::ChecksumMismatch { .. })));
}

#[test]
fn test_various_sizes() {
    for size in [0, 1, 255, 256, 1024, 10_000, 100_000] {
        let data: Vec<u8> = (0..size).map(|i| (i * 7 + 13) as u8).collect();
        let compressed = compress(&data, 1).unwrap();
        let decompressed = decompress(&compressed).unwrap();
        assert_eq!(decompressed, data, "failed at size {size}");
    }
}

#[test]
fn test_level_range() {
    let data = b"test data for compression level testing";
    for level in [1, 3, 6, 9, 12, 22] {
        let compressed = compress(data, level).unwrap();
        let decompressed = decompress(&compressed).unwrap();
        assert_eq!(&decompressed, data, "failed at level {level}");
    }
}

#[test]
fn frame_header_layout() {
    let compressed = compress(b"abc", 1).unwrap();
    assert_eq!(&compressed[0..4], &MAGIC.to_le_bytes());
    assert_eq!(compressed[4], 0x84);
    assert_eq!(compressed[5], (19 - 10) << 3);
    assert_eq!(&compressed[6..10], &3u32.to_le_bytes());
}

#[test]
fn frame_without_checksum() {
    let cfg = MatchConfig::for_level(3);
    let compressed = compress_with_config(b"no checksum here", &cfg, false).unwrap();
    assert_eq!(compressed[4], 0x80);
    assert_eq!(decompress(&compressed).unwrap(), b"no checksum here".to_vec());
}

#[test]
fn rle_block_for_repeated_byte() {
    let data = vec![7u8; 1000];
    let compressed = compress(&data, 3).unwrap();
    // header (10) + block header (3) + one byte + checksum (4)
    assert_eq!(compressed.len(), 18);
    assert_eq!(decompress(&compressed).unwrap(), data);
}

#[test]
fn decompress_short_input() {
    assert!(matches!(decompress(b"\x28\xb5"), Err(ZstdError::UnexpectedEof)));
}

#[test]
fn decompress_reserved_block_type() {
    // Frame header without checksum, then a last block of type 3.
    let mut frame = vec![0x28, 0xB5, 0x2F, 0xFD, 0x80, 0x48, 0, 0, 0, 0];
    frame.extend_from_slice(&[0x07, 0x00, 0x00]);
    assert!(matches!(decompress(&frame), Err(ZstdError::InvalidBlockType(3))));
}

#[test]
fn decompress_raw_and_rle_blocks() {
    let mut frame = vec![0x28, 0xB5, 0x2F, 0xFD, 0x80, 0x48, 0, 0, 0, 0];
    // raw block, not last, 3 bytes
    frame.extend_from_slice(&[(3 << 3) as u8, 0, 0, b'x', b'y', b'z']);
    // RLE block, last, 4 copies
    frame.extend_from_slice(&[(1 | (1 << 1) | (4 << 3)) as u8, 0, 0, b'q']);
    assert_eq!(decompress(&frame).unwrap(), b"xyzqqqq".to_vec());
}

#[test]
fn multi_block_with_cross_block_matches() {
    let unit: Vec<u8> = (0..1000u32).map(|i| (i * 31 % 251) as u8).collect();
    let data: Vec<u8> = unit.iter().cycle().take(300_000).cloned().collect();
    for level in [1, 5, 9] {
        let compressed = compress(&data, level).unwrap();
        // The fast strategy's growing skip steps over this period entirely,
        // so only the searching levels are held to a ratio.
        if level > 1 {
            assert!(compressed.len() < data.len() / 10, "level {level}");
        }
        assert_eq!(decompress(&compressed).unwrap(), data, "level {level}");
    }
}

#[test]
fn one_byte_value_block_is_written_as_rle() {
    let data = vec![7u8; 1000];
    let out = compress(&data, 3).unwrap();
    // Header, one RLE block (last, type 1, 1000 bytes) holding the byte, checksum.
    assert_eq!(out.len(), 10 + 3 + 1 + 4);
    let hv: u32 = 1 + 2 * 1 + 8 * 1000;
    assert_eq!(&out[10..13], &[(hv % 256) as u8, (hv / 256 % 256) as u8, (hv / 65536) as u8]);
    assert_eq!(out[13], 7);
    assert_eq!(decompress(&out).unwrap(), data);
}
