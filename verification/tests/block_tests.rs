use zstd_rs::decoder::literals::decode_literals;
use zstd_rs::decoder::{decode_block, decode_block_with_offsets};
use zstd_rs::encoder::block::{encode_block, encode_block_with_offsets, encode_literals};
use zstd_rs::encoder::lz77::{MatchConfig, MatchFinder};

#[test]
fn encoded_block_decodes_back() {
    let data = b"block encoders must round trip: abcabcabc abcabcabc abcabcabc.".repeat(30);
    for level in [1, 3, 5, 8, 13, 16, 19] {
        let mut finder = MatchFinder::new(&MatchConfig::for_level(level));
        let block = encode_block(&data, 0, data.len(), &mut finder).unwrap();
        let mut out = Vec::new();
        decode_block(&block, 2, block.len(), &[], &mut out).unwrap();
        assert_eq!(out, data, "level {level}");
    }
}

#[test]
fn second_block_uses_history() {
    let data = b"0123456789abcdefghij".repeat(40);
    let half = data.len() / 2;
    let mut finder = MatchFinder::new(&MatchConfig::for_level(5));
    let mut rep = [1usize, 4, 8];
    let first = encode_block_with_offsets(&data, 0, half, &mut finder, &mut rep);
    let second = encode_block_with_offsets(&data, half, data.len(), &mut finder, &mut rep);
    let mut out = Vec::new();
    let mut drep = [1usize, 4, 8];
    decode_block_with_offsets(&first, 2, first.len(), &[], &mut out, &mut drep).unwrap();
    decode_block_with_offsets(&second, 2, second.len(), &[], &mut out, &mut drep).unwrap();
    assert_eq!(out, data);
    assert!(second.len() < 40, "second block should be mostly one match, got {} bytes", second.len());
}

#[test]
fn empty_block() {
    let mut finder = MatchFinder::new(&MatchConfig::for_level(1));
    let block = encode_block(b"abc", 2, 2, &mut finder).unwrap();
    assert_eq!(block, vec![0x00, 0x00]);
}

#[test]
fn raw_literals_section() {
    let mut data = vec![(5 << 3) as u8];
    data.extend_from_slice(b"hello");
    data.push(0xEE);
    let section = decode_literals(&data).unwrap();
    assert_eq!(section.literals, b"hello".to_vec());
    assert_eq!(section.bytes_used, 6);
}

#[test]
fn rle_literals_section_long() {
    // type 1, size format 1 (12-bit size): 100 copies of 'z'.
    let n = 100usize;
    let data = vec![(1 | (1 << 2) | ((n & 0xF) << 4)) as u8, (n >> 4) as u8, b'z'];
    let section = decode_literals(&data).unwrap();
    assert_eq!(section.literals, vec![b'z'; 100]);
    assert_eq!(section.bytes_used, 3);
}

#[test]
fn literals_section_truncated() {
    assert!(decode_literals(&[]).is_err());
    assert!(decode_literals(&[(5 << 3) as u8, b'a']).is_err());
}

#[test]
fn raw_and_rle_blocks_decode() {
    let mut out = b"pre".to_vec();
    decode_block(b"xyz", 0, 3, &[], &mut out).unwrap();
    decode_block(b"q", 1, 4, &[], &mut out).unwrap();
    assert_eq!(out, b"prexyzqqqq".to_vec());
    assert!(decode_block(b"", 1, 4, &[], &mut out).is_err());
    assert!(decode_block(b"", 3, 0, &[], &mut out).is_err());
}

#[test]
fn literals_sections_decode_back_in_every_form() {
    let rle = vec![7u8; 300];
    let raw: Vec<u8> = (0..=255u8).collect();
    let skewed: Vec<u8> = b"aaaaaaaaaaaaaaaabbbbbbbbccccdde".iter().cycle().take(600).copied().collect();
    for (data, first_type) in [(rle, 1u8), (raw, 0u8), (skewed, 2u8)] {
        let section = encode_literals(&data);
        assert_eq!(section[0] & 3, first_type);
        let mut with_tail = section.clone();
        with_tail.extend_from_slice(&[0xEE, 0x01, 0x02]);
        let lits = decode_literals(&with_tail).unwrap();
        assert_eq!(lits.literals, data);
        assert_eq!(lits.bytes_used, section.len());
    }
}
