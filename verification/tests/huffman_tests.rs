use zstd_rs::huffman::{read_huffman_header, write_huffman_header, HuffmanTable, MAX_SYMBOLS};

#[test]
fn test_huffman_roundtrip() {
    let data: Vec<u8> = b"hello world, this is a test of huffman coding!".to_vec();
    let mut freqs = [0u32; MAX_SYMBOLS];
    for &b in &data {
        freqs[b as usize] += 1;
    }
    let table = HuffmanTable::from_frequencies(&freqs).unwrap();
    let encoded = table.encode(&data).unwrap();
    let total_bits: usize = data.iter().map(|&b| table.lengths[b as usize] as usize).sum();
    let decoded = table.decode(&encoded, total_bits, data.len()).unwrap();
    assert_eq!(decoded, data);
}

#[test]
fn test_huffman_single_symbol() {
    let _data = vec![b'a'; 100];
    let mut freqs = [0u32; MAX_SYMBOLS];
    freqs[b'a' as usize] = 100;
    let table = HuffmanTable::from_frequencies(&freqs).unwrap();
    assert_eq!(table.lengths[b'a' as usize], 1);
}

#[test]
fn test_weights_roundtrip() {
    let weights = vec![4u8, 3, 3, 2, 2, 2, 2, 0, 0];
    let table = HuffmanTable::from_weights(&weights).unwrap();
    let recovered = table.to_weights();
    let min_len = weights.len().min(recovered.len());
    assert_eq!(&weights[..min_len], &recovered[..min_len]);
}

#[test]
fn test_canonical_codes_ordered() {
    let mut freqs = [0u32; MAX_SYMBOLS];
    for (i, f) in [10u32, 8, 5, 3, 1].iter().enumerate() {
        freqs[i] = *f;
    }
    let table = HuffmanTable::from_frequencies(&freqs).unwrap();
    assert!(table.lengths[0] <= table.lengths[4]);
}

#[test]
fn from_weights_exact_lengths_and_codes() {
    // Weights 2,1,1: sum 2+1+1 = 4 = 2^2, so max_bits 2; lengths 1,2,2.
    let table = HuffmanTable::from_weights(&[2, 1, 1]).unwrap();
    assert_eq!(table.max_bits, 2);
    assert_eq!(&table.lengths[..3], &[1, 2, 2]);
    assert_eq!(&table.codes[..3], &[0, 2, 3]);
}

#[test]
fn from_weights_errors() {
    assert!(HuffmanTable::from_weights(&[0, 0, 0]).is_err());
    assert!(HuffmanTable::from_weights(&vec![1u8; 257]).is_err());
}

#[test]
fn from_frequencies_all_zero_is_an_error() {
    let freqs = [0u32; MAX_SYMBOLS];
    assert!(HuffmanTable::from_frequencies(&freqs).is_err());
}

#[test]
fn encode_rejects_absent_symbol() {
    let table = HuffmanTable::from_weights(&[2, 1, 1]).unwrap();
    assert!(table.encode(&[0, 1, 7]).is_err());
}

#[test]
fn encode_packs_msb_first() {
    let table = HuffmanTable::from_weights(&[2, 1, 1]).unwrap();
    // codes: 0 -> "0", 1 -> "10", 2 -> "11"; "0" "10" "11" "0" = 0101 1000 after padding.
    let out = table.encode(&[0, 1, 2, 0]).unwrap();
    assert_eq!(out, vec![0b0101_1000]);
    let back = table.decode(&out, 6, 4).unwrap();
    assert_eq!(back, vec![0, 1, 2, 0]);
}

#[test]
fn header_roundtrip_direct_form() {
    let table = HuffmanTable::from_weights(&[4u8, 3, 3, 2, 2, 2, 2]).unwrap();
    let header = write_huffman_header(&table);
    assert_eq!(header[0], 127 + 7);
    let (back, used) = read_huffman_header(&header).unwrap();
    assert_eq!(used, header.len());
    assert_eq!(back.lengths, table.lengths);
    assert_eq!(back.codes, table.codes);
    assert_eq!(back.max_bits, table.max_bits);
}

#[test]
fn read_header_needs_bytes() {
    assert!(read_huffman_header(&[]).is_err());
    assert!(read_huffman_header(&[200]).is_err());
}

#[test]
fn from_weights_table_decodes_what_it_encodes() {
    // Weights whose sum (8 + 4 + 4 + 2 + 2 + 1 = 21) is not a power of two.
    let weights = vec![4u8, 3, 3, 2, 2, 1];
    let table = HuffmanTable::from_weights(&weights).unwrap();
    let data: Vec<u8> = vec![0, 1, 2, 3, 4, 5, 5, 4, 3, 2, 1, 0, 0, 0, 5];
    let encoded = table.encode(&data).unwrap();
    let total_bits: usize = data.iter().map(|&b| table.lengths[b as usize] as usize).sum();
    assert_eq!(table.decode(&encoded, total_bits, data.len()).unwrap(), data);
}

#[test]
fn header_roundtrip_when_weights_do_not_fill_the_code_space() {
    let table = HuffmanTable::from_weights(&[4u8, 3, 3, 2, 2, 1]).unwrap();
    assert_eq!(table.max_bits, 5);
    let mut header = write_huffman_header(&table);
    let written = header.len();
    header.extend_from_slice(&[0xAB, 0xCD]);
    let (back, used) = read_huffman_header(&header).unwrap();
    assert_eq!(used, written);
    assert_eq!(back.lengths, table.lengths);
    assert_eq!(back.codes, table.codes);
    assert_eq!(back.max_bits, table.max_bits);
}

#[test]
fn frequencies_give_the_huffman_merge_depths() {
    // 'a':5, 'b':2, 'c':1, 'd':1 — c and d merge first, then b with them
    // (b, a leaf, goes first on the tie), then a with the rest.
    let mut freqs = [0u32; 256];
    freqs[b'a' as usize] = 5;
    freqs[b'b' as usize] = 2;
    freqs[b'c' as usize] = 1;
    freqs[b'd' as usize] = 1;
    let table = HuffmanTable::from_frequencies(&freqs).unwrap();
    assert_eq!(table.lengths[b'a' as usize], 1);
    assert_eq!(table.lengths[b'b' as usize], 2);
    assert_eq!(table.lengths[b'c' as usize], 3);
    assert_eq!(table.lengths[b'd' as usize], 3);
    assert_eq!(table.max_bits, 3);
    assert_eq!(table.lengths.iter().filter(|&&l| l > 0).count(), 4);
}

#[test]
fn frequency_table_header_reads_back_as_the_table() {
    let data = b"abracadabra, said the magician";
    let mut freqs = [0u32; MAX_SYMBOLS];
    for &b in data.iter() {
        freqs[b as usize] += 1;
    }
    let table = HuffmanTable::from_frequencies(&freqs).unwrap();
    let mut header = write_huffman_header(&table);
    let used = header.len();
    header.extend_from_slice(&[0xAB, 0xCD]);
    let (read, read_used) = read_huffman_header(&header).unwrap();
    assert_eq!(read_used, used);
    assert_eq!(read.lengths, table.lengths);
    assert_eq!(read.codes, table.codes);
    assert_eq!(read.max_bits, table.max_bits);
    let encoded = table.encode(data).unwrap();
    let bits: usize = data.iter().map(|&b| table.lengths[b as usize] as usize).sum();
    assert_eq!(read.decode(&encoded, bits, data.len()).unwrap(), data.to_vec());
}

#[test]
fn deep_tree_lengths_are_limited_to_fit_the_code_space() {
    // Fibonacci frequencies grow a chain 12 levels deep; capping at 11 bits
    // alone would overfill the code space by one slot, so the longest code
    // that can still grow (symbol 3, 10 bits) is lengthened to 11.
    let fib = [1u32, 1, 2, 3, 5, 8, 13, 21, 34, 55, 89, 144, 233];
    let mut freqs = [0u32; MAX_SYMBOLS];
    freqs[..13].copy_from_slice(&fib);
    let table = HuffmanTable::from_frequencies(&freqs).unwrap();
    assert_eq!(&table.lengths[..13], &[11, 11, 11, 11, 9, 8, 7, 6, 5, 4, 3, 2, 1]);
    assert!(table.lengths[13..].iter().all(|&l| l == 0));
    assert_eq!(table.max_bits, 11);
    let kraft: u32 = table.lengths.iter().filter(|&&l| l > 0).map(|&l| 1u32 << (11 - l)).sum();
    assert_eq!(kraft, 2048);

    let data: Vec<u8> = (0..13u8).flat_map(|s| std::iter::repeat(s).take(fib[s as usize] as usize)).collect();
    let encoded = table.encode(&data).unwrap();
    let bits: usize = data.iter().map(|&b| table.lengths[b as usize] as usize).sum();
    assert_eq!(table.decode(&encoded, bits, data.len()).unwrap(), data);

    let header = write_huffman_header(&table);
    let (read, used) = read_huffman_header(&header).unwrap();
    assert_eq!(used, header.len());
    assert_eq!(read.lengths, table.lengths);
    assert_eq!(read.codes, table.codes);
}

#[test]
fn limited_lengths_stay_within_the_code_space_for_many_deep_symbols() {
    // Doubling frequencies over 40 symbols: depths reach 39 before capping.
    let mut freqs = [0u32; MAX_SYMBOLS];
    for (s, f) in freqs.iter_mut().take(30).enumerate() {
        *f = 1u32 << s;
    }
    for f in freqs.iter_mut().skip(30).take(10) {
        *f = 1;
    }
    let table = HuffmanTable::from_frequencies(&freqs).unwrap();
    assert!(table.lengths[..40].iter().all(|&l| (1..=11).contains(&l)));
    assert!(table.lengths[40..].iter().all(|&l| l == 0));
    let kraft: u32 = table.lengths.iter().filter(|&&l| l > 0).map(|&l| 1u32 << (11 - l)).sum();
    assert!(kraft <= 2048 && kraft > 1024);
    let data: Vec<u8> = (0..40u8).collect();
    let encoded = table.encode(&data).unwrap();
    let bits: usize = data.iter().map(|&b| table.lengths[b as usize] as usize).sum();
    assert_eq!(table.decode(&encoded, bits, data.len()).unwrap(), data);
}

#[test]
fn weights_read_back_without_trailing_zeros() {
    let table = HuffmanTable::from_weights(&[4, 3, 3, 2, 2, 2, 2, 0, 0]).unwrap();
    assert_eq!(table.max_bits, 5);
    assert_eq!(table.to_weights(), vec![4, 3, 3, 2, 2, 2, 2]);
}

#[test]
fn limiting_can_leave_part_of_the_code_space_unused() {
    // Capping the two 12-bit codes overfills the 11-bit code space by one
    // slot; the longest code that can grow has 9 bits, and growing it frees
    // two slots, so one slot stays unused.
    let f = [1u32, 1, 2, 2, 2, 8, 16, 32, 64, 128, 256, 512, 1024, 2048];
    let mut freqs = [0u32; MAX_SYMBOLS];
    freqs[..14].copy_from_slice(&f);
    let table = HuffmanTable::from_frequencies(&freqs).unwrap();
    assert_eq!(&table.lengths[..14], &[11, 11, 11, 11, 11, 10, 8, 7, 6, 5, 4, 3, 2, 1]);
    let kraft: u32 = table.lengths.iter().filter(|&&l| l > 0).map(|&l| 1u32 << (11 - l)).sum();
    assert_eq!(kraft, 2047);
    let data: Vec<u8> = (0..14u8).collect();
    let encoded = table.encode(&data).unwrap();
    let bits: usize = data.iter().map(|&b| table.lengths[b as usize] as usize).sum();
    assert_eq!(table.decode(&encoded, bits, data.len()).unwrap(), data);
}
