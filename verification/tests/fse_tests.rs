use zstd_rs::fse::{build_decode_table, normalize_counts, read_distribution_table, BitReader, BitWriter};
use zstd_rs::error::ZstdError;

#[test]
fn test_bit_writer_reader_roundtrip() {
    let mut w = BitWriter::new();
    w.write_bits(0b101, 3);
    w.write_bits(0b1101, 4);
    w.write_bits(0b11, 2);
    let data = w.finish();

    let mut r = BitReader::new(&data);
    assert_eq!(r.read_bits(3), 0b101);
    assert_eq!(r.read_bits(4), 0b1101);
    assert_eq!(r.read_bits(2), 0b11);
}

#[test]
fn test_normalize_single_symbol() {
    let counts = vec![100u32];
    let norm = normalize_counts(&counts, 100, 6).unwrap();
    assert_eq!(norm[0], 64);
}

#[test]
fn test_normalize_two_symbols_equal() {
    let counts = vec![50u32, 50];
    let norm = normalize_counts(&counts, 100, 6).unwrap();
    assert_eq!(norm[0] + norm[1], 64);
    assert!(norm[0] > 0 && norm[1] > 0);
}

#[test]
fn test_build_decode_table_basic() {
    let norm = vec![32i16, 32];
    let table = build_decode_table(&norm, 6).unwrap();
    assert_eq!(table.table.len(), 64);
    for entry in &table.table {
        assert!(entry.symbol <= 1);
    }
}

#[test]
fn bit_reader_counts_payload_bits() {
    let mut w = BitWriter::new();
    w.write_bits(0x3FF, 10);
    let data = w.finish();
    let r = BitReader::new(&data);
    assert_eq!(r.bits_left(), 10);
    assert!(!r.is_empty());
}

#[test]
fn bit_reader_empty_stream() {
    let r = BitReader::new(&[]);
    assert_eq!(r.bits_left(), 0);
    assert!(r.is_empty());
}

#[test]
fn build_decode_table_rejects_large_accuracy() {
    let norm = vec![1i16; 4];
    assert!(build_decode_table(&norm, 13).is_err());
}

#[test]
fn normalized_counts_fill_the_table() {
    let counts = [10u32, 3, 1, 0, 7, 1, 1];
    let total: u32 = counts.iter().sum();
    for log in [5u8, 6, 9, 12] {
        let norm = normalize_counts(&counts, total, log).unwrap();
        let sum: i32 = norm.iter().map(|&v| v as i32).sum();
        assert_eq!(sum, 1 << log, "log {log}");
        assert_eq!(norm[3], 0);
    }
}

#[test]
fn distribution_header_small_counts_take_one_bit_less() {
    // Accuracy log 5; 17 in 5 bits (below the short-code limit), then 31
    // in 5 bits standing for 17: probabilities 16 and 16, two bytes used.
    let data = [0x10u8, 0x3F, 0x00, 0x00];
    assert_eq!(read_distribution_table(&data).unwrap(), (vec![16i16, 16], 5, 2));
}

#[test]
fn distribution_header_cut_short_is_an_error() {
    assert!(matches!(read_distribution_table(&[0x10u8]), Err(ZstdError::UnexpectedEof)));
    assert!(matches!(read_distribution_table(&[]), Err(ZstdError::UnexpectedEof)));
}

#[test]
fn distribution_header_counts_fill_the_table() {
    // Accuracy log 5 with two counts of 16: together they fill the 32 cells.
    let (norm, log, _) = read_distribution_table(&[0x10, 0x3F, 0, 0]).unwrap();
    let cells: i32 = norm.iter().map(|&c| if c == -1 { 1 } else { c as i32 }).sum();
    assert_eq!(cells, 1 << log);
    assert!(norm.iter().all(|&c| c >= -1));
}
