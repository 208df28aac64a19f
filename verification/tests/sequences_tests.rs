use zstd_rs::decoder::sequences::{decode_sequences, execute_sequences, Sequence};
use zstd_rs::fse::build_decode_table;
use zstd_rs::tables::sequences::{
    LITERALS_LENGTH_DEFAULT_ACCURACY, LITERALS_LENGTH_DEFAULT_NORM, MATCH_LENGTH_DEFAULT_ACCURACY,
    MATCH_LENGTH_DEFAULT_NORM, OFFSET_DEFAULT_ACCURACY, OFFSET_DEFAULT_NORM,
};

#[test]
fn inspect_predefined_tables() {
    let ll_table = build_decode_table(&LITERALS_LENGTH_DEFAULT_NORM.to_vec(), LITERALS_LENGTH_DEFAULT_ACCURACY).unwrap();
    let of_table = build_decode_table(&OFFSET_DEFAULT_NORM.to_vec(), OFFSET_DEFAULT_ACCURACY).unwrap();
    let ml_table = build_decode_table(&MATCH_LENGTH_DEFAULT_NORM.to_vec(), MATCH_LENGTH_DEFAULT_ACCURACY).unwrap();

    println!("LL[14] = sym={} nb={} base={}", ll_table.table[14].symbol, ll_table.table[14].num_bits, ll_table.table[14].base_line);
    println!("OF[10] = sym={} nb={} base={}", of_table.table[10].symbol, of_table.table[10].num_bits, of_table.table[10].base_line);
    println!("ML[44] = sym={} nb={} base={}", ml_table.table[44].symbol, ml_table.table[44].num_bits, ml_table.table[44].base_line);

    println!("=== LL table ===");
    for (i, e) in ll_table.table.iter().enumerate() {
        println!("  LL[{:2}] sym={:2} nb={} base={:2}", i, e.symbol, e.num_bits, e.base_line);
    }
    println!("=== OF table ===");
    for (i, e) in of_table.table.iter().enumerate() {
        println!("  OF[{:2}] sym={:2} nb={} base={:2}", i, e.symbol, e.num_bits, e.base_line);
    }
    println!("=== ML table ===");
    for (i, e) in ml_table.table.iter().enumerate() {
        println!("  ML[{:2}] sym={:2} nb={} base={:2}", i, e.symbol, e.num_bits, e.base_line);
    }
}

#[test]
fn decode_level9_bitstream() {
    let seq_section = &[0x02u8, 0x00, 0xd0, 0x3f, 0x54, 0x8b, 0x16, 0xac, 0x72, 0x02];
    match decode_sequences(seq_section) {
        Ok((seqs, _)) => {
            for (i, seq) in seqs.iter().enumerate() {
                println!("Seq {}: ll={}, ml={}, offset={}", i, seq.literal_length, seq.match_length, seq.offset);
            }
        }
        Err(e) => println!("ERROR: {:?}", e),
    }
}

#[test]
fn debug_reference_bitstream() {
    let seq_section = &[0x01u8, 0x00, 0xa1, 0xfc, 0x2f, 0x49];

    let (seqs, _) = decode_sequences(seq_section).expect("decode failed");

    for (i, seq) in seqs.iter().enumerate() {
        println!("Seq {}: ll={}, ml={}, offset={}", i, seq.literal_length, seq.match_length, seq.offset);
    }

    assert_eq!(seqs.len(), 1);
    assert_eq!(seqs[0].literal_length, 12, "literal_length mismatch");
    assert_eq!(seqs[0].match_length, 1188, "match_length mismatch");
    assert_eq!(seqs[0].offset, 12, "offset mismatch");
}

#[test]
fn empty_sequences_section() {
    let (seqs, used) = decode_sequences(&[0x00]).unwrap();
    assert!(seqs.is_empty());
    assert_eq!(used, 1);
}

#[test]
fn execute_overlapping_match() {
    let seqs = vec![Sequence { literal_length: 2, match_length: 5, offset: 2 }];
    let mut out = Vec::new();
    execute_sequences(&seqs, b"abXY", &[], &mut out).unwrap();
    assert_eq!(out, b"abababaXY".to_vec());
}

#[test]
fn execute_reaches_into_history() {
    let seqs = vec![Sequence { literal_length: 1, match_length: 3, offset: 4 }];
    let mut out = Vec::new();
    execute_sequences(&seqs, b"z", b"abc", &mut out).unwrap();
    assert_eq!(out, b"zabc".to_vec());
}

#[test]
fn execute_rejects_zero_offset() {
    let seqs = vec![Sequence { literal_length: 0, match_length: 3, offset: 0 }];
    let mut out = Vec::new();
    assert!(execute_sequences(&seqs, b"", b"abc", &mut out).is_err());
}

#[test]
fn execute_rejects_offset_past_history() {
    let seqs = vec![Sequence { literal_length: 1, match_length: 3, offset: 9 }];
    let mut out = Vec::new();
    assert!(execute_sequences(&seqs, b"z", b"abc", &mut out).is_err());
}

#[test]
fn execute_rejects_missing_literals() {
    let seqs = vec![Sequence { literal_length: 5, match_length: 3, offset: 1 }];
    let mut out = Vec::new();
    assert!(execute_sequences(&seqs, b"ab", b"", &mut out).is_err());
}
