use zstd_rs::xxhash::xxhash32;

#[test]
fn test_empty_seed0() {
    assert_eq!(xxhash32(b"", 0), 0x51D8E999);
}

#[test]
fn test_single_byte_z() {
    assert_eq!(xxhash32(b"Z", 0), 0x5F35570B);
}

#[test]
fn test_self_consistency() {
    let data = b"hello world, this is a consistency check";
    assert_eq!(xxhash32(data, 0), xxhash32(data, 0));
    assert_ne!(xxhash32(data, 0), xxhash32(data, 1));
}

#[test]
fn test_different_inputs() {
    assert_ne!(xxhash32(b"abc", 0), xxhash32(b"abd", 0));
}

#[test]
fn test_long_input() {
    let data: Vec<u8> = (0u8..=255).cycle().take(1024).collect();
    let h = xxhash32(&data, 0);
    assert_eq!(h, xxhash32(&data, 0));
}

#[test]
fn xxh64_reference_abc() {
    // XXH64("abc", 0) = 0x44BC2CF5AD770999; its low 32 bits.
    assert_eq!(xxhash32(b"abc", 0), 0xAD770999);
}
