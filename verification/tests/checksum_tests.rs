use mdx_rs::checksum::adler32_checksum;

#[test]
fn known_checksum_value() {
    // the rolling checksum of "abc" is 0x024D0127
    let contents: Vec<u8> = b"abc".to_vec();
    assert!(adler32_checksum(&contents, &0x024D0127u32.to_be_bytes(), true));
    assert!(adler32_checksum(&contents, &0x024D0127u32.to_le_bytes(), false));
    assert!(!adler32_checksum(&contents, &0x024D0127u32.to_le_bytes(), true));
}

#[test]
fn round_trip_both_byte_orders() {
    let contents: Vec<u8> = (0u8..=255).collect();
    let hash = adler32::RollingAdler32::from_buffer(&contents).hash();
    assert!(adler32_checksum(&contents, &hash.to_be_bytes(), true));
    assert!(adler32_checksum(&contents, &hash.to_le_bytes(), false));
}

#[test]
fn flipped_bit_fails() {
    let contents: Vec<u8> = b"the quick brown fox".to_vec();
    let hash = adler32::RollingAdler32::from_buffer(&contents).hash();
    for i in 0..contents.len() {
        for bit in 0..8 {
            let mut changed = contents.clone();
            changed[i] ^= 1 << bit;
            assert!(!adler32_checksum(&changed, &hash.to_be_bytes(), true));
        }
    }
}

#[test]
fn empty_buffer_checksum() {
    let contents: Vec<u8> = Vec::new();
    assert!(adler32_checksum(&contents, &1u32.to_be_bytes(), true));
}
