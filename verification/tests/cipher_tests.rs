use mdx_rs::cipher::{decrypt_key_info, derive_key_info_key, encrypt_key_info};
use ripemd::{Digest, Ripemd128};

#[test]
fn cipher_round_trip_all_short_lengths() {
    let key: Vec<u8> = (1u8..=16).collect();
    for len in 0..=16usize {
        let payload: Vec<u8> = (0..len).map(|i| (i as u8).wrapping_mul(37).wrapping_add(5)).collect();
        let enc = encrypt_key_info(&payload, &key);
        let dec = decrypt_key_info(&enc, &key);
        assert_eq!(dec, payload, "length {}", len);
    }
}

#[test]
fn cipher_round_trip_long_payload() {
    let key: Vec<u8> = (0u8..16).map(|i| i.wrapping_mul(97)).collect();
    let payload: Vec<u8> = (0u16..1000).map(|i| (i % 251) as u8).collect();
    let enc = encrypt_key_info(&payload, &key);
    assert_ne!(enc, payload);
    assert_eq!(decrypt_key_info(&enc, &key), payload);
}

#[test]
fn decrypt_known_single_byte() {
    // one byte: swap halves of 0xAB, then combine with the seed 0x36,
    // index byte 0 and key byte 7: 0xBA ^ 0x36 ^ 0x00 ^ 0x07 == 0x8B
    let key: Vec<u8> = vec![7; 16];
    let dec = decrypt_key_info(&[0xAB], &key);
    assert_eq!(dec, vec![0x8B]);
}

#[test]
fn derived_key_matches_outside_digest() {
    let checksum = [0x12u8, 0x34, 0x56, 0x78];
    let key = derive_key_info_key(&checksum);
    let mut seed = checksum.to_vec();
    seed.extend_from_slice(&[0x95, 0x36, 0x00, 0x00]);
    let expected = Ripemd128::digest(&seed);
    assert_eq!(key.as_slice(), expected.as_slice());
    assert_eq!(key.len(), 16);
}
