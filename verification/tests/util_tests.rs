use mdx_rs::util::{be_bytes_unpack, le_bytes_unpack, read_be_number, NumberBytes};

#[test]
fn be_unpack_known_value() {
    assert_eq!(be_bytes_unpack(b"\x00\x00\x06V"), 1622);
}

#[test]
fn le_unpack_known_value() {
    assert_eq!(le_bytes_unpack(b"\x01*\xd2\x8b"), 2345806337);
}

#[test]
fn be_unpack_reads_only_first_four() {
    assert_eq!(be_bytes_unpack(&[0, 0, 0, 7, 0xFF, 0xFF]), 7);
}

#[test]
fn read_be_number_widths() {
    let data = [0u8, 0, 0, 0, 0, 0, 0x06, 0x56, 9];
    assert_eq!(read_be_number(&data, 0, 8), 1622);
    assert_eq!(read_be_number(&data, 4, 4), 1622);
    assert_eq!(read_be_number(&data, 8, 1), 9);
}

#[test]
fn number_bytes_cursor() {
    let bytes: Vec<u8> = vec![0, 0, 0, 1, 0, 0, 0, 0, 0, 0, 0, 2, 0, 0, 0];
    let mut nb = NumberBytes::new(&bytes);
    assert_eq!(nb.read_number(4), Some(1));
    assert_eq!(nb.read_number(8), Some(2));
    // three bytes remain: a four-byte read leaves the cursor unmoved
    assert_eq!(nb.read_number(4), None);
    assert_eq!(nb.read_number(2), Some(0));
}
