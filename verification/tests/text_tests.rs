use mdx_rs::text::{decode_text, le_u8_string};

fn utf16le(s: &str) -> Vec<u8> {
    s.encode_utf16().flat_map(|u| u.to_le_bytes()).collect()
}

#[test]
fn utf16_basic_text() {
    assert_eq!(le_u8_string(&utf16le("hello")), Some("hello".to_string()));
}

#[test]
fn utf16_empty() {
    assert_eq!(le_u8_string(&[]), Some(String::new()));
}

#[test]
fn utf16_surrogate_pair() {
    // a character outside the basic plane needs a surrogate pair
    assert_eq!(le_u8_string(&utf16le("a\u{1F600}b")), Some("a\u{1F600}b".to_string()));
}

#[test]
fn utf16_unpaired_surrogate_is_rejected() {
    // a lone high surrogate
    assert_eq!(le_u8_string(&[0x00, 0xD8]), None);
}

#[test]
fn utf16_trailing_odd_byte_is_ignored() {
    let mut bytes = utf16le("hi");
    bytes.push(0x41);
    assert_eq!(le_u8_string(&bytes), Some("hi".to_string()));
}

#[test]
fn decode_utf8_label() {
    assert_eq!(decode_text(b"UTF-8", "caf\u{e9}".as_bytes()), Some("caf\u{e9}".to_string()));
    // invalid UTF-8 is rejected
    assert_eq!(decode_text(b"UTF-8", &[0xFF, 0xFE]), None);
    // an empty label defaults to UTF-8
    assert_eq!(decode_text(b"", b"plain"), Some("plain".to_string()));
}

#[test]
fn decode_utf16_label() {
    assert_eq!(decode_text(b"UTF-16", &utf16le("word")), Some("word".to_string()));
}

#[test]
fn decode_outside_label() {
    // big-endian UTF-16 goes through the outside converter; a decoder
    // that ignored the label would read these bytes as "\0A"
    assert_eq!(decode_text(b"UTF-16BE", &[0x00, 0x41]), Some("A".to_string()));
    // ISO-8859-1 maps byte 0xE9 to the accented e
    assert_eq!(decode_text(b"ISO-8859-1", &[0xE9]), Some("\u{e9}".to_string()));
    // an unknown label is refused
    assert_eq!(decode_text(b"no-such-encoding", b"x"), None);
}
