use mdx_rs::error::MdxError;
use mdx_rs::header::{decode_header, parse_attributes, parse_version, HeaderTagBuilder, Version};

fn utf16le(s: &str) -> Vec<u8> {
    s.encode_utf16().flat_map(|u| u.to_le_bytes()).collect()
}

fn build_header(attrs: &str) -> Vec<u8> {
    let mut hb = utf16le(attrs);
    hb.push(0);
    hb.push(0);
    let mut out = Vec::new();
    out.extend_from_slice(&(hb.len() as u32).to_be_bytes());
    let sum = adler32::RollingAdler32::from_buffer(&hb).hash();
    out.extend_from_slice(&hb);
    out.extend_from_slice(&sum.to_le_bytes());
    out
}

#[test]
fn parse_version_forms() {
    let v = |s: &str| {
        let chars: Vec<char> = s.chars().collect();
        parse_version(&chars)
    };
    assert_eq!(v("2.0"), Version { major: 2, minor: 0 });
    assert_eq!(v("1.2"), Version { major: 1, minor: 2 });
    assert_eq!(v("3"), Version { major: 3, minor: 0 });
    assert_eq!(v(""), Version { major: 0, minor: 0 });
    assert_eq!(v("junk"), Version { major: 0, minor: 0 });
    assert!(Version { major: 2, minor: 0 }.is_v2());
    assert!(!Version { major: 1, minor: 9 }.is_v2());
}

#[test]
fn attributes_tolerant_scan() {
    let chars: Vec<char> =
        "<Dict GeneratedByEngineVersion=\"2.0\" Encrypted=\"2\" junk Encoding=\"UTF-8\"/>"
            .chars()
            .collect();
    let attrs = parse_attributes(&chars);
    let pairs: Vec<(String, String)> = attrs;
    assert!(pairs.contains(&("GeneratedByEngineVersion".to_string(), "2.0".to_string())));
    assert!(pairs.contains(&("Encrypted".to_string(), "2".to_string())));
    assert!(pairs.contains(&("Encoding".to_string(), "UTF-8".to_string())));
}

#[test]
fn decode_header_fields() {
    let data = build_header(
        "<Dictionary GeneratedByEngineVersion=\"2.0\" Format=\"Html\" KeyCaseSensitive=\"No\" \
         StripKey=\"Yes\" Encrypted=\"2\" RegisterBy=\"EMail\" Encoding=\"UTF-8\" \
         Compact=\"Yes\" Left2Right=\"Yes\" DataSourceFormat=\"106\" StyleSheet=\"\"/>",
    );
    let tag = decode_header(&data).expect("header should decode");
    assert_eq!(tag.genversion, Version { major: 2, minor: 0 });
    assert_eq!(tag.format, "Html");
    assert!(!tag.keycasesensitive);
    assert!(tag.stripkey);
    assert_eq!(tag.encrypted, "2");
    assert_eq!(tag.registerby, "EMail");
    assert_eq!(tag.encoding, "UTF-8");
    assert!(tag.compact);
    assert!(tag.left2right);
    assert_eq!(tag.datasourceformat, "106");
    assert_eq!(tag.stylesheet, "");
    assert_eq!(tag.key_block_offset, data.len() as u64);
    assert!(tag.key_info_encrypted());
    assert!(!tag.record_encrypted());
}

#[test]
fn decode_header_bad_checksum() {
    let mut data = build_header("<D Encoding=\"UTF-8\"/>");
    let last = data.len() - 1;
    data[last] ^= 0xFF;
    assert!(matches!(decode_header(&data), Err(MdxError::FormatError)));
}

#[test]
fn decode_header_truncated() {
    let data = build_header("<D/>");
    assert!(matches!(decode_header(&data[..data.len() - 2]), Err(MdxError::FormatError)));
    assert!(matches!(decode_header(&data[..3]), Err(MdxError::FormatError)));
}

#[test]
fn builder_collects_fields() {
    let mut b = HeaderTagBuilder::default();
    b.file("dict.mdx".to_string());
    b.genversion(Version { major: 2, minor: 0 });
    b.encoding("UTF-8".to_string());
    b.stripkey(true);
    b.key_block_offset(44);
    let tag = b.build();
    assert_eq!(tag.file, "dict.mdx");
    assert_eq!(tag.genversion, Version { major: 2, minor: 0 });
    assert_eq!(tag.encoding, "UTF-8");
    assert!(tag.stripkey);
    assert_eq!(tag.key_block_offset, 44);
    assert_eq!(tag.creationdate, "");
}
