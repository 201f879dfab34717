use mdx_rs::cipher::{derive_key_info_key, encrypt_key_info};
use mdx_rs::compress::inflate_block;
use mdx_rs::error::MdxError;
use mdx_rs::mdx::{extract_definition, Mdx};

fn utf16le(s: &str) -> Vec<u8> {
    s.encode_utf16().flat_map(|u| u.to_le_bytes()).collect()
}

fn adler(data: &[u8]) -> u32 {
    adler32::RollingAdler32::from_buffer(data).hash()
}

fn zlib(data: &[u8]) -> Vec<u8> {
    miniz_oxide::deflate::compress_to_vec_zlib(data, 6)
}

/// A framed sub-block: deflate tag, checksum of the plain bytes, payload.
fn frame(dec: &[u8]) -> Vec<u8> {
    let mut out = vec![2, 0, 0, 0];
    out.extend_from_slice(&adler(dec).to_be_bytes());
    out.extend_from_slice(&zlib(dec));
    out
}

fn push_num(out: &mut Vec<u8>, x: u64, v2: bool) {
    if v2 {
        out.extend_from_slice(&x.to_be_bytes());
    } else {
        out.extend_from_slice(&(x as u32).to_be_bytes());
    }
}

fn push_text(out: &mut Vec<u8>, text: &str, v2: bool) {
    if v2 {
        out.extend_from_slice(&(text.len() as u16).to_be_bytes());
        out.extend_from_slice(text.as_bytes());
        out.push(0);
    } else {
        out.push(text.len() as u8);
        out.extend_from_slice(text.as_bytes());
    }
}

/// Builds a whole container image: one key block, and one record block
/// per inner list of (key, definition) pairs.
fn build_container(v2: bool, encrypted: bool, record_blocks: &[Vec<(&str, &str)>]) -> Vec<u8> {
    // global offsets of the entries
    let mut entries: Vec<(u64, &str)> = Vec::new();
    let mut off: u64 = 0;
    for blk in record_blocks {
        for (k, d) in blk {
            entries.push((off, k));
            off += d.len() as u64;
        }
    }
    // the one key block
    let mut kdec: Vec<u8> = Vec::new();
    for (o, k) in &entries {
        kdec.extend_from_slice(&o.to_be_bytes());
        kdec.extend_from_slice(k.as_bytes());
        kdec.push(0);
    }
    let kblock = frame(&kdec);
    // the key-block-info stream
    let head = entries.first().map(|e| e.1).unwrap_or("");
    let tail = entries.last().map(|e| e.1).unwrap_or("");
    let mut info: Vec<u8> = Vec::new();
    info.extend_from_slice(&(entries.len() as u64).to_be_bytes());
    push_text(&mut info, head, v2);
    push_text(&mut info, tail, v2);
    info.extend_from_slice(&(kblock.len() as u64).to_be_bytes());
    info.extend_from_slice(&(kdec.len() as u64).to_be_bytes());
    // the info blob
    let c = adler(&info);
    let payload = if encrypted {
        let key = derive_key_info_key(&c.to_be_bytes());
        encrypt_key_info(&zlib(&info), &key)
    } else {
        info.clone()
    };
    let mut blob = vec![2, 0, 0, 0];
    blob.extend_from_slice(&c.to_be_bytes());
    blob.extend_from_slice(&payload);
    // the key sizing block and its checksum
    let mut sizing: Vec<u8> = Vec::new();
    push_num(&mut sizing, 1, v2);
    push_num(&mut sizing, entries.len() as u64, v2);
    if v2 {
        push_num(&mut sizing, info.len() as u64, v2);
    }
    push_num(&mut sizing, blob.len() as u64, v2);
    push_num(&mut sizing, kblock.len() as u64, v2);
    let sizing_sum = adler(&sizing).to_be_bytes();
    // the record section
    let w: u64 = if v2 { 8 } else { 4 };
    let mut frames: Vec<u8> = Vec::new();
    let mut pairs: Vec<u8> = Vec::new();
    for blk in record_blocks {
        let mut rdec: Vec<u8> = Vec::new();
        for (_, d) in blk {
            rdec.extend_from_slice(d.as_bytes());
        }
        let f = frame(&rdec);
        push_num(&mut pairs, f.len() as u64, v2);
        push_num(&mut pairs, rdec.len() as u64, v2);
        frames.extend_from_slice(&f);
    }
    let mut rsizing: Vec<u8> = Vec::new();
    push_num(&mut rsizing, record_blocks.len() as u64, v2);
    push_num(&mut rsizing, entries.len() as u64, v2);
    push_num(&mut rsizing, 2 * w * record_blocks.len() as u64, v2);
    push_num(&mut rsizing, frames.len() as u64, v2);
    // the header
    let attrs = format!(
        "<Dictionary GeneratedByEngineVersion=\"{}\" Encrypted=\"{}\" Encoding=\"UTF-8\"/>",
        if v2 { "2.0" } else { "1.2" },
        if encrypted { "2" } else { "0" },
    );
    let mut hb = utf16le(&attrs);
    hb.push(0);
    hb.push(0);
    let mut out: Vec<u8> = Vec::new();
    out.extend_from_slice(&(hb.len() as u32).to_be_bytes());
    let hsum = adler(&hb).to_le_bytes();
    out.extend_from_slice(&hb);
    out.extend_from_slice(&hsum);
    // assemble
    out.extend_from_slice(&sizing);
    out.extend_from_slice(&sizing_sum);
    out.extend_from_slice(&blob);
    out.extend_from_slice(&kblock);
    out.extend_from_slice(&rsizing);
    out.extend_from_slice(&pairs);
    out.extend_from_slice(&frames);
    out
}

#[test]
fn lookup_correctness() {
    let data = build_container(
        true,
        false,
        &[vec![("alpha", "first definition"), ("beta", "second one"), ("gamma", "third!")]],
    );
    let mdx = Mdx::from_bytes("test.mdx", &data).expect("container should decode");
    assert_eq!(mdx.records.len(), 3);
    assert_eq!(mdx.lookup(&data, &"alpha".to_string()), vec!["first definition".to_string()]);
    assert_eq!(mdx.lookup(&data, &"beta".to_string()), vec!["second one".to_string()]);
    assert_eq!(mdx.lookup(&data, &"gamma".to_string()), vec!["third!".to_string()]);
    assert!(mdx.lookup(&data, &"missing".to_string()).is_empty());
}

#[test]
fn duplicate_keys_keep_both_rows() {
    let data = build_container(
        true,
        false,
        &[vec![("dup", "earlier sense"), ("other", "something"), ("dup", "later sense")]],
    );
    let mdx = Mdx::from_bytes("dup.mdx", &data).expect("container should decode");
    assert_eq!(mdx.records.len(), 3);
    let dups: Vec<&mdx_rs::record::RecordIndex> =
        mdx.records.iter().filter(|r| r.key_text == "dup").collect();
    assert_eq!(dups.len(), 2);
    assert!(dups[0].record_start != dups[1].record_start);
    assert_eq!(
        mdx.lookup(&data, &"dup".to_string()),
        vec!["earlier sense".to_string(), "later sense".to_string()]
    );
}

#[test]
fn version_gating_equivalent_rows() {
    let blocks = vec![
        vec![("apple", "a fruit"), ("berry", "a small fruit")],
        vec![("cherry", "a stone fruit")],
    ];
    let d1 = build_container(false, false, &blocks);
    let d2 = build_container(true, false, &blocks);
    let m1 = Mdx::from_bytes("v1.mdx", &d1).expect("narrow layout should decode");
    let m2 = Mdx::from_bytes("v2.mdx", &d2).expect("wide layout should decode");
    assert_eq!(m1.records.len(), m2.records.len());
    for (a, b) in m1.records.iter().zip(m2.records.iter()) {
        assert_eq!(a.key_text, b.key_text);
        assert_eq!(a.record_start, b.record_start);
        assert_eq!(a.record_end, b.record_end);
        assert_eq!(a.offset, b.offset);
        assert_eq!(a.decompressed_size, b.decompressed_size);
        assert_eq!(a.compressed_size, b.compressed_size);
        assert_eq!(a.record_block_type, b.record_block_type);
    }
    for key in ["apple", "berry", "cherry"] {
        assert_eq!(m1.lookup(&d1, &key.to_string()), m2.lookup(&d2, &key.to_string()));
    }
}

#[test]
fn encrypted_key_info_round_trip() {
    let data = build_container(true, true, &[vec![("secret", "hidden text"), ("word", "plain")]]);
    let mdx = Mdx::from_bytes("enc.mdx", &data).expect("protected container should decode");
    assert_eq!(mdx.lookup(&data, &"secret".to_string()), vec!["hidden text".to_string()]);
    assert_eq!(mdx.lookup(&data, &"word".to_string()), vec!["plain".to_string()]);
}

#[test]
fn encrypted_narrow_layout() {
    let data = build_container(false, true, &[vec![("k", "v-text")]]);
    let mdx = Mdx::from_bytes("enc1.mdx", &data).expect("protected narrow container");
    assert_eq!(mdx.lookup(&data, &"k".to_string()), vec!["v-text".to_string()]);
}

#[test]
fn offset_partition_over_blocks() {
    let blocks = vec![
        vec![("a", "AAAA"), ("b", "BB")],
        vec![("c", "CCCCCC"), ("d", "D"), ("e", "EEE")],
    ];
    let data = build_container(true, false, &blocks);
    let mdx = Mdx::from_bytes("part.mdx", &data).expect("container should decode");
    let rows = &mdx.records;
    assert_eq!(rows.len(), 5);
    // every span is nonempty and spans do not overlap
    for r in rows.iter() {
        assert!(r.record_start < r.record_end);
    }
    for pair in rows.windows(2) {
        assert!(pair[0].record_end <= pair[1].record_start);
    }
    // block one holds bytes 0..6, block two bytes 6..16
    assert_eq!(rows[0].offset, 0);
    assert_eq!(rows[1].record_end, 6);
    assert_eq!(rows[2].offset, 6);
    assert_eq!(rows[2].record_start, 6);
    assert_eq!(rows[4].record_end, 16);
    // the spans cover each block with no gaps
    assert_eq!(rows[0].record_start, 0);
    assert_eq!(rows[0].record_end, rows[1].record_start);
    assert_eq!(rows[2].record_end, rows[3].record_start);
    assert_eq!(rows[3].record_end, rows[4].record_start);
    // the second block's rows carry its base offset
    assert_eq!(rows[3].offset, 6);
    assert_eq!(rows[4].offset, 6);
}

#[test]
fn corrupt_record_checksum_fails_build() {
    let data = build_container(true, false, &[vec![("x", "y-def")]]);
    let mdx = Mdx::from_bytes("ok.mdx", &data).expect("control container should decode");
    // flip a byte of the record block's stored checksum
    let fstart = mdx.records[0].file_pos as usize;
    let mut bad = data.clone();
    bad[fstart + 4] ^= 0xFF;
    assert!(matches!(Mdx::from_bytes("bad.mdx", &bad), Err(MdxError::FormatError)));
}

#[test]
fn truncated_container_fails_build() {
    let data = build_container(true, false, &[vec![("x", "y-def")]]);
    for cut in [3usize, 10, data.len() / 2, data.len() - 1] {
        assert!(matches!(Mdx::from_bytes("cut.mdx", &data[..cut]), Err(MdxError::FormatError)));
    }
}

#[test]
fn record_sizing_mismatch_fails_build() {
    let blocks = vec![vec![("q", "def-text")]];
    let good = build_container(true, false, &blocks);
    let mdx = Mdx::from_bytes("ok.mdx", &good).expect("control container should decode");
    // tamper with the record-info size field: it sits right after the
    // record block count and entry count in the record sizing area
    let rpos = (mdx.header.record_block_offset as usize) + 16;
    let mut bad = good.clone();
    bad[rpos + 7] ^= 0x04;
    assert!(matches!(Mdx::from_bytes("bad.mdx", &bad), Err(MdxError::FormatError)));
}

#[test]
fn unsupported_block_type_in_lookup() {
    // a plain-stored frame: tag one instead of the deflate tag
    let mut block = vec![1u8, 0, 0, 0];
    block.extend_from_slice(&adler(b"data").to_be_bytes());
    block.extend_from_slice(b"data");
    assert!(matches!(
        extract_definition(&block, 0, 4, 0, b"UTF-8"),
        Err(MdxError::UnsupportedBlockType)
    ));
}

#[test]
fn checksum_mismatch_in_lookup() {
    let mut block = frame(b"payload text");
    block[4] ^= 0xFF;
    assert!(matches!(
        extract_definition(&block, 0, 4, 0, b"UTF-8"),
        Err(MdxError::ChecksumMismatch)
    ));
}

#[test]
fn extract_trims_trailing_padding() {
    let block = frame(b"word\0\0\0rest");
    assert_eq!(extract_definition(&block, 0, 7, 0, b"UTF-8"), Ok("word".to_string()));
    assert_eq!(extract_definition(&block, 7, 11, 0, b"UTF-8"), Ok("rest".to_string()));
}

#[test]
fn inflate_block_recovers_plain_bytes() {
    let block = frame(b"hello inflate");
    let out = inflate_block(&block).expect("well-formed frame should inflate");
    assert_eq!(out, b"hello inflate");
}

#[test]
fn empty_container_has_no_rows() {
    let data = build_container(true, false, &[]);
    let mdx = Mdx::from_bytes("empty.mdx", &data).expect("empty container should decode");
    assert!(mdx.records.is_empty());
    assert!(mdx.lookup(&data, &"anything".to_string()).is_empty());
}

#[test]
fn info_stream_exhausted_mid_record() {
    // an eight-byte entry count with nothing after it is a truncated record
    let short = [0u8; 8];
    assert!(matches!(
        mdx_rs::keyblock::parse_key_block_descriptors(&short, true),
        Err(MdxError::FormatError)
    ));
    // a whole record parses
    let mut rec: Vec<u8> = Vec::new();
    rec.extend_from_slice(&7u64.to_be_bytes());
    rec.extend_from_slice(&1u16.to_be_bytes());
    rec.extend_from_slice(b"a");
    rec.push(0);
    rec.extend_from_slice(&1u16.to_be_bytes());
    rec.extend_from_slice(b"z");
    rec.push(0);
    rec.extend_from_slice(&100u64.to_be_bytes());
    rec.extend_from_slice(&200u64.to_be_bytes());
    let descs = mdx_rs::keyblock::parse_key_block_descriptors(&rec, true).expect("one record");
    assert_eq!(descs.len(), 1);
    assert_eq!(descs[0].compressed_size, 100);
    assert_eq!(descs[0].decompressed_size, 200);
}
