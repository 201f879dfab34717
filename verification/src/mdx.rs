//! The container session: one pass that decodes the header, the key
//! section and the record section of a whole container image into the
//! index rows, and the lookup routine that re-opens a single compressed
//! block and slices one definition out of it.

use vstd::prelude::*;
use crate::checksum::{adler32_of, adler32_checksum};
use crate::compress::{inflated, block_tag, block_payload, block_stored_checksum, read_block_tag,
    zlib_inflate, BLOCK_TYPE_DEFLATE};
use crate::error::MdxError;
use crate::header::{HeaderTag, decode_header, spec_header_ok, spec_header_attrs, spec_header_len,
    attr_value, opt_or_empty, spec_parse_version, spec_encrypt_flag};
use crate::keyblock::{KeyEntry, entry_views, num_width, sizing_count, spec_key_sizing,
    spec_key_sizing_ok, spec_key_info, spec_key_descriptors, spec_key_blocks, parse_key_sizing,
    decode_key_info, parse_key_block_descriptors, decode_key_blocks};
use crate::record::{RecordIndex, RecordBlockInfo, spec_record_sizing,
    spec_record_sizing_ok, spec_record_descriptors, spec_record_blocks, cum_comp, cum_decomp,
    lemma_cum_decomp_mono, lemma_cum_comp_mono, row_matches, offsets_sorted, offsets_in_range,
    parse_record_sizing, parse_record_descriptors, decode_record_blocks, build_index_rows};
use crate::text::spec_decode_text;
use vstd::slice::slice_subrange;
use vstd::utf8::encode_utf8;

verus! {

/// A byte buffer with its trailing zero padding removed.
pub open spec fn trim_zeros(s: Seq<u8>) -> Seq<u8>
    decreases s.len(),
{
    if s.len() > 0 && s.last() == 0 {
        trim_zeros(s.drop_last())
    } else {
        s
    }
}

/// A scan that stops at the last non-zero byte finds the padding.
proof fn lemma_trim_zeros_is(s: Seq<u8>, e: int)
    requires
        0 <= e <= s.len(),
        forall|j: int| e <= j < s.len() ==> s[j] == 0,
        e == 0 || s[e - 1] != 0,
    ensures
        trim_zeros(s) == s.take(e),
    decreases s.len(),
{
    if s.len() == 0 {
        assert(s.take(0) =~= s);
    } else if s.last() == 0 {
        assert(e < s.len());
        lemma_trim_zeros_is(s.drop_last(), e);
        assert(s.drop_last().take(e) =~= s.take(e));
    } else {
        assert(e == s.len());
        assert(s.take(e) =~= s);
    }
}

/// What slicing one definition out of one stored record block yields:
/// the block must carry the deflate tag, inflate, match its checksum,
/// and hold the asked-for span; the span's bytes, trailing zero
/// padding trimmed, are decoded under the container's encoding label.
pub open spec fn spec_extract(
    block: Seq<u8>,
    start: int,
    end: int,
    off: int,
    label: Seq<u8>,
) -> Result<Seq<char>, MdxError> {
    if block.len() < 8 {
        Err(MdxError::FormatError)
    } else if block_tag(block) != BLOCK_TYPE_DEFLATE {
        Err(MdxError::UnsupportedBlockType)
    } else {
        match inflated(block_payload(block)) {
            None => Err(MdxError::FormatError),
            Some(d) => if adler32_of(d) != block_stored_checksum(block) {
                Err(MdxError::ChecksumMismatch)
            } else if !(off <= start <= end && end - off <= d.len()) {
                Err(MdxError::FormatError)
            } else {
                match spec_decode_text(label, trim_zeros(d.subrange(start - off, end - off))) {
                    None => Err(MdxError::FormatError),
                    Some(t) => Ok(t),
                }
            },
        }
    }
}

/// Removes trailing zero padding.
fn trim_trailing_zeros(d: Vec<u8>) -> (r: Vec<u8>)
    ensures
        r@ == trim_zeros(d@),
{
    let mut e = d.len();
    while e > 0 && d[e - 1] == 0
        invariant
            0 <= e <= d@.len(),
            forall|j: int| e <= j < d@.len() ==> d@[j] == 0,
        decreases e,
    {
        e = e - 1;
    }
    proof {
        lemma_trim_zeros_is(d@, e as int);
    }
    let mut d = d;
    d.truncate(e);
    d
}

/// Slices one definition out of one stored record block: verifies the
/// deflate tag and the checksum, inflates, takes the record's span in
/// the decompressed bytes, trims trailing zero padding and decodes the
/// text under the given encoding label.
pub fn extract_definition(
    block: &[u8],
    record_start: u64,
    record_end: u64,
    offset: u64,
    label: &[u8],
) -> (r: Result<String, MdxError>)
    ensures
        r matches Err(e) ==> spec_extract(
            block@,
            record_start as int,
            record_end as int,
            offset as int,
            label@,
        ) == Err::<Seq<char>, MdxError>(e),
        r matches Ok(t) ==> spec_extract(
            block@,
            record_start as int,
            record_end as int,
            offset as int,
            label@,
        ) == Ok::<Seq<char>, MdxError>(t@),
{
    let bl = block.len();
    if bl < 8 {
        return Err(MdxError::FormatError);
    }
    let tag = read_block_tag(block);
    if tag != BLOCK_TYPE_DEFLATE {
        return Err(MdxError::UnsupportedBlockType);
    }
    let payload = slice_subrange(block, 8, bl);
    proof {
        assert(payload@ =~= block_payload(block@));
    }
    let d = match zlib_inflate(payload) {
        None => {
            return Err(MdxError::FormatError);
        },
        Some(d) => d,
    };
    let check = slice_subrange(block, 4, 8);
    proof {
        assert(check@.subrange(0, 4) =~= block@.subrange(4, 8));
    }
    if !adler32_checksum(&d, check, true) {
        return Err(MdxError::ChecksumMismatch);
    }
    let dl = d.len();
    if !(offset <= record_start && record_start <= record_end && record_end - offset <= dl
        as u64) {
        return Err(MdxError::FormatError);
    }
    let lo = (record_start - offset) as usize;
    let hi = (record_end - offset) as usize;
    let span = slice_subrange(d.as_slice(), lo, hi);
    proof {
        assert(span@ =~= d@.subrange(record_start - offset, record_end - offset));
    }
    let trimmed = trim_trailing_zeros(vstd::slice::slice_to_vec(span));
    match crate::text::decode_text(label, trimmed.as_slice()) {
        None => Err(MdxError::FormatError),
        Some(t) => Ok(t),
    }
}

/// What extracting one index row from the container image yields.
pub open spec fn spec_row_extract(r: RecordIndex, data: Seq<u8>, label: Seq<u8>) -> Result<
    Seq<char>,
    MdxError,
> {
    if r.file_pos + r.compressed_size <= data.len() {
        spec_extract(
            data.subrange(r.file_pos as int, r.file_pos + r.compressed_size),
            r.record_start as int,
            r.record_end as int,
            r.offset as int,
            label,
        )
    } else {
        Err(MdxError::FormatError)
    }
}

/// The definitions a lookup returns: for every row whose key equals
/// the word, in order, the decoded definition; rows whose block fails
/// to extract are passed over, failing only their own lookup.
pub open spec fn spec_lookup(
    rows: Seq<RecordIndex>,
    data: Seq<u8>,
    label: Seq<u8>,
    w: Seq<char>,
) -> Seq<Seq<char>>
    decreases rows.len(),
{
    if rows.len() == 0 {
        Seq::empty()
    } else {
        let rest = spec_lookup(rows.skip(1), data, label, w);
        if rows[0].key_text@ == w {
            match spec_row_extract(rows[0], data, label) {
                Ok(t) => seq![t] + rest,
                Err(_) => rest,
            }
        } else {
            rest
        }
    }
}

/// The views of returned definitions.
pub open spec fn string_views(v: Seq<String>) -> Seq<Seq<char>> {
    Seq::new(v.len(), |i: int| v[i]@)
}

/// Finds every row whose key equals the word and extracts its
/// definition from the container image, in container order.
pub fn lookup_definitions(
    rows: &Vec<RecordIndex>,
    data: &[u8],
    label: &[u8],
    word: &String,
) -> (r: Vec<String>)
    ensures
        string_views(r@) == spec_lookup(rows@, data@, label@, word@),
{
    let n = rows.len();
    let dl = data.len();
    let mut out: Vec<String> = Vec::new();
    let mut i: usize = 0;
    proof {
        assert(rows@.skip(0) =~= rows@);
        assert(string_views(out@) + spec_lookup(rows@, data@, label@, word@) =~= spec_lookup(
            rows@,
            data@,
            label@,
            word@,
        ));
    }
    while i < n
        invariant
            n == rows@.len(),
            dl == data@.len(),
            0 <= i <= n,
            string_views(out@) + spec_lookup(rows@.skip(i as int), data@, label@, word@)
                =~= spec_lookup(rows@, data@, label@, word@),
        decreases n - i,
    {
        let ghost tail = rows@.skip(i as int);
        proof {
            assert(tail[0] == rows@[i as int]);
            assert(tail.skip(1) =~= rows@.skip(i + 1));
        }
        let ghost prev_out = out@;
        if rows[i].key_text == *word {
            let fp = rows[i].file_pos;
            let cs = rows[i].compressed_size;
            let fits = fp <= dl as u64 && cs <= (dl as u64) - fp;
            if fits {
                let block = slice_subrange(data, fp as usize, (fp + cs) as usize);
                proof {
                    assert(block@ =~= data@.subrange(fp as int, fp + cs));
                }
                match extract_definition(
                    block,
                    rows[i].record_start,
                    rows[i].record_end,
                    rows[i].offset,
                    label,
                ) {
                    Ok(t) => {
                        proof {
                            match spec_row_extract(rows@[i as int], data@, label@) {
                                Ok(tt) => {
                                    assert(string_views(prev_out.push(t)) =~= string_views(
                                        prev_out,
                                    ) + seq![t@]);
                                    assert(string_views(prev_out) + (seq![tt] + spec_lookup(
                                        rows@.skip(i + 1),
                                        data@,
                                        label@,
                                        word@,
                                    )) =~= (string_views(prev_out) + seq![tt]) + spec_lookup(
                                        rows@.skip(i + 1),
                                        data@,
                                        label@,
                                        word@,
                                    ));
                                },
                                Err(_) => {
                                    assert(false);
                                },
                            }
                        }
                        out.push(t);
                    },
                    Err(_) => {},
                }
            }
        }
        i = i + 1;
    }
    proof {
        assert(rows@.skip(n as int) =~= Seq::<RecordIndex>::empty());
        assert(string_views(out@) + Seq::<Seq<char>>::empty() =~= string_views(out@));
    }
    out
}

/// Sums the blocks' decompressed sizes, `None` on overflow.
fn sum_decomp(bs: &Vec<RecordBlockInfo>) -> (r: Option<u64>)
    ensures
        (r is Some) <==> cum_decomp(bs@, bs@.len() as int) <= u64::MAX,
        r matches Some(t) ==> t == cum_decomp(bs@, bs@.len() as int),
{
    let n = bs.len();
    let mut acc: u64 = 0;
    let mut i: usize = 0;
    while i < n
        invariant
            n == bs@.len(),
            0 <= i <= n,
            acc == cum_decomp(bs@, i as int),
        decreases n - i,
    {
        match acc.checked_add(bs[i].decompressed_size) {
            Some(a) => {
                acc = a;
            },
            None => {
                proof {
                    lemma_cum_decomp_mono(bs@, i + 1, n as int);
                }
                return None;
            },
        }
        i = i + 1;
    }
    Some(acc)
}

/// Adds the blocks' stored sizes onto a base file position, `None` on
/// overflow.
fn sum_comp_from(base: u64, bs: &Vec<RecordBlockInfo>) -> (r: Option<u64>)
    ensures
        (r is Some) <==> base + cum_comp(bs@, bs@.len() as int) <= u64::MAX,
        r matches Some(t) ==> t == base + cum_comp(bs@, bs@.len() as int),
{
    let n = bs.len();
    let mut acc: u64 = base;
    let mut i: usize = 0;
    while i < n
        invariant
            n == bs@.len(),
            0 <= i <= n,
            acc == base + cum_comp(bs@, i as int),
        decreases n - i,
    {
        match acc.checked_add(bs[i].compressed_size) {
            Some(a) => {
                acc = a;
            },
            None => {
                proof {
                    lemma_cum_comp_mono(bs@, i + 1, n as int);
                }
                return None;
            },
        }
        i = i + 1;
    }
    Some(acc)
}

/// Whether the entries' offsets strictly ascend and stay below the
/// total decompressed size.
fn check_entries(entries: &Vec<KeyEntry>, total: u64) -> (b: bool)
    ensures
        b == (offsets_sorted(entry_views(entries@)) && forall|i: int|
            0 <= i < entries@.len() ==> (#[trigger] entry_views(entries@)[i].0) < total),
{
    let ghost es = entry_views(entries@);
    let n = entries.len();
    let mut i: usize = 0;
    while i < n
        invariant
            es == entry_views(entries@),
            n == entries@.len(),
            0 <= i <= n,
            forall|j: int| 0 <= j < i && j + 1 < n ==> (#[trigger] es[j].0) < es[j + 1].0,
            forall|j: int| 0 <= j < i ==> (#[trigger] es[j].0) < total,
        decreases n - i,
    {
        if entries[i].record_offset >= total {
            proof {
                assert(es[i as int].0 == entries@[i as int].record_offset);
            }
            return false;
        }
        if i + 1 < n && entries[i].record_offset >= entries[i + 1].record_offset {
            proof {
                assert(es[i as int].0 == entries@[i as int].record_offset);
                assert(es[i + 1].0 == entries@[i + 1].record_offset);
            }
            return false;
        }
        proof {
            assert(es[i as int].0 == entries@[i as int].record_offset);
            if i + 1 < n {
                assert(es[i + 1].0 == entries@[i + 1].record_offset);
            }
        }
        i = i + 1;
    }
    true
}

/// What one whole container image decodes to, section by section, or
/// `None` where any gate of the build fails: a bad header, a failed
/// checksum, a truncated stream, malformed sizing, a key or record
/// block that does not decode, sizes past the machine's range, or key
/// entries out of order.
pub struct ContainerSpec {
    /// Whether the wide layout governs the sections.
    pub v2: bool,
    /// The declared encoding label, as bytes.
    pub label: Seq<u8>,
    /// The key entries of every deflate key block, in order.
    pub entries: Seq<(u64, Seq<char>)>,
    /// The record blocks with their sizes and type tags.
    pub blocks: Seq<RecordBlockInfo>,
    /// Where the record block data starts in the image.
    pub record_data_pos: int,
    /// Where the record section starts in the image.
    pub record_section_pos: int,
}

/// The decoding pipeline of a whole container image.
pub open spec fn spec_container(data: Seq<u8>) -> Option<ContainerSpec> {
    if !spec_header_ok(data) {
        None
    } else {
        let attrs = spec_header_attrs(data);
        let version = spec_parse_version(
            opt_or_empty(attr_value(attrs, "GeneratedByEngineVersion"@)),
        );
        let v2 = version.major >= 2;
        let label = encode_utf8(opt_or_empty(attr_value(attrs, "Encoding"@)));
        let enc = spec_encrypt_flag(opt_or_empty(attr_value(attrs, "Encrypted"@))) & 2 != 0;
        let kpos = 8 + spec_header_len(data);
        if !spec_key_sizing_ok(data, kpos, v2) {
            None
        } else {
            let sizing = spec_key_sizing(data, kpos, v2);
            let ipos = kpos + num_width(v2) * sizing_count(v2) + 4;
            if ipos + sizing.info_size > data.len() {
                None
            } else {
                match spec_key_info(data.subrange(ipos, ipos + sizing.info_size), enc) {
                    None => None,
                    Some(info) => match spec_key_descriptors(info, v2) {
                        None => None,
                        Some(descs) => {
                            let bpos = ipos + sizing.info_size;
                            if bpos + sizing.block_size > data.len() {
                                None
                            } else {
                                match spec_key_blocks(
                                    data.subrange(bpos, bpos + sizing.block_size),
                                    descs,
                                    label,
                                ) {
                                    None => None,
                                    Some(entries) => spec_container_records(
                                        data,
                                        v2,
                                        label,
                                        entries,
                                        bpos + sizing.block_size,
                                    ),
                                }
                            }
                        },
                    },
                }
            }
        }
    }
}

/// The record-section half of the pipeline, from the section's start.
pub open spec fn spec_container_records(
    data: Seq<u8>,
    v2: bool,
    label: Seq<u8>,
    entries: Seq<(u64, Seq<char>)>,
    rpos: int,
) -> Option<ContainerSpec> {
    if !spec_record_sizing_ok(data, rpos, v2) {
        None
    } else {
        let rsz = spec_record_sizing(data, rpos, v2);
        let dpos = rpos + num_width(v2) * 4;
        if rsz.info_size != 2 * num_width(v2) * rsz.num_blocks {
            None
        } else if dpos + rsz.info_size > data.len() {
            None
        } else {
            match spec_record_descriptors(data.subrange(dpos, dpos + rsz.info_size), v2) {
                None => None,
                Some(rdescs) => {
                    let rdata = dpos + rsz.info_size;
                    if rdata + rsz.block_size > data.len() {
                        None
                    } else {
                        match spec_record_blocks(
                            data.subrange(rdata, rdata + rsz.block_size),
                            rdescs,
                        ) {
                            None => None,
                            Some(blocks) => {
                                if cum_decomp(blocks, blocks.len() as int) > u64::MAX {
                                    None
                                } else if rdata + cum_comp(blocks, blocks.len() as int)
                                    > u64::MAX {
                                    None
                                } else if !(offsets_sorted(entries) && offsets_in_range(
                                    entries,
                                    blocks,
                                )) {
                                    None
                                } else {
                                    Some(
                                        ContainerSpec {
                                            v2,
                                            label,
                                            entries,
                                            blocks,
                                            record_data_pos: rdata,
                                            record_section_pos: rpos,
                                        },
                                    )
                                }
                            },
                        }
                    }
                },
            }
        }
    }
}

/// An open container: its metadata and the index rows of one build
/// pass, ready to persist or to look up against the image.
pub struct Mdx {
    pub filename: String,
    pub header: HeaderTag,
    pub records: Vec<RecordIndex>,
}

impl Mdx {
    /// Decodes a whole container image in one pass: header, key
    /// section, record section, and the offset reconciliation that
    /// yields one index row per key entry.
    #[verifier::rlimit(100)]
    pub fn from_bytes(file: &str, data: &[u8]) -> (r: Result<Mdx, MdxError>)
        ensures
            (r is Ok) <==> (spec_container(data@) is Some),
            r matches Err(e) ==> e == MdxError::FormatError,
            r matches Ok(m) ==> (spec_container(data@) matches Some(cs) && {
                &&& m.filename@ == file@
                &&& m.header.file@ == file@
                &&& m.header.genversion == spec_parse_version(
                    opt_or_empty(
                        attr_value(spec_header_attrs(data@), "GeneratedByEngineVersion"@),
                    ),
                )
                &&& m.header.encoding@ == opt_or_empty(
                    attr_value(spec_header_attrs(data@), "Encoding"@),
                )
                &&& m.header.encrypted@ == opt_or_empty(
                    attr_value(spec_header_attrs(data@), "Encrypted"@),
                )
                &&& m.header.keycasesensitive == crate::header::yes_flag(
                    attr_value(spec_header_attrs(data@), "KeyCaseSensitive"@),
                )
                &&& m.header.stripkey == crate::header::yes_flag(
                    attr_value(spec_header_attrs(data@), "StripKey"@),
                )
                &&& m.header.key_block_offset == 8 + spec_header_len(data@)
                &&& m.header.record_block_offset == cs.record_section_pos
                &&& m.records@.len() == cs.entries.len()
                &&& forall|i: int|
                    0 <= i < m.records@.len() ==> row_matches(
                        #[trigger] m.records@[i],
                        cs.entries,
                        cs.blocks,
                        cs.record_data_pos,
                        i,
                    )
            }),
    {
        let dl = data.len();
        let tag = match decode_header(data) {
            Ok(t) => t,
            Err(e) => {
                return Err(e);
            },
        };
        let v2 = tag.genversion.is_v2();
        let enc = tag.key_info_encrypted();
        let ghost attrs = spec_header_attrs(data@);
        let ghost label_s = encode_utf8(opt_or_empty(attr_value(attrs, "Encoding"@)));
        let label_slice = tag.encoding.as_str().as_bytes();
        proof {
            assert(label_slice@ == label_s);
        }
        let kpos = tag.key_block_offset as usize;
        let (sizing, ipos) = match parse_key_sizing(data, kpos, v2) {
            Ok(p) => p,
            Err(e) => {
                return Err(e);
            },
        };
        if sizing.info_size > (dl - ipos) as u64 {
            return Err(MdxError::FormatError);
        }
        let isz = sizing.info_size as usize;
        let iwin = slice_subrange(data, ipos, ipos + isz);
        proof {
            assert(iwin@ =~= data@.subrange(ipos as int, ipos + sizing.info_size));
        }
        let info = match decode_key_info(iwin, enc) {
            Ok(v) => v,
            Err(e) => {
                return Err(e);
            },
        };
        let descs = match parse_key_block_descriptors(info.as_slice(), v2) {
            Ok(v) => v,
            Err(e) => {
                return Err(e);
            },
        };
        let bpos = ipos + isz;
        if sizing.block_size > (dl - bpos) as u64 {
            return Err(MdxError::FormatError);
        }
        let bsz = sizing.block_size as usize;
        let bwin = slice_subrange(data, bpos, bpos + bsz);
        proof {
            assert(bwin@ =~= data@.subrange(bpos as int, bpos + sizing.block_size));
        }
        let entries = match decode_key_blocks(bwin, &descs, label_slice) {
            Ok(v) => v,
            Err(e) => {
                return Err(e);
            },
        };
        let rpos = bpos + bsz;
        let (rsz, dpos) = match parse_record_sizing(data, rpos, v2) {
            Ok(p) => p,
            Err(e) => {
                return Err(e);
            },
        };
        let w64: u64 = if v2 {
            8
        } else {
            4
        };
        let pair_bytes = match (2 * w64).checked_mul(rsz.num_blocks) {
            Some(p) => p,
            None => {
                proof {
                    assert(2 * num_width(v2) * rsz.num_blocks > u64::MAX) by (nonlinear_arith)
                        requires
                            2 * (w64 as int) * (rsz.num_blocks as int) > u64::MAX,
                            num_width(v2) == w64 as int,
                    ;
                }
                return Err(MdxError::FormatError);
            },
        };
        proof {
            assert(pair_bytes == 2 * num_width(v2) * rsz.num_blocks) by (nonlinear_arith)
                requires
                    pair_bytes == 2 * (w64 as int) * (rsz.num_blocks as int),
                    num_width(v2) == w64 as int,
            ;
        }
        if rsz.info_size != pair_bytes {
            return Err(MdxError::FormatError);
        }
        if rsz.info_size > (dl - dpos) as u64 {
            return Err(MdxError::FormatError);
        }
        let risz = rsz.info_size as usize;
        let rwin = slice_subrange(data, dpos, dpos + risz);
        proof {
            assert(rwin@ =~= data@.subrange(dpos as int, dpos + rsz.info_size));
        }
        let rdescs = match parse_record_descriptors(rwin, v2) {
            Ok(v) => v,
            Err(e) => {
                return Err(e);
            },
        };
        let rdata = dpos + risz;
        if rsz.block_size > (dl - rdata) as u64 {
            return Err(MdxError::FormatError);
        }
        let rbsz = rsz.block_size as usize;
        let dwin = slice_subrange(data, rdata, rdata + rbsz);
        proof {
            assert(dwin@ =~= data@.subrange(rdata as int, rdata + rsz.block_size));
        }
        let blocks = match decode_record_blocks(dwin, &rdescs) {
            Ok(v) => v,
            Err(e) => {
                return Err(e);
            },
        };
        let total = match sum_decomp(&blocks) {
            Some(t) => t,
            None => {
                return Err(MdxError::FormatError);
            },
        };
        if sum_comp_from(rdata as u64, &blocks).is_none() {
            return Err(MdxError::FormatError);
        }
        if !check_entries(&entries, total) {
            return Err(MdxError::FormatError);
        }
        proof {
            let es = entry_views(entries@);
            assert forall|i: int|
                0 <= i < entries@.len() - 1 implies (#[trigger] entries@[i].record_offset)
                < entries@[i + 1].record_offset by {
                assert(es[i].0 == entries@[i].record_offset);
                assert(es[i + 1].0 == entries@[i + 1].record_offset);
            }
            assert forall|i: int|
                0 <= i < entries@.len() implies (#[trigger] entries@[i].record_offset)
                < cum_decomp(blocks@, blocks@.len() as int) by {
                assert(es[i].0 == entries@[i].record_offset);
            }
        }
        let rows = build_index_rows(&entries, &blocks, rdata as u64);
        let header = HeaderTag {
            file: file.to_owned(),
            record_block_offset: rpos as u64,
            ..tag
        };
        proof {
            let cs = ContainerSpec {
                v2,
                label: label_s,
                entries: entry_views(entries@),
                blocks: blocks@,
                record_data_pos: rdata as int,
                record_section_pos: rpos as int,
            };
            assert(spec_container_records(
                data@,
                v2,
                label_s,
                entry_views(entries@),
                rpos as int,
            ) == Some(cs));
            assert(spec_container(data@) == Some(cs));
        }
        Ok(Mdx { filename: file.to_owned(), header, records: rows })
    }

    /// Finds every row of this container whose key equals the word and
    /// extracts its definition from the container image, in container
    /// order.
    pub fn lookup(&self, data: &[u8], word: &String) -> (r: Vec<String>)
        ensures
            string_views(r@) == spec_lookup(
                self.records@,
                data@,
                encode_utf8(self.header.encoding@),
                word@,
            ),
    {
        let label = self.header.encoding.as_str().as_bytes();
        lookup_definitions(&self.records, data, label, word)
    }
}

} // verus!
