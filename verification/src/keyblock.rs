//! The key-section decoder: the sizing block and its checksum, the
//! optionally enciphered and compressed key-block-info that yields one
//! size descriptor per key block, and the key blocks themselves, each
//! an independently compressed run of (global record offset, key text)
//! pairs.

use vstd::prelude::*;
use crate::checksum::{adler32_of, adler32_checksum};
use crate::cipher::{decrypted, ripemd128_of, cipher_salt, decrypt_key_info, derive_key_info_key};
use crate::compress::{inflated, spec_inflate_block, block_tag, inflate_block, read_block_tag,
    BLOCK_TYPE_DEFLATE};
use crate::error::MdxError;
use crate::text::{spec_decode_text, decode_text, spec_encoding_kind, EncodingKind};
use crate::util::{be_value, read_be_number, lemma_be_value_bound};
use vstd::slice::{slice_subrange, slice_to_vec};

verus! {

/// The counts and byte sizes that open the key section.
#[derive(PartialEq, Eq, Structural, Clone, Copy, Debug)]
pub struct KeySizing {
    /// How many key blocks follow.
    pub num_blocks: u64,
    /// How many key entries they hold in all.
    pub num_entries: u64,
    /// The decompressed size of the key-block-info; zero before the
    /// wide layout, which is the only layout that stores it.
    pub info_decomp_size: u64,
    /// The stored size of the key-block-info in bytes.
    pub info_size: u64,
    /// The total stored size of the key blocks in bytes.
    pub block_size: u64,
}

/// How many numbers the sizing block holds: the wide layout inserts
/// the decompressed-info-size field.
pub open spec fn sizing_count(v2: bool) -> int {
    if v2 {
        5
    } else {
        4
    }
}

/// The byte width of one number.
pub open spec fn num_width(v2: bool) -> int {
    if v2 {
        8
    } else {
        4
    }
}

/// The bytes of the sizing block at `pos`.
pub open spec fn sizing_bytes(data: Seq<u8>, pos: int, v2: bool) -> Seq<u8> {
    data.subrange(pos, pos + num_width(v2) * sizing_count(v2))
}

/// The `i`-th sizing number.
pub open spec fn sizing_number(data: Seq<u8>, pos: int, v2: bool, i: int) -> int {
    be_value(data.subrange(pos + num_width(v2) * i, pos + num_width(v2) * (i + 1)))
}

/// Whether a well-formed sizing block stands at `pos`: it fits, and
/// the four checksum bytes after it match it big-endian.
pub open spec fn spec_key_sizing_ok(data: Seq<u8>, pos: int, v2: bool) -> bool {
    let sz = num_width(v2) * sizing_count(v2);
    &&& 0 <= pos
    &&& pos + sz + 4 <= data.len()
    &&& adler32_of(sizing_bytes(data, pos, v2)) == be_value(
        data.subrange(pos + sz, pos + sz + 4),
    )
}

/// The sizing the block declares: in the narrow layout the
/// decompressed-info-size field is absent and kept zero.
pub open spec fn spec_key_sizing(data: Seq<u8>, pos: int, v2: bool) -> KeySizing {
    if v2 {
        KeySizing {
            num_blocks: sizing_number(data, pos, true, 0) as u64,
            num_entries: sizing_number(data, pos, true, 1) as u64,
            info_decomp_size: sizing_number(data, pos, true, 2) as u64,
            info_size: sizing_number(data, pos, true, 3) as u64,
            block_size: sizing_number(data, pos, true, 4) as u64,
        }
    } else {
        KeySizing {
            num_blocks: sizing_number(data, pos, false, 0) as u64,
            num_entries: sizing_number(data, pos, false, 1) as u64,
            info_decomp_size: 0,
            info_size: sizing_number(data, pos, false, 2) as u64,
            block_size: sizing_number(data, pos, false, 3) as u64,
        }
    }
}

/// Reads and checksum-verifies the sizing block at `pos`; on success
/// also returns the position just past its checksum.
pub fn parse_key_sizing(data: &[u8], pos: usize, v2: bool) -> (r: Result<
    (KeySizing, usize),
    MdxError,
>)
    ensures
        (r is Ok) <==> spec_key_sizing_ok(data@, pos as int, v2),
        r matches Err(e) ==> e == MdxError::FormatError,
        r matches Ok(p) ==> p.0 == spec_key_sizing(data@, pos as int, v2) && p.1 == pos
            + num_width(v2) * sizing_count(v2) + 4,
{
    let w: usize = if v2 {
        8
    } else {
        4
    };
    let count: usize = if v2 {
        5
    } else {
        4
    };
    let sz: usize = w * count;
    let dl = data.len();
    if pos > dl || dl - pos < sz + 4 {
        return Err(MdxError::FormatError);
    }
    let body = slice_subrange(data, pos, pos + sz);
    let check = slice_subrange(data, pos + sz, pos + sz + 4);
    let bv = slice_to_vec(body);
    proof {
        assert(bv@ =~= sizing_bytes(data@, pos as int, v2));
        assert(check@.subrange(0, 4) =~= data@.subrange(pos + sz, pos + sz + 4));
    }
    if !adler32_checksum(&bv, check, true) {
        return Err(MdxError::FormatError);
    }
    let n0 = read_be_number(data, pos, w);
    let n1 = read_be_number(data, pos + w, w);
    let n2 = read_be_number(data, pos + 2 * w, w);
    let n3 = read_be_number(data, pos + 3 * w, w);
    proof {
        assert(data@.subrange(pos as int, pos + w) =~= data@.subrange(
            pos + num_width(v2) * 0,
            pos + num_width(v2) * 1,
        ));
        lemma_be_value_bound(data@.subrange(pos as int, pos + w));
        lemma_be_value_bound(data@.subrange(pos + w, pos + 2 * w));
        lemma_be_value_bound(data@.subrange(pos + 2 * w, pos + 3 * w));
        lemma_be_value_bound(data@.subrange(pos + 3 * w, pos + 4 * w));
        crate::util::lemma_p256_mono(w as nat, 8);
    }
    if v2 {
        let n4 = read_be_number(data, pos + 4 * w, w);
        proof {
            lemma_be_value_bound(data@.subrange(pos + 4 * w, pos + 5 * w));
        }
        Ok(
            (
                KeySizing {
                    num_blocks: n0,
                    num_entries: n1,
                    info_decomp_size: n2,
                    info_size: n3,
                    block_size: n4,
                },
                pos + sz + 4,
            ),
        )
    } else {
        Ok(
            (
                KeySizing { num_blocks: n0, num_entries: n1, info_decomp_size: 0, info_size: n2, block_size: n3 },
                pos + sz + 4,
            ),
        )
    }
}

/// The decompressed key-block-info a stored info blob yields: the blob
/// is a type tag, a big-endian checksum of the decompressed info, and
/// a payload. A protected payload is deciphered with the key derived
/// from the blob's own checksum bytes, inflated, and held to the
/// checksum; an unprotected payload is the info stream itself.
pub open spec fn spec_key_info(block: Seq<u8>, encrypted: bool) -> Option<Seq<u8>> {
    if block.len() < 8 {
        None
    } else if !encrypted {
        Some(block.skip(8))
    } else {
        let key = ripemd128_of(block.subrange(4, 8) + cipher_salt());
        match inflated(decrypted(block.skip(8), key)) {
            Some(d) => if adler32_of(d) == be_value(block.subrange(4, 8)) {
                Some(d)
            } else {
                Option::<Seq<u8>>::None
            },
            None => Option::<Seq<u8>>::None,
        }
    }
}

/// Recovers the key-block-info stream from its stored blob.
pub fn decode_key_info(block: &[u8], encrypted: bool) -> (r: Result<Vec<u8>, MdxError>)
    ensures
        (r is Ok) <==> (spec_key_info(block@, encrypted) is Some),
        r matches Err(e) ==> e == MdxError::FormatError,
        r matches Ok(v) ==> spec_key_info(block@, encrypted) == Some(v@),
{
    let bl = block.len();
    if bl < 8 {
        return Err(MdxError::FormatError);
    }
    let payload = slice_subrange(block, 8, bl);
    proof {
        assert(payload@ =~= block@.skip(8));
    }
    if !encrypted {
        return Ok(slice_to_vec(payload));
    }
    let check = slice_subrange(block, 4, 8);
    let key = derive_key_info_key(check);
    proof {
        assert(check@ + cipher_salt() =~= block@.subrange(4, 8) + cipher_salt());
    }
    let plain = decrypt_key_info(payload, &key);
    match crate::compress::zlib_inflate(plain.as_slice()) {
        None => Err(MdxError::FormatError),
        Some(d) => {
            proof {
                assert(check@.subrange(0, 4) =~= block@.subrange(4, 8));
            }
            if adler32_checksum(&d, check, true) {
                Ok(d)
            } else {
                Err(MdxError::FormatError)
            }
        },
    }
}

/// One key block's stored and decompressed sizes, as the
/// key-block-info declares them.
#[derive(PartialEq, Eq, Structural, Clone, Copy, Debug)]
pub struct KeyBlockDescriptor {
    pub compressed_size: u64,
    pub decompressed_size: u64,
}

/// The byte width of a descriptor's text-length prefix.
pub open spec fn text_prefix(v2: bool) -> int {
    if v2 {
        2
    } else {
        1
    }
}

/// How many terminator bytes follow a descriptor's text run.
pub open spec fn text_term(v2: bool) -> int {
    if v2 {
        1
    } else {
        0
    }
}

/// The descriptors the key-block-info stream declares, or `None` where
/// the stream is exhausted mid-record. Each record is an eight-byte
/// running entry count, the length-prefixed head and tail key texts
/// (skipped), and the block's stored and decompressed sizes.
pub open spec fn spec_key_descriptors(s: Seq<u8>, v2: bool) -> Option<Seq<KeyBlockDescriptor>>
    decreases s.len(),
    via spec_key_descriptors_decreases
{
    if s.len() == 0 {
        Some(Seq::empty())
    } else {
        let pl = text_prefix(v2);
        let tm = text_term(v2);
        if s.len() < 8 + pl {
            None
        } else {
            let hlen = be_value(s.subrange(8, 8 + pl));
            let p1 = 8 + pl + hlen + tm;
            if s.len() < p1 + pl {
                None
            } else {
                let tlen = be_value(s.subrange(p1, p1 + pl));
                let p2 = p1 + pl + tlen + tm;
                if s.len() < p2 + 16 {
                    None
                } else {
                    let d = KeyBlockDescriptor {
                        compressed_size: be_value(s.subrange(p2, p2 + 8)) as u64,
                        decompressed_size: be_value(s.subrange(p2 + 8, p2 + 16)) as u64,
                    };
                    match spec_key_descriptors(s.skip(p2 + 16), v2) {
                        Some(rest) => Some(seq![d] + rest),
                        None => Option::<Seq<KeyBlockDescriptor>>::None,
                    }
                }
            }
        }
    }
}

#[via_fn]
proof fn spec_key_descriptors_decreases(s: Seq<u8>, v2: bool) {
    if s.len() >= 8 + text_prefix(v2) {
        crate::util::lemma_be_value_nonneg(s.subrange(8, 8 + text_prefix(v2)));
        let hlen = be_value(s.subrange(8, 8 + text_prefix(v2)));
        let p1 = 8 + text_prefix(v2) + hlen + text_term(v2);
        if s.len() >= p1 + text_prefix(v2) {
            crate::util::lemma_be_value_nonneg(s.subrange(p1, p1 + text_prefix(v2)));
        }
    }
}

/// Parses the whole key-block-info stream into its descriptors.
#[verifier::rlimit(60)]
pub fn parse_key_block_descriptors(info: &[u8], v2: bool) -> (r: Result<
    Vec<KeyBlockDescriptor>,
    MdxError,
>)
    ensures
        (r is Ok) <==> (spec_key_descriptors(info@, v2) is Some),
        r matches Err(e) ==> e == MdxError::FormatError,
        r matches Ok(v) ==> spec_key_descriptors(info@, v2) == Some(v@),
{
    let il = info.len();
    let pl: usize = if v2 {
        2
    } else {
        1
    };
    let tm: usize = if v2 {
        1
    } else {
        0
    };
    let mut out: Vec<KeyBlockDescriptor> = Vec::new();
    let mut p: usize = 0;
    proof {
        assert(info@.skip(0) =~= info@);
        match spec_key_descriptors(info@, v2) {
            Some(rest) => {
                assert(out@ + rest =~= rest);
            },
            None => {},
        }
    }
    while p < il
        invariant
            il == info@.len(),
            0 <= p <= il,
            pl == text_prefix(v2),
            tm == text_term(v2),
            (spec_key_descriptors(info@, v2) is Some) == (spec_key_descriptors(
                info@.skip(p as int),
                v2,
            ) is Some),
            spec_key_descriptors(info@.skip(p as int), v2) matches Some(rest)
                ==> spec_key_descriptors(info@, v2) == Some(out@ + rest),
        decreases il - p,
    {
        let ghost tail = info@.skip(p as int);
        let rem = il - p;
        if rem < 8 + pl {
            return Err(MdxError::FormatError);
        }
        let hlen = read_be_number(info, p + 8, pl);
        proof {
            assert(tail.subrange(8, 8 + pl) =~= info@.subrange(p + 8, p + 8 + pl));
            lemma_be_value_bound(tail.subrange(8, 8 + pl));
            crate::util::lemma_p256_mono(pl as nat, 2);
            assert(crate::util::p256(1) == 256 * crate::util::p256(0));
            assert(crate::util::p256(2) == 256 * crate::util::p256(1));
        }
        let after_head: usize = 8 + pl + (hlen as usize) + tm;
        if rem < after_head || rem - after_head < pl {
            return Err(MdxError::FormatError);
        }
        let tlen = read_be_number(info, p + after_head, pl);
        proof {
            assert(tail.subrange(after_head as int, after_head + pl) =~= info@.subrange(
                p + after_head,
                p + after_head + pl,
            ));
            lemma_be_value_bound(tail.subrange(after_head as int, after_head + pl));
            crate::util::lemma_p256_mono(pl as nat, 2);
            assert(crate::util::p256(1) == 256 * crate::util::p256(0));
            assert(crate::util::p256(2) == 256 * crate::util::p256(1));
        }
        let p2: usize = after_head + pl + (tlen as usize) + tm;
        if rem < p2 || rem - p2 < 16 {
            return Err(MdxError::FormatError);
        }
        let comp = read_be_number(info, p + p2, 8);
        let decomp = read_be_number(info, p + p2 + 8, 8);
        proof {
            assert(tail.subrange(p2 as int, p2 + 8) =~= info@.subrange(p + p2, p + p2 + 8));
            assert(tail.subrange(p2 + 8, p2 + 16) =~= info@.subrange(p + p2 + 8, p + p2 + 16));
        }
        let d = KeyBlockDescriptor { compressed_size: comp, decompressed_size: decomp };
        let ghost prev_out = out@;
        out.push(d);
        proof {
            assert(tail.skip(p2 + 16) =~= info@.skip(p + p2 + 16));
            match spec_key_descriptors(info@.skip(p + p2 + 16), v2) {
                Some(rest) => {
                    assert(spec_key_descriptors(tail, v2) == Some(seq![d] + rest));
                    assert(prev_out + (seq![d] + rest) =~= (prev_out + seq![d]) + rest);
                    assert(out@ =~= prev_out + seq![d]);
                },
                None => {},
            }
        }
        p = p + p2 + 16;
    }
    proof {
        assert(info@.skip(il as int) =~= Seq::<u8>::empty());
        match spec_key_descriptors(info@, v2) {
            Some(rest) => {
                assert(out@ + Seq::<KeyBlockDescriptor>::empty() =~= out@);
            },
            None => {},
        }
    }
    Ok(out)
}

/// One logical key-block-info record: what both layouts of the info
/// stream encode.
pub struct KeyInfoItemSpec {
    pub count: u64,
    pub head: Seq<u8>,
    pub tail: Seq<u8>,
    pub compressed_size: u64,
    pub decompressed_size: u64,
}

/// The terminator bytes a layout puts after a text run.
pub open spec fn term_pad(v2: bool) -> Seq<u8> {
    if v2 {
        seq![0u8]
    } else {
        Seq::empty()
    }
}

/// One info record encoded in the given layout.
pub open spec fn encode_key_descriptor(it: KeyInfoItemSpec, v2: bool) -> Seq<u8> {
    crate::util::be_bytes(it.count as int, 8) + crate::util::be_bytes(
        it.head.len() as int,
        text_prefix(v2) as nat,
    ) + it.head + term_pad(v2) + crate::util::be_bytes(
        it.tail.len() as int,
        text_prefix(v2) as nat,
    ) + it.tail + term_pad(v2) + crate::util::be_bytes(it.compressed_size as int, 8)
        + crate::util::be_bytes(it.decompressed_size as int, 8)
}

/// A whole info stream encoded in the given layout.
pub open spec fn encode_key_info(items: Seq<KeyInfoItemSpec>, v2: bool) -> Seq<u8>
    decreases items.len(),
{
    if items.len() == 0 {
        Seq::empty()
    } else {
        encode_key_descriptor(items[0], v2) + encode_key_info(items.skip(1), v2)
    }
}

/// The descriptors the logical records declare.
pub open spec fn descriptors_of(items: Seq<KeyInfoItemSpec>) -> Seq<KeyBlockDescriptor> {
    Seq::new(
        items.len(),
        |i: int|
            KeyBlockDescriptor {
                compressed_size: items[i].compressed_size,
                decompressed_size: items[i].decompressed_size,
            },
    )
}

/// Parsing one encoded record takes exactly its bytes and yields its
/// sizes, whichever layout encoded it.
proof fn lemma_parse_encoded_descriptor(it: KeyInfoItemSpec, restb: Seq<u8>, v2: bool)
    requires
        it.head.len() < crate::util::p256(text_prefix(v2) as nat),
        it.tail.len() < crate::util::p256(text_prefix(v2) as nat),
    ensures
        spec_key_descriptors(encode_key_descriptor(it, v2) + restb, v2) == (
        match spec_key_descriptors(restb, v2) {
            Some(r) => Some(
                seq![
                    KeyBlockDescriptor {
                        compressed_size: it.compressed_size,
                        decompressed_size: it.decompressed_size,
                    },
                ] + r,
            ),
            None => Option::<Seq<KeyBlockDescriptor>>::None,
        }),
{
    let pl = text_prefix(v2);
    let tm = text_term(v2);
    let hl = it.head.len() as int;
    let tl = it.tail.len() as int;
    crate::util::lemma_be_bytes_len(it.count as int, 8);
    crate::util::lemma_be_bytes_len(hl, pl as nat);
    crate::util::lemma_be_bytes_len(tl, pl as nat);
    crate::util::lemma_be_bytes_len(it.compressed_size as int, 8);
    crate::util::lemma_be_bytes_len(it.decompressed_size as int, 8);
    crate::util::lemma_be_bytes_value(hl, pl as nat);
    crate::util::lemma_be_bytes_value(tl, pl as nat);
    crate::util::lemma_p256_8();
    crate::util::lemma_be_bytes_value(it.compressed_size as int, 8);
    crate::util::lemma_be_bytes_value(it.decompressed_size as int, 8);
    assert(term_pad(v2).len() == tm);
    let enc = encode_key_descriptor(it, v2);
    let s = enc + restb;
    assert(enc.len() == 8 + pl + hl + tm + pl + tl + tm + 16);
    let p1 = 8 + pl + hl + tm;
    let p2 = p1 + pl + tl + tm;
    assert(s.subrange(8, 8 + pl) =~= crate::util::be_bytes(hl, pl as nat));
    assert(s.subrange(p1, p1 + pl) =~= crate::util::be_bytes(tl, pl as nat));
    assert(s.subrange(p2, p2 + 8) =~= crate::util::be_bytes(it.compressed_size as int, 8));
    assert(s.subrange(p2 + 8, p2 + 16) =~= crate::util::be_bytes(it.decompressed_size as int, 8));
    assert(s.skip(p2 + 16) =~= restb);
}

/// An encoded info stream parses to its logical records' sizes,
/// whichever layout encoded it.
proof fn lemma_encoded_info_parses(items: Seq<KeyInfoItemSpec>, v2: bool)
    requires
        forall|i: int|
            0 <= i < items.len() ==> (#[trigger] items[i].head).len() < crate::util::p256(
                text_prefix(v2) as nat,
            ) && items[i].tail.len() < crate::util::p256(text_prefix(v2) as nat),
    ensures
        spec_key_descriptors(encode_key_info(items, v2), v2) == Some(descriptors_of(items)),
    decreases items.len(),
{
    if items.len() == 0 {
        assert(descriptors_of(items) =~= Seq::<KeyBlockDescriptor>::empty());
    } else {
        assert forall|i: int|
            0 <= i < items.skip(1).len() implies (#[trigger] items.skip(1)[i].head).len()
            < crate::util::p256(text_prefix(v2) as nat) && items.skip(1)[i].tail.len()
            < crate::util::p256(text_prefix(v2) as nat) by {
            assert(items.skip(1)[i] == items[i + 1]);
        }
        lemma_encoded_info_parses(items.skip(1), v2);
        lemma_parse_encoded_descriptor(items[0], encode_key_info(items.skip(1), v2), v2);
        assert(seq![
            KeyBlockDescriptor {
                compressed_size: items[0].compressed_size,
                decompressed_size: items[0].decompressed_size,
            },
        ] + descriptors_of(items.skip(1)) =~= descriptors_of(items));
    }
}

/// Version gating: the same logical key-block-info, encoded once in
/// the narrow layout (one-byte text-length prefixes, no terminator
/// byte) and once in the wide layout (two-byte prefixes, a terminator
/// byte), parses to the same key block descriptors, for every record
/// list whose texts fit both layouts. The sections that follow read
/// only these descriptors, so the resulting key entries and index
/// rows agree as well.
pub proof fn lemma_version_gating(items: Seq<KeyInfoItemSpec>)
    requires
        forall|i: int|
            0 <= i < items.len() ==> (#[trigger] items[i].head).len() < 256
                && items[i].tail.len() < 256,
    ensures
        spec_key_descriptors(encode_key_info(items, false), false) == Some(descriptors_of(items)),
        spec_key_descriptors(encode_key_info(items, true), true) == Some(descriptors_of(items)),
{
    assert(crate::util::p256(1) == 256 * crate::util::p256(0));
    assert(crate::util::p256(2) == 256 * crate::util::p256(1));
    lemma_encoded_info_parses(items, false);
    lemma_encoded_info_parses(items, true);
}

/// One key with its global record offset: an absolute byte position in
/// the conceptual concatenation of all decompressed record blocks.
#[derive(Debug)]
pub struct KeyEntry {
    pub record_offset: u64,
    pub key_text: String,
}

/// The views of parsed key entries.
pub open spec fn entry_views(v: Seq<KeyEntry>) -> Seq<(u64, Seq<char>)> {
    Seq::new(v.len(), |i: int| (v[i].record_offset, v[i].key_text@))
}

/// The index of the first zero byte, or minus one if there is none.
pub open spec fn find_zero(s: Seq<u8>) -> int
    decreases s.len(),
{
    if s.len() == 0 {
        -1
    } else if s[0] == 0 {
        0
    } else {
        let r = find_zero(s.skip(1));
        if r < 0 {
            -1
        } else {
            1 + r
        }
    }
}

/// The first zero byte lies inside the text.
pub proof fn lemma_find_zero_bound(s: Seq<u8>)
    ensures
        -1 <= find_zero(s) < s.len(),
        find_zero(s) >= 0 ==> s[find_zero(s)] == 0,
    decreases s.len(),
{
    if s.len() != 0 && s[0] != 0 {
        lemma_find_zero_bound(s.skip(1));
    }
}

/// A scan that stops at the first zero byte finds its index.
pub proof fn lemma_find_zero_is(s: Seq<u8>, k: int)
    requires
        0 <= k < s.len(),
        forall|j: int| 0 <= j < k ==> s[j] != 0,
        s[k] == 0,
    ensures
        find_zero(s) == k,
    decreases s.len(),
{
    if k > 0 {
        lemma_find_zero_is(s.skip(1), k - 1);
    }
}

/// A text without a zero byte has none to find.
pub proof fn lemma_find_zero_none(s: Seq<u8>)
    requires
        forall|j: int| 0 <= j < s.len() ==> s[j] != 0,
    ensures
        find_zero(s) == -1,
    decreases s.len(),
{
    if s.len() != 0 {
        lemma_find_zero_none(s.skip(1));
    }
}

/// The start of the first aligned double-zero byte pair, stepping two
/// bytes at a time, or minus one if there is none.
pub open spec fn find_zero2(s: Seq<u8>) -> int
    decreases s.len(),
{
    if s.len() < 2 {
        -1
    } else if s[0] == 0 && s[1] == 0 {
        0
    } else {
        let r = find_zero2(s.skip(2));
        if r < 0 {
            -1
        } else {
            2 + r
        }
    }
}

/// The first double-zero pair lies inside the text, on an even index.
pub proof fn lemma_find_zero2_bound(s: Seq<u8>)
    ensures
        -1 <= find_zero2(s),
        find_zero2(s) >= 0 ==> find_zero2(s) % 2 == 0 && find_zero2(s) + 2 <= s.len() && s[
            find_zero2(s)] == 0 && s[find_zero2(s) + 1] == 0,
    decreases s.len(),
{
    if s.len() >= 2 && !(s[0] == 0 && s[1] == 0) {
        lemma_find_zero2_bound(s.skip(2));
    }
}

/// A scan in steps of two that stops at the first double-zero pair
/// finds its index.
pub proof fn lemma_find_zero2_is(s: Seq<u8>, k: int)
    requires
        0 <= k,
        k % 2 == 0,
        k + 2 <= s.len(),
        forall|j: int| 0 <= j < k && j % 2 == 0 ==> !(#[trigger] s[j] == 0 && s[j + 1] == 0),
        s[k] == 0 && s[k + 1] == 0,
    ensures
        find_zero2(s) == k,
    decreases s.len(),
{
    if k > 0 {
        assert(!(s[0] == 0 && s[1] == 0));
        assert forall|j: int| 0 <= j < k - 2 && j % 2 == 0 implies !(#[trigger] s.skip(2)[j] == 0
            && s.skip(2)[j + 1] == 0) by {
            assert(s.skip(2)[j] == s[j + 2] && s.skip(2)[j + 1] == s[j + 3]);
            assert((j + 2) % 2 == 0);
        }
        lemma_find_zero2_is(s.skip(2), k - 2);
    }
}

/// A text without an aligned double-zero pair has none to find.
pub proof fn lemma_find_zero2_none(s: Seq<u8>)
    requires
        forall|j: int| 0 <= j && j % 2 == 0 && j + 2 <= s.len() ==> !(#[trigger] s[j] == 0 && s[j + 1] == 0),
    ensures
        find_zero2(s) == -1,
    decreases s.len(),
{
    if s.len() >= 2 {
        assert(!(s[0] == 0 && s[1] == 0));
        assert forall|j: int| 0 <= j && j % 2 == 0 && j + 2 <= s.skip(2).len() implies !(
            #[trigger] s.skip(2)[j] == 0 && s.skip(2)[j + 1] == 0) by {
            assert(s.skip(2)[j] == s[j + 2] && s.skip(2)[j + 1] == s[j + 3]);
            assert((j + 2) % 2 == 0);
        }
        lemma_find_zero2_none(s.skip(2));
    }
}

/// The key entries a decompressed key block holds, or `None` where the
/// block is malformed: each entry is an eight-byte big-endian global
/// offset followed by a null-terminated text run in the container's
/// declared encoding (a two-byte aligned terminator under UTF-16).
pub open spec fn spec_key_entries(d: Seq<u8>, label: Seq<u8>) -> Option<Seq<(u64, Seq<char>)>>
    decreases d.len(),
    via spec_key_entries_decreases
{
    if d.len() == 0 {
        Some(Seq::empty())
    } else if d.len() < 8 {
        None
    } else {
        let off = be_value(d.subrange(0, 8));
        let rest = d.skip(8);
        let wide = spec_encoding_kind(label) is Utf16Le;
        let z = if wide {
            find_zero2(rest)
        } else {
            find_zero(rest)
        };
        let tw = if wide {
            2int
        } else {
            1int
        };
        if z < 0 {
            None
        } else {
            match spec_decode_text(label, rest.take(z)) {
                Some(t) => match spec_key_entries(rest.skip(z + tw), label) {
                    Some(es) => Some(seq![((off as u64), t)] + es),
                    None => Option::<Seq<(u64, Seq<char>)>>::None,
                },
                None => Option::<Seq<(u64, Seq<char>)>>::None,
            }
        }
    }
}

#[via_fn]
proof fn spec_key_entries_decreases(d: Seq<u8>, label: Seq<u8>) {
    if d.len() >= 8 {
        let rest = d.skip(8);
        if spec_encoding_kind(label) is Utf16Le {
            lemma_find_zero2_bound(rest);
        } else {
            lemma_find_zero_bound(rest);
        }
    }
}

/// Parses one decompressed key block into its key entries.
#[verifier::rlimit(60)]
pub fn parse_key_entries(d: &[u8], label: &[u8]) -> (r: Result<Vec<KeyEntry>, MdxError>)
    ensures
        (r is Ok) <==> (spec_key_entries(d@, label@) is Some),
        r matches Err(e) ==> e == MdxError::FormatError,
        r matches Ok(v) ==> spec_key_entries(d@, label@) == Some(entry_views(v@)),
{
    let dl = d.len();
    let wide = match crate::text::encoding_kind(label) {
        EncodingKind::Utf16Le => true,
        _ => false,
    };
    let mut out: Vec<KeyEntry> = Vec::new();
    let mut p: usize = 0;
    proof {
        assert(d@.skip(0) =~= d@);
        match spec_key_entries(d@, label@) {
            Some(rest) => {
                assert(entry_views(out@) + rest =~= rest);
            },
            None => {},
        }
    }
    while p < dl
        invariant
            dl == d@.len(),
            0 <= p <= dl,
            wide == (spec_encoding_kind(label@) is Utf16Le),
            (spec_key_entries(d@, label@) is Some) == (spec_key_entries(
                d@.skip(p as int),
                label@,
            ) is Some),
            spec_key_entries(d@.skip(p as int), label@) matches Some(rest) ==> spec_key_entries(
                d@,
                label@,
            ) == Some(entry_views(out@) + rest),
        decreases dl - p,
    {
        let ghost tail = d@.skip(p as int);
        let rem = dl - p;
        if rem < 8 {
            return Err(MdxError::FormatError);
        }
        let off = read_be_number(d, p, 8);
        let ghost rest = tail.skip(8);
        proof {
            assert(tail.subrange(0, 8) =~= d@.subrange(p as int, p + 8));
            assert(rest =~= d@.skip(p + 8));
            lemma_be_value_bound(tail.subrange(0, 8));
        }
        let text_start = p + 8;
        let mut m: usize = text_start;
        let mut found: bool = false;
        if wide {
            while m < dl && m + 1 < dl && !(d[m] == 0 && d[m + 1] == 0)
                invariant
                    dl == d@.len(),
                    text_start <= m <= dl,
                    (m - text_start) % 2 == 0,
                    forall|j: int|
                        text_start <= j < m && (j - text_start) % 2 == 0 ==> !(#[trigger] d@[j]
                            == 0 && d@[j + 1] == 0),
                decreases dl - m,
            {
                m = m + 2;
            }
            found = m < dl && m + 1 < dl;
            proof {
                let k = m - text_start;
                if found {
                    assert forall|j: int| 0 <= j < k && j % 2 == 0 implies !(#[trigger] rest[j]
                        == 0 && rest[j + 1] == 0) by {
                        assert(rest[j] == d@[text_start + j] && rest[j + 1] == d@[text_start + j
                            + 1]);
                    }
                    assert(rest[k] == d@[m as int] && rest[k + 1] == d@[m + 1]);
                    lemma_find_zero2_is(rest, k);
                } else {
                    assert forall|j: int|
                        0 <= j && j % 2 == 0 && j + 2 <= rest.len() implies !(#[trigger] rest[j]
                        == 0 && rest[j + 1] == 0) by {
                        assert(rest[j] == d@[text_start + j] && rest[j + 1] == d@[text_start + j
                            + 1]);
                        assert(text_start + j < m);
                    }
                    lemma_find_zero2_none(rest);
                }
            }
        } else {
            while m < dl && d[m] != 0
                invariant
                    dl == d@.len(),
                    text_start <= m <= dl,
                    forall|j: int| text_start <= j < m ==> d@[j] != 0,
                decreases dl - m,
            {
                m = m + 1;
            }
            found = m < dl;
            proof {
                let k = m - text_start;
                if found {
                    assert forall|j: int| 0 <= j < k implies rest[j] != 0 by {
                        assert(rest[j] == d@[text_start + j]);
                    }
                    assert(rest[k] == d@[m as int]);
                    lemma_find_zero_is(rest, k);
                } else {
                    assert forall|j: int| 0 <= j < rest.len() implies rest[j] != 0 by {
                        assert(rest[j] == d@[text_start + j]);
                    }
                    lemma_find_zero_none(rest);
                }
            }
        }
        if !found {
            return Err(MdxError::FormatError);
        }
        let text = slice_subrange(d, text_start, m);
        proof {
            assert(text@ =~= rest.take(m - text_start));
        }
        let t = match decode_text(label, text) {
            Some(t) => t,
            None => {
                return Err(MdxError::FormatError);
            },
        };
        let tw: usize = if wide {
            2
        } else {
            1
        };
        let ghost prev_out = out@;
        out.push(KeyEntry { record_offset: off, key_text: t });
        proof {
            let z = m - text_start;
            assert(rest.skip(z + tw) =~= d@.skip(m + tw));
            match spec_key_entries(d@.skip(m + tw as int), label@) {
                Some(es) => {
                    assert(spec_key_entries(tail, label@) == Some(seq![((off as u64), t@)] + es));
                    assert(entry_views(out@) =~= entry_views(prev_out) + seq![((off as u64), t@)]);
                    assert(entry_views(prev_out) + (seq![((off as u64), t@)] + es) =~= (
                    entry_views(prev_out) + seq![((off as u64), t@)]) + es);
                },
                None => {},
            }
        }
        p = m + tw;
    }
    proof {
        assert(d@.skip(dl as int) =~= Seq::<u8>::empty());
        match spec_key_entries(d@, label@) {
            Some(rest) => {
                assert(entry_views(out@) + Seq::<(u64, Seq<char>)>::empty() =~= entry_views(out@));
            },
            None => {},
        }
    }
    Ok(out)
}

/// The key entries the concatenated key blocks yield, or `None` where
/// a block is truncated, fails to inflate, misses its checksum or its
/// declared decompressed size, or holds malformed entries. A block
/// whose type tag is not the deflate tag is skipped whole: its keys
/// are unrecoverable and contribute nothing.
pub open spec fn spec_key_blocks(
    w: Seq<u8>,
    descs: Seq<KeyBlockDescriptor>,
    label: Seq<u8>,
) -> Option<Seq<(u64, Seq<char>)>>
    decreases descs.len(),
{
    if descs.len() == 0 {
        if w.len() == 0 {
            Some(Seq::empty())
        } else {
            Option::<Seq<(u64, Seq<char>)>>::None
        }
    } else {
        let c = descs[0].compressed_size as int;
        if c < 8 || w.len() < c {
            None
        } else {
            let block = w.take(c);
            let rest = w.skip(c);
            if block_tag(block) == BLOCK_TYPE_DEFLATE {
                match spec_inflate_block(block) {
                    Some(d) => if d.len() == descs[0].decompressed_size {
                        match spec_key_entries(d, label) {
                            Some(es) => match spec_key_blocks(rest, descs.skip(1), label) {
                                Some(more) => Some(es + more),
                                None => Option::<Seq<(u64, Seq<char>)>>::None,
                            },
                            None => Option::<Seq<(u64, Seq<char>)>>::None,
                        }
                    } else {
                        Option::<Seq<(u64, Seq<char>)>>::None
                    },
                    None => Option::<Seq<(u64, Seq<char>)>>::None,
                }
            } else {
                spec_key_blocks(rest, descs.skip(1), label)
            }
        }
    }
}

/// Decodes the concatenated key blocks (exactly the declared key-block
/// window) into the ordered key entries of every deflate block.
#[verifier::rlimit(60)]
pub fn decode_key_blocks(
    w: &[u8],
    descs: &Vec<KeyBlockDescriptor>,
    label: &[u8],
) -> (r: Result<Vec<KeyEntry>, MdxError>)
    ensures
        (r is Ok) <==> (spec_key_blocks(w@, descs@, label@) is Some),
        r matches Err(e) ==> e == MdxError::FormatError,
        r matches Ok(v) ==> spec_key_blocks(w@, descs@, label@) == Some(entry_views(v@)),
{
    let wl = w.len();
    let nd = descs.len();
    let mut out: Vec<KeyEntry> = Vec::new();
    let mut p: usize = 0;
    let mut b: usize = 0;
    proof {
        assert(w@.skip(0) =~= w@);
        assert(descs@.skip(0) =~= descs@);
        match spec_key_blocks(w@, descs@, label@) {
            Some(rest) => {
                assert(entry_views(out@) + rest =~= rest);
            },
            None => {},
        }
    }
    while b < nd
        invariant
            wl == w@.len(),
            nd == descs@.len(),
            0 <= p <= wl,
            0 <= b <= nd,
            (spec_key_blocks(w@, descs@, label@) is Some) == (spec_key_blocks(
                w@.skip(p as int),
                descs@.skip(b as int),
                label@,
            ) is Some),
            spec_key_blocks(w@.skip(p as int), descs@.skip(b as int), label@) matches Some(rest)
                ==> spec_key_blocks(w@, descs@, label@) == Some(entry_views(out@) + rest),
        decreases nd - b,
    {
        let ghost wtail = w@.skip(p as int);
        let ghost dtail = descs@.skip(b as int);
        proof {
            assert(dtail[0] == descs@[b as int]);
            assert(dtail.skip(1) =~= descs@.skip(b + 1));
        }
        let c64 = descs[b].compressed_size;
        let rem = wl - p;
        if c64 < 8 || c64 > rem as u64 {
            return Err(MdxError::FormatError);
        }
        let c = c64 as usize;
        let block = slice_subrange(w, p, p + c);
        proof {
            assert(block@ =~= wtail.take(c as int));
            assert(wtail.skip(c as int) =~= w@.skip(p + c));
        }
        let tag = read_block_tag(block);
        if tag == BLOCK_TYPE_DEFLATE {
            let d = match inflate_block(block) {
                Some(d) => d,
                None => {
                    return Err(MdxError::FormatError);
                },
            };
            if d.len() as u64 != descs[b].decompressed_size {
                return Err(MdxError::FormatError);
            }
            let mut es = match parse_key_entries(d.as_slice(), label) {
                Ok(es) => es,
                Err(_) => {
                    return Err(MdxError::FormatError);
                },
            };
            let ghost prev_out = out@;
            let ghost es_snap = es@;
            out.append(&mut es);
            proof {
                assert(entry_views(out@) =~= entry_views(prev_out) + entry_views(es_snap));
                match spec_key_blocks(w@.skip(p + c), descs@.skip(b + 1), label@) {
                    Some(more) => {
                        assert(spec_key_blocks(wtail, dtail, label@) == Some(
                            entry_views(es_snap) + more,
                        ));
                        assert(entry_views(prev_out) + (entry_views(es_snap) + more) =~= (
                        entry_views(prev_out) + entry_views(es_snap)) + more);
                    },
                    None => {},
                }
            }
        }
        p = p + c;
        b = b + 1;
    }
    proof {
        assert(descs@.skip(nd as int) =~= Seq::<KeyBlockDescriptor>::empty());
    }
    if p != wl {
        return Err(MdxError::FormatError);
    }
    proof {
        assert(w@.skip(p as int).len() == 0);
        match spec_key_blocks(w@.skip(p as int), descs@.skip(nd as int), label@) {
            Some(rest) => {
                assert(rest =~= Seq::<(u64, Seq<char>)>::empty());
                assert(entry_views(out@) + rest =~= entry_views(out@));
            },
            None => {},
        }
    }
    Ok(out)
}

} // verus!
