//! The record-section decoder and the offset-reconciliation algorithm:
//! record sizing, the per-block size pairs, and the walk that maps each
//! key entry's global offset onto its physical block and emits one
//! index row per entry.

use vstd::prelude::*;
use crate::error::MdxError;
use crate::keyblock::{KeyEntry, entry_views, num_width, sizing_number};
use crate::util::{be_value, read_be_number, lemma_be_value_bound, lemma_p256_mono};
use vstd::slice::slice_subrange;

verus! {

/// One record block's stored and decompressed sizes, as the record
/// sizing area declares them.
#[derive(PartialEq, Eq, Structural, Clone, Copy, Debug)]
pub struct RecordBlockDescriptor {
    pub compressed_size: u64,
    pub decompressed_size: u64,
}

/// One record block as met during the walk: its declared sizes and the
/// type tag read from its frame.
#[derive(PartialEq, Eq, Structural, Clone, Copy, Debug)]
pub struct RecordBlockInfo {
    pub compressed_size: u64,
    pub decompressed_size: u64,
    pub tag: u32,
}

/// The counts and byte sizes that open the record section; unlike the
/// key sizing no checksum follows.
#[derive(PartialEq, Eq, Structural, Clone, Copy, Debug)]
pub struct RecordSizing {
    pub num_blocks: u64,
    pub num_entries: u64,
    pub info_size: u64,
    pub block_size: u64,
}

/// Whether the four record sizing numbers fit at `pos`.
pub open spec fn spec_record_sizing_ok(data: Seq<u8>, pos: int, v2: bool) -> bool {
    0 <= pos && pos + num_width(v2) * 4 <= data.len()
}

/// The record sizing the numbers declare.
pub open spec fn spec_record_sizing(data: Seq<u8>, pos: int, v2: bool) -> RecordSizing {
    RecordSizing {
        num_blocks: sizing_number(data, pos, v2, 0) as u64,
        num_entries: sizing_number(data, pos, v2, 1) as u64,
        info_size: sizing_number(data, pos, v2, 2) as u64,
        block_size: sizing_number(data, pos, v2, 3) as u64,
    }
}

/// Reads the four record sizing numbers at `pos`; on success also
/// returns the position just past them.
pub fn parse_record_sizing(data: &[u8], pos: usize, v2: bool) -> (r: Result<
    (RecordSizing, usize),
    MdxError,
>)
    ensures
        (r is Ok) <==> spec_record_sizing_ok(data@, pos as int, v2),
        r matches Err(e) ==> e == MdxError::FormatError,
        r matches Ok(p) ==> p.0 == spec_record_sizing(data@, pos as int, v2) && p.1 == pos
            + num_width(v2) * 4,
{
    let w: usize = if v2 {
        8
    } else {
        4
    };
    let dl = data.len();
    if pos > dl || dl - pos < 4 * w {
        return Err(MdxError::FormatError);
    }
    let n0 = read_be_number(data, pos, w);
    let n1 = read_be_number(data, pos + w, w);
    let n2 = read_be_number(data, pos + 2 * w, w);
    let n3 = read_be_number(data, pos + 3 * w, w);
    proof {
        lemma_be_value_bound(data@.subrange(pos as int, pos + w));
        lemma_be_value_bound(data@.subrange(pos + w, pos + 2 * w));
        lemma_be_value_bound(data@.subrange(pos + 2 * w, pos + 3 * w));
        lemma_be_value_bound(data@.subrange(pos + 3 * w, pos + 4 * w));
        lemma_p256_mono(w as nat, 8);
    }
    Ok(
        (
            RecordSizing { num_blocks: n0, num_entries: n1, info_size: n2, block_size: n3 },
            pos + 4 * w,
        ),
    )
}

/// The record block size pairs a window of bytes declares, two numbers
/// per block, or `None` where the window is not a whole number of
/// pairs.
pub open spec fn spec_record_descriptors(s: Seq<u8>, v2: bool) -> Option<
    Seq<RecordBlockDescriptor>,
>
    decreases s.len(),
{
    let w = num_width(v2);
    if s.len() == 0 {
        Some(Seq::empty())
    } else if s.len() < 2 * w {
        None
    } else {
        let d = RecordBlockDescriptor {
            compressed_size: be_value(s.subrange(0, w)) as u64,
            decompressed_size: be_value(s.subrange(w, 2 * w)) as u64,
        };
        match spec_record_descriptors(s.skip(2 * w), v2) {
            Some(rest) => Some(seq![d] + rest),
            None => Option::<Seq<RecordBlockDescriptor>>::None,
        }
    }
}

/// Parses the record descriptor window into its size pairs.
pub fn parse_record_descriptors(s: &[u8], v2: bool) -> (r: Result<
    Vec<RecordBlockDescriptor>,
    MdxError,
>)
    ensures
        (r is Ok) <==> (spec_record_descriptors(s@, v2) is Some),
        r matches Err(e) ==> e == MdxError::FormatError,
        r matches Ok(v) ==> spec_record_descriptors(s@, v2) == Some(v@),
{
    let w: usize = if v2 {
        8
    } else {
        4
    };
    let sl = s.len();
    let mut out: Vec<RecordBlockDescriptor> = Vec::new();
    let mut p: usize = 0;
    proof {
        assert(s@.skip(0) =~= s@);
        match spec_record_descriptors(s@, v2) {
            Some(rest) => {
                assert(out@ + rest =~= rest);
            },
            None => {},
        }
    }
    while p < sl
        invariant
            sl == s@.len(),
            0 <= p <= sl,
            w == num_width(v2),
            (spec_record_descriptors(s@, v2) is Some) == (spec_record_descriptors(
                s@.skip(p as int),
                v2,
            ) is Some),
            spec_record_descriptors(s@.skip(p as int), v2) matches Some(rest)
                ==> spec_record_descriptors(s@, v2) == Some(out@ + rest),
        decreases sl - p,
    {
        let ghost tail = s@.skip(p as int);
        if sl - p < 2 * w {
            return Err(MdxError::FormatError);
        }
        let comp = read_be_number(s, p, w);
        let decomp = read_be_number(s, p + w, w);
        proof {
            assert(tail.subrange(0, w as int) =~= s@.subrange(p as int, p + w));
            assert(tail.subrange(w as int, 2 * w) =~= s@.subrange(p + w, p + 2 * w));
            lemma_be_value_bound(tail.subrange(0, w as int));
            lemma_be_value_bound(tail.subrange(w as int, 2 * w));
            lemma_p256_mono(w as nat, 8);
        }
        let d = RecordBlockDescriptor { compressed_size: comp, decompressed_size: decomp };
        let ghost prev_out = out@;
        out.push(d);
        proof {
            assert(tail.skip(2 * w) =~= s@.skip(p + 2 * w));
            match spec_record_descriptors(s@.skip(p + 2 * w), v2) {
                Some(rest) => {
                    assert(spec_record_descriptors(tail, v2) == Some(seq![d] + rest));
                    assert(prev_out + (seq![d] + rest) =~= (prev_out + seq![d]) + rest);
                    assert(out@ =~= prev_out + seq![d]);
                },
                None => {},
            }
        }
        p = p + 2 * w;
    }
    proof {
        assert(s@.skip(sl as int) =~= Seq::<u8>::empty());
        match spec_record_descriptors(s@, v2) {
            Some(rest) => {
                assert(out@ + Seq::<RecordBlockDescriptor>::empty() =~= out@);
            },
            None => {},
        }
    }
    Ok(out)
}

/// The stored bytes of the blocks before block `b`.
pub open spec fn cum_comp(bs: Seq<RecordBlockInfo>, b: int) -> int
    decreases b,
{
    if b <= 0 {
        0
    } else {
        cum_comp(bs, b - 1) + bs[b - 1].compressed_size
    }
}

/// The decompressed bytes of the blocks before block `b`: block `b`'s
/// base offset in global-offset space.
pub open spec fn cum_decomp(bs: Seq<RecordBlockInfo>, b: int) -> int
    decreases b,
{
    if b <= 0 {
        0
    } else {
        cum_decomp(bs, b - 1) + bs[b - 1].decompressed_size
    }
}

/// Base offsets only grow along the block list.
pub proof fn lemma_cum_decomp_mono(bs: Seq<RecordBlockInfo>, a: int, b: int)
    requires
        a <= b,
    ensures
        cum_decomp(bs, a) <= cum_decomp(bs, b),
    decreases b - a,
{
    if a < b {
        lemma_cum_decomp_mono(bs, a, b - 1);
    }
}

/// File positions only grow along the block list.
pub proof fn lemma_cum_comp_mono(bs: Seq<RecordBlockInfo>, a: int, b: int)
    requires
        a <= b,
    ensures
        cum_comp(bs, a) <= cum_comp(bs, b),
    decreases b - a,
{
    if a < b {
        lemma_cum_comp_mono(bs, a, b - 1);
    }
}

/// The physical block a global offset falls into: the first block
/// whose span of decompressed bytes reaches past the offset.
pub open spec fn block_of(bs: Seq<RecordBlockInfo>, off: int) -> int
    decreases bs.len(),
{
    if bs.len() == 0 {
        0
    } else if off < bs[0].decompressed_size {
        0
    } else {
        1 + block_of(bs.skip(1), off - bs[0].decompressed_size)
    }
}

/// Dropping the first block shifts every base offset by its size.
proof fn lemma_cum_decomp_skip(bs: Seq<RecordBlockInfo>, b: int)
    requires
        0 <= b < bs.len(),
    ensures
        cum_decomp(bs, b + 1) == bs[0].decompressed_size + cum_decomp(bs.skip(1), b),
    decreases b,
{
    assert(cum_decomp(bs, 0) == 0);
    assert(cum_decomp(bs.skip(1), 0) == 0);
    if b > 0 {
        lemma_cum_decomp_skip(bs, b - 1);
        assert(bs.skip(1)[b - 1] == bs[b as int]);
    }
}

/// An offset below the total decompressed size falls into a block, and
/// into that block's span.
pub proof fn lemma_block_of_range(bs: Seq<RecordBlockInfo>, off: int)
    requires
        0 <= off < cum_decomp(bs, bs.len() as int),
    ensures
        0 <= block_of(bs, off) < bs.len(),
        cum_decomp(bs, block_of(bs, off)) <= off < cum_decomp(bs, block_of(bs, off)) + bs[
            block_of(bs, off)].decompressed_size,
    decreases bs.len(),
{
    if bs.len() == 0 {
        assert(cum_decomp(bs, 0) == 0);
    } else if off < bs[0].decompressed_size {
    } else {
        lemma_cum_decomp_skip(bs, bs.len() - 1);
        assert(bs.skip(1).len() == bs.len() - 1);
        lemma_block_of_range(bs.skip(1), off - bs[0].decompressed_size);
        let b1 = block_of(bs.skip(1), off - bs[0].decompressed_size);
        lemma_cum_decomp_skip(bs, b1);
        assert(bs.skip(1)[b1] == bs[b1 + 1]);
    }
}

/// An offset inside a block's span belongs to that block.
pub proof fn lemma_block_of_is(bs: Seq<RecordBlockInfo>, off: int, b: int)
    requires
        0 <= b < bs.len(),
        cum_decomp(bs, b) <= off < cum_decomp(bs, b) + bs[b].decompressed_size,
    ensures
        block_of(bs, off) == b,
    decreases bs.len(),
{
    if b == 0 {
        assert(cum_decomp(bs, 0) == 0);
    } else {
        assert(cum_decomp(bs, 0) == 0);
        assert(cum_decomp(bs, 1) == bs[0].decompressed_size);
        lemma_cum_decomp_mono(bs, 1, b);
        lemma_cum_decomp_skip(bs, b - 1);
        assert(bs.skip(1)[b - 1] == bs[b as int]);
        lemma_block_of_is(bs.skip(1), off - bs[0].decompressed_size, b - 1);
    }
}

/// The record blocks met while walking exactly the declared record
/// window with the declared size pairs, or `None` where a block is
/// truncated or a deflate block fails to inflate, misses its checksum
/// or its declared decompressed size. Blocks of other types are kept
/// with their tag; their payload handling is out of scope.
pub open spec fn spec_record_blocks(w: Seq<u8>, descs: Seq<RecordBlockDescriptor>) -> Option<
    Seq<RecordBlockInfo>,
>
    decreases descs.len(),
{
    if descs.len() == 0 {
        if w.len() == 0 {
            Some(Seq::empty())
        } else {
            Option::<Seq<RecordBlockInfo>>::None
        }
    } else {
        let c = descs[0].compressed_size as int;
        if c < 8 || w.len() < c {
            None
        } else {
            let block = w.take(c);
            let tag = crate::compress::block_tag(block);
            let ok = if tag == crate::compress::BLOCK_TYPE_DEFLATE {
                match crate::compress::spec_inflate_block(block) {
                    Some(d) => d.len() == descs[0].decompressed_size,
                    None => false,
                }
            } else {
                true
            };
            if !ok {
                None
            } else {
                match spec_record_blocks(w.skip(c), descs.skip(1)) {
                    Some(rest) => Some(
                        seq![
                            RecordBlockInfo {
                                compressed_size: descs[0].compressed_size,
                                decompressed_size: descs[0].decompressed_size,
                                tag: tag as u32,
                            },
                        ] + rest,
                    ),
                    None => Option::<Seq<RecordBlockInfo>>::None,
                }
            }
        }
    }
}

/// Walks the record window once, reading each block's type tag and
/// holding every deflate block to its checksum and declared
/// decompressed size.
#[verifier::rlimit(60)]
pub fn decode_record_blocks(w: &[u8], descs: &Vec<RecordBlockDescriptor>) -> (r: Result<
    Vec<RecordBlockInfo>,
    MdxError,
>)
    ensures
        (r is Ok) <==> (spec_record_blocks(w@, descs@) is Some),
        r matches Err(e) ==> e == MdxError::FormatError,
        r matches Ok(v) ==> spec_record_blocks(w@, descs@) == Some(v@),
{
    let wl = w.len();
    let nd = descs.len();
    let mut out: Vec<RecordBlockInfo> = Vec::new();
    let mut p: usize = 0;
    let mut b: usize = 0;
    proof {
        assert(w@.skip(0) =~= w@);
        assert(descs@.skip(0) =~= descs@);
        match spec_record_blocks(w@, descs@) {
            Some(rest) => {
                assert(out@ + rest =~= rest);
            },
            None => {},
        }
    }
    while b < nd
        invariant
            wl == w@.len(),
            nd == descs@.len(),
            0 <= p <= wl,
            0 <= b <= nd,
            (spec_record_blocks(w@, descs@) is Some) == (spec_record_blocks(
                w@.skip(p as int),
                descs@.skip(b as int),
            ) is Some),
            spec_record_blocks(w@.skip(p as int), descs@.skip(b as int)) matches Some(rest)
                ==> spec_record_blocks(w@, descs@) == Some(out@ + rest),
        decreases nd - b,
    {
        let ghost wtail = w@.skip(p as int);
        let ghost dtail = descs@.skip(b as int);
        proof {
            assert(dtail[0] == descs@[b as int]);
            assert(dtail.skip(1) =~= descs@.skip(b + 1));
        }
        let c64 = descs[b].compressed_size;
        let rem = wl - p;
        if c64 < 8 || c64 > rem as u64 {
            return Err(MdxError::FormatError);
        }
        let c = c64 as usize;
        let block = slice_subrange(w, p, p + c);
        proof {
            assert(block@ =~= wtail.take(c as int));
            assert(wtail.skip(c as int) =~= w@.skip(p + c));
        }
        let tag = crate::compress::read_block_tag(block);
        if tag == crate::compress::BLOCK_TYPE_DEFLATE {
            let ok = match crate::compress::inflate_block(block) {
                Some(d) => d.len() as u64 == descs[b].decompressed_size,
                None => false,
            };
            if !ok {
                return Err(MdxError::FormatError);
            }
        }
        let info = RecordBlockInfo {
            compressed_size: c64,
            decompressed_size: descs[b].decompressed_size,
            tag,
        };
        let ghost prev_out = out@;
        out.push(info);
        proof {
            assert(crate::compress::block_tag(block@) == tag);
            match spec_record_blocks(w@.skip(p + c), descs@.skip(b + 1)) {
                Some(rest) => {
                    assert(spec_record_blocks(wtail, dtail) == Some(seq![info] + rest));
                    assert(prev_out + (seq![info] + rest) =~= (prev_out + seq![info]) + rest);
                    assert(out@ =~= prev_out + seq![info]);
                },
                None => {},
            }
        }
        p = p + c;
        b = b + 1;
    }
    proof {
        assert(descs@.skip(nd as int) =~= Seq::<RecordBlockDescriptor>::empty());
    }
    if p != wl {
        return Err(MdxError::FormatError);
    }
    proof {
        assert(w@.skip(p as int).len() == 0);
        match spec_record_blocks(w@.skip(p as int), descs@.skip(nd as int)) {
            Some(rest) => {
                assert(rest =~= Seq::<RecordBlockInfo>::empty());
                assert(out@ + rest =~= out@);
            },
            None => {},
        }
    }
    Ok(out)
}

/// One persisted index row: one key occurrence mapped to the file span
/// of its compressed record block and to its byte span inside the
/// decompressed block, in global-offset space.
pub struct RecordIndex {
    pub key_text: String,
    /// Where the compressed record block starts in the container file.
    pub file_pos: u64,
    pub compressed_size: u64,
    pub decompressed_size: u64,
    pub record_block_type: u32,
    /// The record's first byte, in global-offset space.
    pub record_start: u64,
    /// The byte after the record's last, in global-offset space.
    pub record_end: u64,
    /// The block's base offset: the global offset of its first byte.
    pub offset: u64,
}

/// Where an entry's record ends: at the next entry's offset while that
/// entry shares the block, else at the block's end.
pub open spec fn spec_row_end(
    es: Seq<(u64, Seq<char>)>,
    bs: Seq<RecordBlockInfo>,
    i: int,
) -> int {
    let b = block_of(bs, es[i].0 as int);
    if i + 1 < es.len() && block_of(bs, es[i + 1].0 as int) == b {
        es[i + 1].0 as int
    } else {
        cum_decomp(bs, b + 1)
    }
}

/// What the row for entry `i` holds.
pub open spec fn row_matches(
    r: RecordIndex,
    es: Seq<(u64, Seq<char>)>,
    bs: Seq<RecordBlockInfo>,
    data_pos: int,
    i: int,
) -> bool {
    let b = block_of(bs, es[i].0 as int);
    &&& r.key_text@ == es[i].1
    &&& r.record_start == es[i].0
    &&& r.record_end == spec_row_end(es, bs, i)
    &&& r.offset == cum_decomp(bs, b)
    &&& r.compressed_size == bs[b].compressed_size
    &&& r.decompressed_size == bs[b].decompressed_size
    &&& r.record_block_type == bs[b].tag
    &&& r.file_pos == data_pos + cum_comp(bs, b)
}

/// Walks the record blocks once, consuming the globally ordered key
/// entries with a single shared cursor, and emits one index row per
/// entry: the row carries the block's file span and the record's byte
/// span inside the decompressed block.
#[verifier::rlimit(100)]
pub fn build_index_rows(
    entries: &Vec<KeyEntry>,
    bs: &Vec<RecordBlockInfo>,
    data_pos: u64,
) -> (rows: Vec<RecordIndex>)
    requires
        forall|i: int|
            0 <= i < entries@.len() - 1 ==> (#[trigger] entries@[i].record_offset) < entries@[i
                + 1].record_offset,
        forall|i: int|
            0 <= i < entries@.len() ==> (#[trigger] entries@[i].record_offset) < cum_decomp(
                bs@,
                bs@.len() as int,
            ),
        cum_decomp(bs@, bs@.len() as int) <= u64::MAX,
        data_pos + cum_comp(bs@, bs@.len() as int) <= u64::MAX,
    ensures
        rows@.len() == entries@.len(),
        forall|i: int|
            0 <= i < rows@.len() ==> row_matches(
                #[trigger] rows@[i],
                entry_views(entries@),
                bs@,
                data_pos as int,
                i,
            ),
{
    let ghost es = entry_views(entries@);
    let n = entries.len();
    let m = bs.len();
    let mut rows: Vec<RecordIndex> = Vec::new();
    let mut e: usize = 0;
    let mut base: u64 = 0;
    let mut fpos: u64 = data_pos;
    let mut b: usize = 0;
    while b < m
        invariant
            es == entry_views(entries@),
            n == entries@.len(),
            m == bs@.len(),
            forall|i: int|
                0 <= i < n - 1 ==> (#[trigger] entries@[i].record_offset) < entries@[i
                    + 1].record_offset,
            forall|i: int|
                0 <= i < n ==> (#[trigger] entries@[i].record_offset) < cum_decomp(bs@, m as int),
            cum_decomp(bs@, m as int) <= u64::MAX,
            data_pos + cum_comp(bs@, m as int) <= u64::MAX,
            0 <= b <= m,
            0 <= e <= n,
            base == cum_decomp(bs@, b as int),
            fpos == data_pos + cum_comp(bs@, b as int),
            rows@.len() == e,
            forall|i: int|
                0 <= i < e ==> row_matches(#[trigger] rows@[i], es, bs@, data_pos as int, i),
            e < n ==> entries@[e as int].record_offset >= base,
        decreases m - b,
    {
        let d = bs[b].decompressed_size;
        let c = bs[b].compressed_size;
        proof {
            lemma_cum_decomp_mono(bs@, b + 1, m as int);
            lemma_cum_comp_mono(bs@, b + 1, m as int);
        }
        while e < n && entries[e].record_offset < base + d
            invariant
                es == entry_views(entries@),
                n == entries@.len(),
                m == bs@.len(),
                forall|i: int|
                    0 <= i < n - 1 ==> (#[trigger] entries@[i].record_offset) < entries@[i
                        + 1].record_offset,
                forall|i: int|
                    0 <= i < n ==> (#[trigger] entries@[i].record_offset) < cum_decomp(
                        bs@,
                        m as int,
                    ),
                cum_decomp(bs@, m as int) <= u64::MAX,
                0 <= b < m,
                0 <= e <= n,
                d == bs@[b as int].decompressed_size,
                c == bs@[b as int].compressed_size,
                base == cum_decomp(bs@, b as int),
                base + d == cum_decomp(bs@, b + 1),
                base + d <= u64::MAX,
                fpos == data_pos + cum_comp(bs@, b as int),
                rows@.len() == e,
                forall|i: int|
                    0 <= i < e ==> row_matches(#[trigger] rows@[i], es, bs@, data_pos as int, i),
                e < n ==> entries@[e as int].record_offset >= base,
            decreases n - e,
        {
            let off = entries[e].record_offset;
            proof {
                lemma_block_of_is(bs@, off as int, b as int);
            }
            let end: u64 = if e + 1 < n && entries[e + 1].record_offset < base + d {
                proof {
                    lemma_block_of_is(bs@, entries@[e + 1].record_offset as int, b as int);
                }
                entries[e + 1].record_offset
            } else {
                proof {
                    if e + 1 < n {
                        let off2 = entries@[e + 1].record_offset as int;
                        lemma_block_of_range(bs@, off2);
                        if block_of(bs@, off2) == b {
                            assert(off2 < cum_decomp(bs@, b + 1));
                        }
                    }
                }
                base + d
            };
            let row = RecordIndex {
                key_text: entries[e].key_text.clone(),
                file_pos: fpos,
                compressed_size: c,
                decompressed_size: d,
                record_block_type: bs[b].tag,
                record_start: off,
                record_end: end,
                offset: base,
            };
            rows.push(row);
            proof {
                assert(es[e as int].0 == off && es[e as int].1 == entries@[e as int].key_text@);
                if e + 1 < n {
                    assert(es[e + 1].0 == entries@[e + 1].record_offset);
                }
                assert(row_matches(rows@[e as int], es, bs@, data_pos as int, e as int));
            }
            e = e + 1;
        }
        proof {
            assert(cum_decomp(bs@, b + 1) == cum_decomp(bs@, b as int) + bs@[b as int].decompressed_size);
            assert(cum_comp(bs@, b + 1) == cum_comp(bs@, b as int) + bs@[b as int].compressed_size);
        }
        base = base + d;
        fpos = fpos + c;
        b = b + 1;
    }
    proof {
        if e < n {
            assert(entries@[e as int].record_offset < cum_decomp(bs@, m as int));
            assert(entries@[e as int].record_offset >= base);
        }
    }
    rows
}

/// Entry offsets strictly ascend: the source data is pre-sorted, and
/// the next entry's offset is the current entry's exclusive end bound.
pub open spec fn offsets_sorted(es: Seq<(u64, Seq<char>)>) -> bool {
    forall|i: int| 0 <= i < es.len() - 1 ==> (#[trigger] es[i].0) < es[i + 1].0
}

/// Every entry offset lies inside the decompressed record space.
pub open spec fn offsets_in_range(es: Seq<(u64, Seq<char>)>, bs: Seq<RecordBlockInfo>) -> bool {
    forall|i: int|
        0 <= i < es.len() ==> (#[trigger] es[i].0) < cum_decomp(bs, bs.len() as int)
}

/// Every block's base offset is some entry's offset: records align
/// with block boundaries.
pub open spec fn blocks_anchored(es: Seq<(u64, Seq<char>)>, bs: Seq<RecordBlockInfo>) -> bool {
    forall|b: int|
        0 <= b < bs.len() ==> exists|i: int|
            0 <= i < es.len() && (#[trigger] es[i].0) == #[trigger] cum_decomp(bs, b)
}

/// Some row's span holds the global offset `x`.
pub open spec fn covers(es: Seq<(u64, Seq<char>)>, bs: Seq<RecordBlockInfo>, x: int) -> bool {
    exists|i: int| 0 <= i < es.len() && (#[trigger] es[i].0) <= x < spec_row_end(es, bs, i)
}

/// Strictly ascending adjacent offsets ascend across any distance.
proof fn lemma_sorted_lt(es: Seq<(u64, Seq<char>)>, i: int, j: int)
    requires
        offsets_sorted(es),
        0 <= i < j < es.len(),
    ensures
        es[i].0 < es[j].0,
    decreases j - i,
{
    if i + 1 < j {
        lemma_sorted_lt(es, i, j - 1);
    }
}

/// Among the entries at or below `x` there is a last one.
proof fn lemma_last_entry_le(es: Seq<(u64, Seq<char>)>, x: int)
    requires
        offsets_sorted(es),
        exists|i: int| 0 <= i < es.len() && (#[trigger] es[i].0) <= x,
    ensures
        exists|i: int|
            0 <= i < es.len() && (#[trigger] es[i].0) <= x && (i + 1 == es.len() || es[i
                + 1].0 > x),
    decreases es.len(),
{
    let n = es.len() as int;
    if es[n - 1].0 <= x {
        assert(0 <= n - 1 < es.len() && es[n - 1].0 <= x && (n - 1 + 1 == es.len() || es[n - 1
            + 1].0 > x));
    } else {
        let front = es.drop_last();
        let i0 = choose|i: int| 0 <= i < es.len() && (#[trigger] es[i].0) <= x;
        assert(i0 < n - 1);
        assert(front[i0].0 <= x);
        assert(offsets_sorted(front)) by {
            assert forall|i: int| 0 <= i < front.len() - 1 implies (#[trigger] front[i].0)
                < front[i + 1].0 by {
                assert(front[i] == es[i] && front[i + 1] == es[i + 1]);
            }
        }
        lemma_last_entry_le(front, x);
        let i = choose|i: int|
            0 <= i < front.len() && (#[trigger] front[i].0) <= x && (i + 1 == front.len()
                || front[i + 1].0 > x);
        if i + 1 == front.len() {
            assert(es[i + 1].0 == es[n - 1].0);
            assert(0 <= i < es.len() && es[i].0 <= x && es[i + 1].0 > x);
        } else {
            assert(front[i + 1] == es[i + 1]);
            assert(0 <= i < es.len() && es[i].0 <= x && es[i + 1].0 > x);
        }
    }
}

/// Offset partition completeness: with entries in strictly ascending
/// offset order inside the record space, and every block boundary
/// anchored by an entry, every entry gets a span that starts at its
/// own offset and is not empty, spans do not overlap, and together the
/// spans cover the whole decompressed record space, block by block,
/// with no gaps.
pub proof fn lemma_offset_partition(es: Seq<(u64, Seq<char>)>, bs: Seq<RecordBlockInfo>)
    requires
        offsets_sorted(es),
        offsets_in_range(es, bs),
        blocks_anchored(es, bs),
    ensures
        forall|i: int| 0 <= i < es.len() ==> (#[trigger] es[i].0) < spec_row_end(es, bs, i),
        forall|i: int|
            0 <= i < es.len() - 1 ==> #[trigger] spec_row_end(es, bs, i) <= es[i + 1].0,
        forall|x: int| 0 <= x < cum_decomp(bs, bs.len() as int) ==> #[trigger] covers(es, bs, x),
{
    let n = es.len() as int;
    assert forall|i: int| 0 <= i < n implies (#[trigger] es[i].0) < spec_row_end(es, bs, i) by {
        lemma_block_of_range(bs, es[i].0 as int);
    }
    assert forall|i: int| 0 <= i < n - 1 implies #[trigger] spec_row_end(es, bs, i) <= es[i
        + 1].0 by {
        let off = es[i].0 as int;
        let off2 = es[i + 1].0 as int;
        lemma_block_of_range(bs, off);
        lemma_block_of_range(bs, off2);
        let b1 = block_of(bs, off);
        let b2 = block_of(bs, off2);
        if b2 != b1 {
            if b2 < b1 {
                lemma_cum_decomp_mono(bs, b2 + 1, b1);
                assert(off2 < cum_decomp(bs, b2 + 1));
                assert(false);
            }
            lemma_cum_decomp_mono(bs, b1 + 1, b2);
        }
    }
    assert forall|x: int| 0 <= x < cum_decomp(bs, bs.len() as int) implies #[trigger] covers(
        es,
        bs,
        x,
    ) by {
        lemma_block_of_range(bs, x);
        let bx = block_of(bs, x);
        assert(exists|i: int|
            0 <= i < es.len() && (#[trigger] es[i].0) == cum_decomp(bs, bx));
        let i0 = choose|i: int| 0 <= i < es.len() && (#[trigger] es[i].0) == cum_decomp(bs, bx);
        assert(es[i0].0 <= x);
        lemma_last_entry_le(es, x);
        let i = choose|i: int|
            0 <= i < es.len() && (#[trigger] es[i].0) <= x && (i + 1 == es.len() || es[i
                + 1].0 > x);
        let off = es[i].0 as int;
        lemma_block_of_range(bs, off);
        let bi = block_of(bs, off);
        if i + 1 < n && block_of(bs, es[i + 1].0 as int) == bi {
            assert(es[i].0 <= x < spec_row_end(es, bs, i));
        } else {
            if x >= cum_decomp(bs, bi + 1) {
                if bx <= bi {
                    lemma_cum_decomp_mono(bs, bx + 1, bi + 1);
                    assert(x < cum_decomp(bs, bx + 1));
                    assert(false);
                }
                let j = choose|jj: int|
                    0 <= jj < es.len() && (#[trigger] es[jj].0) == cum_decomp(bs, bx);
                lemma_cum_decomp_mono(bs, bi + 1, bx);
                assert(es[j].0 > es[i].0);
                if j <= i {
                    if j < i {
                        lemma_sorted_lt(es, j, i);
                    }
                    assert(false);
                }
                if i + 1 < j {
                    lemma_sorted_lt(es, i + 1, j);
                }
                assert(es[i + 1].0 <= es[j].0);
                assert(es[j].0 <= x);
                assert(false);
            }
            assert(es[i].0 <= x < spec_row_end(es, bs, i));
        }
    }
}

} // verus!
