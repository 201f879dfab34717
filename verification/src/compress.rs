//! The compressed sub-block frame shared by the key section, the record
//! section and the lookup routine: a four-byte little-endian type tag, a
//! four-byte big-endian checksum of the decompressed bytes, and the
//! compressed payload. Decompression itself is an outside routine.

use vstd::prelude::*;
use crate::checksum::{adler32_of, adler32_checksum};
use crate::util::{be_value, le_value, le_bytes_unpack};
use vstd::slice::slice_subrange;

verus! {

/// The tag of a block whose payload is stored deflate-compressed.
pub const BLOCK_TYPE_DEFLATE: u32 = 2;

/// What the outside inflate routine returns: `None` where the bytes are
/// not a well-formed compressed stream, else the decompressed bytes.
/// The result depends on the input bytes alone.
pub uninterp spec fn inflated(s: Seq<u8>) -> Option<Seq<u8>>;

/// Relies on `miniz_oxide::inflate::decompress_to_vec_zlib`: it inflates
/// a deflate stream with its two-byte header and trailing checksum, and
/// fails exactly on malformed input; the result depends on the input
/// alone.
#[verifier::external_body]
pub(crate) fn zlib_inflate(b: &[u8]) -> (r: Option<Vec<u8>>)
    ensures
        (r is Some) <==> (inflated(b@) is Some),
        r matches Some(v) ==> inflated(b@) == Some(v@),
{
    match miniz_oxide::inflate::decompress_to_vec_zlib(b) {
        Ok(v) => Some(v),
        Err(_) => None,
    }
}

/// The type tag of a framed sub-block.
pub open spec fn block_tag(block: Seq<u8>) -> int {
    le_value(block.subrange(0, 4))
}

/// The stored checksum of a framed sub-block.
pub open spec fn block_stored_checksum(block: Seq<u8>) -> int {
    be_value(block.subrange(4, 8))
}

/// The payload of a framed sub-block.
pub open spec fn block_payload(block: Seq<u8>) -> Seq<u8> {
    block.skip(8)
}

/// The decompressed bytes of a deflate sub-block, provided the payload
/// inflates and the stored checksum matches them; `None` otherwise.
pub open spec fn spec_inflate_block(block: Seq<u8>) -> Option<Seq<u8>> {
    match inflated(block_payload(block)) {
        Some(d) => if adler32_of(d) == block_stored_checksum(block) {
            Some(d)
        } else {
            Option::<Seq<u8>>::None
        },
        None => Option::<Seq<u8>>::None,
    }
}

/// Reads a framed sub-block's type tag.
pub fn read_block_tag(block: &[u8]) -> (t: u32)
    requires
        block@.len() >= 8,
    ensures
        t == block_tag(block@),
{
    let head = slice_subrange(block, 0, 4);
    proof {
        assert(head@.subrange(0, 4) =~= block@.subrange(0, 4));
    }
    le_bytes_unpack(head)
}

/// Inflates a deflate sub-block's payload and verifies the stored
/// checksum against the decompressed bytes.
pub fn inflate_block(block: &[u8]) -> (r: Option<Vec<u8>>)
    requires
        block@.len() >= 8,
    ensures
        (r is Some) <==> (spec_inflate_block(block@) is Some),
        r matches Some(v) ==> spec_inflate_block(block@) == Some(v@),
{
    let payload = slice_subrange(block, 8, block.len());
    proof {
        assert(payload@ =~= block_payload(block@));
    }
    match zlib_inflate(payload) {
        None => None,
        Some(d) => {
            let check = slice_subrange(block, 4, 8);
            proof {
                assert(check@.subrange(0, 4) =~= block@.subrange(4, 8));
            }
            if adler32_checksum(&d, check, true) {
                Some(d)
            } else {
                None
            }
        },
    }
}

} // verus!
