//! The rolling additive checksum that guards every section boundary of
//! the container, with the lemmas that make it trustworthy: a stored
//! checksum computed from a buffer always verifies, and changing any
//! single byte (so any flipped bit) makes verification fail.

use vstd::prelude::*;
use crate::util::{be_value, le_value, be_bytes_unpack, le_bytes_unpack};
use vstd::arithmetic::div_mod::lemma_fundamental_div_mod;

verus! {

/// The modulus of the checksum's two running sums.
pub const CHECKSUM_BASE: u32 = 65521;

/// The plain sum of the bytes.
pub open spec fn sum_bytes(s: Seq<u8>) -> int
    decreases s.len(),
{
    if s.len() == 0 {
        0
    } else {
        sum_bytes(s.drop_last()) + s.last()
    }
}

/// The low half of the checksum: one plus the byte sum, reduced.
pub open spec fn adler_a(s: Seq<u8>) -> int {
    (1 + sum_bytes(s)) % (CHECKSUM_BASE as int)
}

/// The high half: the reduced sum of the running low halves.
pub open spec fn adler_b(s: Seq<u8>) -> int
    decreases s.len(),
{
    if s.len() == 0 {
        0
    } else {
        (adler_b(s.drop_last()) + adler_a(s)) % (CHECKSUM_BASE as int)
    }
}

/// The checksum of a byte buffer: the high half shifted over the low.
pub open spec fn adler32_of(s: Seq<u8>) -> int {
    adler_b(s) * 65536 + adler_a(s)
}

/// The stored four-byte checksum value, read in the caller's byte order.
pub open spec fn stored_checksum(c: Seq<u8>, big_endian: bool) -> int {
    if big_endian {
        be_value(c.subrange(0, 4))
    } else {
        le_value(c.subrange(0, 4))
    }
}

/// Whether a buffer matches a stored four-byte checksum.
pub open spec fn checksum_matches(s: Seq<u8>, c: Seq<u8>, big_endian: bool) -> bool {
    adler32_of(s) == stored_checksum(c, big_endian)
}

/// Relies on `adler32::RollingAdler32`: `from_buffer` folds every byte
/// into the two running sums (the low one starts at one, both are kept
/// modulo 65521) and `hash` packs them as high half times 65536 plus low
/// half.
#[verifier::external_body]
fn adler32_hash(contents: &[u8]) -> (r: u32)
    ensures
        r == adler32_of(contents@),
{
    adler32::RollingAdler32::from_buffer(contents).hash()
}

/// Compares the checksum of `contents` against the first four bytes of
/// `adler32_bytes`, read big-endian or little-endian as asked.
pub fn adler32_checksum(contents: &Vec<u8>, adler32_bytes: &[u8], big_endian: bool) -> (r: bool)
    requires
        adler32_bytes@.len() >= 4,
    ensures
        r == checksum_matches(contents@, adler32_bytes@, big_endian),
{
    let stored: u32 = if big_endian {
        be_bytes_unpack(adler32_bytes)
    } else {
        le_bytes_unpack(adler32_bytes)
    };
    let computed: u32 = adler32_hash(contents.as_slice());
    computed == stored
}

/// A checksum stored from the very buffer it was computed over always
/// verifies, in either byte order.
pub proof fn lemma_checksum_round_trip(s: Seq<u8>, c: Seq<u8>, big_endian: bool)
    requires
        c.len() >= 4,
        stored_checksum(c, big_endian) == adler32_of(s),
    ensures
        checksum_matches(s, c, big_endian),
{
}

/// Two same-length buffers that differ in exactly one byte have
/// different byte sums, and the difference is that of the two bytes.
proof fn lemma_sum_bytes_single_change(s1: Seq<u8>, s2: Seq<u8>, i: int)
    requires
        s1.len() == s2.len(),
        0 <= i < s1.len(),
        forall|j: int| 0 <= j < s1.len() && j != i ==> s1[j] == s2[j],
    ensures
        sum_bytes(s1) - sum_bytes(s2) == s1[i] - s2[i],
    decreases s1.len(),
{
    if i == s1.len() - 1 {
        assert(s1.drop_last() =~= s2.drop_last());
    } else {
        lemma_sum_bytes_single_change(s1.drop_last(), s2.drop_last(), i);
    }
}

/// Changing any single byte of a buffer changes its checksum: flipping
/// one bit anywhere makes a previously matching checksum fail.
pub proof fn lemma_checksum_detects_change(s1: Seq<u8>, s2: Seq<u8>, i: int)
    requires
        s1.len() == s2.len(),
        0 <= i < s1.len(),
        s1[i] != s2[i],
        forall|j: int| 0 <= j < s1.len() && j != i ==> s1[j] == s2[j],
    ensures
        adler32_of(s1) != adler32_of(s2),
{
    lemma_sum_bytes_single_change(s1, s2, i);
    let m = CHECKSUM_BASE as int;
    let x = 1 + sum_bytes(s1);
    let y = 1 + sum_bytes(s2);
    let d = x - y;
    assert(-256 < d < 256 && d != 0);
    lemma_fundamental_div_mod(x, m);
    lemma_fundamental_div_mod(y, m);
    assert(adler_a(s1) != adler_a(s2)) by (nonlinear_arith)
        requires
            x == m * (x / m) + x % m,
            y == m * (y / m) + y % m,
            x - y == d,
            -256 < d < 256,
            d != 0,
            m == 65521,
            adler_a(s1) == x % m,
            adler_a(s2) == y % m,
    ;
    let a1 = adler_a(s1);
    let a2 = adler_a(s2);
    let b1 = adler_b(s1);
    let b2 = adler_b(s2);
    assert(0 <= a1 < m && 0 <= a2 < m);
    assert(b1 * 65536 + a1 != b2 * 65536 + a2) by (nonlinear_arith)
        requires
            0 <= a1 < 65536,
            0 <= a2 < 65536,
            a1 != a2,
    ;
}

} // verus!
