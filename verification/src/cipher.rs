//! The byte-at-a-time stream cipher that protects the key-info section,
//! as a pure transform over whole buffers, together with its inverse and
//! the proof that the two compose to the identity. The sixteen-byte
//! cipher key is derived from the section's own checksum bytes and a
//! fixed salt through an outside digest.

use vstd::prelude::*;
use ripemd::Digest;

verus! {

/// The seed standing in for "the byte before the first one".
pub const CIPHER_SEED: u8 = 0x36;

/// A byte with its two four-bit halves exchanged.
pub open spec fn spec_swap_nibbles(b: u8) -> u8 {
    ((b & 0x0f) << 4) | (b >> 4)
}

fn swap_nibbles(b: u8) -> (r: u8)
    ensures
        r == spec_swap_nibbles(b),
{
    ((b & 0x0f) << 4) | (b >> 4)
}

/// One plaintext byte: the ciphertext byte with halves swapped, combined
/// with the previous ciphertext byte, the low byte of the index, and the
/// key byte for that index.
pub open spec fn decrypt_byte(prev: u8, c: u8, i: int, k: Seq<u8>) -> u8
    recommends
        k.len() == 16,
{
    spec_swap_nibbles(c) ^ prev ^ ((i % 256) as u8) ^ k[i % 16]
}

/// The whole decrypted payload; each byte depends on the ciphertext
/// alone, so the transform is a pure function of the buffer.
pub open spec fn decrypted(c: Seq<u8>, k: Seq<u8>) -> Seq<u8>
    recommends
        k.len() == 16,
{
    Seq::new(
        c.len(),
        |i: int|
            decrypt_byte(
                if i == 0 {
                    CIPHER_SEED
                } else {
                    c[i - 1]
                },
                c[i],
                i,
                k,
            ),
    )
}

/// The inverse transform: each ciphertext byte is the plaintext byte
/// combined with the previous ciphertext byte, the low byte of the
/// index and the key byte, then nibble-swapped.
pub open spec fn encrypted(p: Seq<u8>, k: Seq<u8>) -> Seq<u8>
    recommends
        k.len() == 16,
    decreases p.len(),
{
    if p.len() == 0 {
        Seq::empty()
    } else {
        let pre = encrypted(p.drop_last(), k);
        let i = p.len() - 1;
        let prev = if i == 0 {
            CIPHER_SEED
        } else {
            pre[i - 1]
        };
        pre.push(spec_swap_nibbles(p.last() ^ prev ^ ((i % 256) as u8) ^ k[i % 16]))
    }
}

/// Swapping the halves twice gives the byte back.
proof fn lemma_swap_involution(b: u8)
    ensures
        spec_swap_nibbles(spec_swap_nibbles(b)) == b,
{
    let s = ((b & 0x0f) << 4) | (b >> 4);
    assert(((s & 0x0f) << 4) | (s >> 4) == b) by (bit_vector)
        requires
            s == ((b & 0x0f) << 4) | (b >> 4),
    ;
}

/// Combining with the same three bytes twice cancels out.
proof fn lemma_xor_cancel(x: u8, a: u8, b: u8, c: u8)
    ensures
        (x ^ a ^ b ^ c) ^ a ^ b ^ c == x,
{
    assert((x ^ a ^ b ^ c) ^ a ^ b ^ c == x) by (bit_vector);
}

/// The ciphertext has the plaintext's length.
pub proof fn lemma_encrypted_len(p: Seq<u8>, k: Seq<u8>)
    ensures
        encrypted(p, k).len() == p.len(),
    decreases p.len(),
{
    if p.len() > 0 {
        lemma_encrypted_len(p.drop_last(), k);
    }
}

/// What each ciphertext byte is, stated over the full buffer: the
/// recursion over prefixes reaches every index.
proof fn lemma_encrypted_index(p: Seq<u8>, k: Seq<u8>, i: int)
    requires
        0 <= i < p.len(),
    ensures
        encrypted(p, k)[i] == spec_swap_nibbles(
            p[i] ^ (if i == 0 {
                CIPHER_SEED
            } else {
                encrypted(p, k)[i - 1]
            }) ^ ((i % 256) as u8) ^ k[i % 16],
        ),
    decreases p.len(),
{
    lemma_encrypted_len(p.drop_last(), k);
    if i == p.len() - 1 {
    } else {
        lemma_encrypted_index(p.drop_last(), k, i);
        if i > 0 {
            lemma_encrypted_len(p.drop_last().drop_last(), k);
        }
    }
}

/// Encrypting a payload and decrypting the result yields the original
/// bytes, for every payload and every sixteen-byte key.
pub proof fn lemma_cipher_round_trip(p: Seq<u8>, k: Seq<u8>)
    requires
        k.len() == 16,
    ensures
        decrypted(encrypted(p, k), k) == p,
{
    let e = encrypted(p, k);
    lemma_encrypted_len(p, k);
    assert forall|i: int| 0 <= i < p.len() implies decrypted(e, k)[i] == p[i] by {
        lemma_encrypted_index(p, k, i);
        let prev = if i == 0 {
            CIPHER_SEED
        } else {
            e[i - 1]
        };
        let il = (i % 256) as u8;
        let kb = k[i % 16];
        lemma_swap_involution(p[i] ^ prev ^ il ^ kb);
        lemma_xor_cancel(p[i], prev, il, kb);
    }
    assert(decrypted(e, k) =~= p);
}

/// Decrypts the key-info payload in place of the container's cipher:
/// nibble swap, then the three combining bytes, for each position.
pub fn decrypt_key_info(data: &[u8], key: &Vec<u8>) -> (r: Vec<u8>)
    requires
        key@.len() == 16,
    ensures
        r@ == decrypted(data@, key@),
{
    let mut out: Vec<u8> = Vec::new();
    let len = data.len();
    let mut i: usize = 0;
    while i < len
        invariant
            key@.len() == 16,
            len == data@.len(),
            0 <= i <= len,
            out@ =~= decrypted(data@, key@).take(i as int),
        decreases len - i,
    {
        let prev: u8 = if i == 0 {
            CIPHER_SEED
        } else {
            data[i - 1]
        };
        let t = swap_nibbles(data[i]) ^ prev ^ ((i % 256) as u8) ^ key[i % 16];
        out.push(t);
        proof {
            assert(out@ =~= decrypted(data@, key@).take(i + 1));
        }
        i = i + 1;
    }
    proof {
        assert(out@ =~= decrypted(data@, key@));
    }
    out
}

/// The inverse of `decrypt_key_info`, used to produce protected
/// payloads; each output byte feeds the next step as "previous byte".
pub fn encrypt_key_info(data: &[u8], key: &Vec<u8>) -> (r: Vec<u8>)
    requires
        key@.len() == 16,
    ensures
        r@ == encrypted(data@, key@),
{
    let mut out: Vec<u8> = Vec::new();
    let len = data.len();
    let mut i: usize = 0;
    while i < len
        invariant
            key@.len() == 16,
            len == data@.len(),
            0 <= i <= len,
            out@ =~= encrypted(data@.take(i as int), key@),
            out@.len() == i,
        decreases len - i,
    {
        let prev: u8 = if i == 0 {
            CIPHER_SEED
        } else {
            out[i - 1]
        };
        let t = swap_nibbles(data[i] ^ prev ^ ((i % 256) as u8) ^ key[i % 16]);
        out.push(t);
        proof {
            lemma_encrypted_len(data@.take(i as int), key@);
            assert(data@.take(i + 1).drop_last() =~= data@.take(i as int));
            assert(data@.take(i + 1).last() == data@[i as int]);
            assert(out@ =~= encrypted(data@.take(i + 1), key@));
        }
        i = i + 1;
    }
    proof {
        assert(data@.take(len as int) =~= data@);
    }
    out
}

/// What an outside digest returns for given bytes; the value depends on
/// the bytes alone.
pub uninterp spec fn ripemd128_of(s: Seq<u8>) -> Seq<u8>;

/// Relies on `ripemd::Ripemd128` through `digest::Digest::digest`: the
/// digest is a pure function of the input bytes and is sixteen bytes
/// long.
#[verifier::external_body]
fn ripemd128_digest(b: &[u8]) -> (r: Vec<u8>)
    ensures
        r@ == ripemd128_of(b@),
        r@.len() == 16,
{
    ripemd::Ripemd128::digest(b).to_vec()
}

/// The bytes of the fixed little-endian salt appended to the checksum
/// bytes before hashing.
pub open spec fn cipher_salt() -> Seq<u8> {
    seq![0x95u8, 0x36u8, 0x00u8, 0x00u8]
}

/// Derives the sixteen-byte cipher key for a protected key-info section
/// from the section's four checksum bytes.
pub fn derive_key_info_key(checksum: &[u8]) -> (r: Vec<u8>)
    requires
        checksum@.len() == 4,
    ensures
        r@ == ripemd128_of(checksum@ + cipher_salt()),
        r@.len() == 16,
{
    let mut seed: Vec<u8> = Vec::new();
    seed.push(checksum[0]);
    seed.push(checksum[1]);
    seed.push(checksum[2]);
    seed.push(checksum[3]);
    seed.push(0x95);
    seed.push(0x36);
    seed.push(0x00);
    seed.push(0x00);
    proof {
        assert(seed@ =~= checksum@ + cipher_salt());
    }
    ripemd128_digest(seed.as_slice())
}

} // verus!
