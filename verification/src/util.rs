//! Byte-order primitives: big-endian and little-endian integer reads and
//! the fixed-width number cursor used by the container decoders.

use vstd::prelude::*;

verus! {

/// The value of a byte sequence read as a big-endian unsigned integer.
pub open spec fn be_value(s: Seq<u8>) -> int
    decreases s.len(),
{
    if s.len() == 0 {
        0
    } else {
        be_value(s.drop_last()) * 256 + s.last()
    }
}

/// The value of a byte sequence read as a little-endian unsigned integer.
pub open spec fn le_value(s: Seq<u8>) -> int
    decreases s.len(),
{
    if s.len() == 0 {
        0
    } else {
        s.first() + le_value(s.drop_first()) * 256
    }
}

/// 256 raised to the given power: the number of values a byte string of
/// that length can take.
pub open spec fn p256(n: nat) -> int
    decreases n,
{
    if n == 0 {
        1
    } else {
        256 * p256((n - 1) as nat)
    }
}

/// A big-endian value is never negative.
pub proof fn lemma_be_value_nonneg(s: Seq<u8>)
    ensures
        be_value(s) >= 0,
    decreases s.len(),
{
    if s.len() != 0 {
        lemma_be_value_nonneg(s.drop_last());
        let h = be_value(s.drop_last());
        assert(h * 256 >= 0) by (nonlinear_arith)
            requires
                h >= 0,
        ;
    }
}

/// A big-endian value fits in as many bytes as were read.
pub proof fn lemma_be_value_bound(s: Seq<u8>)
    ensures
        be_value(s) < p256(s.len()),
    decreases s.len(),
{
    if s.len() == 0 {
    } else {
        lemma_be_value_bound(s.drop_last());
        let h = be_value(s.drop_last());
        let p = p256((s.len() - 1) as nat);
        assert(h * 256 + s.last() < p * 256) by (nonlinear_arith)
            requires
                h < p,
                s.last() < 256,
        ;
    }
}

/// A four-byte big-endian read, written out.
pub proof fn lemma_be_value4(s: Seq<u8>)
    requires
        s.len() == 4,
    ensures
        be_value(s) == ((s[0] * 256 + s[1]) * 256 + s[2]) * 256 + s[3],
{
    let e = Seq::<u8>::empty();
    assert(be_value(e) == 0);
    assert(seq![s[0]].drop_last() =~= e);
    assert(be_value(seq![s[0]]) == s[0]);
    assert(seq![s[0], s[1]].drop_last() =~= seq![s[0]]);
    assert(be_value(seq![s[0], s[1]]) == s[0] * 256 + s[1]);
    assert(seq![s[0], s[1], s[2]].drop_last() =~= seq![s[0], s[1]]);
    assert(be_value(seq![s[0], s[1], s[2]]) == (s[0] * 256 + s[1]) * 256 + s[2]);
    assert(s.drop_last() =~= seq![s[0], s[1], s[2]]);
    assert(s.last() == s[3]);
}

/// A four-byte little-endian read, written out.
pub proof fn lemma_le_value4(s: Seq<u8>)
    requires
        s.len() == 4,
    ensures
        le_value(s) == s[0] + 256 * (s[1] + 256 * (s[2] + 256 * s[3])),
{
    let e = Seq::<u8>::empty();
    assert(le_value(e) == 0);
    assert(seq![s[3]].drop_first() =~= e);
    assert(seq![s[3]].first() == s[3]);
    assert(le_value(seq![s[3]]) == s[3]);
    assert(seq![s[2], s[3]].drop_first() =~= seq![s[3]]);
    assert(le_value(seq![s[2], s[3]]) == s[2] + 256 * s[3]);
    assert(seq![s[1], s[2], s[3]].drop_first() =~= seq![s[2], s[3]]);
    assert(le_value(seq![s[1], s[2], s[3]]) == s[1] + 256 * (s[2] + 256 * s[3]));
    assert(s.drop_first() =~= seq![s[1], s[2], s[3]]);
    assert(s.first() == s[0]);
}

/// Reads the first four bytes of `b` as a big-endian unsigned integer.
pub fn be_bytes_unpack(b: &[u8]) -> (n: u32)
    requires
        b@.len() >= 4,
    ensures
        n == be_value(b@.subrange(0, 4)),
{
    let n: u32 = (b[0] as u32) * 0x1000000 + (b[1] as u32) * 0x10000 + (b[2] as u32) * 0x100 + (
    b[3] as u32);
    proof {
        let s = b@.subrange(0, 4);
        lemma_be_value4(s);
    }
    n
}

/// Reads the first four bytes of `b` as a little-endian unsigned integer.
pub fn le_bytes_unpack(b: &[u8]) -> (n: u32)
    requires
        b@.len() >= 4,
    ensures
        n == le_value(b@.subrange(0, 4)),
{
    let n: u32 = (b[0] as u32) + (b[1] as u32) * 0x100 + (b[2] as u32) * 0x10000 + (b[3] as u32)
        * 0x1000000;
    proof {
        let s = b@.subrange(0, 4);
        lemma_le_value4(s);
    }
    n
}

/// Reads the `width` bytes of `b` starting at `pos` as a big-endian
/// unsigned integer. Widths up to eight bytes fit in a `u64`.
pub fn read_be_number(b: &[u8], pos: usize, width: usize) -> (n: u64)
    requires
        0 < width <= 8,
        pos + width <= b@.len(),
    ensures
        n == be_value(b@.subrange(pos as int, pos + width)),
{
    let mut n: u64 = 0;
    let mut i: usize = 0;
    let blen: usize = b.len();
    proof {
        assert(b@.subrange(pos as int, pos as int) =~= Seq::<u8>::empty());
    }
    while i < width
        invariant
            0 < width <= 8,
            pos + width <= blen,
            blen == b@.len(),
            0 <= i <= width,
            n == be_value(b@.subrange(pos as int, pos + i)),
            n < p256(i as nat),
        decreases width - i,
    {
        proof {
            let cur = b@.subrange(pos as int, pos + i);
            let nxt = b@.subrange(pos as int, pos + i + 1);
            assert(nxt.drop_last() =~= cur);
            lemma_p256_le8(i as nat);
            assert(n * 256 + b@[pos + i] < p256(i as nat) * 256) by (nonlinear_arith)
                requires
                    n < p256(i as nat),
                    b@[pos + i] < 256,
            ;
            assert(p256(i as nat) * 256 == 256 * p256(i as nat));
        }
        n = n * 256 + (b[pos + i] as u64);
        i = i + 1;
    }
    n
}

/// A power of 256 is at least one.
pub proof fn lemma_p256_pos(n: nat)
    ensures
        p256(n) >= 1,
    decreases n,
{
    if n > 0 {
        lemma_p256_pos((n - 1) as nat);
    }
}

/// Larger byte widths can hold no fewer values.
pub proof fn lemma_p256_mono(a: nat, b: nat)
    requires
        a <= b,
    ensures
        p256(a) <= p256(b),
    decreases b,
{
    if a < b {
        lemma_p256_mono(a, (b - 1) as nat);
        lemma_p256_pos((b - 1) as nat);
        assert(p256(b) == 256 * p256((b - 1) as nat));
    }
}

/// The number of values of an eight-byte string, just past `u64::MAX`.
pub proof fn lemma_p256_8()
    ensures
        p256(8) == 0x10000000000000000,
{
    assert(p256(1) == 256 * p256(0));
    assert(p256(2) == 256 * p256(1));
    assert(p256(3) == 256 * p256(2));
    assert(p256(4) == 256 * p256(3));
    assert(p256(5) == 256 * p256(4));
    assert(p256(6) == 256 * p256(5));
    assert(p256(7) == 256 * p256(6));
    assert(p256(8) == 256 * p256(7));
}

/// 256 to the eighth power is just past `u64::MAX`, so smaller powers fit.
proof fn lemma_p256_le8(n: nat)
    requires
        n < 8,
    ensures
        p256(n) * 256 <= 0x10000000000000000,
{
    assert(p256(n) * 256 == p256((n + 1) as nat));
    lemma_p256_mono((n + 1) as nat, 8);
    lemma_p256_8();
}

/// The `w`-byte big-endian encoding of a value.
pub open spec fn be_bytes(x: int, w: nat) -> Seq<u8>
    decreases w,
{
    if w == 0 {
        Seq::empty()
    } else {
        be_bytes(x / 256, (w - 1) as nat).push((x % 256) as u8)
    }
}

/// The encoding has the asked-for width.
pub proof fn lemma_be_bytes_len(x: int, w: nat)
    ensures
        be_bytes(x, w).len() == w,
    decreases w,
{
    if w > 0 {
        lemma_be_bytes_len(x / 256, (w - 1) as nat);
    }
}

/// Reading an encoded value back gives the value.
pub proof fn lemma_be_bytes_value(x: int, w: nat)
    requires
        0 <= x < p256(w),
    ensures
        be_value(be_bytes(x, w)) == x,
    decreases w,
{
    if w == 0 {
    } else {
        lemma_be_bytes_len(x / 256, (w - 1) as nat);
        assert(0 <= x / 256 < p256((w - 1) as nat)) by (nonlinear_arith)
            requires
                0 <= x < p256(w),
                p256(w) == 256 * p256((w - 1) as nat),
        ;
        lemma_be_bytes_value(x / 256, (w - 1) as nat);
        let s = be_bytes(x, w);
        assert(s.drop_last() =~= be_bytes(x / 256, (w - 1) as nat));
        assert(s.last() == (x % 256) as u8);
        assert(0 <= x % 256 < 256);
        vstd::arithmetic::div_mod::lemma_fundamental_div_mod(x, 256);
    }
}

/// A cursor over a byte buffer that hands out fixed-width big-endian
/// numbers; the container's format version fixes the width at four or
/// eight bytes.
pub struct NumberBytes {
    bytes: Vec<u8>,
    tail: Vec<u8>,
}

impl NumberBytes {
    /// The bytes not yet consumed.
    pub closed spec fn remaining(self) -> Seq<u8> {
        self.tail@
    }

    pub fn new(bytes: &Vec<u8>) -> (r: Self)
        ensures
            r.remaining() == bytes@,
    {
        NumberBytes { bytes: bytes.clone(), tail: bytes.clone() }
    }

    /// Consumes `width` bytes and returns their big-endian value, or
    /// `None`, leaving the cursor unmoved, when fewer bytes remain.
    pub fn read_number(&mut self, width: usize) -> (n: Option<u64>)
        requires
            0 < width <= 8,
        ensures
            old(self).remaining().len() < width ==> n is None && final(self).remaining() == old(
                self,
            ).remaining(),
            old(self).remaining().len() >= width ==> n == Some(
                be_value(old(self).remaining().subrange(0, width as int)) as u64,
            ) && final(self).remaining() == old(self).remaining().skip(width as int),
    {
        if self.tail.len() < width {
            return None;
        }
        let v: u64 = read_be_number(self.tail.as_slice(), 0, width);
        proof {
            lemma_be_value_bound(self.tail@.subrange(0, width as int));
        }
        let mut rest: Vec<u8> = Vec::new();
        let mut i: usize = width;
        let len = self.tail.len();
        while i < len
            invariant
                width <= i <= len,
                len == self.tail@.len(),
                rest@ =~= self.tail@.subrange(width as int, i as int),
            decreases len - i,
        {
            let b = self.tail[i];
            rest.push(b);
            proof {
                assert(rest@ =~= self.tail@.subrange(width as int, i + 1));
            }
            i = i + 1;
        }
        proof {
            assert(rest@ =~= self.tail@.skip(width as int));
        }
        self.tail = rest;
        Some(v)
    }
}

} // verus!
