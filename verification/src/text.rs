//! Text decoding for the container: header text and key text are
//! UTF-16 little-endian, record text follows the container's declared
//! encoding. The UTF-16 decoder is specified and verified here; UTF-8
//! goes through the standard library's checked conversion; any other
//! declared encoding is handed to an outside converter.

use vstd::prelude::*;
use vstd::pervasive::unreached;
use vstd::utf8::{valid_utf8, decode_utf8, char_u32_cast};

verus! {

/// The sixteen-bit code units of a byte buffer read little-endian; a
/// trailing odd byte is ignored.
pub open spec fn utf16_units(s: Seq<u8>) -> Seq<u16> {
    Seq::new((s.len() as int / 2) as nat, |i: int| (s[2 * i] + s[2 * i + 1] * 256) as u16)
}

/// The characters encoded by a sequence of UTF-16 code units, or `None`
/// where a surrogate is unpaired.
pub open spec fn utf16_decode(u: Seq<u16>) -> Option<Seq<char>>
    decreases u.len(),
{
    if u.len() == 0 {
        Some(Seq::empty())
    } else {
        let w = u[0];
        if w < 0xD800 || w >= 0xE000 {
            match utf16_decode(u.skip(1)) {
                Some(rest) => Some(seq![(w as u32) as char] + rest),
                None => None,
            }
        } else if w < 0xDC00 && u.len() >= 2 && 0xDC00 <= u[1] < 0xE000 {
            let cp = 0x10000 + (w - 0xD800) * 0x400 + (u[1] - 0xDC00);
            match utf16_decode(u.skip(2)) {
                Some(rest) => Some(seq![(cp as u32) as char] + rest),
                None => None,
            }
        } else {
            None
        }
    }
}

/// The text a byte buffer holds when read as UTF-16 little-endian.
pub open spec fn utf16le_string(s: Seq<u8>) -> Option<Seq<char>> {
    utf16_decode(utf16_units(s))
}

/// Relies on `char::from_u32`: it returns the character with the given
/// code, and `None` exactly for surrogate codes and codes past the
/// largest code point.
pub assume_specification[ char::from_u32 ](i: u32) -> (r: Option<char>)
    ensures
        (r is Some) <==> (i < 0xD800 || (0xE000 <= i <= 0x10FFFF)),
        r matches Some(c) ==> c as u32 == i,
;

/// Relies on `String`'s `FromIterator<char>` implementation: collecting
/// characters yields the string of exactly those characters in order.
#[verifier::external_body]
pub(crate) fn chars_to_string(chars: &Vec<char>) -> (r: String)
    ensures
        r@ == chars@,
{
    chars.iter().collect()
}

/// Relies on `str::chars`: it yields the string's characters in order.
#[verifier::external_body]
pub(crate) fn string_chars(s: &str) -> (r: Vec<char>)
    ensures
        r@ == s@,
{
    s.chars().collect()
}

/// Decodes a UTF-16 little-endian byte buffer, `None` where a surrogate
/// is unpaired; a trailing odd byte is ignored.
pub fn le_u8_string(slice: &[u8]) -> (r: Option<String>)
    ensures
        (r is Some) <==> (utf16le_string(slice@) is Some),
        r matches Some(st) ==> utf16le_string(slice@) == Some(st@),
{
    match utf16_chars(slice) {
        Some(chars) => Some(chars_to_string(&chars)),
        None => None,
    }
}

/// Decodes a UTF-16 little-endian byte buffer into its characters,
/// `None` where a surrogate is unpaired; a trailing odd byte is
/// ignored.
pub fn utf16_chars(slice: &[u8]) -> (r: Option<Vec<char>>)
    ensures
        (r is Some) <==> (utf16le_string(slice@) is Some),
        r matches Some(cs) ==> utf16le_string(slice@) == Some(cs@),
{
    let units = read_utf16_units(slice);
    let ghost us = utf16_units(slice@);
    let mut chars: Vec<char> = Vec::new();
    let mut j: usize = 0;
    let n = units.len();
    proof {
        assert(us.skip(0) =~= us);
        match utf16_decode(us) {
            Some(rest) => {
                assert(chars@ + rest =~= rest);
            },
            None => {},
        }
    }
    while j < n
        invariant
            us == utf16_units(slice@),
            n == us.len(),
            units@ == us,
            0 <= j <= n,
            (utf16_decode(us) is Some) == (utf16_decode(us.skip(j as int)) is Some),
            utf16_decode(us.skip(j as int)) matches Some(rest) ==> utf16_decode(us) == Some(
                chars@ + rest,
            ),
        decreases n - j,
    {
        let ghost tail = us.skip(j as int);
        proof {
            assert(tail[0] == us[j as int]);
            assert(tail.skip(1) =~= us.skip(j + 1));
        }
        let ghost prev_chars = chars@;
        let w = units[j];
        if w < 0xD800 || w >= 0xE000 {
            let c = match char::from_u32(w as u32) {
                Some(c) => c,
                None => unreached(),
            };
            proof {
                char_u32_cast(c, w as u32);
                match utf16_decode(us.skip(j + 1)) {
                    Some(rest) => {
                        assert(utf16_decode(tail) == Some(seq![c] + rest));
                        assert(prev_chars + (seq![c] + rest) =~= (prev_chars + seq![c]) + rest);
                    },
                    None => {},
                }
            }
            chars.push(c);
            proof {
                assert(chars@ =~= prev_chars + seq![c]);
            }
            j = j + 1;
        } else if w < 0xDC00 && j + 1 < n && 0xDC00 <= units[j + 1] && units[j + 1] < 0xE000 {
            let low = units[j + 1];
            let cp: u32 = 0x10000 + ((w as u32) - 0xD800) * 0x400 + ((low as u32) - 0xDC00);
            let c = match char::from_u32(cp) {
                Some(c) => c,
                None => unreached(),
            };
            proof {
                assert(tail.skip(2) =~= us.skip(j + 2));
                assert(tail[1] == us[j + 1]);
                char_u32_cast(c, cp);
                match utf16_decode(us.skip(j + 2)) {
                    Some(rest) => {
                        assert(utf16_decode(tail) == Some(seq![c] + rest));
                        assert(prev_chars + (seq![c] + rest) =~= (prev_chars + seq![c]) + rest);
                    },
                    None => {},
                }
            }
            chars.push(c);
            proof {
                assert(chars@ =~= prev_chars + seq![c]);
            }
            j = j + 2;
        } else {
            proof {
                assert(tail.len() == n - j);
                if j + 1 < n {
                    assert(tail[1] == us[j + 1]);
                }
                assert(utf16_decode(tail) is None);
            }
            return None;
        }
    }
    proof {
        assert(us.skip(n as int) =~= Seq::<u16>::empty());
        assert(chars@ + Seq::<char>::empty() =~= chars@);
    }
    Some(chars)
}

/// The three ways the container's declared text encoding is handled:
/// the two common declarations have decoders of this crate, every other
/// label goes to the outside converter.
#[derive(PartialEq, Eq, Structural, Clone, Copy, Debug)]
pub enum EncodingKind {
    Utf8,
    Utf16Le,
    Other,
}

/// The bytes of the canonical label of UTF-8.
pub open spec fn utf8_label() -> Seq<u8> {
    seq![0x55u8, 0x54u8, 0x46u8, 0x2Du8, 0x38u8]
}

/// The bytes of the canonical label of UTF-16, which the container
/// stores little-endian.
pub open spec fn utf16_label() -> Seq<u8> {
    seq![0x55u8, 0x54u8, 0x46u8, 0x2Du8, 0x31u8, 0x36u8]
}

/// How a declared encoding label is handled; a missing label means
/// UTF-8.
pub open spec fn spec_encoding_kind(label: Seq<u8>) -> EncodingKind {
    if label.len() == 0 || label == utf8_label() {
        EncodingKind::Utf8
    } else if label == utf16_label() {
        EncodingKind::Utf16Le
    } else {
        EncodingKind::Other
    }
}

/// Classifies a declared encoding label.
pub fn encoding_kind(label: &[u8]) -> (k: EncodingKind)
    ensures
        k == spec_encoding_kind(label@),
{
    let n = label.len();
    if n == 0 {
        return EncodingKind::Utf8;
    }
    if n == 5 && label[0] == 0x55 && label[1] == 0x54 && label[2] == 0x46 && label[3] == 0x2D
        && label[4] == 0x38 {
        proof {
            assert(label@ =~= utf8_label());
        }
        return EncodingKind::Utf8;
    }
    if n == 6 && label[0] == 0x55 && label[1] == 0x54 && label[2] == 0x46 && label[3] == 0x2D
        && label[4] == 0x31 && label[5] == 0x36 {
        proof {
            assert(label@ =~= utf16_label());
        }
        return EncodingKind::Utf16Le;
    }
    proof {
        if label@ == utf8_label() {
            assert(label@[0] == 0x55 && label@[1] == 0x54 && label@[2] == 0x46 && label@[3]
                == 0x2D && label@[4] == 0x38);
        }
        if label@ == utf16_label() {
            assert(label@[0] == 0x55 && label@[1] == 0x54 && label@[2] == 0x46 && label@[3]
                == 0x2D && label@[4] == 0x31 && label@[5] == 0x36);
        }
    }
    EncodingKind::Other
}

/// The `str::from_utf8` error type, carried through unread.
#[verifier::external_type_specification]
#[verifier::external_body]
pub struct ExUtf8Error(core::str::Utf8Error);

/// Relies on `core::str::from_utf8`: it succeeds exactly on valid UTF-8
/// and then returns the text those bytes encode.
pub assume_specification[ core::str::from_utf8 ](v: &[u8]) -> (r: Result<
    &str,
    core::str::Utf8Error,
>)
    ensures
        (r is Ok) <==> valid_utf8(v@),
        r matches Ok(s) ==> s@ == decode_utf8(v@),
;

/// What the outside converter returns for a label and bytes: `None` for
/// an unknown label, else text that depends on both alone.
pub uninterp spec fn decoded_text(label: Seq<u8>, s: Seq<u8>) -> Option<Seq<char>>;

/// Relies on `encoding_rs::Encoding::for_label`, which resolves a label
/// to an encoding or `None`, and on `Encoding::decode`, whose text
/// depends on the encoding and the bytes alone.
#[verifier::external_body]
fn decode_with_label(label: &[u8], bytes: &[u8]) -> (r: Option<String>)
    ensures
        (r is Some) <==> (decoded_text(label@, bytes@) is Some),
        r matches Some(st) ==> decoded_text(label@, bytes@) == Some(st@),
{
    match encoding_rs::Encoding::for_label(label) {
        None => None,
        Some(e) => {
            let (text, _, _) = e.decode(bytes);
            Some(text.into_owned())
        },
    }
}

/// The text a byte buffer holds under a declared encoding label, or
/// `None` where the bytes do not decode (or, for an outside label, the
/// label is unknown).
pub open spec fn spec_decode_text(label: Seq<u8>, s: Seq<u8>) -> Option<Seq<char>> {
    match spec_encoding_kind(label) {
        EncodingKind::Utf8 => if valid_utf8(s) {
            Some(decode_utf8(s))
        } else {
            Option::<Seq<char>>::None
        },
        EncodingKind::Utf16Le => utf16le_string(s),
        EncodingKind::Other => decoded_text(label, s),
    }
}

/// Decodes record or key text under the container's declared encoding
/// label.
pub fn decode_text(label: &[u8], bytes: &[u8]) -> (r: Option<String>)
    ensures
        (r is Some) <==> (spec_decode_text(label@, bytes@) is Some),
        r matches Some(st) ==> spec_decode_text(label@, bytes@) == Some(st@),
{
    match encoding_kind(label) {
        EncodingKind::Utf8 => match core::str::from_utf8(bytes) {
            Ok(s) => Some(s.to_owned()),
            Err(_) => None,
        },
        EncodingKind::Utf16Le => le_u8_string(bytes),
        EncodingKind::Other => decode_with_label(label, bytes),
    }
}

/// Reads the little-endian sixteen-bit code units of a byte buffer.
fn read_utf16_units(slice: &[u8]) -> (units: Vec<u16>)
    ensures
        units@ == utf16_units(slice@),
{
    let mut units: Vec<u16> = Vec::new();
    let sl = slice.len();
    let n = sl / 2;
    let mut i: usize = 0;
    while i < n
        invariant
            sl == slice@.len(),
            n == sl / 2,
            0 <= i <= n,
            units@ =~= utf16_units(slice@).take(i as int),
        decreases n - i,
    {
        let u: u16 = (slice[2 * i] as u16) + (slice[2 * i + 1] as u16) * 256;
        units.push(u);
        proof {
            assert(units@ =~= utf16_units(slice@).take(i + 1));
        }
        i = i + 1;
    }
    proof {
        assert(units@ =~= utf16_units(slice@));
    }
    units
}

} // verus!
