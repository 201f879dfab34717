//! The header decoder: the length-prefixed metadata block is checksum
//! verified, decoded as UTF-16 little-endian text, and parsed as a
//! tolerant list of `name="value"` attributes into a typed metadata
//! record. The parsed format version selects the number width and the
//! descriptor layout for every later section.

use vstd::prelude::*;
use crate::checksum::adler32_of;
use crate::error::MdxError;
use crate::text::utf16le_string;
use crate::util::{be_value, le_value};

verus! {

/// A word character of the attribute grammar: an ASCII letter, a digit
/// or the underscore.
pub open spec fn is_word_char(c: char) -> bool {
    let u = c as u32;
    (0x61 <= u && u <= 0x7A) || (0x41 <= u && u <= 0x5A) || (0x30 <= u && u <= 0x39) || u == 0x5F
}

/// The length of the maximal run of word characters at the front.
pub open spec fn word_len(s: Seq<char>) -> nat
    decreases s.len(),
{
    if s.len() == 0 || !is_word_char(s[0]) {
        0
    } else {
        1 + word_len(s.skip(1))
    }
}

/// The word run is no longer than the text.
pub proof fn lemma_word_len_bound(s: Seq<char>)
    ensures
        word_len(s) <= s.len(),
    decreases s.len(),
{
    if s.len() != 0 && is_word_char(s[0]) {
        lemma_word_len_bound(s.skip(1));
    }
}

/// A scan that stops at the first non-word character finds the word
/// run's length.
pub proof fn lemma_word_len_is(s: Seq<char>, k: int)
    requires
        0 <= k <= s.len(),
        forall|j: int| 0 <= j < k ==> is_word_char(s[j]),
        k == s.len() || !is_word_char(s[k]),
    ensures
        word_len(s) == k,
    decreases s.len(),
{
    if k == 0 {
    } else {
        assert(is_word_char(s[0]));
        lemma_word_len_is(s.skip(1), k - 1);
    }
}

/// The index of the first double quote, or minus one if there is none.
pub open spec fn find_quote(s: Seq<char>) -> int
    decreases s.len(),
{
    if s.len() == 0 {
        -1
    } else if s[0] == '"' {
        0
    } else {
        let r = find_quote(s.skip(1));
        if r < 0 {
            -1
        } else {
            1 + r
        }
    }
}

/// The first double quote lies inside the text.
pub proof fn lemma_find_quote_bound(s: Seq<char>)
    ensures
        -1 <= find_quote(s) < s.len(),
        find_quote(s) >= 0 ==> s[find_quote(s)] == '"',
    decreases s.len(),
{
    if s.len() != 0 && s[0] != '"' {
        lemma_find_quote_bound(s.skip(1));
    }
}

/// A scan that stops at the first double quote finds its index.
pub proof fn lemma_find_quote_is(s: Seq<char>, k: int)
    requires
        0 <= k < s.len(),
        forall|j: int| 0 <= j < k ==> s[j] != '"',
        s[k] == '"',
    ensures
        find_quote(s) == k,
    decreases s.len(),
{
    if k > 0 {
        lemma_find_quote_is(s.skip(1), k - 1);
    }
}

/// A text without a double quote has none to find.
pub proof fn lemma_find_quote_none(s: Seq<char>)
    requires
        forall|j: int| 0 <= j < s.len() ==> s[j] != '"',
    ensures
        find_quote(s) == -1,
    decreases s.len(),
{
    if s.len() != 0 {
        lemma_find_quote_none(s.skip(1));
    }
}

/// The attribute pairs of the header text, scanned left to right: each
/// maximal word run directly followed by `="` opens a value that runs
/// to the next double quote; anything else is skipped. An unterminated
/// value is skipped as text.
pub open spec fn attributes(s: Seq<char>) -> Seq<(Seq<char>, Seq<char>)>
    decreases s.len(),
    via attributes_decreases
{
    if s.len() == 0 {
        Seq::empty()
    } else if !is_word_char(s[0]) {
        attributes(s.skip(1))
    } else {
        let w = word_len(s) as int;
        if w + 1 < s.len() && s[w] == '=' && s[w + 1] == '"' {
            let rest = s.skip(w + 2);
            let q = find_quote(rest);
            if q >= 0 {
                seq![(s.take(w), rest.take(q))] + attributes(rest.skip(q + 1))
            } else {
                attributes(s.skip(w))
            }
        } else {
            attributes(s.skip(w))
        }
    }
}

#[via_fn]
proof fn attributes_decreases(s: Seq<char>) {
    lemma_word_len_bound(s);
    if s.len() != 0 && is_word_char(s[0]) {
        let w = word_len(s) as int;
        if w + 1 < s.len() && s[w] == '=' && s[w + 1] == '"' {
            lemma_find_quote_bound(s.skip(w + 2));
        }
    }
}

/// The value of the first attribute with the given name, if any.
pub open spec fn attr_value(attrs: Seq<(Seq<char>, Seq<char>)>, name: Seq<char>) -> Option<
    Seq<char>,
>
    decreases attrs.len(),
{
    if attrs.len() == 0 {
        None
    } else if attrs[0].0 == name {
        Some(attrs[0].1)
    } else {
        attr_value(attrs.skip(1), name)
    }
}

/// The views of parsed attribute pairs.
pub open spec fn views_of(v: Seq<(String, String)>) -> Seq<(Seq<char>, Seq<char>)> {
    Seq::new(v.len(), |i: int| (v[i].0@, v[i].1@))
}

fn word_char(c: char) -> (b: bool)
    ensures
        b == is_word_char(c),
{
    let u = c as u32;
    (0x61 <= u && u <= 0x7A) || (0x41 <= u && u <= 0x5A) || (0x30 <= u && u <= 0x39) || u == 0x5F
}

/// Collects a range of characters into a string.
fn range_to_string(s: &[char], from: usize, to: usize) -> (r: String)
    requires
        from <= to <= s@.len(),
    ensures
        r@ == s@.subrange(from as int, to as int),
{
    let part = vstd::slice::slice_subrange(s, from, to);
    let v = vstd::slice::slice_to_vec(part);
    crate::text::chars_to_string(&v)
}

/// Parses the header text into its attribute pairs, in order.
pub fn parse_attributes(s: &[char]) -> (r: Vec<(String, String)>)
    ensures
        views_of(r@) == attributes(s@),
{
    let n = s.len();
    let mut out: Vec<(String, String)> = Vec::new();
    let mut p: usize = 0;
    proof {
        assert(s@.skip(0) =~= s@);
        assert(views_of(out@) + attributes(s@) =~= attributes(s@));
    }
    while p < n
        invariant
            n == s@.len(),
            0 <= p <= n,
            views_of(out@) + attributes(s@.skip(p as int)) =~= attributes(s@),
        decreases n - p,
    {
        let ghost tail = s@.skip(p as int);
        proof {
            assert(tail[0] == s@[p as int]);
        }
        if !word_char(s[p]) {
            proof {
                assert(tail.skip(1) =~= s@.skip(p + 1));
            }
            p = p + 1;
        } else {
            let mut k: usize = p;
            while k < n && word_char(s[k])
                invariant
                    n == s@.len(),
                    p <= k <= n,
                    forall|j: int| p <= j < k ==> is_word_char(s@[j]),
                decreases n - k,
            {
                k = k + 1;
            }
            let ghost w = (k - p) as int;
            proof {
                assert forall|j: int| 0 <= j < w implies is_word_char(tail[j]) by {
                    assert(tail[j] == s@[p + j]);
                }
                if k < n {
                    assert(tail[w] == s@[k as int]);
                }
                lemma_word_len_is(tail, w);
            }
            if k < n && s[k] == '=' && k + 1 < n && s[k + 1] == '"' {
                let mut m: usize = k + 2;
                while m < n && s[m] != '"'
                    invariant
                        n == s@.len(),
                        k + 2 <= m <= n,
                        forall|j: int| k + 2 <= j < m ==> s@[j] != '"',
                    decreases n - m,
                {
                    m = m + 1;
                }
                let ghost rest = tail.skip(w + 2);
                proof {
                    assert(rest =~= s@.skip(k + 2));
                    assert(tail[w] == s@[k as int] && tail[w + 1] == s@[k + 1]);
                }
                if m < n {
                    let name = range_to_string(s, p, k);
                    let value = range_to_string(s, k + 2, m);
                    let ghost q = m - (k + 2);
                    proof {
                        assert forall|j: int| 0 <= j < q implies rest[j] != '"' by {
                            assert(rest[j] == s@[k + 2 + j]);
                        }
                        assert(rest[q] == s@[m as int]);
                        lemma_find_quote_is(rest, q);
                        assert(tail.take(w) =~= s@.subrange(p as int, k as int));
                        assert(rest.take(q) =~= s@.subrange(k + 2, m as int));
                        assert(rest.skip(q + 1) =~= s@.skip(m + 1));
                        assert(attributes(tail) =~= seq![(tail.take(w), rest.take(q))]
                            + attributes(s@.skip(m + 1)));
                    }
                    let ghost prev_out = out@;
                    out.push((name, value));
                    proof {
                        assert(views_of(out@) =~= views_of(prev_out) + seq![
                            (s@.subrange(p as int, k as int), s@.subrange(k + 2, m as int)),
                        ]);
                        assert(views_of(prev_out) + (seq![
                            (s@.subrange(p as int, k as int), s@.subrange(k + 2, m as int)),
                        ] + attributes(s@.skip(m + 1))) =~= (views_of(prev_out) + seq![
                            (s@.subrange(p as int, k as int), s@.subrange(k + 2, m as int)),
                        ]) + attributes(s@.skip(m + 1)));
                    }
                    p = m + 1;
                } else {
                    proof {
                        assert forall|j: int| 0 <= j < rest.len() implies rest[j] != '"' by {
                            assert(rest[j] == s@[k + 2 + j]);
                        }
                        lemma_find_quote_none(rest);
                        assert(tail.skip(w) =~= s@.skip(k as int));
                    }
                    p = k;
                }
            } else {
                proof {
                    if k + 1 < n {
                        assert(tail[w] == s@[k as int] && tail[w + 1] == s@[k + 1]);
                    } else if k < n {
                        assert(tail[w] == s@[k as int]);
                    }
                    assert(tail.skip(w) =~= s@.skip(k as int));
                }
                p = k;
            }
        }
    }
    proof {
        assert(s@.skip(n as int) =~= Seq::<char>::empty());
        assert(views_of(out@) + Seq::<(Seq<char>, Seq<char>)>::empty() =~= views_of(out@));
    }
    out
}

/// The declared format version, kept as its two numeric parts; the
/// layout of every later section depends only on whether the major
/// part reaches two.
#[derive(PartialEq, Eq, Structural, Clone, Copy, Debug)]
pub struct Version {
    pub major: u32,
    pub minor: u32,
}

impl Version {
    /// Whether the container uses the wide layout: eight-byte numbers,
    /// two-byte text-length prefixes and a terminator byte.
    pub open spec fn spec_is_v2(&self) -> bool {
        self.major >= 2
    }

    #[verifier::when_used_as_spec(spec_is_v2)]
    pub fn is_v2(&self) -> (b: bool)
        ensures
            b == self.spec_is_v2(),
    {
        self.major >= 2
    }

    /// The number width this version selects, in bytes.
    pub open spec fn spec_number_width(&self) -> usize {
        if self.spec_is_v2() {
            8
        } else {
            4
        }
    }

    #[verifier::when_used_as_spec(spec_number_width)]
    pub fn number_width(&self) -> (w: usize)
        ensures
            w == self.spec_number_width(),
    {
        if self.major >= 2 {
            8
        } else {
            4
        }
    }
}

/// An ASCII decimal digit.
pub open spec fn is_digit(c: char) -> bool {
    0x30 <= c as u32 <= 0x39
}

/// The length of the maximal run of digits at the front.
pub open spec fn digit_run(s: Seq<char>) -> nat
    decreases s.len(),
{
    if s.len() == 0 || !is_digit(s[0]) {
        0
    } else {
        1 + digit_run(s.skip(1))
    }
}

/// The run of digits is no longer than the text.
pub proof fn lemma_digit_run_bound(s: Seq<char>)
    ensures
        digit_run(s) <= s.len(),
    decreases s.len(),
{
    if s.len() != 0 && is_digit(s[0]) {
        lemma_digit_run_bound(s.skip(1));
    }
}

/// A scan that stops at the first non-digit finds the run's length.
pub proof fn lemma_digit_run_is(s: Seq<char>, k: int)
    requires
        0 <= k <= s.len(),
        forall|j: int| 0 <= j < k ==> is_digit(s[j]),
        k == s.len() || !is_digit(s[k]),
    ensures
        digit_run(s) == k,
    decreases s.len(),
{
    if k > 0 {
        lemma_digit_run_is(s.skip(1), k - 1);
    }
}

/// The decimal value of a run of digits.
pub open spec fn digits_value(s: Seq<char>) -> int
    decreases s.len(),
{
    if s.len() == 0 {
        0
    } else {
        digits_value(s.drop_last()) * 10 + (s.last() as u32 - 0x30)
    }
}

/// A decimal value clamped into a `u32`.
pub open spec fn sat32(x: int) -> u32 {
    if x > 0xFFFFFFFF {
        0xFFFFFFFFu32
    } else if x < 0 {
        0u32
    } else {
        x as u32
    }
}

/// The version a text declares: the leading digits, then, after a dot,
/// the following digits; anything else is ignored and missing parts
/// are zero. Parts past the largest representable value are clamped.
pub open spec fn spec_parse_version(s: Seq<char>) -> Version {
    let k = digit_run(s) as int;
    let major = sat32(digits_value(s.take(k)));
    if k < s.len() && s[k] == '.' {
        let rest = s.skip(k + 1);
        Version { major, minor: sat32(digits_value(rest.take(digit_run(rest) as int))) }
    } else {
        Version { major, minor: 0 }
    }
}

/// The value of a run of digits is never negative.
proof fn lemma_digits_value_nonneg(s: Seq<char>)
    requires
        forall|j: int| 0 <= j < s.len() ==> is_digit(s[j]),
    ensures
        digits_value(s) >= 0,
    decreases s.len(),
{
    if s.len() != 0 {
        lemma_digits_value_nonneg(s.drop_last());
    }
}

fn digit(c: char) -> (b: bool)
    ensures
        b == is_digit(c),
{
    let u = c as u32;
    0x30 <= u && u <= 0x39
}

/// Reads the decimal value of a range of digits, clamped into a `u32`.
fn parse_digits(s: &[char], from: usize, to: usize) -> (v: u32)
    requires
        from <= to <= s@.len(),
        forall|j: int| from <= j < to ==> is_digit(s@[j]),
    ensures
        v == sat32(digits_value(s@.subrange(from as int, to as int))),
{
    let mut v: u32 = 0;
    let mut i: usize = from;
    proof {
        assert(s@.subrange(from as int, from as int) =~= Seq::<char>::empty());
    }
    while i < to
        invariant
            from <= i <= to <= s@.len(),
            forall|j: int| from <= j < to ==> is_digit(s@[j]),
            v == sat32(digits_value(s@.subrange(from as int, i as int))),
        decreases to - i,
    {
        let ghost cur = s@.subrange(from as int, i as int);
        let ghost nxt = s@.subrange(from as int, i + 1);
        proof {
            assert(nxt.drop_last() =~= cur);
            assert(nxt.last() == s@[i as int]);
            assert forall|j: int| 0 <= j < cur.len() implies is_digit(cur[j]) by {
                assert(cur[j] == s@[from + j]);
            }
            lemma_digits_value_nonneg(cur);
        }
        let d: u32 = (s[i] as u32) - 0x30;
        let wide: u64 = (v as u64) * 10 + (d as u64);
        proof {
            let dv = digits_value(cur);
            if dv > 0xFFFFFFFF {
                assert(digits_value(nxt) == dv * 10 + d);
                assert(dv * 10 + d > 0xFFFFFFFF) by (nonlinear_arith)
                    requires
                        dv > 0xFFFFFFFF,
                        d >= 0,
                ;
            }
        }
        if wide > 0xFFFFFFFF {
            v = 0xFFFFFFFF;
        } else {
            v = wide as u32;
        }
        i = i + 1;
    }
    v
}

/// Parses a declared version text into its numeric parts.
pub fn parse_version(s: &[char]) -> (v: Version)
    ensures
        v == spec_parse_version(s@),
{
    let n = s.len();
    let mut k: usize = 0;
    while k < n && digit(s[k])
        invariant
            n == s@.len(),
            0 <= k <= n,
            forall|j: int| 0 <= j < k ==> is_digit(s@[j]),
        decreases n - k,
    {
        k = k + 1;
    }
    proof {
        lemma_digit_run_is(s@, k as int);
        assert(s@.take(k as int) =~= s@.subrange(0, k as int));
    }
    let major = parse_digits(s, 0, k);
    if k < n && s[k] == '.' {
        let ghost rest = s@.skip(k + 1);
        let mut m: usize = k + 1;
        while m < n && digit(s[m])
            invariant
                n == s@.len(),
                k + 1 <= m <= n,
                forall|j: int| k + 1 <= j < m ==> is_digit(s@[j]),
            decreases n - m,
        {
            m = m + 1;
        }
        proof {
            assert forall|j: int| 0 <= j < m - (k + 1) implies is_digit(rest[j]) by {
                assert(rest[j] == s@[k + 1 + j]);
            }
            if m < n {
                assert(rest[m - (k + 1)] == s@[m as int]);
            }
            lemma_digit_run_is(rest, m - (k + 1));
            assert(rest.take(m - (k + 1)) =~= s@.subrange(k + 1, m as int));
        }
        let minor = parse_digits(s, k + 1, m);
        Version { major, minor }
    } else {
        Version { major, minor: 0 }
    }
}

/// An attribute value, or empty text where the attribute is missing.
pub open spec fn opt_or_empty(o: Option<Seq<char>>) -> Seq<char> {
    match o {
        Some(v) => v,
        None => Seq::empty(),
    }
}

/// Whether an attribute is present with the value `Yes`.
pub open spec fn yes_flag(o: Option<Seq<char>>) -> bool {
    o == Some("Yes"@)
}

/// The numeric value at the front of the declared encryption flag text.
pub open spec fn spec_encrypt_flag(s: Seq<char>) -> u32 {
    sat32(digits_value(s.take(digit_run(s) as int)))
}

/// The container metadata read once from the header: the declared
/// version that governs field widths, the text encoding, the
/// encryption, case and key-stripping flags, and the offset where the
/// key section begins.
pub struct HeaderTag {
    pub file: String,
    pub genversion: Version,
    pub format: String,
    pub keycasesensitive: bool,
    pub stripkey: bool,
    /// The declared encryption flag text: bit zero protects the record
    /// blocks, bit one the key-info section.
    pub encrypted: String,
    pub registerby: String,
    pub encoding: String,
    pub creationdate: String,
    pub compact: bool,
    pub left2right: bool,
    pub datasourceformat: String,
    pub stylesheet: String,
    pub key_block_offset: u64,
    pub record_block_offset: u64,
}

impl HeaderTag {
    /// The numeric encryption flag the header declares.
    pub fn encrypt_flag(&self) -> (f: u32)
        ensures
            f == spec_encrypt_flag(self.encrypted@),
    {
        let chars = crate::text::string_chars(self.encrypted.as_str());
        let s = chars.as_slice();
        let n = s.len();
        let mut k: usize = 0;
        while k < n && digit(s[k])
            invariant
                n == s@.len(),
                0 <= k <= n,
                forall|j: int| 0 <= j < k ==> is_digit(s@[j]),
            decreases n - k,
        {
            k = k + 1;
        }
        proof {
            lemma_digit_run_is(s@, k as int);
            assert(s@.take(k as int) =~= s@.subrange(0, k as int));
        }
        parse_digits(s, 0, k)
    }

    /// Whether the key-info section is protected by the cipher.
    pub fn key_info_encrypted(&self) -> (b: bool)
        ensures
            b == (spec_encrypt_flag(self.encrypted@) & 2 != 0),
    {
        let f = self.encrypt_flag();
        f & 2 != 0
    }

    /// Whether the record blocks are declared protected.
    pub fn record_encrypted(&self) -> (b: bool)
        ensures
            b == (spec_encrypt_flag(self.encrypted@) & 1 != 0),
    {
        let f = self.encrypt_flag();
        f & 1 != 0
    }
}

/// Step-by-step construction of a `HeaderTag`, for callers that gather
/// the metadata a field at a time.
pub struct HeaderTagBuilder {
    pub file: String,
    pub genversion: Version,
    pub format: String,
    pub keycasesensitive: bool,
    pub stripkey: bool,
    pub encrypted: String,
    pub registerby: String,
    pub encoding: String,
    pub compact: bool,
    pub left2right: bool,
    pub datasourceformat: String,
    pub stylesheet: String,
    pub key_block_offset: u64,
    pub record_block_offset: u64,
}

impl Default for HeaderTagBuilder {
    /// An empty builder: empty texts, version zero, all flags off.
    fn default() -> (r: Self)
        ensures
            r.file@ == Seq::<char>::empty(),
            r.genversion == (Version { major: 0, minor: 0 }),
            r.format@ == Seq::<char>::empty(),
            !r.keycasesensitive,
            !r.stripkey,
            r.encrypted@ == Seq::<char>::empty(),
            r.registerby@ == Seq::<char>::empty(),
            r.encoding@ == Seq::<char>::empty(),
            !r.compact,
            !r.left2right,
            r.datasourceformat@ == Seq::<char>::empty(),
            r.stylesheet@ == Seq::<char>::empty(),
            r.key_block_offset == 0,
            r.record_block_offset == 0,
    {
        HeaderTagBuilder {
            file: String::new(),
            genversion: Version { major: 0, minor: 0 },
            format: String::new(),
            keycasesensitive: false,
            stripkey: false,
            encrypted: String::new(),
            registerby: String::new(),
            encoding: String::new(),
            compact: false,
            left2right: false,
            datasourceformat: String::new(),
            stylesheet: String::new(),
            key_block_offset: 0,
            record_block_offset: 0,
        }
    }
}

impl HeaderTagBuilder {
    pub fn file(&mut self, file: String)
        ensures
            *final(self) == (HeaderTagBuilder { file: file, ..*old(self) }),
    {
        self.file = file;
    }

    pub fn genversion(&mut self, genversion: Version)
        ensures
            *final(self) == (HeaderTagBuilder { genversion: genversion, ..*old(self) }),
    {
        self.genversion = genversion;
    }

    pub fn format(&mut self, format: String)
        ensures
            *final(self) == (HeaderTagBuilder { format: format, ..*old(self) }),
    {
        self.format = format;
    }

    pub fn keycasesensitive(&mut self, keycasesensitive: bool)
        ensures
            *final(self) == (HeaderTagBuilder {
                keycasesensitive: keycasesensitive,
                ..*old(self)
            }),
    {
        self.keycasesensitive = keycasesensitive;
    }

    pub fn stripkey(&mut self, stripkey: bool)
        ensures
            *final(self) == (HeaderTagBuilder { stripkey: stripkey, ..*old(self) }),
    {
        self.stripkey = stripkey;
    }

    pub fn encrypted(&mut self, encrypted: String)
        ensures
            *final(self) == (HeaderTagBuilder { encrypted: encrypted, ..*old(self) }),
    {
        self.encrypted = encrypted;
    }

    pub fn registerby(&mut self, registerby: String)
        ensures
            *final(self) == (HeaderTagBuilder { registerby: registerby, ..*old(self) }),
    {
        self.registerby = registerby;
    }

    pub fn encoding(&mut self, encoding: String)
        ensures
            *final(self) == (HeaderTagBuilder { encoding: encoding, ..*old(self) }),
    {
        self.encoding = encoding;
    }

    pub fn compact(&mut self, compact: bool)
        ensures
            *final(self) == (HeaderTagBuilder { compact: compact, ..*old(self) }),
    {
        self.compact = compact;
    }

    pub fn left2right(&mut self, left2right: bool)
        ensures
            *final(self) == (HeaderTagBuilder { left2right: left2right, ..*old(self) }),
    {
        self.left2right = left2right;
    }

    pub fn datasourceformat(&mut self, datasourceformat: String)
        ensures
            *final(self) == (HeaderTagBuilder {
                datasourceformat: datasourceformat,
                ..*old(self)
            }),
    {
        self.datasourceformat = datasourceformat;
    }

    pub fn stylesheet(&mut self, stylesheet: String)
        ensures
            *final(self) == (HeaderTagBuilder { stylesheet: stylesheet, ..*old(self) }),
    {
        self.stylesheet = stylesheet;
    }

    pub fn key_block_offset(&mut self, key_block_offset: u64)
        ensures
            *final(self) == (HeaderTagBuilder {
                key_block_offset: key_block_offset,
                ..*old(self)
            }),
    {
        self.key_block_offset = key_block_offset;
    }

    pub fn record_block_offset(&mut self, record_block_offset: u64)
        ensures
            *final(self) == (HeaderTagBuilder {
                record_block_offset: record_block_offset,
                ..*old(self)
            }),
    {
        self.record_block_offset = record_block_offset;
    }

    /// The finished metadata record; the creation date is not tracked
    /// by the builder and is left empty.
    pub fn build(&self) -> (t: HeaderTag)
        ensures
            t.file@ == self.file@,
            t.genversion == self.genversion,
            t.format@ == self.format@,
            t.keycasesensitive == self.keycasesensitive,
            t.stripkey == self.stripkey,
            t.encrypted@ == self.encrypted@,
            t.registerby@ == self.registerby@,
            t.encoding@ == self.encoding@,
            t.creationdate@ == Seq::<char>::empty(),
            t.compact == self.compact,
            t.left2right == self.left2right,
            t.datasourceformat@ == self.datasourceformat@,
            t.stylesheet@ == self.stylesheet@,
            t.key_block_offset == self.key_block_offset,
            t.record_block_offset == self.record_block_offset,
    {
        HeaderTag {
            file: self.file.clone(),
            genversion: self.genversion,
            format: self.format.clone(),
            keycasesensitive: self.keycasesensitive,
            stripkey: self.stripkey,
            encrypted: self.encrypted.clone(),
            registerby: self.registerby.clone(),
            encoding: self.encoding.clone(),
            creationdate: String::new(),
            compact: self.compact,
            left2right: self.left2right,
            datasourceformat: self.datasourceformat.clone(),
            stylesheet: self.stylesheet.clone(),
            key_block_offset: self.key_block_offset,
            record_block_offset: self.record_block_offset,
        }
    }
}

/// Looks up the first attribute with the given name.
fn attr_lookup(attrs: &Vec<(String, String)>, name: &str) -> (r: Option<String>)
    ensures
        (r is Some) <==> (attr_value(views_of(attrs@), name@) is Some),
        r matches Some(st) ==> attr_value(views_of(attrs@), name@) == Some(st@),
{
    let name_s: String = name.to_owned();
    let n = attrs.len();
    let mut i: usize = 0;
    proof {
        assert(views_of(attrs@).skip(0) =~= views_of(attrs@));
    }
    while i < n
        invariant
            n == attrs@.len(),
            0 <= i <= n,
            name_s@ == name@,
            attr_value(views_of(attrs@), name@) == attr_value(
                views_of(attrs@).skip(i as int),
                name@,
            ),
        decreases n - i,
    {
        let ghost tail = views_of(attrs@).skip(i as int);
        proof {
            assert(tail[0] == (attrs@[i as int].0@, attrs@[i as int].1@));
            assert(tail.skip(1) =~= views_of(attrs@).skip(i + 1));
        }
        if attrs[i].0 == name_s {
            return Some(attrs[i].1.clone());
        }
        i = i + 1;
    }
    proof {
        assert(views_of(attrs@).skip(n as int) =~= Seq::<(Seq<char>, Seq<char>)>::empty());
    }
    None
}

/// The attribute's text, or empty text where it is missing.
fn attr_string(attrs: &Vec<(String, String)>, name: &str) -> (r: String)
    ensures
        r@ == opt_or_empty(attr_value(views_of(attrs@), name@)),
{
    match attr_lookup(attrs, name) {
        Some(v) => v,
        None => String::new(),
    }
}

/// Whether the attribute is present with the value `Yes`.
fn attr_yes(attrs: &Vec<(String, String)>, name: &str) -> (r: bool)
    ensures
        r == yes_flag(attr_value(views_of(attrs@), name@)),
{
    match attr_lookup(attrs, name) {
        Some(v) => {
            let yes: String = "Yes".to_owned();
            v == yes
        },
        None => false,
    }
}

/// The declared header length: the container's first four bytes,
/// big-endian.
pub open spec fn spec_header_len(data: Seq<u8>) -> int {
    be_value(data.subrange(0, 4))
}

/// Whether the container starts with a well-formed header: the length
/// prefix fits, the little-endian checksum after the header bytes
/// matches them, and the header bytes (their closing double-null pair
/// stripped) decode as UTF-16 text.
pub open spec fn spec_header_ok(data: Seq<u8>) -> bool {
    let l = spec_header_len(data);
    &&& data.len() >= 8
    &&& l >= 2
    &&& 8 + l <= data.len()
    &&& adler32_of(data.subrange(4, 4 + l)) == le_value(data.subrange(4 + l, 8 + l))
    &&& utf16le_string(data.subrange(4, 4 + l - 2)) is Some
}

/// The header's attribute text.
pub open spec fn spec_header_text(data: Seq<u8>) -> Seq<char> {
    opt_or_empty(utf16le_string(data.subrange(4, 4 + spec_header_len(data) - 2)))
}

/// The header's attribute pairs.
pub open spec fn spec_header_attrs(data: Seq<u8>) -> Seq<(Seq<char>, Seq<char>)> {
    attributes(spec_header_text(data))
}

/// Decodes the container header: verifies the length prefix and the
/// checksum, decodes the UTF-16 attribute text, and builds the typed
/// metadata record. The key section starts right after the checksum.
pub fn decode_header(data: &[u8]) -> (r: Result<HeaderTag, MdxError>)
    ensures
        (r is Ok) <==> spec_header_ok(data@),
        r matches Err(e) ==> e == MdxError::FormatError,
        r matches Ok(tag) ==> {
            let attrs = spec_header_attrs(data@);
            &&& tag.file@ == Seq::<char>::empty()
            &&& tag.genversion == spec_parse_version(
                opt_or_empty(attr_value(attrs, "GeneratedByEngineVersion"@)),
            )
            &&& tag.format@ == opt_or_empty(attr_value(attrs, "Format"@))
            &&& tag.keycasesensitive == yes_flag(attr_value(attrs, "KeyCaseSensitive"@))
            &&& tag.stripkey == yes_flag(attr_value(attrs, "StripKey"@))
            &&& tag.encrypted@ == opt_or_empty(attr_value(attrs, "Encrypted"@))
            &&& tag.registerby@ == opt_or_empty(attr_value(attrs, "RegisterBy"@))
            &&& tag.encoding@ == opt_or_empty(attr_value(attrs, "Encoding"@))
            &&& tag.creationdate@ == opt_or_empty(attr_value(attrs, "CreationDate"@))
            &&& tag.compact == yes_flag(attr_value(attrs, "Compact"@))
            &&& tag.left2right == yes_flag(attr_value(attrs, "Left2Right"@))
            &&& tag.datasourceformat@ == opt_or_empty(attr_value(attrs, "DataSourceFormat"@))
            &&& tag.stylesheet@ == opt_or_empty(attr_value(attrs, "StyleSheet"@))
            &&& tag.key_block_offset == 8 + spec_header_len(data@)
            &&& tag.record_block_offset == 0
        },
{
    let dl = data.len();
    if dl < 8 {
        return Err(MdxError::FormatError);
    }
    let l32 = crate::util::be_bytes_unpack(data);
    proof {
        crate::util::lemma_be_value_bound(data@.subrange(0, 4));
    }
    if l32 < 2 {
        return Err(MdxError::FormatError);
    }
    if (l32 as u64) + 8 > (dl as u64) {
        return Err(MdxError::FormatError);
    }
    let l = l32 as usize;
    let hdr = vstd::slice::slice_subrange(data, 4, 4 + l);
    let check = vstd::slice::slice_subrange(data, 4 + l, 8 + l);
    let hv = vstd::slice::slice_to_vec(hdr);
    proof {
        assert(hv@ =~= data@.subrange(4, 4 + l as int));
        assert(check@.subrange(0, 4) =~= data@.subrange(4 + l as int, 8 + l as int));
    }
    if !crate::checksum::adler32_checksum(&hv, check, false) {
        return Err(MdxError::FormatError);
    }
    let stripped = vstd::slice::slice_subrange(hdr, 0, l - 2);
    proof {
        assert(stripped@ =~= data@.subrange(4, 4 + l as int - 2));
    }
    let chars = match crate::text::utf16_chars(stripped) {
        Some(cs) => cs,
        None => {
            return Err(MdxError::FormatError);
        },
    };
    let attrs = parse_attributes(chars.as_slice());
    let version = match attr_lookup(&attrs, "GeneratedByEngineVersion") {
        Some(vs) => {
            let vchars = crate::text::string_chars(vs.as_str());
            parse_version(vchars.as_slice())
        },
        None => {
            proof {
                let e = Seq::<char>::empty();
                assert(e.take(digit_run(e) as int) =~= e);
            }
            Version { major: 0, minor: 0 }
        },
    };
    let tag = HeaderTag {
        file: String::new(),
        genversion: version,
        format: attr_string(&attrs, "Format"),
        keycasesensitive: attr_yes(&attrs, "KeyCaseSensitive"),
        stripkey: attr_yes(&attrs, "StripKey"),
        encrypted: attr_string(&attrs, "Encrypted"),
        registerby: attr_string(&attrs, "RegisterBy"),
        encoding: attr_string(&attrs, "Encoding"),
        creationdate: attr_string(&attrs, "CreationDate"),
        compact: attr_yes(&attrs, "Compact"),
        left2right: attr_yes(&attrs, "Left2Right"),
        datasourceformat: attr_string(&attrs, "DataSourceFormat"),
        stylesheet: attr_string(&attrs, "StyleSheet"),
        key_block_offset: 8 + (l32 as u64),
        record_block_offset: 0,
    };
    Ok(tag)
}

} // verus!
