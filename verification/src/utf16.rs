use vstd::prelude::*;

use crate::chars::string_of;

verus! {

/// The UTF-16 code units of one character.
pub open spec fn char_units(c: char) -> Seq<u16> {
    let v = c as u32;
    if v < 0x10000 {
        seq![v as u16]
    } else {
        let w = v - 0x10000;
        seq![(0xD800 + w / 0x400) as u16, (0xDC00 + w % 0x400) as u16]
    }
}

/// The UTF-16 code units of a text (`str::encode_utf16`).
pub open spec fn utf16_encode(s: Seq<char>) -> Seq<u16>
    decreases s.len(),
{
    if s.len() == 0 {
        Seq::empty()
    } else {
        utf16_encode(s.drop_last()) + char_units(s.last())
    }
}

pub open spec fn is_high_surrogate(u: u16) -> bool {
    0xD800 <= u <= 0xDBFF
}

pub open spec fn is_low_surrogate(u: u16) -> bool {
    0xDC00 <= u <= 0xDFFF
}

/// The character of a surrogate pair.
pub open spec fn pair_value(hi: u16, lo: u16) -> u32 {
    (0x10000 + (hi - 0xD800) * 0x400 + (lo - 0xDC00)) as u32
}

/// Lossy UTF-16 decoding (`String::from_utf16_lossy`): a unit outside the
/// surrogate range is its own character, a high surrogate followed by a low
/// one is one character, and any other surrogate becomes U+FFFD.
pub open spec fn utf16_decode(u: Seq<u16>) -> Seq<char>
    decreases u.len(),
{
    if u.len() == 0 {
        Seq::empty()
    } else if !(0xD800 <= u[0] <= 0xDFFF) {
        seq![(u[0] as u32) as char] + utf16_decode(u.drop_first())
    } else if is_high_surrogate(u[0]) && u.len() >= 2 && is_low_surrogate(u[1]) {
        seq![pair_value(u[0], u[1]) as char] + utf16_decode(u.subrange(2, u.len() as int))
    } else {
        seq!['\u{FFFD}'] + utf16_decode(u.drop_first())
    }
}

/// The little-endian bytes of a sequence of 16-bit units.
pub open spec fn units_le_bytes(u: Seq<u16>) -> Seq<u8> {
    Seq::new(
        2 * u.len(),
        |j: int|
            if j % 2 == 0 {
                (u[j / 2] % 256) as u8
            } else {
                (u[j / 2] / 256) as u8
            },
    )
}

/// The 16-bit little-endian units of a byte sequence; an odd last byte is
/// left out (`chunks_exact(2)`).
pub open spec fn le_units(b: Seq<u8>) -> Seq<u16> {
    Seq::new(b.len() / 2, |j: int| (b[2 * j] + 256 * b[2 * j + 1]) as u16)
}

/// The UTF-16LE encoding of a text.
pub open spec fn utf16le_bytes(s: Seq<char>) -> Seq<u8> {
    units_le_bytes(utf16_encode(s))
}

/// The text that lossy UTF-16LE decoding gives for `b`.
pub open spec fn utf16le_text(b: Seq<u8>) -> Seq<char> {
    utf16_decode(le_units(b))
}

/// The character with scalar value `v` (`char::from_u32`).
#[verifier::external_body]
fn char_from_scalar(v: u32) -> (c: char)
    requires
        v < 0xD800 || (0xE000 <= v <= 0x10FFFF),
    ensures
        c == v as char,
        c as u32 == v,
{
    char::from_u32(v).unwrap()
}

pub proof fn lemma_utf16_encode_append(a: Seq<char>, b: Seq<char>)
    ensures
        utf16_encode(a + b) == utf16_encode(a) + utf16_encode(b),
    decreases b.len(),
{
    if b.len() == 0 {
        assert(a + b =~= a);
    } else {
        assert((a + b).drop_last() =~= a + b.drop_last());
        assert((a + b).last() == b.last());
        lemma_utf16_encode_append(a, b.drop_last());
    }
}

pub proof fn lemma_units_le_bytes_append(a: Seq<u16>, b: Seq<u16>)
    ensures
        units_le_bytes(a + b) == units_le_bytes(a) + units_le_bytes(b),
{
    let l = units_le_bytes(a + b);
    let r = units_le_bytes(a) + units_le_bytes(b);
    assert forall|j: int| 0 <= j < l.len() implies l[j] == r[j] by {
        if j < 2 * a.len() {
            assert((a + b)[j / 2] == a[j / 2]);
        } else {
            let k = j - 2 * a.len();
            assert(j / 2 - a.len() == k / 2);
            assert(j % 2 == k % 2);
            assert((a + b)[j / 2] == b[k / 2]);
        }
    }
    assert(l =~= r);
}

pub proof fn lemma_le_units_of_le_bytes(u: Seq<u16>)
    ensures
        le_units(units_le_bytes(u)) == u,
{
    let b = units_le_bytes(u);
    assert forall|j: int| 0 <= j < u.len() implies le_units(b)[j] == u[j] by {
        assert((2 * j) / 2 == j);
        assert((2 * j + 1) / 2 == j);
        assert((2 * j) % 2 == 0);
        assert((2 * j + 1) % 2 == 1);
        assert(b[2 * j] == (u[j] % 256) as u8);
        assert(b[2 * j + 1] == (u[j] / 256) as u8);
    }
    assert(le_units(b) =~= u);
}

/// The units of one character decode back to it, whatever follows.
pub proof fn lemma_decode_char_units(c: char, rest: Seq<u16>)
    ensures
        utf16_decode(char_units(c) + rest) == seq![c] + utf16_decode(rest),
{
    let v = c as u32;
    vstd::utf8::char_is_scalar(c);
    vstd::utf8::char_u32_cast(c, v);
    let u = char_units(c) + rest;
    if v < 0x10000 {
        assert(u[0] == v as u16);
        assert((u[0] as u32) == v);
        assert(u.drop_first() =~= rest);
    } else {
        let w = v - 0x10000;
        let hi = (0xD800 + w / 0x400) as u16;
        let lo = (0xDC00 + w % 0x400) as u16;
        assert(w < 0x100000);
        assert(w / 0x400 < 0x400);
        assert(u[0] == hi);
        assert(u[1] == lo);
        assert(pair_value(hi, lo) == v);
        assert(u.subrange(2, u.len() as int) =~= rest);
    }
}

/// Decoding reverses encoding.
pub proof fn lemma_utf16_decode_encode(s: Seq<char>)
    ensures
        utf16_decode(utf16_encode(s)) == s,
    decreases s.len(),
{
    if s.len() > 0 {
        let first = seq![s[0]];
        let rest = s.drop_first();
        assert(first + rest =~= s);
        lemma_utf16_encode_append(first, rest);
        assert(first.drop_last() =~= Seq::<char>::empty());
        assert(utf16_encode(first) == utf16_encode(Seq::<char>::empty()) + char_units(s[0]));
        assert(utf16_encode(first) =~= char_units(s[0]));
        lemma_decode_char_units(s[0], utf16_encode(rest));
        lemma_utf16_decode_encode(rest);
    } else {
        assert(utf16_encode(s) =~= Seq::<u16>::empty());
        assert(s =~= Seq::<char>::empty());
    }
}

/// Reading a text back from its UTF-16LE encoding gives the text.
pub proof fn lemma_utf16le_roundtrip(s: Seq<char>)
    ensures
        utf16le_text(utf16le_bytes(s)) == s,
{
    lemma_le_units_of_le_bytes(utf16_encode(s));
    lemma_utf16_decode_encode(s);
}

/// Appends the little-endian bytes of `u` to `out`.
fn push_unit(out: &mut Vec<u8>, u: u16)
    ensures
        final(out)@ == old(out)@ + units_le_bytes(seq![u]),
{
    let ghost before = out@;
    out.push((u % 256) as u8);
    out.push((u / 256) as u8);
    assert(out@ =~= before + units_le_bytes(seq![u]));
}

/// The UTF-16LE encoding of `s`.
pub fn encode_utf16le(s: &[char]) -> (out: Vec<u8>)
    ensures
        out@ == utf16le_bytes(s@),
{
    let mut out: Vec<u8> = Vec::new();
    let mut i: usize = 0;
    proof {
        assert(s@.take(0) =~= Seq::<char>::empty());
        assert(units_le_bytes(Seq::<u16>::empty()) =~= Seq::<u8>::empty());
    }
    while i < s.len()
        invariant
            i <= s.len(),
            out@ == utf16le_bytes(s@.take(i as int)),
        decreases s.len() - i,
    {
        let c = s[i];
        let v = c as u32;
        let ghost before = out@;
        proof {
            vstd::utf8::char_is_scalar(c);
            assert(s@.take(i + 1).drop_last() =~= s@.take(i as int));
            assert(s@.take(i + 1).last() == c);
            lemma_units_le_bytes_append(utf16_encode(s@.take(i as int)), char_units(c));
        }
        if v < 0x10000 {
            push_unit(&mut out, v as u16);
            assert(char_units(c) == seq![v as u16]);
        } else {
            let w = v - 0x10000;
            let hi = (0xD800 + w / 0x400) as u16;
            let lo = (0xDC00 + w % 0x400) as u16;
            push_unit(&mut out, hi);
            push_unit(&mut out, lo);
            proof {
                assert(char_units(c) =~= seq![hi] + seq![lo]);
                lemma_units_le_bytes_append(seq![hi], seq![lo]);
            }
        }
        i = i + 1;
    }
    assert(s@.take(s.len() as int) =~= s@);
    out
}

/// The number of UTF-16 units of `s` (`encode_utf16().count()`).
pub fn utf16_len(s: &[char]) -> (n: usize)
    requires
        2 * s.len() <= usize::MAX,
    ensures
        n == utf16_encode(s@).len(),
        n <= 2 * s.len(),
{
    let mut n: usize = 0;
    let mut i: usize = 0;
    while i < s.len()
        invariant
            i <= s.len(),
            2 * s.len() <= usize::MAX,
            n == utf16_encode(s@.take(i as int)).len(),
            n <= 2 * i,
        decreases s.len() - i,
    {
        proof {
            assert(s@.take(i + 1).drop_last() =~= s@.take(i as int));
            assert(s@.take(i + 1).last() == s@[i as int]);
        }
        if (s[i] as u32) < 0x10000 {
            n = n + 1;
        } else {
            n = n + 2;
        }
        i = i + 1;
    }
    assert(s@.take(s.len() as int) =~= s@);
    n
}

/// The text of UTF-16LE bytes, decoded lossily (an odd last byte is left out).
pub fn decode_utf16le(data: &[u8]) -> (s: String)
    ensures
        s@ == utf16le_text(data@),
{
    string_of(&decode_utf16le_chars(data))
}

/// The characters of UTF-16LE bytes, decoded lossily.
pub fn decode_utf16le_chars(data: &[u8]) -> (s: Vec<char>)
    ensures
        s@ == utf16le_text(data@),
{
    let ghost units = le_units(data@);
    let n = data.len() / 2;
    let mut out: Vec<char> = Vec::new();
    let mut i: usize = 0;
    proof {
        assert(units.skip(0) =~= units);
    }
    while i < n
        invariant
            n == data.len() / 2,
            units == le_units(data@),
            units.len() == n,
            i <= n,
            utf16_decode(units) == out@ + utf16_decode(units.skip(i as int)),
        decreases n - i,
    {
        let u = (data[2 * i] as u32 + 256 * data[2 * i + 1] as u32) as u16;
        assert(u == units[i as int]);
        let ghost rest = units.skip(i as int);
        assert(rest[0] == u);
        if u < 0xD800 || u > 0xDFFF {
            out.push(char_from_scalar(u as u32));
            assert(rest.drop_first() =~= units.skip(i + 1));
            i = i + 1;
        } else if u <= 0xDBFF && i + 1 < n {
            let u2 = (data[2 * i + 2] as u32 + 256 * data[2 * i + 3] as u32) as u16;
            assert(u2 == units[i + 1]);
            assert(rest[1] == u2);
            if u2 >= 0xDC00 && u2 <= 0xDFFF {
                let v = 0x10000 + (u as u32 - 0xD800) * 0x400 + (u2 as u32 - 0xDC00);
                assert(v == pair_value(u, u2));
                out.push(char_from_scalar(v));
                assert(rest.subrange(2, rest.len() as int) =~= units.skip(i + 2));
                i = i + 2;
            } else {
                out.push('\u{FFFD}');
                assert(rest.drop_first() =~= units.skip(i + 1));
                i = i + 1;
            }
        } else {
            out.push('\u{FFFD}');
            assert(rest.drop_first() =~= units.skip(i + 1));
            i = i + 1;
        }
    }
    assert(units.skip(n as int) =~= Seq::<u16>::empty());
    assert(out@ + Seq::<char>::empty() =~= out@);
    out
}

} // verus!
