use vstd::prelude::*;

use crate::bytes::{append_bytes, bytes_range, le_u32_at, push_u32_le, read_u32_le, u32_le};
use crate::chars::append_chars;
use crate::cipher::{decrypt1, key_xor};
use crate::converter::{convert_chain, Converter, Table};
use crate::scene::{key_or_zero, key_view};
use crate::text::{find_char_from, find_from, lemma_find_from};
use crate::utf16::{decode_utf16le_chars, encode_utf16le, utf16le_bytes, utf16le_text};

verus! {

/// Whether `b` starts with the UTF-16LE byte order mark `FF FE`.
pub open spec fn has_bom(b: Seq<u8>) -> bool {
    b.len() >= 2 && b[0] == 0xFF && b[1] == 0xFE
}

/// `b` without its byte order mark, if it has one.
pub open spec fn spec_strip_bom(b: Seq<u8>) -> Seq<u8> {
    if has_bom(b) {
        b.subrange(2, b.len() as int)
    } else {
        b
    }
}

/// `b` after a byte order mark.
pub open spec fn spec_with_bom(b: Seq<u8>) -> Seq<u8> {
    seq![0xFFu8, 0xFEu8] + b
}

/// Whether a Gameexe container says that its payload uses the extra key
/// layer: the `u32` at byte 4 is 1.
pub open spec fn gx_need_key(raw: Seq<u8>) -> bool {
    le_u32_at(raw, 4) == 1
}

/// A Gameexe container: four zero bytes, the key flag as a `u32`, then the
/// encrypted payload.
pub open spec fn gx_container(encrypted: Seq<u8>, need_key: bool) -> Seq<u8> {
    seq![0u8, 0u8, 0u8, 0u8] + u32_le(if need_key { 1 } else { 0 }) + encrypted
}

/// A payload with the extra key layer removed (or added) when the flag says so.
pub open spec fn gx_key_layer(data: Seq<u8>, need_key: bool, key: Option<Seq<u8>>) -> Seq<u8> {
    if need_key {
        key_xor(data, key_or_zero(key))
    } else {
        data
    }
}

/// `b` without its byte order mark, if it has one.
pub fn strip_bom(b: &[u8]) -> (r: Vec<u8>)
    ensures
        r@ == spec_strip_bom(b@),
{
    if b.len() >= 2 && b[0] == 0xFF && b[1] == 0xFE {
        bytes_range(b, 2, b.len() - 2)
    } else {
        bytes_range(b, 0, b.len())
    }
}

/// `b` after a byte order mark.
pub fn with_bom(b: &[u8]) -> (r: Vec<u8>)
    ensures
        r@ == spec_with_bom(b@),
{
    let mut out: Vec<u8> = Vec::new();
    out.push(0xFF);
    out.push(0xFE);
    append_bytes(&mut out, b);
    assert(out@ =~= spec_with_bom(b@));
    out
}

/// Splits a Gameexe container into its key flag and its encrypted payload.
pub fn unpack_gameexe(raw: &[u8]) -> (r: (bool, Vec<u8>))
    requires
        raw@.len() >= 8,
    ensures
        r.0 == gx_need_key(raw@),
        r.1@ == raw@.subrange(8, raw@.len() as int),
{
    let need_key = read_u32_le(raw, 4) == 1;
    (need_key, bytes_range(raw, 8, raw.len() - 8))
}

/// Builds a Gameexe container from an encrypted payload and its key flag.
pub fn pack_gameexe(encrypted: &[u8], need_key: bool) -> (r: Vec<u8>)
    ensures
        r@ == gx_container(encrypted@, need_key),
{
    let mut out: Vec<u8> = Vec::new();
    out.push(0);
    out.push(0);
    out.push(0);
    out.push(0);
    let ghost head = out@;
    if need_key {
        push_u32_le(&mut out, 1);
    } else {
        push_u32_le(&mut out, 0);
    }
    append_bytes(&mut out, encrypted);
    assert(head =~= seq![0u8, 0u8, 0u8, 0u8]);
    out
}

/// Removes (or adds) the extra key layer of a Gameexe payload when the flag says so.
pub fn gameexe_key_layer(data: &[u8], need_key: bool, key: Option<&[u8; 16]>) -> (r: Vec<u8>)
    ensures
        r@ == gx_key_layer(data@, need_key, key_view(key)),
{
    if need_key {
        match key {
            Some(k) => decrypt1(data, k),
            None => {
                let zero: [u8; 16] = [0u8; 16];
                assert(zero@ =~= key_or_zero(None));
                decrypt1(data, &zero)
            },
        }
    } else {
        bytes_range(data, 0, data.len())
    }
}

/// Whether `s` ends with `suffix`.
pub open spec fn ends_with(s: Seq<char>, suffix: Seq<char>) -> bool {
    s.len() >= suffix.len() && s.subrange(s.len() - suffix.len(), s.len() as int) == suffix
}

/// Whether a quoted value names a font, image or sound file, which is kept
/// as it is.
pub open spec fn is_file_name(s: Seq<char>) -> bool {
    ||| ends_with(s, seq!['.', 't', 't', 'f'])
    ||| ends_with(s, seq!['.', 'o', 't', 'f'])
    ||| ends_with(s, seq!['.', 'p', 'n', 'g'])
    ||| ends_with(s, seq!['.', 'b', 'm', 'p'])
    ||| ends_with(s, seq!['.', 'o', 'g', 'g'])
    ||| ends_with(s, seq!['.', 'w', 'a', 'v'])
}

/// The state after reading part of a setting's value: whether inside quotes,
/// the quoted text so far, and the output so far.
pub type QuoteState = (bool, Seq<char>, Seq<char>);

/// One character of a setting's value: a quote opens a quoted text or closes
/// it (the text is written back in quotes, converted unless it is a file
/// name); other characters are collected inside quotes and copied outside.
pub open spec fn gx_quote_step(tables: Seq<Table>, st: QuoteState, ch: char) -> QuoteState {
    if ch == '"' {
        if st.0 {
            let v = if is_file_name(st.1) {
                st.1
            } else {
                convert_chain(tables, st.1)
            };
            (false, Seq::empty(), st.2 + seq!['"'] + v + seq!['"'])
        } else {
            (true, st.1, st.2)
        }
    } else if st.0 {
        (st.0, st.1.push(ch), st.2)
    } else {
        (st.0, st.1, st.2.push(ch))
    }
}

/// The state after the first `n` characters of `rest`.
pub open spec fn gx_quote_run(tables: Seq<Table>, rest: Seq<char>, n: int) -> QuoteState
    decreases n,
{
    if n <= 0 {
        (false, Seq::empty(), Seq::empty())
    } else {
        gx_quote_step(tables, gx_quote_run(tables, rest, n - 1), rest[n - 1])
    }
}

/// A converted setting value; a quoted text left open at the end is dropped.
pub open spec fn gx_value(tables: Seq<Table>, rest: Seq<char>) -> Seq<char> {
    gx_quote_run(tables, rest, rest.len() as int).2
}

/// A converted line: a line that starts with `#` and holds `=` keeps what
/// stands up to the first `=` and has its value converted; any other line is
/// kept.
pub open spec fn gx_line(tables: Seq<Table>, line: Seq<char>) -> Seq<char> {
    let e = find_from(line, '=', 0);
    if e < line.len() && line[0] == '#' {
        line.subrange(0, e + 1) + gx_value(tables, line.subrange(e + 1, line.len() as int))
    } else {
        line
    }
}

/// The converted lines of `text` from `pos`, joined again with `'\n'`.
pub open spec fn gx_text_from(tables: Seq<Table>, text: Seq<char>, pos: int) -> Seq<char>
    decreases text.len() - pos,
{
    if pos < 0 || pos > text.len() {
        Seq::empty()
    } else {
        let e = find_from(text, '\n', pos);
        let line = gx_line(tables, text.subrange(pos, e));
        if e >= text.len() {
            line
        } else {
            proof {
                lemma_find_from(text, '\n', pos);
            }
            line + seq!['\n'] + gx_text_from(tables, text, e + 1)
        }
    }
}

/// The converted settings file: the byte order mark is dropped, the UTF-16LE
/// text is converted line by line, and the result is encoded as UTF-16LE.
pub open spec fn gx_convert(tables: Seq<Table>, ini: Seq<u8>) -> Seq<u8> {
    utf16le_bytes(gx_text_from(tables, utf16le_text(spec_strip_bom(ini)), 0))
}

fn ends_with_chars(s: &[char], a: char, b: char, c: char, d: char) -> (r: bool)
    ensures
        r == ends_with(s@, seq![a, b, c, d]),
{
    let n = s.len();
    if n < 4 {
        return false;
    }
    let r = s[n - 4] == a && s[n - 3] == b && s[n - 2] == c && s[n - 1] == d;
    assert(r ==> s@.subrange(n - 4, n as int) =~= seq![a, b, c, d]);
    assert(s@.subrange(n - 4, n as int) == seq![a, b, c, d] ==> s@[n - 4] == a && s@[n - 3] == b
        && s@[n - 2] == c && s@[n - 1] == d) by {
        if s@.subrange(n - 4, n as int) == seq![a, b, c, d] {
            assert(s@.subrange(n - 4, n as int)[0] == a);
            assert(s@.subrange(n - 4, n as int)[1] == b);
            assert(s@.subrange(n - 4, n as int)[2] == c);
            assert(s@.subrange(n - 4, n as int)[3] == d);
        }
    }
    r
}

fn file_name_like(s: &[char]) -> (r: bool)
    ensures
        r == is_file_name(s@),
{
    ends_with_chars(s, '.', 't', 't', 'f') || ends_with_chars(s, '.', 'o', 't', 'f')
        || ends_with_chars(s, '.', 'p', 'n', 'g') || ends_with_chars(s, '.', 'b', 'm', 'p')
        || ends_with_chars(s, '.', 'o', 'g', 'g') || ends_with_chars(s, '.', 'w', 'a', 'v')
}

/// Converts a setting's value.
fn convert_value(rest: &[char], converter: &Converter) -> (r: Vec<char>)
    ensures
        r@ == gx_value(converter.tables(), rest@),
{
    let ghost tables = converter.tables();
    let mut in_quote = false;
    let mut buf: Vec<char> = Vec::new();
    let mut out: Vec<char> = Vec::new();
    let mut i: usize = 0;
    while i < rest.len()
        invariant
            tables == converter.tables(),
            i <= rest.len(),
            (in_quote, buf@, out@) == gx_quote_run(tables, rest@, i as int),
        decreases rest.len() - i,
    {
        let ch = rest[i];
        if ch == '"' {
            if in_quote {
                let v = if file_name_like(&buf) {
                    crate::chars::chars_range(&buf, 0, buf.len())
                } else {
                    converter.convert_chars(&buf)
                };
                assert(buf@.subrange(0, buf@.len() as int) =~= buf@);
                out.push('"');
                append_chars(&mut out, &v);
                out.push('"');
                buf = Vec::new();
                in_quote = false;
            } else {
                in_quote = true;
            }
        } else if in_quote {
            buf.push(ch);
        } else {
            out.push(ch);
        }
        i = i + 1;
    }
    out
}

/// Converts one line of the settings file.
fn convert_line(line: &[char], converter: &Converter) -> (r: Vec<char>)
    ensures
        r@ == gx_line(converter.tables(), line@),
{
    proof {
        lemma_find_from(line@, '=', 0);
    }
    let e = find_char_from(line, '=', 0);
    if e < line.len() && line[0] == '#' {
        let mut out = crate::chars::chars_range(line, 0, e + 1);
        let rest = crate::chars::chars_range(line, e + 1, line.len() - e - 1);
        let v = convert_value(&rest, converter);
        append_chars(&mut out, &v);
        out
    } else {
        let r = crate::chars::chars_range(line, 0, line.len());
        assert(line@.subrange(0, line@.len() as int) =~= line@);
        r
    }
}

/// Converts the quoted texts of the settings file `ini_data` (UTF-16LE, with
/// or without a byte order mark): in each line that starts with `#` and holds
/// `=`, every quoted text after the first `=` is converted, except file names
/// of fonts, images and sounds. The result is UTF-16LE without a byte order mark.
pub fn convert_gameexe_text(ini_data: &[u8], converter: &Converter) -> (r: Vec<u8>)
    ensures
        r@ == gx_convert(converter.tables(), ini_data@),
{
    let ghost tables = converter.tables();
    let raw = strip_bom(ini_data);
    let text = decode_utf16le_chars(&raw);
    let mut out: Vec<char> = Vec::new();
    let mut pos: usize = 0;
    loop
        invariant_except_break
            gx_text_from(tables, text@, 0) == out@ + gx_text_from(tables, text@, pos as int),
        invariant
            tables == converter.tables(),
            pos <= text.len(),
        ensures
            gx_text_from(tables, text@, 0) == out@,
        decreases text.len() - pos,
    {
        proof {
            lemma_find_from(text@, '\n', pos as int);
        }
        let e = find_char_from(&text, '\n', pos);
        let line = crate::chars::chars_range(&text, pos, e - pos);
        let conv = convert_line(&line, converter);
        append_chars(&mut out, &conv);
        if e >= text.len() {
            break;
        }
        out.push('\n');
        pos = e + 1;
    }
    encode_utf16le(&out)
}

/// Reading a container gives back the key flag and payload it was built from.
pub proof fn lemma_container_roundtrip(encrypted: Seq<u8>, need_key: bool)
    ensures
        gx_container(encrypted, need_key).len() >= 8,
        gx_need_key(gx_container(encrypted, need_key)) == need_key,
        gx_container(encrypted, need_key).subrange(
            8,
            gx_container(encrypted, need_key).len() as int,
        ) == encrypted,
{
    let c = gx_container(encrypted, need_key);
    let flag: u32 = if need_key { 1 } else { 0 };
    crate::bytes::lemma_u32_le_roundtrip(flag);
    let head = seq![0u8, 0u8, 0u8, 0u8] + u32_le(flag);
    assert(c == head + encrypted);
    crate::bytes::lemma_le_u32_at_append(u32_le(flag), encrypted, 0);
    crate::bytes::lemma_le_u32_at_append(u32_le(flag) + encrypted, seq![0u8, 0u8, 0u8, 0u8], 0);
    assert(seq![0u8, 0u8, 0u8, 0u8] + (u32_le(flag) + encrypted) =~= c);
    assert(c.subrange(8, c.len() as int) =~= encrypted);
}

/// Dropping the byte order mark after adding one gives back the bytes.
pub proof fn lemma_bom_roundtrip(b: Seq<u8>)
    ensures
        spec_strip_bom(spec_with_bom(b)) == b,
{
    assert(spec_with_bom(b).subrange(2, spec_with_bom(b).len() as int) =~= b);
}

/// Applying the key layer twice gives back the payload.
pub proof fn lemma_gameexe_key_layer_involution(data: Seq<u8>, need_key: bool, key: Option<Seq<u8>>)
    ensures
        gx_key_layer(gx_key_layer(data, need_key, key), need_key, key) == data,
{
    if need_key {
        crate::cipher::lemma_key_xor_involution(data, key_or_zero(key));
    }
}

/// Exactly one leading byte order mark is dropped: bytes that do not start
/// with one read the same with or without a mark in front.
pub proof fn lemma_strip_one_bom(b: Seq<u8>)
    requires
        !has_bom(b),
    ensures
        spec_strip_bom(spec_with_bom(b)) == spec_strip_bom(b),
{
    lemma_bom_roundtrip(b);
}

/// Giving no key is the same as giving the all-zero key, and without the key
/// flag the key changes nothing.
pub proof fn lemma_gameexe_default_key(data: Seq<u8>, need_key: bool, key: Option<Seq<u8>>)
    ensures
        gx_key_layer(data, need_key, None) == gx_key_layer(
            data,
            need_key,
            Some(Seq::new(16, |j: int| 0u8)),
        ),
        !need_key ==> gx_key_layer(data, need_key, key) == data,
{
}

} // verus!
