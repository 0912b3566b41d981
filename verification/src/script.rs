use vstd::prelude::*;

use crate::bytes::{
    append_bytes, bytes_range, flatten_bytes, lemma_flatten_len_double, lemma_flatten_part,
    lemma_le_u32_at_append, lemma_offset_index_entry, lemma_offset_index_len, lemma_sum_prefix,
    lemma_u32s_le_entry, le_u32_at, offset_index_bytes, push_all, push_offset_index, push_u32_le,
    read_u32_le, sum_ints, u32_le, u32s_le, wrap32,
};
use crate::chars::{chars_of, string_of};
use crate::cipher::{decrypt_string, lemma_string_xor_involution, string_xor};
use crate::utf16::{
    decode_utf16le_chars, encode_utf16le, lemma_utf16le_roundtrip, utf16_encode, utf16le_bytes,
    utf16le_text,
};

verus! {

/// Whether `c` lies in the CJK ranges that mark a string as text to convert:
/// U+3000..U+9FFF, U+F900..U+FAFF, U+FF00..U+FFEF and U+20000..U+2FA1F.
pub open spec fn is_cjk(c: char) -> bool {
    let cp = c as u32;
    ||| 0x3000 <= cp <= 0x9FFF
    ||| 0xF900 <= cp <= 0xFAFF
    ||| 0xFF00 <= cp <= 0xFFEF
    ||| 0x20000 <= cp <= 0x2FA1F
}

pub open spec fn spec_has_cjk(s: Seq<char>) -> bool {
    exists|j: int| 0 <= j < s.len() && #[trigger] is_cjk(s[j])
}

/// Whether `text` holds a CJK character.
pub fn has_cjk(text: &[char]) -> (r: bool)
    ensures
        r == spec_has_cjk(text@),
{
    let mut i: usize = 0;
    while i < text.len()
        invariant
            i <= text.len(),
            forall|j: int| 0 <= j < i ==> !is_cjk(#[trigger] text@[j]),
        decreases text.len() - i,
    {
        let cp = text[i] as u32;
        if (0x3000 <= cp && cp <= 0x9FFF) || (0xF900 <= cp && cp <= 0xFAFF) || (0xFF00 <= cp && cp
            <= 0xFFEF) || (0x20000 <= cp && cp <= 0x2FA1F) {
            assert(is_cjk(text@[i as int]));
            return true;
        }
        i = i + 1;
    }
    false
}

/// Length of the fixed header of a scene script: the header length field and
/// 32 `u32` fields.
pub open spec fn ss_header_size() -> int {
    132
}

/// Field `i` (0..32) of the header of scene script `d`.
pub open spec fn ss_field(d: Seq<u8>, i: int) -> u32 {
    le_u32_at(d, 4 + 4 * i)
}

/// Where the script data that precedes the strings starts (field 0).
pub open spec fn ss_unknown_offset(d: Seq<u8>) -> int {
    ss_field(d, 0) as int
}

/// Where the string index table starts (field 2).
pub open spec fn ss_index_offset(d: Seq<u8>) -> int {
    ss_field(d, 2) as int
}

/// The number of strings (field 3).
pub open spec fn ss_count(d: Seq<u8>) -> int {
    ss_field(d, 3) as int
}

/// Where the string data starts (field 4).
pub open spec fn ss_data_offset(d: Seq<u8>) -> int {
    ss_field(d, 4) as int
}

/// The offset, in UTF-16 units, of string `i`.
pub open spec fn ss_str_offset(d: Seq<u8>, i: int) -> int {
    le_u32_at(d, ss_index_offset(d) + 8 * i) as int
}

/// The length, in UTF-16 units, of string `i`.
pub open spec fn ss_str_len(d: Seq<u8>, i: int) -> int {
    le_u32_at(d, ss_index_offset(d) + 8 * i + 4) as int
}

/// The byte position of string `i`.
pub open spec fn ss_str_start(d: Seq<u8>, i: int) -> int {
    ss_data_offset(d) + 2 * ss_str_offset(d, i)
}

/// The encrypted bytes of string `i`.
pub open spec fn ss_str_bytes(d: Seq<u8>, i: int) -> Seq<u8> {
    d.subrange(ss_str_start(d, i), ss_str_start(d, i) + 2 * ss_str_len(d, i))
}

/// The text of string `i`.
pub open spec fn ss_text(d: Seq<u8>, i: int) -> Seq<char> {
    utf16le_text(string_xor(ss_str_bytes(d, i), ss_str_len(d, i), i))
}

/// The header, the index table and every non-empty string lie inside `d`.
pub open spec fn ss_tables_ok(d: Seq<u8>) -> bool {
    &&& d.len() >= ss_header_size()
    &&& ss_index_offset(d) + 8 * ss_count(d) <= d.len()
    &&& forall|i: int|
        0 <= i < ss_count(d) && #[trigger] ss_str_len(d, i) != 0 ==> ss_str_start(d, i) + 2
            * ss_str_len(d, i) <= d.len()
}

/// The non-empty strings among the first `n` that hold CJK text, with their
/// indices, in index order.
pub open spec fn ss_cjk_texts(d: Seq<u8>, n: int) -> Seq<(int, Seq<char>)>
    decreases n,
{
    if n <= 0 {
        Seq::empty()
    } else {
        let i = n - 1;
        ss_cjk_texts(d, i) + if ss_str_len(d, i) != 0 && spec_has_cjk(ss_text(d, i)) {
            seq![(i, ss_text(d, i))]
        } else {
            Seq::empty()
        }
    }
}

/// The string lengths (in units) of `d`, by index.
pub open spec fn ss_lengths(d: Seq<u8>) -> Seq<int> {
    Seq::new(ss_count(d) as nat, |i: int| ss_str_len(d, i))
}

/// The encrypted string bytes of `d`, by index (empty for an empty string).
pub open spec fn ss_strings(d: Seq<u8>) -> Seq<Seq<u8>> {
    Seq::new(
        ss_count(d) as nat,
        |i: int|
            if ss_str_len(d, i) == 0 {
                Seq::empty()
            } else {
                ss_str_bytes(d, i)
            },
    )
}

/// The encrypted bytes that stand for `text` as string `index`.
pub open spec fn ss_encrypt_text(text: Seq<char>, index: int) -> Seq<u8> {
    string_xor(utf16le_bytes(text), utf16_encode(text).len() as int, index)
}

/// The string table after the replacements `nt` (index and new text), in
/// order; a replacement whose index is past the table is ignored, and a later
/// replacement of an index overrides an earlier one.
pub open spec fn ss_apply_texts(lens: Seq<int>, strs: Seq<Seq<u8>>, nt: Seq<(int, Seq<char>)>) -> (
    Seq<int>,
    Seq<Seq<u8>>,
)
    decreases nt.len(),
{
    if nt.len() == 0 {
        (lens, strs)
    } else {
        let prev = ss_apply_texts(lens, strs, nt.drop_last());
        let idx = nt.last().0;
        let text = nt.last().1;
        if idx < 0 || idx >= prev.0.len() {
            prev
        } else {
            (
                prev.0.update(idx, utf16_encode(text).len() as int),
                prev.1.update(idx, ss_encrypt_text(text, idx)),
            )
        }
    }
}

/// The string table of `d` after the replacements `nt`.
pub open spec fn ss_replaced_table(d: Seq<u8>, nt: Seq<(int, Seq<char>)>) -> (
    Seq<int>,
    Seq<Seq<u8>>,
) {
    ss_apply_texts(ss_lengths(d), ss_strings(d), nt)
}

/// How far the script data moves: from field 0 to right after the new index table.
pub open spec fn ss_shift(d: Seq<u8>) -> int {
    ss_unknown_offset(d) - (ss_header_size() + 8 * ss_count(d))
}

/// Header field `j` of the rebuilt script: field 0 and the even fields from
/// 6 on move with the script data, field 4 points past the script data, the
/// others are kept.
pub open spec fn ss_new_field(d: Seq<u8>, j: int) -> u32 {
    if j == 0 || (j >= 6 && j % 2 == 0) {
        wrap32(ss_field(d, j) - ss_shift(d))
    } else if j == 4 {
        wrap32(d.len() - ss_shift(d))
    } else {
        ss_field(d, j)
    }
}

pub open spec fn ss_new_fields(d: Seq<u8>) -> Seq<u32> {
    Seq::new(32, |j: int| ss_new_field(d, j))
}

/// The rebuilt scene script: header length, new header fields, new index
/// table, the script data from field 0 to the end of `d`, and the strings.
pub open spec fn ss_replaced(d: Seq<u8>, nt: Seq<(int, Seq<char>)>) -> Seq<u8> {
    let t = ss_replaced_table(d, nt);
    u32_le(le_u32_at(d, 0)) + u32s_le(ss_new_fields(d)) + offset_index_bytes(t.0) + d.subrange(
        ss_unknown_offset(d),
        d.len() as int,
    ) + flatten_bytes(t.1)
}

/// The replacements as indices and texts.
pub open spec fn texts_view(nt: Seq<(usize, String)>) -> Seq<(int, Seq<char>)> {
    nt.map_values(|p: (usize, String)| (p.0 as int, p.1@))
}

/// `replace_texts` can rebuild `d`: its tables are sound, the script data
/// start lies inside it, and the new string lengths sum to at most `u32::MAX`.
pub open spec fn ss_replace_ok(d: Seq<u8>, nt: Seq<(int, Seq<char>)>) -> bool {
    &&& ss_tables_ok(d)
    &&& ss_unknown_offset(d) <= d.len()
    &&& sum_ints(ss_replaced_table(d, nt).0) <= u32::MAX
}

pub proof fn lemma_apply_texts_shape(lens: Seq<int>, strs: Seq<Seq<u8>>, nt: Seq<(int, Seq<char>)>)
    requires
        lens.len() == strs.len(),
        forall|t: int| 0 <= t < lens.len() ==> lens[t] >= 0,
    ensures
        ss_apply_texts(lens, strs, nt).0.len() == lens.len(),
        ss_apply_texts(lens, strs, nt).1.len() == lens.len(),
        forall|t: int|
            0 <= t < lens.len() ==> #[trigger] ss_apply_texts(lens, strs, nt).0[t] >= 0,
    decreases nt.len(),
{
    if nt.len() > 0 {
        lemma_apply_texts_shape(lens, strs, nt.drop_last());
    }
}

/// Whether `text` is one of `names`.
pub open spec fn is_listed(names: Seq<String>, text: Seq<char>) -> bool {
    exists|k: int| 0 <= k < names.len() && #[trigger] names[k]@ == text
}

/// The replacement text of an extracted text: a text that is the name of a
/// scene is kept, any other text is converted.
pub open spec fn new_text(names: Seq<String>, tables: Seq<crate::converter::Table>, text: Seq<char>) -> Seq<char> {
    if is_listed(names, text) {
        text
    } else {
        crate::converter::convert_chain(tables, text)
    }
}

fn listed(names: &[String], text: &[char]) -> (r: bool)
    ensures
        r == is_listed(names@, text@),
{
    let mut k: usize = 0;
    while k < names.len()
        invariant
            k <= names.len(),
            forall|t: int| 0 <= t < k ==> (#[trigger] names@[t])@ != text@,
        decreases names.len() - k,
    {
        let name = chars_of(names[k].as_str());
        if crate::chars::chars_eq(&name, text) {
            return true;
        }
        k = k + 1;
    }
    false
}

/// The replacements for extracted texts: each text keeps its index; a text
/// that is one of the scene names `names` is kept, any other is converted.
pub fn convert_texts(
    texts: &[(usize, String)],
    names: &[String],
    converter: &crate::converter::Converter,
) -> (r: Vec<(usize, String)>)
    ensures
        r@.len() == texts@.len(),
        forall|j: int|
            0 <= j < texts@.len() ==> (#[trigger] r@[j]).0 == texts@[j].0 && r@[j].1@ == new_text(
                names@,
                converter.tables(),
                texts@[j].1@,
            ),
{
    let mut out: Vec<(usize, String)> = Vec::new();
    let mut j: usize = 0;
    while j < texts.len()
        invariant
            j <= texts.len(),
            out@.len() == j,
            forall|t: int|
                0 <= t < j ==> (#[trigger] out@[t]).0 == texts@[t].0 && out@[t].1@ == new_text(
                    names@,
                    converter.tables(),
                    texts@[t].1@,
                ),
        decreases texts.len() - j,
    {
        let text = chars_of(texts[j].1.as_str());
        let v = if listed(names, &text) {
            string_of(&text)
        } else {
            converter.convert(texts[j].1.as_str())
        };
        out.push((texts[j].0, v));
        j = j + 1;
    }
    out
}

/// The header of a scene script.
struct SSHeader {
    header_length: u32,
    header_list: Vec<u32>,
}

impl SSHeader {
    spec fn matches(&self, d: Seq<u8>) -> bool {
        &&& self.header_length == le_u32_at(d, 0)
        &&& self.header_list@.len() == 32
        &&& forall|i: int| 0 <= i < 32 ==> #[trigger] self.header_list@[i] == ss_field(d, i)
    }

    fn unknown_offset(&self) -> (r: u32)
        requires
            self.header_list@.len() == 32,
        ensures
            r == self.header_list@[0],
    {
        self.header_list[0]
    }

    fn index_offset(&self) -> (r: u32)
        requires
            self.header_list@.len() == 32,
        ensures
            r == self.header_list@[2],
    {
        self.header_list[2]
    }

    fn count(&self) -> (r: u32)
        requires
            self.header_list@.len() == 32,
        ensures
            r == self.header_list@[3],
    {
        self.header_list[3]
    }

    fn data_offset(&self) -> (r: u32)
        requires
            self.header_list@.len() == 32,
        ensures
            r == self.header_list@[4],
    {
        self.header_list[4]
    }
}

fn parse_ss_header(data: &[u8]) -> (h: SSHeader)
    requires
        data@.len() >= ss_header_size(),
    ensures
        h.matches(data@),
{
    let header_length = read_u32_le(data, 0);
    let mut header_list: Vec<u32> = Vec::new();
    let mut i: usize = 0;
    while i < 32
        invariant
            data@.len() >= ss_header_size(),
            i <= 32,
            header_list@.len() == i,
            forall|t: int| 0 <= t < i ==> #[trigger] header_list@[t] == ss_field(data@, t),
        decreases 32 - i,
    {
        let off = 4 + i * 4;
        header_list.push(read_u32_le(data, off));
        i = i + 1;
    }
    SSHeader { header_length, header_list }
}

/// The offsets and lengths of the index table.
fn read_index(data: &[u8], h: &SSHeader) -> (r: (Vec<usize>, Vec<usize>))
    requires
        ss_tables_ok(data@),
        h.matches(data@),
    ensures
        r.0@.len() == ss_count(data@),
        r.1@.len() == ss_count(data@),
        forall|i: int| 0 <= i < ss_count(data@) ==> #[trigger] r.0@[i] == ss_str_offset(data@, i),
        forall|i: int| 0 <= i < ss_count(data@) ==> #[trigger] r.1@[i] == ss_str_len(data@, i),
{
    let mut offsets: Vec<usize> = Vec::new();
    let mut lengths: Vec<usize> = Vec::new();
    let mut pos = h.index_offset() as usize;
    let count = h.count() as usize;
    let mut k: usize = 0;
    while k < count
        invariant
            ss_tables_ok(data@),
            h.matches(data@),
            count == ss_count(data@),
            k <= count,
            pos == ss_index_offset(data@) + 8 * k,
            offsets@.len() == k,
            lengths@.len() == k,
            forall|i: int| 0 <= i < k ==> #[trigger] offsets@[i] == ss_str_offset(data@, i),
            forall|i: int| 0 <= i < k ==> #[trigger] lengths@[i] == ss_str_len(data@, i),
        decreases count - k,
    {
        assert(pos + 8 <= ss_index_offset(data@) + 8 * ss_count(data@));
        assert(pos + 8 <= data.len());
        let off = read_u32_le(data, pos) as usize;
        let len = read_u32_le(data, pos + 4) as usize;
        offsets.push(off);
        lengths.push(len);
        pos = pos + 8;
        k = k + 1;
    }
    (offsets, lengths)
}

/// The strings of scene script `data` that hold CJK text, with their indices:
/// each non-empty string is decrypted with the key of its index and decoded
/// from UTF-16LE.
pub fn extract_texts(data: &[u8]) -> (r: Vec<(usize, String)>)
    requires
        ss_tables_ok(data@),
    ensures
        r@.map_values(|p: (usize, String)| (p.0 as int, p.1@)) == ss_cjk_texts(
            data@,
            ss_count(data@),
        ),
{
    let header = parse_ss_header(data);
    let (offsets, lengths) = read_index(data, &header);
    let count = header.count() as usize;
    let mut texts: Vec<(usize, String)> = Vec::new();
    let mut i: usize = 0;
    while i < count
        invariant
            ss_tables_ok(data@),
            header.matches(data@),
            count == ss_count(data@),
            offsets@.len() == count,
            lengths@.len() == count,
            forall|t: int| 0 <= t < count ==> #[trigger] offsets@[t] == ss_str_offset(data@, t),
            forall|t: int| 0 <= t < count ==> #[trigger] lengths@[t] == ss_str_len(data@, t),
            i <= count,
            texts@.map_values(|p: (usize, String)| (p.0 as int, p.1@)) == ss_cjk_texts(
                data@,
                i as int,
            ),
        decreases count - i,
    {
        let ghost before = texts@;
        if lengths[i] != 0 {
            assert(ss_str_len(data@, i as int) != 0);
            assert(ss_str_start(data@, i as int) + 2 * ss_str_len(data@, i as int) <= data.len());
            assert(header.header_list@[4] == ss_field(data@, 4));
            let start = header.data_offset() as usize + offsets[i] * 2;
            let byte_len = lengths[i] * 2;
            let raw = bytes_range(data, start, byte_len);
            assert(raw@ == ss_str_bytes(data@, i as int));
            let decrypted = decrypt_string(&raw, lengths[i], i);
            let text = decode_utf16le_chars(&decrypted);
            assert(text@ == ss_text(data@, i as int));
            if has_cjk(&text) {
                texts.push((i, string_of(&text)));
                assert(texts@.map_values(|p: (usize, String)| (p.0 as int, p.1@)) =~= before.map_values(
                    |p: (usize, String)| (p.0 as int, p.1@),
                ) + seq![(i as int, ss_text(data@, i as int))]);
            } else {
                assert(texts@.map_values(|p: (usize, String)| (p.0 as int, p.1@)) =~= before.map_values(
                    |p: (usize, String)| (p.0 as int, p.1@),
                ) + Seq::<(int, Seq<char>)>::empty());
            }
        } else {
            assert(texts@.map_values(|p: (usize, String)| (p.0 as int, p.1@)) =~= before.map_values(
                |p: (usize, String)| (p.0 as int, p.1@),
            ) + Seq::<(int, Seq<char>)>::empty());
        }
        i = i + 1;
    }
    texts
}

/// Whether `ss_tables_ok(data)` holds: the header, the index table and every
/// non-empty string lie inside `data`.
pub fn check_ss_tables(data: &[u8]) -> (r: bool)
    ensures
        r == ss_tables_ok(data@),
{
    if data.len() < 132 {
        return false;
    }
    let header = parse_ss_header(data);
    let idx = header.index_offset() as u64;
    let count = header.count() as u64;
    if idx + 8 * count > data.len() as u64 {
        return false;
    }
    let data_off = header.data_offset() as u64;
    let mut i: u64 = 0;
    while i < count
        invariant
            data@.len() >= ss_header_size(),
            header.matches(data@),
            idx == ss_index_offset(data@),
            count == ss_count(data@),
            data_off == ss_data_offset(data@),
            idx + 8 * count <= data.len(),
            i <= count,
            forall|t: int|
                0 <= t < i && #[trigger] ss_str_len(data@, t) != 0 ==> ss_str_start(data@, t) + 2
                    * ss_str_len(data@, t) <= data.len(),
        decreases count - i,
    {
        let pos = (idx + 8 * i) as usize;
        let off = read_u32_le(data, pos) as u64;
        let len = read_u32_le(data, pos + 4) as u64;
        if len != 0 && data_off + 2 * off + 2 * len > data.len() as u64 {
            assert(ss_str_len(data@, i as int) != 0);
            return false;
        }
        i = i + 1;
    }
    true
}

/// The string table of `data` (lengths and encrypted bytes by index) after
/// the replacements `new_texts`.
fn replaced_table(data: &[u8], header: &SSHeader, new_texts: &[(usize, String)]) -> (r: (
    Vec<usize>,
    Vec<Vec<u8>>,
))
    requires
        ss_tables_ok(data@),
        header.matches(data@),
    ensures
        r.0@.map_values(|x: usize| x as int) == ss_replaced_table(data@, texts_view(new_texts@)).0,
        r.1@.map_values(|v: Vec<u8>| v@) == ss_replaced_table(data@, texts_view(new_texts@)).1,
{
    let (offsets, mut lengths) = read_index(data, header);
    let count = header.count() as usize;
    let mut strings: Vec<Vec<u8>> = Vec::new();
    let mut i: usize = 0;
    while i < count
        invariant
            ss_tables_ok(data@),
            header.matches(data@),
            count == ss_count(data@),
            offsets@.len() == count,
            lengths@.len() == count,
            forall|t: int| 0 <= t < count ==> #[trigger] offsets@[t] == ss_str_offset(data@, t),
            forall|t: int| 0 <= t < count ==> #[trigger] lengths@[t] == ss_str_len(data@, t),
            i <= count,
            strings@.len() == i,
            strings@.map_values(|v: Vec<u8>| v@) == ss_strings(data@).take(i as int),
        decreases count - i,
    {
        let ghost before = strings@;
        let s_i: Vec<u8> = if lengths[i] == 0 {
            Vec::new()
        } else {
            assert(ss_str_len(data@, i as int) != 0);
            assert(ss_str_start(data@, i as int) + 2 * ss_str_len(data@, i as int) <= data.len());
            assert(header.header_list@[4] == ss_field(data@, 4));
            let start = header.data_offset() as usize + offsets[i] * 2;
            let byte_len = lengths[i] * 2;
            bytes_range(data, start, byte_len)
        };
        assert(s_i@ == ss_strings(data@)[i as int]);
        strings.push(s_i);
        assert(strings@ == before.push(s_i));
        assert(strings@.map_values(|v: Vec<u8>| v@) =~= ss_strings(data@).take(i + 1));
        i = i + 1;
    }
    let ghost ntv = texts_view(new_texts@);
    proof {
        assert(ss_strings(data@).take(count as int) =~= ss_strings(data@));
        assert(lengths@.map_values(|x: usize| x as int) =~= ss_lengths(data@));
        assert(ntv.take(0) =~= Seq::<(int, Seq<char>)>::empty());
    }
    let mut k: usize = 0;
    while k < new_texts.len()
        invariant
            ntv == texts_view(new_texts@),
            count == ss_count(data@),
            lengths@.len() == count,
            strings@.len() == count,
            k <= new_texts.len(),
            (lengths@.map_values(|x: usize| x as int), strings@.map_values(|v: Vec<u8>| v@))
                == ss_apply_texts(ss_lengths(data@), ss_strings(data@), ntv.take(k as int)),
        decreases new_texts.len() - k,
    {
        let ghost prev_l = lengths@;
        let ghost prev_s = strings@;
        proof {
            assert(ntv.take(k + 1).drop_last() =~= ntv.take(k as int));
            assert(ntv.take(k + 1).last() == ntv[k as int]);
        }
        let idx = new_texts[k].0;
        if idx < count {
            let text = chars_of(new_texts[k].1.as_str());
            let encoded = encode_utf16le(&text);
            let new_len = encoded.len() / 2;
            assert(new_len == utf16_encode(text@).len());
            let enc = decrypt_string(&encoded, new_len, idx);
            lengths.set(idx, new_len);
            strings.set(idx, enc);
            proof {
                assert(lengths@.map_values(|x: usize| x as int) =~= prev_l.map_values(
                    |x: usize| x as int,
                ).update(idx as int, new_len as int));
                assert(strings@.map_values(|v: Vec<u8>| v@) =~= prev_s.map_values(
                    |v: Vec<u8>| v@,
                ).update(idx as int, ss_encrypt_text(text@, idx as int)));
            }
        }
        k = k + 1;
    }
    proof {
        assert(ntv.take(new_texts.len() as int) =~= ntv);
    }
    (lengths, strings)
}

/// Whether `ss_replace_ok(data, new_texts)` holds, that is whether
/// `replace_texts` can rebuild `data` with `new_texts`.
pub fn replace_texts_ok(data: &[u8], new_texts: &[(usize, String)]) -> (r: bool)
    ensures
        r == ss_replace_ok(data@, texts_view(new_texts@)),
{
    if !check_ss_tables(data) {
        return false;
    }
    let header = parse_ss_header(data);
    if header.unknown_offset() as usize > data.len() {
        return false;
    }
    let (lens, _strings) = replaced_table(data, &header, new_texts);
    let ghost lv = lens@.map_values(|x: usize| x as int);
    proof {
        lemma_apply_texts_shape(ss_lengths(data@), ss_strings(data@), texts_view(new_texts@));
        assert(lv.take(0) =~= Seq::<int>::empty());
    }
    let mut sum: u64 = 0;
    let mut i: usize = 0;
    while i < lens.len()
        invariant
            lv == lens@.map_values(|x: usize| x as int),
            lv == ss_replaced_table(data@, texts_view(new_texts@)).0,
            ss_tables_ok(data@),
            ss_unknown_offset(data@) <= data@.len(),
            forall|t: int| 0 <= t < lv.len() ==> lv[t] >= 0,
            i <= lens.len(),
            sum == sum_ints(lv.take(i as int)),
            sum <= u32::MAX,
        decreases lens.len() - i,
    {
        proof {
            assert(lv.take(i + 1).drop_last() =~= lv.take(i as int));
            assert(lv.take(i + 1).last() == lens@[i as int] as int);
        }
        if lens[i] as u64 > u32::MAX as u64 - sum {
            proof {
                lemma_sum_prefix(lv, i + 1);
            }
            return false;
        }
        sum = sum + lens[i] as u64;
        i = i + 1;
    }
    proof {
        assert(lv.take(lens.len() as int) =~= lv);
    }
    true
}

/// Builds the value of header field `j` of the rebuilt script.
fn new_field(data: &[u8], header: &SSHeader, j: usize) -> (r: u32)
    requires
        ss_tables_ok(data@),
        header.matches(data@),
        ss_unknown_offset(data@) <= data@.len(),
        j < 32,
    ensures
        r == ss_new_field(data@, j as int),
{
    let count = header.count() as u128;
    let list0 = header.unknown_offset() as u128;
    let moved_to = 132 + 8 * count;
    if j == 0 || (j >= 6 && j % 2 == 0) {
        let v = header.header_list[j] as u128 + moved_to + 0x2_0000_0000 - list0;
        proof {
            let x = ss_field(data@, j as int) - ss_shift(data@);
            assert(v == x + 0x2_0000_0000);
            assert((x + 0x2_0000_0000) % 0x1_0000_0000 == x % 0x1_0000_0000) by (nonlinear_arith);
        }
        (v % 0x1_0000_0000) as u32
    } else if j == 4 {
        let v = data.len() as u128 + moved_to - list0;
        (v % 0x1_0000_0000) as u32
    } else {
        header.header_list[j]
    }
}

/// Rebuilds scene script `data` with the strings `new_texts` (index and new
/// text) in place of the old ones: the header keeps its length field, field 0
/// and the even fields from 6 on move with the script data, field 4 points to
/// the strings; a new index table follows, then the script data from field 0
/// to the end of `data`, then every string, encrypted with the key of its
/// index, in index order.
pub fn replace_texts(data: &[u8], new_texts: &[(usize, String)]) -> (out: Vec<u8>)
    requires
        ss_replace_ok(data@, texts_view(new_texts@)),
    ensures
        out@ == ss_replaced(data@, texts_view(new_texts@)),
{
    let ghost d = data@;
    let ghost t = ss_replaced_table(d, texts_view(new_texts@));
    let header = parse_ss_header(data);
    let (lengths, strings) = replaced_table(data, &header, new_texts);
    let ghost lv = lengths@.map_values(|x: usize| x as int);
    let ghost sv = strings@.map_values(|v: Vec<u8>| v@);
    proof {
        lemma_apply_texts_shape(ss_lengths(d), ss_strings(d), texts_view(new_texts@));
    }
    let count = header.count() as usize;
    let mut output: Vec<u8> = Vec::new();
    push_u32_le(&mut output, header.header_length);
    let ghost part1 = output@;
    let mut j: usize = 0;
    proof {
        assert(ss_new_fields(d).take(0) =~= Seq::<u32>::empty());
    }
    while j < 32
        invariant
            ss_tables_ok(d),
            d == data@,
            header.matches(d),
            ss_unknown_offset(d) <= d.len(),
            j <= 32,
            output@ == part1 + u32s_le(ss_new_fields(d).take(j as int)),
        decreases 32 - j,
    {
        let f = new_field(data, &header, j);
        push_u32_le(&mut output, f);
        proof {
            assert(ss_new_fields(d).take(j + 1).drop_last() =~= ss_new_fields(d).take(j as int));
        }
        j = j + 1;
    }
    proof {
        assert(ss_new_fields(d).take(32) =~= ss_new_fields(d));
    }
    let ghost part2 = output@;
    push_offset_index(&mut output, &lengths);
    let list0 = header.unknown_offset() as usize;
    let ss_data = bytes_range(data, list0, data.len() - list0);
    append_bytes(&mut output, &ss_data);
    push_all(&mut output, &strings);
    output
}

/// The text of the last replacement of string `i` in `nt`, if any.
pub open spec fn last_replacement(nt: Seq<(int, Seq<char>)>, i: int) -> Option<Seq<char>>
    decreases nt.len(),
{
    if nt.len() == 0 {
        None
    } else if nt.last().0 == i {
        Some(nt.last().1)
    } else {
        last_replacement(nt.drop_last(), i)
    }
}

/// After the replacements, string `i` is the last replacement of `i`, or the
/// old string when there is none.
pub proof fn lemma_apply_texts_entry(
    lens: Seq<int>,
    strs: Seq<Seq<u8>>,
    nt: Seq<(int, Seq<char>)>,
    i: int,
)
    requires
        lens.len() == strs.len(),
        0 <= i < lens.len(),
    ensures
        ss_apply_texts(lens, strs, nt).0.len() == lens.len(),
        ss_apply_texts(lens, strs, nt).1.len() == lens.len(),
        match last_replacement(nt, i) {
            Some(text) => ss_apply_texts(lens, strs, nt).0[i] == utf16_encode(text).len()
                && ss_apply_texts(lens, strs, nt).1[i] == ss_encrypt_text(text, i),
            None => ss_apply_texts(lens, strs, nt).0[i] == lens[i] && ss_apply_texts(
                lens,
                strs,
                nt,
            ).1[i] == strs[i],
        },
    decreases nt.len(),
{
    if nt.len() > 0 {
        lemma_apply_texts_entry(lens, strs, nt.drop_last(), i);
    }
}

/// After the replacements every string has twice as many bytes as units.
proof fn lemma_replaced_table_sizes(d: Seq<u8>, nt: Seq<(int, Seq<char>)>, i: int)
    requires
        ss_tables_ok(d),
        0 <= i < ss_count(d),
    ensures
        ss_replaced_table(d, nt).1[i].len() == 2 * ss_replaced_table(d, nt).0[i],
        ss_replaced_table(d, nt).0[i] >= 0,
{
    lemma_apply_texts_entry(ss_lengths(d), ss_strings(d), nt, i);
    match last_replacement(nt, i) {
        Some(text) => {
            lemma_utf16le_len(text);
        },
        None => {
            if ss_str_len(d, i) != 0 {
                assert(ss_str_start(d, i) + 2 * ss_str_len(d, i) <= d.len());
            }
        },
    }
}

proof fn lemma_utf16le_len(text: Seq<char>)
    ensures
        utf16le_bytes(text).len() == 2 * utf16_encode(text).len(),
        ss_encrypt_text(text, 0).len() == 2 * utf16_encode(text).len(),
{
}

/// Where the strings of the rebuilt script start.
pub open spec fn ss_new_data_offset(d: Seq<u8>) -> int {
    d.len() - ss_shift(d)
}

proof fn lemma_replaced_shape(d: Seq<u8>, nt: Seq<(int, Seq<char>)>)
    requires
        ss_replace_ok(d, nt),
        ss_new_data_offset(d) < 0x1_0000_0000,
    ensures
        ({
            let t = ss_replaced_table(d, nt);
            let e = ss_replaced(d, nt);
            let head = u32_le(le_u32_at(d, 0)) + u32s_le(ss_new_fields(d));
            let rest = d.subrange(ss_unknown_offset(d), d.len() as int);
            &&& e == head + (offset_index_bytes(t.0) + (rest + flatten_bytes(t.1)))
            &&& head.len() == ss_header_size()
            &&& offset_index_bytes(t.0).len() == 8 * ss_count(d)
            &&& ss_new_data_offset(d) == ss_header_size() + 8 * ss_count(d) + rest.len()
            &&& t.0.len() == ss_count(d)
            &&& t.1.len() == ss_count(d)
            &&& forall|j: int| 0 <= j < 32 ==> #[trigger] ss_field(e, j) == ss_new_field(d, j)
        }),
{
    let t = ss_replaced_table(d, nt);
    let e = ss_replaced(d, nt);
    let h0 = u32_le(le_u32_at(d, 0));
    let fs = u32s_le(ss_new_fields(d));
    let head = h0 + fs;
    let rest = d.subrange(ss_unknown_offset(d), d.len() as int);
    lemma_apply_texts_shape_entries(d, nt);
    crate::bytes::lemma_u32s_le_len(ss_new_fields(d));
    crate::bytes::lemma_u32_le_roundtrip(le_u32_at(d, 0));
    lemma_offset_index_len(t.0);
    let tail = offset_index_bytes(t.0) + (rest + flatten_bytes(t.1));
    assert(e =~= head + tail);
    assert forall|j: int| 0 <= j < 32 implies #[trigger] ss_field(e, j) == ss_new_field(d, j) by {
        lemma_u32s_le_entry(ss_new_fields(d), j);
        lemma_le_u32_at_append(fs, tail, 4 * j);
        lemma_le_u32_at_append(fs + tail, h0, 4 * j);
        assert(h0 + (fs + tail) =~= e);
    }
}

proof fn lemma_apply_texts_shape_entries(d: Seq<u8>, nt: Seq<(int, Seq<char>)>)
    requires
        ss_tables_ok(d),
    ensures
        ss_replaced_table(d, nt).0.len() == ss_count(d),
        ss_replaced_table(d, nt).1.len() == ss_count(d),
{
    lemma_apply_texts_shape(ss_lengths(d), ss_strings(d), nt);
}

proof fn lemma_index_reads(
    e: Seq<u8>,
    head: Seq<u8>,
    idx: Seq<u8>,
    tail: Seq<u8>,
    lens: Seq<int>,
    j: int,
)
    requires
        e == head + (idx + tail),
        idx == offset_index_bytes(lens),
        0 <= j < lens.len(),
        forall|k: int| 0 <= k < lens.len() ==> lens[k] >= 0,
        sum_ints(lens) <= u32::MAX,
    ensures
        le_u32_at(e, head.len() + 8 * j) == sum_ints(lens.take(j)),
        le_u32_at(e, head.len() + 8 * j + 4) == lens[j],
{
    lemma_offset_index_len(lens);
    lemma_offset_index_entry(lens, j);
    lemma_le_u32_at_append(idx, tail, 8 * j);
    lemma_le_u32_at_append(idx, tail, 8 * j + 4);
    lemma_le_u32_at_append(idx + tail, head, 8 * j);
    lemma_le_u32_at_append(idx + tail, head, 8 * j + 4);
}

proof fn lemma_part_reads(e: Seq<u8>, pre: Seq<u8>, bs: Seq<Seq<u8>>, lens: Seq<int>, j: int)
    requires
        e == pre + flatten_bytes(bs),
        lens.len() == bs.len(),
        forall|k: int| 0 <= k < bs.len() ==> bs[k].len() == 2 * #[trigger] lens[k],
        0 <= j < bs.len(),
    ensures
        0 <= sum_ints(lens.take(j)),
        pre.len() + 2 * sum_ints(lens.take(j)) + 2 * lens[j] <= e.len(),
        e.subrange(
            pre.len() + 2 * sum_ints(lens.take(j)),
            pre.len() + 2 * sum_ints(lens.take(j)) + 2 * lens[j],
        ) == bs[j],
{
    let fl = flatten_bytes(bs);
    lemma_flatten_part(bs, j);
    assert forall|k: int| 0 <= k < j implies bs.take(j)[k].len() == 2 * #[trigger] lens.take(
        j,
    )[k] by {}
    lemma_flatten_len_double(bs.take(j), lens.take(j));
    let off = 2 * sum_ints(lens.take(j));
    let st = pre.len() + off;
    assert(e.subrange(st, st + 2 * lens[j]) =~= fl.subrange(off, off + bs[j].len()));
}

#[verifier::spinoff_prover]
#[verifier::rlimit(40)]
proof fn lemma_replaced_fields(d: Seq<u8>, nt: Seq<(int, Seq<char>)>)
    requires
        ss_replace_ok(d, nt),
        ss_index_offset(d) == ss_header_size(),
        ss_new_data_offset(d) < 0x1_0000_0000,
    ensures
        ss_index_offset(ss_replaced(d, nt)) == ss_header_size(),
        ss_count(ss_replaced(d, nt)) == ss_count(d),
        ss_data_offset(ss_replaced(d, nt)) == ss_new_data_offset(d),
{
    lemma_replaced_shape(d, nt);
    let e = ss_replaced(d, nt);
    assert(ss_field(e, 2) == ss_new_field(d, 2));
    assert(ss_field(e, 3) == ss_new_field(d, 3));
    assert(ss_field(e, 4) == ss_new_field(d, 4));
    assert(0 <= ss_new_data_offset(d));
}

proof fn lemma_replaced_entry(d: Seq<u8>, nt: Seq<(int, Seq<char>)>, j: int)
    requires
        ss_replace_ok(d, nt),
        ss_index_offset(d) == ss_header_size(),
        ss_new_data_offset(d) < 0x1_0000_0000,
        0 <= j < ss_count(d),
    ensures
        ss_str_len(ss_replaced(d, nt), j) == ss_replaced_table(d, nt).0[j],
        ss_str_bytes(ss_replaced(d, nt), j) == ss_replaced_table(d, nt).1[j],
        ss_str_start(ss_replaced(d, nt), j) + 2 * ss_str_len(ss_replaced(d, nt), j) <= ss_replaced(
            d,
            nt,
        ).len(),
{
    let t = ss_replaced_table(d, nt);
    let e = ss_replaced(d, nt);
    lemma_replaced_fields(d, nt);
    lemma_replaced_shape(d, nt);
    let head = u32_le(le_u32_at(d, 0)) + u32s_le(ss_new_fields(d));
    let rest = d.subrange(ss_unknown_offset(d), d.len() as int);
    let idx = offset_index_bytes(t.0);
    let fl = flatten_bytes(t.1);
    assert forall|k: int| 0 <= k < t.0.len() implies t.1[k].len() == 2 * #[trigger] t.0[k]
        && t.0[k] >= 0 by {
        lemma_replaced_table_sizes(d, nt, k);
    }
    lemma_index_reads(e, head, idx, rest + fl, t.0, j);
    let pre = head + idx + rest;
    assert(e =~= pre + fl);
    assert(pre.len() == ss_new_data_offset(d));
    lemma_part_reads(e, pre, t.1, t.0, j);
    assert(ss_str_offset(e, j) == sum_ints(t.0.take(j)));
}

/// The script to write for `data` with the replacements `new_texts`: a
/// script with nothing to replace is kept byte for byte, any other is rebuilt
/// by `replace_texts`.
pub fn rebuild_script(data: &[u8], new_texts: &[(usize, String)]) -> (out: Vec<u8>)
    requires
        new_texts@.len() > 0 ==> ss_replace_ok(data@, texts_view(new_texts@)),
    ensures
        out@ == if new_texts@.len() == 0 {
            data@
        } else {
            ss_replaced(data@, texts_view(new_texts@))
        },
{
    if new_texts.len() == 0 {
        let out = bytes_range(data, 0, data.len());
        assert(data@.subrange(0, data@.len() as int) =~= data@);
        out
    } else {
        replace_texts(data, new_texts)
    }
}

/// Reading a rebuilt script: string `i` has the length and the text of its
/// last replacement, or keeps its old length and text when it was not
/// replaced. This holds when the string index follows the header directly
/// and the new string data starts below 4 GiB.
pub proof fn lemma_replace_then_read(d: Seq<u8>, nt: Seq<(int, Seq<char>)>, i: int)
    requires
        ss_replace_ok(d, nt),
        ss_index_offset(d) == ss_header_size(),
        ss_new_data_offset(d) < 0x1_0000_0000,
        0 <= i < ss_count(d),
    ensures
        ss_tables_ok(ss_replaced(d, nt)),
        ss_count(ss_replaced(d, nt)) == ss_count(d),
        match last_replacement(nt, i) {
            Some(text) => ss_str_len(ss_replaced(d, nt), i) == utf16_encode(text).len() && (
            utf16_encode(text).len() != 0 ==> ss_text(ss_replaced(d, nt), i) == text),
            None => ss_str_len(ss_replaced(d, nt), i) == ss_str_len(d, i) && (ss_str_len(d, i)
                != 0 ==> ss_text(ss_replaced(d, nt), i) == ss_text(d, i)),
        },
{
    let e = ss_replaced(d, nt);
    let c = ss_count(d);
    lemma_replaced_entry(d, nt, i);
    lemma_replaced_fields(d, nt);
    lemma_replaced_shape(d, nt);
    assert forall|j: int| 0 <= j < ss_count(e) && #[trigger] ss_str_len(e, j) != 0 implies ss_str_start(
        e,
        j,
    ) + 2 * ss_str_len(e, j) <= e.len() by {
        lemma_replaced_entry(d, nt, j);
    }
    let t = ss_replaced_table(d, nt);
    lemma_apply_texts_shape(ss_lengths(d), ss_strings(d), nt);
    lemma_offset_index_len(t.0);
    assert(ss_tables_ok(e));
    lemma_apply_texts_entry(ss_lengths(d), ss_strings(d), nt, i);
    match last_replacement(nt, i) {
        Some(text) => {
            let n = utf16_encode(text).len() as int;
            lemma_utf16le_len(text);
            lemma_string_xor_involution(utf16le_bytes(text), n, i);
            assert(utf16le_bytes(text).subrange(0, 2 * n) =~= utf16le_bytes(text));
            lemma_utf16le_roundtrip(text);
        },
        None => {},
    }
}

pub proof fn lemma_last_replacement_append(x: Seq<(int, Seq<char>)>, y: Seq<(int, Seq<char>)>, j: int)
    ensures
        last_replacement(x + y, j) == match last_replacement(y, j) {
            Some(t) => Some(t),
            None => last_replacement(x, j),
        },
    decreases y.len(),
{
    if y.len() == 0 {
        assert(x + y =~= x);
    } else {
        assert((x + y).drop_last() =~= x + y.drop_last());
        assert((x + y).last() == y.last());
        lemma_last_replacement_append(x, y.drop_last(), j);
    }
}

/// The rebuilt table depends only on the last replacement of each index.
pub proof fn lemma_same_last_same_table(
    lens: Seq<int>,
    strs: Seq<Seq<u8>>,
    nt1: Seq<(int, Seq<char>)>,
    nt2: Seq<(int, Seq<char>)>,
)
    requires
        lens.len() == strs.len(),
        forall|j: int|
            0 <= j < lens.len() ==> #[trigger] last_replacement(nt1, j) == last_replacement(nt2, j),
    ensures
        ss_apply_texts(lens, strs, nt1) == ss_apply_texts(lens, strs, nt2),
{
    let r1 = ss_apply_texts(lens, strs, nt1);
    let r2 = ss_apply_texts(lens, strs, nt2);
    assert forall|j: int| 0 <= j < lens.len() implies r1.0[j] == r2.0[j] && r1.1[j] == r2.1[j] by {
        lemma_apply_texts_entry(lens, strs, nt1, j);
        lemma_apply_texts_entry(lens, strs, nt2, j);
        assert(last_replacement(nt1, j) == last_replacement(nt2, j));
    }
    if lens.len() > 0 {
        lemma_apply_texts_entry(lens, strs, nt1, 0);
        lemma_apply_texts_entry(lens, strs, nt2, 0);
    } else {
        lemma_apply_texts_entry_len(lens, strs, nt1);
        lemma_apply_texts_entry_len(lens, strs, nt2);
    }
    assert(r1.0 =~= r2.0);
    assert(r1.1 =~= r2.1);
}

proof fn lemma_apply_texts_entry_len(lens: Seq<int>, strs: Seq<Seq<u8>>, nt: Seq<(int, Seq<char>)>)
    requires
        lens.len() == strs.len(),
    ensures
        ss_apply_texts(lens, strs, nt).0.len() == lens.len(),
        ss_apply_texts(lens, strs, nt).1.len() == strs.len(),
    decreases nt.len(),
{
    if nt.len() > 0 {
        lemma_apply_texts_entry_len(lens, strs, nt.drop_last());
    }
}

/// For a repeated index the last text wins: an earlier replacement of the
/// same index can be left out without changing the rebuilt script.
pub proof fn lemma_replace_last_wins(
    d: Seq<u8>,
    a: Seq<(int, Seq<char>)>,
    b: Seq<(int, Seq<char>)>,
    c: Seq<(int, Seq<char>)>,
    i: int,
    t1: Seq<char>,
    t2: Seq<char>,
)
    ensures
        ss_replaced(d, a + seq![(i, t1)] + b + seq![(i, t2)] + c) == ss_replaced(
            d,
            a + b + seq![(i, t2)] + c,
        ),
{
    let nt1 = a + seq![(i, t1)] + b + seq![(i, t2)] + c;
    let nt2 = a + b + seq![(i, t2)] + c;
    assert forall|j: int| #![trigger last_replacement(nt1, j)]
        0 <= j < ss_lengths(d).len() implies last_replacement(nt1, j) == last_replacement(nt2, j) by {
        let p1 = a + seq![(i, t1)] + b + seq![(i, t2)];
        let p2 = a + b + seq![(i, t2)];
        lemma_last_replacement_append(p1, c, j);
        lemma_last_replacement_append(p2, c, j);
        assert(p1.last() == (i, t2));
        assert(p2.last() == (i, t2));
        if j != i {
            assert(p1.drop_last() =~= (a + seq![(i, t1)]) + b);
            assert(p2.drop_last() =~= a + b);
            lemma_last_replacement_append(a + seq![(i, t1)], b, j);
            lemma_last_replacement_append(a, b, j);
            assert((a + seq![(i, t1)]).drop_last() =~= a);
            assert((a + seq![(i, t1)]).last() == (i, t1));
        }
    }
    lemma_same_last_same_table(ss_lengths(d), ss_strings(d), nt1, nt2);
}

/// The replacements whose index is below `n`, in order.
pub open spec fn in_range_texts(nt: Seq<(int, Seq<char>)>, n: int) -> Seq<(int, Seq<char>)>
    decreases nt.len(),
{
    if nt.len() == 0 {
        Seq::empty()
    } else {
        in_range_texts(nt.drop_last(), n) + if 0 <= nt.last().0 < n {
            seq![nt.last()]
        } else {
            Seq::empty()
        }
    }
}

proof fn lemma_in_range_last(nt: Seq<(int, Seq<char>)>, n: int, j: int)
    requires
        0 <= j < n,
    ensures
        last_replacement(in_range_texts(nt, n), j) == last_replacement(nt, j),
    decreases nt.len(),
{
    if nt.len() > 0 {
        lemma_in_range_last(nt.drop_last(), n, j);
        let tail = if 0 <= nt.last().0 < n {
            seq![nt.last()]
        } else {
            Seq::<(int, Seq<char>)>::empty()
        };
        lemma_last_replacement_append(in_range_texts(nt.drop_last(), n), tail, j);
        if 0 <= nt.last().0 < n {
            assert(tail.drop_last() =~= Seq::<(int, Seq<char>)>::empty());
            assert(tail.last() == nt.last());
            assert(last_replacement(Seq::<(int, Seq<char>)>::empty(), j) is None);
        } else {
            assert(last_replacement(tail, j) is None);
        }
    }
}

/// Replacements whose index is past the string table are ignored: leaving
/// them out does not change the rebuilt script.
pub proof fn lemma_replace_ignores_out_of_range(d: Seq<u8>, nt: Seq<(int, Seq<char>)>)
    ensures
        ss_replaced(d, nt) == ss_replaced(d, in_range_texts(nt, ss_count(d))),
{
    assert forall|j: int| #![trigger last_replacement(nt, j)]
        0 <= j < ss_lengths(d).len() implies last_replacement(nt, j) == last_replacement(
        in_range_texts(nt, ss_count(d)),
        j,
    ) by {
        lemma_in_range_last(nt, ss_count(d), j);
    }
    lemma_same_last_same_table(ss_lengths(d), ss_strings(d), nt, in_range_texts(nt, ss_count(d)));
}

/// Which pairs `ss_cjk_texts` holds.
pub proof fn lemma_cjk_texts_member(d: Seq<u8>, n: int, i: int, s: Seq<char>)
    ensures
        ss_cjk_texts(d, n).contains((i, s)) <==> (0 <= i < n && ss_str_len(d, i) != 0
            && spec_has_cjk(ss_text(d, i)) && s == ss_text(d, i)),
    decreases n,
{
    if n > 0 {
        lemma_cjk_texts_member(d, n - 1, i, s);
        let prev = ss_cjk_texts(d, n - 1);
        let k = n - 1;
        let tail = if ss_str_len(d, k) != 0 && spec_has_cjk(ss_text(d, k)) {
            seq![(k, ss_text(d, k))]
        } else {
            Seq::<(int, Seq<char>)>::empty()
        };
        assert(ss_cjk_texts(d, n) == prev + tail);
        if (prev + tail).contains((i, s)) {
            let w = choose|w: int| 0 <= w < (prev + tail).len() && (prev + tail)[w] == (i, s);
            if w < prev.len() {
                assert(prev[w] == (i, s));
            } else {
                assert(tail[w - prev.len()] == (i, s));
            }
        }
        if 0 <= i < n && ss_str_len(d, i) != 0 && spec_has_cjk(ss_text(d, i)) && s == ss_text(
            d,
            i,
        ) {
            if i < k {
                let w = choose|w: int| 0 <= w < prev.len() && prev[w] == (i, s);
                assert((prev + tail)[w] == (i, s));
            } else {
                assert((prev + tail)[prev.len() as int] == (i, s));
            }
        }
    } else {
        assert(ss_cjk_texts(d, n) =~= Seq::<(int, Seq<char>)>::empty());
    }
}

/// A string that no replacement names keeps its length and its encrypted
/// bytes, and it is among the extracted texts of the rebuilt script exactly
/// when it is among those of `d` (under the layout of
/// `lemma_replace_then_read`).
pub proof fn lemma_unreplaced_string_kept(d: Seq<u8>, nt: Seq<(int, Seq<char>)>, i: int)
    requires
        ss_tables_ok(d),
        0 <= i < ss_count(d),
        last_replacement(nt, i) is None,
    ensures
        ss_replaced_table(d, nt).0[i] == ss_str_len(d, i),
        ss_replaced_table(d, nt).1[i] == ss_strings(d)[i],
        ss_replace_ok(d, nt) && ss_index_offset(d) == ss_header_size() && ss_new_data_offset(d)
            < 0x1_0000_0000 ==> {
            &&& ss_str_len(ss_replaced(d, nt), i) == ss_str_len(d, i)
            &&& (ss_str_len(d, i) != 0 ==> ss_str_bytes(ss_replaced(d, nt), i) == ss_str_bytes(
                d,
                i,
            ))
            &&& forall|s: Seq<char>|
                ss_cjk_texts(ss_replaced(d, nt), ss_count(ss_replaced(d, nt))).contains(
                    (i, s),
                ) <==> #[trigger] ss_cjk_texts(d, ss_count(d)).contains((i, s))
        },
{
    lemma_apply_texts_entry(ss_lengths(d), ss_strings(d), nt, i);
    if ss_replace_ok(d, nt) && ss_index_offset(d) == ss_header_size() && ss_new_data_offset(d)
        < 0x1_0000_0000 {
        let e = ss_replaced(d, nt);
        lemma_replace_then_read(d, nt, i);
        lemma_replaced_entry(d, nt, i);
        assert forall|s: Seq<char>|
            ss_cjk_texts(e, ss_count(e)).contains((i, s)) <==> #[trigger] ss_cjk_texts(
                d,
                ss_count(d),
            ).contains((i, s)) by {
            lemma_cjk_texts_member(e, ss_count(e), i, s);
            lemma_cjk_texts_member(d, ss_count(d), i, s);
        }
    }
}

/// A text holds CJK text as soon as one of its characters is CJK.
pub proof fn lemma_has_cjk_any(s: Seq<char>, j: int)
    requires
        0 <= j < s.len(),
        is_cjk(s[j]),
    ensures
        spec_has_cjk(s),
{
}

/// A joined text holds CJK text exactly when one of its parts does; an empty
/// text holds none.
pub proof fn lemma_has_cjk_concat(a: Seq<char>, b: Seq<char>)
    ensures
        spec_has_cjk(a + b) <==> (spec_has_cjk(a) || spec_has_cjk(b)),
        !spec_has_cjk(Seq::<char>::empty()),
{
    if spec_has_cjk(a) {
        let j = choose|j: int| 0 <= j < a.len() && #[trigger] is_cjk(a[j]);
        assert((a + b)[j] == a[j]);
    }
    if spec_has_cjk(b) {
        let j = choose|j: int| 0 <= j < b.len() && #[trigger] is_cjk(b[j]);
        assert((a + b)[a.len() + j] == b[j]);
    }
    if spec_has_cjk(a + b) {
        let j = choose|j: int| 0 <= j < (a + b).len() && #[trigger] is_cjk((a + b)[j]);
        if j < a.len() {
            assert(is_cjk(a[j]));
        } else {
            assert(is_cjk(b[j - a.len()]));
        }
    }
}

/// A non-empty string with one CJK character is among the extracted texts,
/// whatever its other characters are.
pub proof fn lemma_extracted_when_any_cjk(d: Seq<u8>, i: int, j: int)
    requires
        0 <= i < ss_count(d),
        ss_str_len(d, i) != 0,
        0 <= j < ss_text(d, i).len(),
        is_cjk(ss_text(d, i)[j]),
    ensures
        ss_cjk_texts(d, ss_count(d)).contains((i, ss_text(d, i))),
{
    lemma_has_cjk_any(ss_text(d, i), j);
    lemma_cjk_texts_member(d, ss_count(d), i, ss_text(d, i));
}

/// In the rebuilt script the script data is found where header field 0
/// says, and every even field from 6 on keeps its distance to field 0
/// (modulo 2^32). This holds when the new string data starts below 4 GiB.
pub proof fn lemma_replaced_script_data_located(d: Seq<u8>, nt: Seq<(int, Seq<char>)>)
    requires
        ss_replace_ok(d, nt),
        ss_new_data_offset(d) < 0x1_0000_0000,
    ensures
        ss_unknown_offset(ss_replaced(d, nt)) + (d.len() - ss_unknown_offset(d)) <= ss_replaced(
            d,
            nt,
        ).len(),
        ss_replaced(d, nt).subrange(
            ss_unknown_offset(ss_replaced(d, nt)),
            ss_unknown_offset(ss_replaced(d, nt)) + (d.len() - ss_unknown_offset(d)),
        ) == d.subrange(ss_unknown_offset(d), d.len() as int),
        forall|j: int|
            6 <= j < 32 && j % 2 == 0 ==> (#[trigger] ss_field(ss_replaced(d, nt), j) - ss_field(
                ss_replaced(d, nt),
                0,
            )) % 0x1_0000_0000 == (ss_field(d, j) - ss_field(d, 0)) % 0x1_0000_0000,
{
    let e = ss_replaced(d, nt);
    let t = ss_replaced_table(d, nt);
    lemma_replaced_shape(d, nt);
    let head = u32_le(le_u32_at(d, 0)) + u32s_le(ss_new_fields(d));
    let rest = d.subrange(ss_unknown_offset(d), d.len() as int);
    let idx = offset_index_bytes(t.0);
    let fl = flatten_bytes(t.1);
    let moved = ss_header_size() + 8 * ss_count(d);
    assert(ss_field(e, 0) == ss_new_field(d, 0));
    assert(ss_field(d, 0) - ss_shift(d) == moved);
    assert(ss_unknown_offset(e) == moved);
    assert(e =~= (head + idx) + (rest + fl));
    assert((head + idx).len() == moved);
    assert(e.subrange(moved, moved + rest.len()) =~= rest);
    assert forall|j: int| 6 <= j < 32 && j % 2 == 0 implies (#[trigger] ss_field(e, j) - ss_field(
        e,
        0,
    )) % 0x1_0000_0000 == (ss_field(d, j) - ss_field(d, 0)) % 0x1_0000_0000 by {
        assert(ss_field(e, j) == ss_new_field(d, j));
        let x = ss_field(d, j) - ss_shift(d);
        let y = ss_field(d, 0) - ss_shift(d);
        assert(ss_field(e, j) as int == x % 0x1_0000_0000);
        assert(ss_field(e, 0) as int == y % 0x1_0000_0000);
        vstd::arithmetic::div_mod::lemma_sub_mod_noop(x, y, 0x1_0000_0000);
        assert(x - y == ss_field(d, j) - ss_field(d, 0));
    }
}

} // verus!
