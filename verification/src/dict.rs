use std::collections::HashMap;
use vstd::prelude::*;

use crate::chars::{append_chars, chars_eq, chars_eq_at, chars_range};
use crate::text::{
    find_char_from, find_from, find_ws, find_ws_from, first_token, is_ws, lemma_find_from,
    lemma_find_from_at, lemma_find_from_none, lemma_find_ws, lemma_find_ws_none, lemma_skip_ws,
    lemma_trim_end_at, skip_ws, skip_ws_from, trim, trim_end_at,
    trim_end_from,
};

verus! {

broadcast use vstd::std_specs::hash::group_hash_axioms;

/// The bucket of the phrase table in which a key is stored: its first
/// character and its length.
pub open spec fn bucket_of(k: Seq<char>) -> u64 {
    if k.len() == 0 {
        0
    } else {
        ((k[0] as u32) as int * 0x1_0000_0000 + (k.len() % 0x1_0000_0000)) as u64
    }
}

fn bucket_at(s: &[char], start: usize, len: usize) -> (b: u64)
    requires
        start + len <= s.len(),
    ensures
        b == bucket_of(s@.subrange(start as int, start + len)),
{
    if len == 0 {
        0
    } else {
        let ch = s[start];
        let c32 = ch as u32;
        proof {
            vstd::utf8::char_is_scalar(ch);
        }
        let c = c32 as u64;
        assert(c * 0x1_0000_0000 <= 0x110000 * 0x1_0000_0000) by (nonlinear_arith)
            requires c < 0x110000;
        let r = c * 0x1_0000_0000 + (len as u64 % 0x1_0000_0000);
        assert(s@.subrange(start as int, start + len)[0] == ch);
        assert(r == ((ch as u32) as int) * 0x1_0000_0000 + ((len as int) % 0x1_0000_0000));
        r
    }
}

/// The length of the longest key of `m` among the first `n` characters of
/// `s` from position `i` (trying `n`, `n - 1`, ..., `1`), or 0 when none is a key.
pub open spec fn longest_match(m: Map<Seq<char>, Seq<char>>, s: Seq<char>, i: int, n: int) -> int
    decreases n,
{
    if n <= 0 {
        0
    } else if m.contains_key(s.subrange(i, i + n)) {
        n
    } else {
        longest_match(m, s, i, n - 1)
    }
}

pub proof fn lemma_longest_match_bounds(m: Map<Seq<char>, Seq<char>>, s: Seq<char>, i: int, n: int)
    ensures
        0 <= longest_match(m, s, i, n),
        n >= 0 ==> longest_match(m, s, i, n) <= n,
        longest_match(m, s, i, n) > 0 ==> m.contains_key(
            s.subrange(i, i + longest_match(m, s, i, n)),
        ),
    decreases n,
{
    if n > 0 {
        lemma_longest_match_bounds(m, s, i, n - 1);
    }
}

/// Forward maximum matching of `s` from position `i`: at each position the
/// longest key (of at most `max_len` characters) that starts there is replaced
/// by its value; a position where no key starts keeps its character.
pub open spec fn fmm(m: Map<Seq<char>, Seq<char>>, max_len: int, s: Seq<char>, i: int) -> Seq<char>
    decreases s.len() - i,
{
    if i < 0 || i >= s.len() {
        Seq::empty()
    } else {
        let n = if s.len() - i < max_len { s.len() - i } else { max_len };
        let l = longest_match(m, s, i, n);
        proof {
            lemma_longest_match_bounds(m, s, i, n);
        }
        if l <= 0 {
            seq![s[i]] + fmm(m, max_len, s, i + 1)
        } else {
            m[s.subrange(i, i + l)] + fmm(m, max_len, s, i + l)
        }
    }
}

/// When no key starts at `i` within `n` characters, nothing matches there.
pub proof fn lemma_longest_match_none(m: Map<Seq<char>, Seq<char>>, s: Seq<char>, i: int, n: int)
    requires
        forall|l: int| 1 <= l <= n ==> !m.contains_key(#[trigger] s.subrange(i, i + l)),
    ensures
        longest_match(m, s, i, n) == 0,
    decreases n,
{
    if n > 0 {
        lemma_longest_match_none(m, s, i, n - 1);
    }
}

/// No key of the table occurs in `s` from position `i` on (among keys of at
/// most `max_len` characters).
pub open spec fn no_key_in(m: Map<Seq<char>, Seq<char>>, max_len: int, s: Seq<char>, i: int) -> bool {
    forall|a: int, l: int|
        i <= a < s.len() && 1 <= l <= max_len && a + l <= s.len() ==> !m.contains_key(
            #[trigger] s.subrange(a, a + l),
        )
}

/// Matching gives back the text unchanged when no key occurs in it.
pub proof fn lemma_fmm_no_key(m: Map<Seq<char>, Seq<char>>, max_len: int, s: Seq<char>, i: int)
    requires
        0 <= i <= s.len(),
        no_key_in(m, max_len, s, i),
    ensures
        fmm(m, max_len, s, i) == s.subrange(i, s.len() as int),
    decreases s.len() - i,
{
    if i < s.len() {
        let n = if s.len() - i < max_len { s.len() - i } else { max_len };
        assert forall|l: int| 1 <= l <= n implies !m.contains_key(#[trigger] s.subrange(i, i + l)) by {}
        lemma_longest_match_none(m, s, i, n);
        lemma_fmm_no_key(m, max_len, s, i + 1);
        assert(seq![s[i]] + s.subrange(i + 1, s.len() as int) =~= s.subrange(i, s.len() as int));
    } else {
        assert(s.subrange(i, s.len() as int) =~= Seq::<char>::empty());
    }
}

/// Matching against a table with no key gives back the text unchanged.
pub proof fn lemma_fmm_empty_table(m: Map<Seq<char>, Seq<char>>, max_len: int, s: Seq<char>)
    requires
        m.dom() == Set::<Seq<char>>::empty(),
    ensures
        fmm(m, max_len, s, 0) == s,
{
    assert(no_key_in(m, max_len, s, 0)) by {
        assert forall|a: int, l: int|
            0 <= a < s.len() && 1 <= l <= max_len && a + l <= s.len() implies !m.contains_key(
            #[trigger] s.subrange(a, a + l),
        ) by {
            assert(!m.dom().contains(s.subrange(a, a + l)));
        }
    }
    lemma_fmm_no_key(m, max_len, s, 0);
    assert(s.subrange(0, s.len() as int) =~= s);
}

/// The entry that one line of a dictionary file gives, if any: the line is
/// trimmed; a line without a tab gives none; otherwise the key is what stands
/// before the first tab, and the value is the first white-space separated
/// word after it, or the key itself when there is no such word.
pub open spec fn line_entry(line: Seq<char>) -> Option<(Seq<char>, Seq<char>)> {
    let t = trim(line);
    let tab = find_from(t, '\t', 0);
    if t.len() == 0 || tab >= t.len() {
        None
    } else {
        let key = t.subrange(0, tab);
        let vals = t.subrange(tab + 1, t.len() as int);
        Some(
            (
                key,
                match first_token(vals) {
                    Some(v) => v,
                    None => key,
                },
            ),
        )
    }
}

/// The table and longest key length after reading the lines of `text` that
/// start at `pos`, on top of table `m` and length `mx`. Lines are separated
/// by `'\n'`; since each line is trimmed and empty lines give nothing, a
/// `'\r'` before a `'\n'` and a final line ending make no difference.
pub open spec fn dict_from(text: Seq<char>, pos: int, m: Map<Seq<char>, Seq<char>>, mx: nat) -> (
    Map<Seq<char>, Seq<char>>,
    nat,
)
    decreases text.len() - pos,
{
    if pos < 0 || pos > text.len() {
        (m, mx)
    } else {
        let e = find_from(text, '\n', pos);
        let next = match line_entry(text.subrange(pos, e)) {
            Some(kv) => (m.insert(kv.0, kv.1), if kv.0.len() > mx { kv.0.len() } else { mx }),
            None => (m, mx),
        };
        if e >= text.len() {
            next
        } else {
            proof {
                lemma_find_from(text, '\n', pos);
            }
            dict_from(text, e + 1, next.0, next.1)
        }
    }
}

/// The table (later lines override earlier ones) and the length of the
/// longest key that a dictionary text gives.
pub open spec fn parse_dict(text: Seq<char>) -> (Map<Seq<char>, Seq<char>>, nat) {
    dict_from(text, 0, Map::empty(), 0)
}

pub proof fn lemma_line_entry_key_nonempty(line: Seq<char>)
    ensures
        line_entry(line) matches Some(kv) ==> kv.0.len() > 0,
{
    let a = skip_ws(line, 0);
    lemma_skip_ws(line, 0);
    lemma_trim_end_at(line, a, line.len() as int);
    let t = trim(line);
    if t.len() > 0 {
        assert(t[0] == line[a]);
        assert(!is_ws(t[0]));
        lemma_find_from(t, '\t', 0);
        if find_from(t, '\t', 0) == 0 {
            assert(t[0] == '\t');
            assert(is_ws('\t'));
        }
    }
}

/// Reads the entry of one dictionary line.
fn parse_line(line: &[char]) -> (r: Option<(Vec<char>, Vec<char>)>)
    ensures
        match r {
            Some(kv) => line_entry(line@) == Some((kv.0@, kv.1@)),
            None => line_entry(line@).is_none(),
        },
{
    proof {
        lemma_skip_ws(line@, 0);
    }
    let a = skip_ws_from(line, 0);
    proof {
        lemma_trim_end_at(line@, a as int, line@.len() as int);
    }
    let b = trim_end_from(line, a, line.len());
    let t = chars_range(line, a, b - a);
    assert(t@ == trim(line@));
    if t.len() == 0 {
        return None;
    }
    proof {
        lemma_find_from(t@, '\t', 0);
    }
    let tab = find_char_from(&t, '\t', 0);
    if tab >= t.len() {
        return None;
    }
    let key = chars_range(&t, 0, tab);
    let vals = chars_range(&t, tab + 1, t.len() - tab - 1);
    proof {
        lemma_skip_ws(vals@, 0);
    }
    let va = skip_ws_from(&vals, 0);
    let value = if va >= vals.len() {
        chars_range(&key, 0, key.len())
    } else {
        proof {
            lemma_find_ws(vals@, va as int);
        }
        let ve = find_ws_from(&vals, va);
        chars_range(&vals, va, ve - va)
    };
    proof {
        assert(key@.subrange(0, key@.len() as int) =~= key@);
    }
    Some((key, value))
}

/// A table as dictionary texts give it: every key is non-empty, starts with
/// a non-white-space character and has at most `mx` characters; every value
/// is a non-empty word without white space; `mx` is 0 exactly when the table
/// is empty.
pub open spec fn table_ok(m: Map<Seq<char>, Seq<char>>, mx: nat) -> bool {
    &&& forall|k: Seq<char>| #[trigger]
        m.contains_key(k) ==> {
            &&& 0 < k.len() <= mx
            &&& !is_ws(k[0])
            &&& m[k].len() > 0
            &&& forall|c: int| 0 <= c < m[k].len() ==> !is_ws(#[trigger] m[k][c])
        }
    &&& (mx == 0 <==> m.dom() == Set::<Seq<char>>::empty())
}

/// What one dictionary line gives: a non-empty key that starts with a
/// non-white-space character, and a non-empty value without white space.
pub proof fn lemma_line_entry_shape(line: Seq<char>)
    ensures
        line_entry(line) matches Some(kv) ==> {
            &&& kv.0.len() > 0
            &&& !is_ws(kv.0[0])
            &&& kv.1.len() > 0
            &&& forall|c: int| 0 <= c < kv.1.len() ==> !is_ws(#[trigger] kv.1[c])
        },
{
    let a = skip_ws(line, 0);
    lemma_skip_ws(line, 0);
    lemma_trim_end_at(line, a, line.len() as int);
    let b = trim_end_at(line, a, line.len() as int);
    let t = trim(line);
    if t.len() > 0 {
        assert(t[0] == line[a]);
        assert(t[t.len() - 1] == line[b - 1]);
        lemma_find_from(t, '\t', 0);
        let tab = find_from(t, '\t', 0);
        if tab < t.len() {
            assert(is_ws('\t'));
            assert(tab != 0);
            assert(tab != t.len() - 1);
            let key = t.subrange(0, tab);
            assert(key[0] == t[0]);
            let vals = t.subrange(tab + 1, t.len() as int);
            assert(vals[vals.len() - 1] == t[t.len() - 1]);
            lemma_skip_ws(vals, 0);
            let va = skip_ws(vals, 0);
            assert(va < vals.len());
            lemma_find_ws(vals, va);
            lemma_find_ws(vals, va + 1);
            assert(find_ws(vals, va) > va);
            let tok = vals.subrange(va, find_ws(vals, va));
            assert(first_token(vals) == Some(tok));
            assert(line_entry(line) == Some((key, tok)));
            assert forall|c: int| 0 <= c < tok.len() implies !is_ws(#[trigger] tok[c]) by {
                assert(tok[c] == vals[va + c]);
            }
        }
    }
}

proof fn lemma_dict_from_ok(text: Seq<char>, pos: int, m: Map<Seq<char>, Seq<char>>, mx: nat)
    requires
        table_ok(m, mx),
    ensures
        table_ok(dict_from(text, pos, m, mx).0, dict_from(text, pos, m, mx).1),
    decreases text.len() - pos,
{
    if 0 <= pos <= text.len() {
        let e = find_from(text, '\n', pos);
        lemma_find_from(text, '\n', pos);
        let line = text.subrange(pos, e);
        lemma_line_entry_shape(line);
        let next = match line_entry(line) {
            Some(kv) => (m.insert(kv.0, kv.1), if kv.0.len() > mx { kv.0.len() } else { mx }),
            None => (m, mx),
        };
        if let Some(kv) = line_entry(line) {
            let m2 = next.0;
            let mx2 = next.1;
            assert forall|k: Seq<char>| #[trigger] m2.contains_key(k) implies {
                &&& 0 < k.len() <= mx2
                &&& !is_ws(k[0])
                &&& m2[k].len() > 0
                &&& forall|c: int| 0 <= c < m2[k].len() ==> !is_ws(#[trigger] m2[k][c])
            } by {
                if k != kv.0 {
                    assert(m.contains_key(k));
                }
            }
            assert(m2.dom().contains(kv.0));
            assert(mx2 > 0);
        }
        if e < text.len() {
            lemma_dict_from_ok(text, e + 1, next.0, next.1);
        }
    }
}

/// The table that a dictionary text gives has the shape of `table_ok`.
pub proof fn lemma_parse_dict_ok(text: Seq<char>)
    ensures
        table_ok(parse_dict(text).0, parse_dict(text).1),
{
    assert(Map::<Seq<char>, Seq<char>>::empty().dom() =~= Set::<Seq<char>>::empty());
    lemma_dict_from_ok(text, 0, Map::empty(), 0);
}

/// The length matched at position `i` is the largest `l <= n` for which the
/// `l` characters at `i` are a key, or 0 when there is none.
pub proof fn lemma_longest_match_is_largest(m: Map<Seq<char>, Seq<char>>, s: Seq<char>, i: int, n: int)
    ensures
        longest_match(m, s, i, n) == 0 || (1 <= longest_match(m, s, i, n) <= n && m.contains_key(
            s.subrange(i, i + longest_match(m, s, i, n)),
        )),
        forall|l: int|
            longest_match(m, s, i, n) < l <= n ==> !m.contains_key(#[trigger] s.subrange(i, i + l)),
    decreases n,
{
    if n > 0 {
        lemma_longest_match_is_largest(m, s, i, n - 1);
    }
}

/// A key no longer than the longest-key length, read on its own, is replaced
/// by its value: the whole key is the longest match at its start.
pub proof fn lemma_fmm_whole_key(m: Map<Seq<char>, Seq<char>>, max_len: int, k: Seq<char>)
    requires
        m.contains_key(k),
        0 < k.len() <= max_len,
    ensures
        fmm(m, max_len, k, 0) == m[k],
{
    let n = k.len() as int;
    assert(k.subrange(0, n) =~= k);
    assert(longest_match(m, k, 0, n) == n);
    assert(fmm(m, max_len, k, n) == Seq::<char>::empty());
    assert(m[k] + Seq::<char>::empty() =~= m[k]);
}

/// A line `key<TAB>word` gives the entry `(key, word)` whatever their
/// lengths, for a key that starts with a non-white-space character and holds
/// no tab, and a non-empty word without white space.
pub proof fn lemma_line_entry_of_pair(k: Seq<char>, v: Seq<char>)
    requires
        k.len() > 0,
        !is_ws(k[0]),
        forall|c: int| 0 <= c < k.len() ==> k[c] != '\t',
        v.len() > 0,
        forall|c: int| 0 <= c < v.len() ==> !is_ws(v[c]),
    ensures
        line_entry(k + seq!['\t'] + v) == Some((k, v)),
{
    let line = k + seq!['\t'] + v;
    let len = line.len() as int;
    assert(line[0] == k[0]);
    assert(skip_ws(line, 0) == 0);
    assert(line[len - 1] == v[v.len() - 1]);
    assert(trim_end_at(line, 0, len) == len);
    assert(line.subrange(0, len) =~= line);
    assert(trim(line) == line);
    assert forall|t: int| 0 <= t < k.len() implies line[t] != '\t' by {
        assert(line[t] == k[t]);
    }
    assert(line[k.len() as int] == '\t');
    lemma_find_from_at(line, '\t', 0, k.len() as int);
    assert(line.subrange(0, k.len() as int) =~= k);
    assert(line.subrange(k.len() as int + 1, len) =~= v);
    assert(skip_ws(v, 0) == 0);
    lemma_find_ws_none(v, 0);
    assert(v.subrange(0, v.len() as int) =~= v);
    assert(first_token(v) == Some(v));
}

/// A dictionary text of the one line `key<TAB>word` gives the table that
/// maps `key` to `word`, with the key's length as longest-key length (the key
/// also holding no line break).
pub proof fn lemma_parse_dict_one_line(k: Seq<char>, v: Seq<char>)
    requires
        k.len() > 0,
        !is_ws(k[0]),
        forall|c: int| 0 <= c < k.len() ==> k[c] != '\t' && k[c] != '\n',
        v.len() > 0,
        forall|c: int| 0 <= c < v.len() ==> !is_ws(v[c]),
    ensures
        parse_dict(k + seq!['\t'] + v).0 == Map::<Seq<char>, Seq<char>>::empty().insert(k, v),
        parse_dict(k + seq!['\t'] + v).1 == k.len(),
{
    let line = k + seq!['\t'] + v;
    lemma_line_entry_of_pair(k, v);
    assert(is_ws('\n'));
    assert forall|t: int| 0 <= t < line.len() implies line[t] != '\n' by {
        if t < k.len() {
            assert(line[t] == k[t]);
        } else if t > k.len() {
            assert(line[t] == v[t - k.len() - 1]);
        }
    }
    lemma_find_from_none(line, '\n', 0);
    assert(line.subrange(0, line.len() as int) =~= line);
}

/// One pass of the conversion chain: a phrase table and the length of its
/// longest key.
pub struct DictPass {
    buckets: HashMap<u64, Vec<(Vec<char>, Vec<char>)>>,
    max_key_len: usize,
    entries: Ghost<Map<Seq<char>, Seq<char>>>,
}

impl DictPass {
    /// The phrase table: each key and the text that replaces it.
    pub closed spec fn table(&self) -> Map<Seq<char>, Seq<char>> {
        self.entries@
    }

    /// The length of the longest key that was ever added.
    pub closed spec fn max_len(&self) -> nat {
        self.max_key_len as nat
    }

    /// What `convert` makes of `s`.
    pub open spec fn spec_convert(&self, s: Seq<char>) -> Seq<char> {
        fmm(self.table(), self.max_len() as int, s, 0)
    }

    pub closed spec fn wf(&self) -> bool {
        &&& forall|b: u64, j: int|
            #![trigger self.buckets@[b]@[j]]
            self.buckets@.contains_key(b) && 0 <= j < self.buckets@[b]@.len() ==> {
                let e = self.buckets@[b]@[j];
                &&& bucket_of(e.0@) == b
                &&& self.entries@.contains_key(e.0@)
                &&& self.entries@[e.0@] == e.1@
            }
        &&& forall|b: u64| #[trigger]
            self.buckets@.contains_key(b) ==> self.buckets@[b]@.len() > 0
        &&& forall|k: Seq<char>| #[trigger]
            self.entries@.contains_key(k) ==> {
                &&& 0 < k.len() <= self.max_key_len
                &&& self.buckets@.contains_key(bucket_of(k))
                &&& exists|j: int|
                    0 <= j < self.buckets@[bucket_of(k)]@.len()
                        && #[trigger] self.buckets@[bucket_of(k)]@[j].0@ == k
            }
    }

    /// An empty table.
    pub fn empty() -> (d: DictPass)
        ensures
            d.wf(),
            d.table() == Map::<Seq<char>, Seq<char>>::empty(),
            d.max_len() == 0,
    {
        DictPass { buckets: HashMap::new(), max_key_len: 0, entries: Ghost(Map::empty()) }
    }

    /// Reads a dictionary text: one entry per line, `key<TAB>value ...`
    /// (see `parse_dict`).
    pub fn from_text(text: &[char]) -> (d: DictPass)
        ensures
            d.wf(),
            d.table() == parse_dict(text@).0,
            d.max_len() == parse_dict(text@).1,
            table_ok(d.table(), d.max_len()),
    {
        proof {
            lemma_parse_dict_ok(text@);
        }
        let mut d = DictPass::empty();
        let mut pos: usize = 0;
        loop
            invariant_except_break
                parse_dict(text@) == dict_from(text@, pos as int, d.table(), d.max_len()),
            invariant
                d.wf(),
                pos <= text.len(),
            ensures
                d.wf(),
                parse_dict(text@) == (d.table(), d.max_len()),
            decreases text.len() - pos,
        {
            proof {
                lemma_find_from(text@, '\n', pos as int);
            }
            let e = find_char_from(text, '\n', pos);
            let line = chars_range(text, pos, e - pos);
            let entry = parse_line(&line);
            proof {
                lemma_line_entry_key_nonempty(line@);
            }
            match entry {
                Some(kv) => {
                    d.insert(kv.0, kv.1);
                },
                None => {},
            }
            if e >= text.len() {
                break;
            }
            pos = e + 1;
        }
        d
    }

    /// Maps `key` to `value`, replacing what `key` was mapped to before.
    pub fn insert(&mut self, key: Vec<char>, value: Vec<char>)
        requires
            old(self).wf(),
            key@.len() > 0,
        ensures
            final(self).wf(),
            final(self).table() == old(self).table().insert(key@, value@),
            final(self).max_len() == if key@.len() > old(self).max_len() {
                key@.len()
            } else {
                old(self).max_len()
            },
    {
        let ghost old_self = *self;
        let ghost kv = key@;
        let b = bucket_at(&key, 0, key.len());
        assert(key@.subrange(0, key@.len() as int) =~= key@);
        let removed = self.buckets.remove(&b);
        let mut nb: Vec<(Vec<char>, Vec<char>)> = Vec::new();
        match removed {
            Some(mut ob) => {
                let ghost orig = ob@;
                assert(orig == old_self.buckets@[b]@);
                while ob.len() > 0
                    invariant
                        orig == old_self.buckets@[b]@,
                        key@ == kv,
                        ob@ == orig.take(ob@.len() as int),
                        ob@.len() <= orig.len(),
                        forall|j: int|
                            ob@.len() <= j < orig.len() && (#[trigger] orig[j]).0@ != kv
                                ==> exists|t: int| 0 <= t < nb@.len() && nb@[t] == orig[j],
                        forall|t: int|
                            0 <= t < nb@.len() ==> (#[trigger] nb@[t]).0@ != kv && exists|j: int|
                                0 <= j < orig.len() && nb@[t] == orig[j],
                    decreases ob@.len(),
                {
                    let e = ob.pop().unwrap();
                    let ghost jj = ob@.len() as int;
                    let ghost old_nb = nb@;
                    assert(e == orig[jj]);
                    assert(ob@ =~= orig.take(ob@.len() as int));
                    let same = chars_eq(&e.0, &key);
                    assert(same == (e.0@ == key@));
                    assert(key@ == kv);
                    assert(e.0@ == orig[jj].0@);
                    assert(same == (orig[jj].0@ == kv));
                    if !same {
                        nb.push(e);
                        assert(nb@ == old_nb.push(orig[jj]));
                    } else {
                        assert(nb@ == old_nb);
                    }
                    assert forall|t: int| 0 <= t < old_nb.len() implies nb@[t] == old_nb[t] by {}
                    assert forall|j: int|
                        ob@.len() <= j < orig.len() && (#[trigger] orig[j]).0@ != kv
                            implies exists|t: int| 0 <= t < nb@.len() && nb@[t] == orig[j] by {
                        if j == jj {
                            assert(nb@[old_nb.len() as int] == orig[jj]);
                        } else {
                            let t0 = choose|t: int| 0 <= t < old_nb.len() && old_nb[t] == orig[j];
                            assert(nb@[t0] == orig[j]);
                        }
                    }
                    assert forall|t: int|
                        0 <= t < nb@.len() implies (#[trigger] nb@[t]).0@ != kv && exists|j: int|
                            0 <= j < orig.len() && nb@[t] == orig[j] by {
                        if t < old_nb.len() {
                            assert(nb@[t] == old_nb[t]);
                            assert((old_nb[t]).0@ != kv);
                        } else {
                            assert(nb@[t] == orig[jj]);
                        }
                    }
                }
            },
            None => {},
        }
        if key.len() > self.max_key_len {
            self.max_key_len = key.len();
        }
        let ghost orig_b = if old_self.buckets@.contains_key(b) {
            old_self.buckets@[b]@
        } else {
            Seq::empty()
        };
        let ghost nb_before = nb@;
        nb.push((key, value));
        self.buckets.insert(b, nb);
        self.entries = Ghost(old_self.entries@.insert(kv, value@));
        proof {
            let new_b = self.buckets@[b]@;
            assert(new_b.len() > 0);
            assert forall|bb: u64, j: int|
                self.buckets@.contains_key(bb) && 0 <= j < self.buckets@[bb]@.len() implies {
                    let e = #[trigger] self.buckets@[bb]@[j];
                    &&& bucket_of(e.0@) == bb
                    &&& self.entries@.contains_key(e.0@)
                    &&& self.entries@[e.0@] == e.1@
                } by {
                if bb == b {
                    if j < nb_before.len() {
                        let jj = choose|jj: int|
                            0 <= jj < orig_b.len() && nb_before[j] == orig_b[jj];
                        assert(old_self.buckets@[b]@[jj] == orig_b[jj]);
                    }
                } else {
                    assert(self.buckets@[bb] == old_self.buckets@[bb]);
                    assert(old_self.buckets@[bb]@[j] == self.buckets@[bb]@[j]);
                }
            }
            assert forall|bb: u64| #[trigger]
                self.buckets@.contains_key(bb) implies self.buckets@[bb]@.len() > 0 by {
                if bb != b {
                    assert(old_self.buckets@.contains_key(bb));
                }
            }
            assert forall|k: Seq<char>| #[trigger]
                self.entries@.contains_key(k) implies {
                    &&& 0 < k.len() <= self.max_key_len
                    &&& self.buckets@.contains_key(bucket_of(k))
                    &&& exists|j: int|
                        0 <= j < self.buckets@[bucket_of(k)]@.len()
                            && #[trigger] self.buckets@[bucket_of(k)]@[j].0@ == k
                } by {
                if k == kv {
                    assert(self.buckets@[b]@[nb_before.len() as int].0@ == k);
                } else {
                    assert(old_self.entries@.contains_key(k));
                    let bk = bucket_of(k);
                    let j0 = choose|j: int|
                        0 <= j < old_self.buckets@[bk]@.len()
                            && #[trigger] old_self.buckets@[bk]@[j].0@ == k;
                    if bk == b {
                        assert(orig_b[j0].0@ != kv);
                        let t = choose|t: int| 0 <= t < nb_before.len() && nb_before[t] == orig_b[j0];
                        assert(self.buckets@[bk]@[t].0@ == k);
                    } else {
                        assert(self.buckets@[bk] == old_self.buckets@[bk]);
                        assert(self.buckets@[bk]@[j0].0@ == k);
                    }
                }
            }
        }
    }

    /// The value of the key made of the `len` characters of `s` from `start`.
    fn get_at(&self, s: &[char], start: usize, len: usize) -> (r: Option<&Vec<char>>)
        requires
            self.wf(),
            start + len <= s.len(),
        ensures
            match r {
                Some(v) => self.table().contains_key(s@.subrange(start as int, start + len))
                    && v@ == self.table()[s@.subrange(start as int, start + len)],
                None => !self.table().contains_key(s@.subrange(start as int, start + len)),
            },
    {
        let ghost k = s@.subrange(start as int, start + len);
        let b = bucket_at(s, start, len);
        match self.buckets.get(&b) {
            None => None,
            Some(bucket) => {
                let mut j: usize = 0;
                while j < bucket.len()
                    invariant
                        self.wf(),
                        self.buckets@.contains_key(b),
                        bucket@ == self.buckets@[b]@,
                        b == bucket_of(k),
                        start + len <= s.len(),
                        k == s@.subrange(start as int, start + len),
                        j <= bucket.len(),
                        forall|t: int| 0 <= t < j ==> (#[trigger] bucket@[t]).0@ != k,
                    decreases bucket.len() - j,
                {
                    if chars_eq_at(&bucket[j].0, s, start, len) {
                        assert(self.buckets@[b]@[j as int] == bucket@[j as int]);
                        return Some(&bucket[j].1);
                    }
                    j = j + 1;
                }
                proof {
                    if self.table().contains_key(k) {
                        let j0 = choose|j: int|
                            0 <= j < self.buckets@[bucket_of(k)]@.len()
                                && #[trigger] self.buckets@[bucket_of(k)]@[j].0@ == k;
                        assert(bucket@[j0].0@ == k);
                    }
                }
                None
            },
        }
    }

    /// Converts `input` by forward maximum matching: at each position the
    /// longest key that starts there (trying the longest length first) is
    /// replaced by its value, and a position where no key starts keeps its
    /// character.
    pub fn convert(&self, input: &[char]) -> (out: Vec<char>)
        requires
            self.wf(),
        ensures
            out@ == self.spec_convert(input@),
    {
        let ghost m = self.table();
        let ghost ml = self.max_len() as int;
        if self.is_empty() {
            proof {
                lemma_fmm_empty_table(m, ml, input@);
                assert(input@.subrange(0, input@.len() as int) =~= input@);
            }
            return chars_range(input, 0, input.len());
        }
        let len = input.len();
        let mut result: Vec<char> = Vec::new();
        let mut i: usize = 0;
        while i < len
            invariant
                self.wf(),
                m == self.table(),
                ml == self.max_len() as int,
                len == input.len(),
                i <= len,
                fmm(m, ml, input@, 0) == result@ + fmm(m, ml, input@, i as int),
            decreases len - i,
        {
            let remaining = len - i;
            let max_try = if remaining < self.max_key_len { remaining } else { self.max_key_len };
            let mut l: usize = max_try;
            let mut rep: Option<&Vec<char>> = None;
            while l > 0
                invariant_except_break
                    longest_match(m, input@, i as int, max_try as int) == longest_match(
                        m,
                        input@,
                        i as int,
                        l as int,
                    ),
                    rep.is_none(),
                invariant
                    self.wf(),
                    m == self.table(),
                    len == input.len(),
                    i < len,
                    max_try <= len - i,
                    l <= max_try,
                ensures
                    match rep {
                        Some(v) => l > 0 && longest_match(m, input@, i as int, max_try as int)
                            == l && v@ == m[input@.subrange(i as int, i + l)],
                        None => longest_match(m, input@, i as int, max_try as int) == 0,
                    },
                decreases l,
            {
                let r = self.get_at(input, i, l);
                if r.is_some() {
                    rep = r;
                    break;
                }
                l = l - 1;
            }
            let ghost before = result@;
            match rep {
                Some(v) => {
                    append_chars(&mut result, v);
                    i = i + l;
                },
                None => {
                    result.push(input[i]);
                    proof {
                        assert(result@ == before + seq![input@[i as int]]);
                    }
                    i = i + 1;
                },
            }
        }
        result
    }

    /// Whether the table holds no key.
    fn is_empty(&self) -> (r: bool)
        requires
            self.wf(),
        ensures
            r == (self.table().dom() == Set::<Seq<char>>::empty()),
    {
        let r = self.buckets.is_empty();
        proof {
            if r {
                assert forall|k: Seq<char>| !self.entries@.contains_key(k) by {
                    if self.entries@.contains_key(k) {
                        assert(self.buckets@.contains_key(bucket_of(k)));
                    }
                }
                assert(self.entries@.dom() =~= Set::empty());
            } else {
                let b = choose|b: u64| self.buckets@.contains_key(b);
                assert(self.buckets@.dom().contains(b));
                assert(self.buckets@[b]@.len() > 0);
                let e = self.buckets@[b]@[0];
                assert(self.entries@.contains_key(e.0@));
                assert(self.entries@.dom().contains(e.0@));
            }
        }
        r
    }
}

} // verus!
