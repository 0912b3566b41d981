use vstd::prelude::*;

verus! {

/// The characters of `s`, in order.
pub fn chars_of(s: &str) -> (v: Vec<char>)
    ensures
        v@ == s@,
{
    let mut v: Vec<char> = Vec::new();
    for c in it: s.chars()
        invariant
            v@ == it.seq().take(it.index() as int),
            it.seq() == s@,
    {
        v.push(c);
    }
    v
}

/// Appends one character to a string (`String::push`).
#[verifier::external_body]
fn push_char(s: &mut String, c: char)
    ensures
        final(s)@ == old(s)@.push(c),
{
    s.push(c);
}

/// A string made of the characters of `v`, in order.
pub fn string_of(v: &[char]) -> (s: String)
    ensures
        s@ == v@,
{
    let mut s = String::new();
    let mut i: usize = 0;
    while i < v.len()
        invariant
            i <= v.len(),
            s@ == v@.take(i as int),
        decreases v.len() - i,
    {
        push_char(&mut s, v[i]);
        i = i + 1;
        assert(v@.take(i as int) == v@.take(i - 1).push(v@[i - 1]));
    }
    assert(v@.take(v.len() as int) == v@);
    s
}

/// Appends all of `src` to `dst`.
pub fn append_chars(dst: &mut Vec<char>, src: &[char])
    ensures
        final(dst)@ == old(dst)@ + src@,
{
    let ghost start = dst@;
    let mut i: usize = 0;
    while i < src.len()
        invariant
            i <= src.len(),
            dst@ == start + src@.take(i as int),
        decreases src.len() - i,
    {
        dst.push(src[i]);
        i = i + 1;
        assert(src@.take(i as int) == src@.take(i - 1).push(src@[i - 1]));
    }
    assert(src@.take(src.len() as int) == src@);
}

/// Whether `a` and `b` hold the same characters.
pub fn chars_eq(a: &[char], b: &[char]) -> (r: bool)
    ensures
        r == (a@ == b@),
{
    if a.len() != b.len() {
        return false;
    }
    let mut i: usize = 0;
    while i < a.len()
        invariant
            a.len() == b.len(),
            i <= a.len(),
            forall|j: int| 0 <= j < i ==> a@[j] == b@[j],
        decreases a.len() - i,
    {
        if a[i] != b[i] {
            return false;
        }
        i = i + 1;
    }
    assert(a@ =~= b@);
    true
}

/// Whether `a` equals the `len` characters of `s` that start at `start`.
pub fn chars_eq_at(a: &[char], s: &[char], start: usize, len: usize) -> (r: bool)
    requires
        start + len <= s.len(),
    ensures
        r == (a@ == s@.subrange(start as int, start + len)),
{
    if a.len() != len {
        return false;
    }
    let mut i: usize = 0;
    while i < len
        invariant
            a.len() == len,
            start + len <= s.len(),
            i <= len,
            forall|j: int| 0 <= j < i ==> a@[j] == s@[start + j],
        decreases len - i,
    {
        if a[i] != s[start + i] {
            return false;
        }
        i = i + 1;
    }
    assert(a@ =~= s@.subrange(start as int, start + len));
    true
}

/// The `len` characters of `s` that start at `start`.
pub fn chars_range(s: &[char], start: usize, len: usize) -> (v: Vec<char>)
    requires
        start + len <= s.len(),
    ensures
        v@ == s@.subrange(start as int, start + len),
{
    let mut v: Vec<char> = Vec::new();
    let mut i: usize = 0;
    while i < len
        invariant
            start + len <= s.len(),
            i <= len,
            v@ == s@.subrange(start as int, start + i),
        decreases len - i,
    {
        v.push(s[start + i]);
        i = i + 1;
        assert(v@ =~= s@.subrange(start as int, start + i));
    }
    v
}

} // verus!
