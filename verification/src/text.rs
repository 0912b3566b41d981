use vstd::prelude::*;

verus! {

/// The Unicode `White_Space` property, the set that `char::is_whitespace`
/// tests for.
pub open spec fn is_ws(c: char) -> bool {
    let v = c as u32;
    ||| 0x09 <= v <= 0x0D
    ||| v == 0x20
    ||| v == 0x85
    ||| v == 0xA0
    ||| v == 0x1680
    ||| 0x2000 <= v <= 0x200A
    ||| v == 0x2028
    ||| v == 0x2029
    ||| v == 0x202F
    ||| v == 0x205F
    ||| v == 0x3000
}

/// Whether `c` is Unicode white space.
pub fn is_whitespace(c: char) -> (r: bool)
    ensures
        r == is_ws(c),
{
    let v = c as u32;
    (0x09 <= v && v <= 0x0D) || v == 0x20 || v == 0x85 || v == 0xA0 || v == 0x1680 || (0x2000
        <= v && v <= 0x200A) || v == 0x2028 || v == 0x2029 || v == 0x202F || v == 0x205F || v
        == 0x3000
}

/// The first position at or after `j` that holds no white space (or the length).
pub open spec fn skip_ws(s: Seq<char>, j: int) -> int
    decreases s.len() - j,
{
    if 0 <= j < s.len() && is_ws(s[j]) {
        skip_ws(s, j + 1)
    } else {
        j
    }
}

/// The end of `s[lo..hi]` once its trailing white space is cut off.
pub open spec fn trim_end_at(s: Seq<char>, lo: int, hi: int) -> int
    decreases hi - lo,
{
    if lo < hi && is_ws(s[hi - 1]) {
        trim_end_at(s, lo, hi - 1)
    } else {
        hi
    }
}

/// `s` without its leading and trailing white space (`str::trim`).
pub open spec fn trim(s: Seq<char>) -> Seq<char> {
    let a = skip_ws(s, 0);
    s.subrange(a, trim_end_at(s, a, s.len() as int))
}

/// The first position at or after `j` that holds `c` (or the length).
pub open spec fn find_from(s: Seq<char>, c: char, j: int) -> int
    decreases s.len() - j,
{
    if 0 <= j < s.len() && s[j] != c {
        find_from(s, c, j + 1)
    } else {
        j
    }
}

/// The first position at or after `j` that holds white space (or the length).
pub open spec fn find_ws(s: Seq<char>, j: int) -> int
    decreases s.len() - j,
{
    if 0 <= j < s.len() && !is_ws(s[j]) {
        find_ws(s, j + 1)
    } else {
        j
    }
}

/// The first maximal run of non-white-space characters of `s`
/// (`split_whitespace().next()`).
pub open spec fn first_token(s: Seq<char>) -> Option<Seq<char>> {
    let a = skip_ws(s, 0);
    if a >= s.len() {
        None
    } else {
        Some(s.subrange(a, find_ws(s, a)))
    }
}

pub proof fn lemma_skip_ws(s: Seq<char>, j: int)
    requires
        0 <= j <= s.len(),
    ensures
        j <= skip_ws(s, j) <= s.len(),
        skip_ws(s, j) < s.len() ==> !is_ws(s[skip_ws(s, j)]),
        forall|t: int| j <= t < skip_ws(s, j) ==> is_ws(s[t]),
    decreases s.len() - j,
{
    if j < s.len() && is_ws(s[j]) {
        lemma_skip_ws(s, j + 1);
    }
}

pub proof fn lemma_trim_end_at(s: Seq<char>, lo: int, hi: int)
    requires
        0 <= lo <= hi <= s.len(),
    ensures
        lo <= trim_end_at(s, lo, hi) <= hi,
        trim_end_at(s, lo, hi) > lo ==> !is_ws(s[trim_end_at(s, lo, hi) - 1]),
    decreases hi - lo,
{
    if lo < hi && is_ws(s[hi - 1]) {
        lemma_trim_end_at(s, lo, hi - 1);
    }
}

pub proof fn lemma_find_from(s: Seq<char>, c: char, j: int)
    requires
        0 <= j <= s.len(),
    ensures
        j <= find_from(s, c, j) <= s.len(),
        find_from(s, c, j) < s.len() ==> s[find_from(s, c, j)] == c,
        forall|t: int| j <= t < find_from(s, c, j) ==> s[t] != c,
    decreases s.len() - j,
{
    if j < s.len() && s[j] != c {
        lemma_find_from(s, c, j + 1);
    }
}

pub proof fn lemma_find_ws(s: Seq<char>, j: int)
    requires
        0 <= j <= s.len(),
    ensures
        j <= find_ws(s, j) <= s.len(),
        forall|t: int| j <= t < find_ws(s, j) ==> !is_ws(s[t]),
    decreases s.len() - j,
{
    if j < s.len() && !is_ws(s[j]) {
        lemma_find_ws(s, j + 1);
    }
}

/// Finds `skip_ws(s, j)`.
pub fn skip_ws_from(s: &[char], j: usize) -> (r: usize)
    requires
        j <= s.len(),
    ensures
        r == skip_ws(s@, j as int),
{
    let mut k = j;
    while k < s.len() && is_whitespace(s[k])
        invariant
            j <= k <= s.len(),
            skip_ws(s@, k as int) == skip_ws(s@, j as int),
        decreases s.len() - k,
    {
        k = k + 1;
    }
    k
}

/// Finds `trim_end_at(s, lo, hi)`.
pub fn trim_end_from(s: &[char], lo: usize, hi: usize) -> (r: usize)
    requires
        lo <= hi <= s.len(),
    ensures
        r == trim_end_at(s@, lo as int, hi as int),
{
    let mut k = hi;
    while k > lo && is_whitespace(s[k - 1])
        invariant
            lo <= k <= hi,
            hi <= s.len(),
            trim_end_at(s@, lo as int, k as int) == trim_end_at(s@, lo as int, hi as int),
        decreases k,
    {
        k = k - 1;
    }
    k
}

/// Finds `find_from(s, c, j)`.
pub fn find_char_from(s: &[char], c: char, j: usize) -> (r: usize)
    requires
        j <= s.len(),
    ensures
        r == find_from(s@, c, j as int),
{
    let mut k = j;
    while k < s.len() && s[k] != c
        invariant
            j <= k <= s.len(),
            find_from(s@, c, k as int) == find_from(s@, c, j as int),
        decreases s.len() - k,
    {
        k = k + 1;
    }
    k
}

/// Finds `find_ws(s, j)`.
pub fn find_ws_from(s: &[char], j: usize) -> (r: usize)
    requires
        j <= s.len(),
    ensures
        r == find_ws(s@, j as int),
{
    let mut k = j;
    while k < s.len() && !is_whitespace(s[k])
        invariant
            j <= k <= s.len(),
            find_ws(s@, k as int) == find_ws(s@, j as int),
        decreases s.len() - k,
    {
        k = k + 1;
    }
    k
}

/// The first `c` at or after `j` is at `p` when `s[p]` is `c` and none before it is.
pub proof fn lemma_find_from_at(s: Seq<char>, c: char, j: int, p: int)
    requires
        0 <= j <= p < s.len(),
        s[p] == c,
        forall|t: int| j <= t < p ==> s[t] != c,
    ensures
        find_from(s, c, j) == p,
    decreases p - j,
{
    if j < p {
        lemma_find_from_at(s, c, j + 1, p);
    }
}

/// Without `c` from `j` on, the search for `c` ends at the length.
pub proof fn lemma_find_from_none(s: Seq<char>, c: char, j: int)
    requires
        0 <= j <= s.len(),
        forall|t: int| j <= t < s.len() ==> s[t] != c,
    ensures
        find_from(s, c, j) == s.len(),
    decreases s.len() - j,
{
    if j < s.len() {
        lemma_find_from_none(s, c, j + 1);
    }
}

/// Without white space from `j` on, the word from `j` runs to the end.
pub proof fn lemma_find_ws_none(s: Seq<char>, j: int)
    requires
        0 <= j <= s.len(),
        forall|t: int| j <= t < s.len() ==> !is_ws(s[t]),
    ensures
        find_ws(s, j) == s.len(),
    decreases s.len() - j,
{
    if j < s.len() {
        lemma_find_ws_none(s, j + 1);
    }
}

} // verus!
