use vstd::prelude::*;

verus! {

/// The little-endian `u32` stored in `b` at `pos`.
pub open spec fn le_u32_at(b: Seq<u8>, pos: int) -> u32 {
    (b[pos] + 256 * b[pos + 1] + 65536 * b[pos + 2] + 16777216 * b[pos + 3]) as u32
}

/// The four little-endian bytes of `x`.
pub open spec fn u32_le(x: u32) -> Seq<u8> {
    seq![
        (x % 256) as u8,
        ((x / 256) % 256) as u8,
        ((x / 65536) % 256) as u8,
        (x / 16777216) as u8,
    ]
}

/// The little-endian bytes of each value of `s`, one after the other.
pub open spec fn u32s_le(s: Seq<u32>) -> Seq<u8>
    decreases s.len(),
{
    if s.len() == 0 {
        Seq::empty()
    } else {
        u32s_le(s.drop_last()) + u32_le(s.last())
    }
}

/// The byte strings of `s`, one after the other.
pub open spec fn flatten_bytes(s: Seq<Seq<u8>>) -> Seq<u8>
    decreases s.len(),
{
    if s.len() == 0 {
        Seq::empty()
    } else {
        flatten_bytes(s.drop_last()) + s.last()
    }
}

pub open spec fn sum_ints(s: Seq<int>) -> int
    decreases s.len(),
{
    if s.len() == 0 {
        0
    } else {
        sum_ints(s.drop_last()) + s.last()
    }
}

/// The index table for strings of lengths `lens` stored one after the other:
/// for each string its offset (the sum of the lengths before it) and length.
pub open spec fn offset_index_bytes(lens: Seq<int>) -> Seq<u8>
    decreases lens.len(),
{
    if lens.len() == 0 {
        Seq::empty()
    } else {
        offset_index_bytes(lens.drop_last()) + u32_le(sum_ints(lens.drop_last()) as u32) + u32_le(
            lens.last() as u32,
        )
    }
}

pub proof fn lemma_sum_prefix(s: Seq<int>, i: int)
    requires
        0 <= i <= s.len(),
        forall|t: int| 0 <= t < s.len() ==> s[t] >= 0,
    ensures
        0 <= sum_ints(s.take(i)) <= sum_ints(s),
    decreases s.len(),
{
    if s.len() > 0 {
        if i == s.len() {
            assert(s.take(i) =~= s);
            lemma_sum_prefix(s.drop_last(), s.len() - 1);
            assert(s.drop_last().take(s.len() - 1) =~= s.drop_last());
        } else {
            lemma_sum_prefix(s.drop_last(), i);
            assert(s.drop_last().take(i) =~= s.take(i));
        }
    } else {
        assert(s.take(i) =~= s);
    }
}

/// `x` reduced to 32 bits, as a wrapping cast does.
pub open spec fn wrap32(x: int) -> u32 {
    (x % 0x1_0000_0000) as u32
}

pub proof fn lemma_u32_le_roundtrip(x: u32)
    ensures
        le_u32_at(u32_le(x), 0) == x,
        u32_le(x).len() == 4,
{
    let b = u32_le(x);
    assert(b[0] + 256 * b[1] + 65536 * b[2] + 16777216 * b[3] == x);
}

pub proof fn lemma_le_u32_at_append(a: Seq<u8>, b: Seq<u8>, pos: int)
    requires
        0 <= pos,
        pos + 4 <= a.len(),
    ensures
        le_u32_at(a + b, pos) == le_u32_at(a, pos),
        le_u32_at(b + a, b.len() + pos) == le_u32_at(a, pos),
{
    assert((a + b)[pos] == a[pos]);
    assert((a + b)[pos + 1] == a[pos + 1]);
    assert((a + b)[pos + 2] == a[pos + 2]);
    assert((a + b)[pos + 3] == a[pos + 3]);
    assert((b + a)[b.len() + pos] == a[pos]);
    assert((b + a)[b.len() + pos + 1] == a[pos + 1]);
    assert((b + a)[b.len() + pos + 2] == a[pos + 2]);
    assert((b + a)[b.len() + pos + 3] == a[pos + 3]);
}

pub proof fn lemma_flatten_append(a: Seq<Seq<u8>>, b: Seq<Seq<u8>>)
    ensures
        flatten_bytes(a + b) == flatten_bytes(a) + flatten_bytes(b),
    decreases b.len(),
{
    if b.len() == 0 {
        assert(a + b =~= a);
        assert(flatten_bytes(a) + Seq::<u8>::empty() =~= flatten_bytes(a));
    } else {
        assert((a + b).drop_last() =~= a + b.drop_last());
        assert((a + b).last() == b.last());
        lemma_flatten_append(a, b.drop_last());
    }
}

/// The total length of the parts is the sum of their lengths.
pub proof fn lemma_flatten_len(bs: Seq<Seq<u8>>, lens: Seq<int>)
    requires
        lens.len() == bs.len(),
        forall|j: int| 0 <= j < bs.len() ==> #[trigger] lens[j] == bs[j].len(),
    ensures
        flatten_bytes(bs).len() == sum_ints(lens),
    decreases bs.len(),
{
    if bs.len() > 0 {
        lemma_flatten_len(bs.drop_last(), lens.drop_last());
    }
}

/// Part `i` of a concatenation stands at the sum of the lengths before it.
pub proof fn lemma_flatten_part(bs: Seq<Seq<u8>>, i: int)
    requires
        0 <= i < bs.len(),
    ensures
        flatten_bytes(bs.take(i)).len() + bs[i].len() <= flatten_bytes(bs).len(),
        flatten_bytes(bs).subrange(
            flatten_bytes(bs.take(i)).len() as int,
            (flatten_bytes(bs.take(i)).len() + bs[i].len()) as int,
        ) == bs[i],
{
    let pre = bs.take(i);
    let post = bs.skip(i + 1);
    assert(bs =~= pre + (seq![bs[i]] + post));
    lemma_flatten_append(pre, seq![bs[i]] + post);
    lemma_flatten_append(seq![bs[i]], post);
    assert(seq![bs[i]].drop_last() =~= Seq::<Seq<u8>>::empty());
    assert(flatten_bytes(Seq::<Seq<u8>>::empty()) == Seq::<u8>::empty());
    assert(Seq::<u8>::empty() + bs[i] =~= bs[i]);
    assert(seq![bs[i]].last() == bs[i]);
    assert(flatten_bytes(seq![bs[i]]) == flatten_bytes(seq![bs[i]].drop_last()) + bs[i]);
    assert(flatten_bytes(seq![bs[i]]) =~= bs[i]);
    let f = flatten_bytes(bs);
    let a = flatten_bytes(pre);
    assert(f == a + (bs[i] + flatten_bytes(post)));
    assert(f.subrange(a.len() as int, (a.len() + bs[i].len()) as int) =~= bs[i]);
}

pub proof fn lemma_offset_index_len(lens: Seq<int>)
    ensures
        offset_index_bytes(lens).len() == 8 * lens.len(),
    decreases lens.len(),
{
    if lens.len() > 0 {
        lemma_offset_index_len(lens.drop_last());
    }
}

/// The entry of string or block `i` in an index table: its offset is the sum
/// of the lengths before it and its length is `lens[i]`.
pub proof fn lemma_offset_index_entry(lens: Seq<int>, i: int)
    requires
        0 <= i < lens.len(),
        forall|j: int| 0 <= j < lens.len() ==> lens[j] >= 0,
        sum_ints(lens) <= u32::MAX,
    ensures
        le_u32_at(offset_index_bytes(lens), 8 * i) == sum_ints(lens.take(i)),
        le_u32_at(offset_index_bytes(lens), 8 * i + 4) == lens[i],
    decreases lens.len(),
{
    let n = lens.len();
    let pre = lens.drop_last();
    lemma_offset_index_len(pre);
    lemma_sum_prefix(lens, n - 1);
    assert(lens.take(n - 1) =~= pre);
    assert(sum_ints(lens) == sum_ints(pre) + lens.last());
    let a = offset_index_bytes(pre);
    let e1 = u32_le(sum_ints(pre) as u32);
    let e2 = u32_le(lens.last() as u32);
    assert(offset_index_bytes(lens) == a + e1 + e2);
    lemma_u32_le_roundtrip(sum_ints(pre) as u32);
    lemma_u32_le_roundtrip(lens.last() as u32);
    if i < n - 1 {
        assert forall|j: int| 0 <= j < pre.len() implies pre[j] >= 0 by {}
        lemma_offset_index_entry(pre, i);
        assert(pre.take(i) =~= lens.take(i));
        lemma_le_u32_at_append(a, e1 + e2, 8 * i);
        lemma_le_u32_at_append(a, e1 + e2, 8 * i + 4);
        assert(a + e1 + e2 =~= a + (e1 + e2));
    } else {
        assert(lens.take(i) =~= pre);
        lemma_le_u32_at_append(e1, e2, 0);
        lemma_le_u32_at_append(e1 + e2, a, 0);
        lemma_le_u32_at_append(e2, a + e1, 0);
        assert(a + e1 + e2 =~= a + (e1 + e2));
        assert((a + e1) + e2 =~= a + e1 + e2);
    }
}

/// Value `k` of `s` stands at byte `4 * k` of `u32s_le(s)`.
pub proof fn lemma_u32s_le_entry(s: Seq<u32>, k: int)
    requires
        0 <= k < s.len(),
    ensures
        u32s_le(s).len() == 4 * s.len(),
        le_u32_at(u32s_le(s), 4 * k) == s[k],
    decreases s.len(),
{
    let pre = s.drop_last();
    lemma_u32s_le_len(pre);
    lemma_u32_le_roundtrip(s.last());
    let a = u32s_le(pre);
    let e = u32_le(s.last());
    if k < s.len() - 1 {
        lemma_u32s_le_entry(pre, k);
        lemma_le_u32_at_append(a, e, 4 * k);
    } else {
        lemma_le_u32_at_append(e, a, 0);
    }
}

pub proof fn lemma_u32s_le_len(s: Seq<u32>)
    ensures
        u32s_le(s).len() == 4 * s.len(),
    decreases s.len(),
{
    if s.len() > 0 {
        lemma_u32s_le_len(s.drop_last());
    }
}

/// With parts of twice the given lengths, the total length is twice their sum.
pub proof fn lemma_flatten_len_double(bs: Seq<Seq<u8>>, lens: Seq<int>)
    requires
        lens.len() == bs.len(),
        forall|j: int| 0 <= j < bs.len() ==> bs[j].len() == 2 * #[trigger] lens[j],
    ensures
        flatten_bytes(bs).len() == 2 * sum_ints(lens),
    decreases bs.len(),
{
    if bs.len() > 0 {
        lemma_flatten_len_double(bs.drop_last(), lens.drop_last());
    }
}

/// Reads the little-endian `u32` at `pos`.
pub fn read_u32_le(b: &[u8], pos: usize) -> (x: u32)
    requires
        pos + 4 <= b.len(),
    ensures
        x == le_u32_at(b@, pos as int),
{
    b[pos] as u32 + 256 * b[pos + 1] as u32 + 65536 * b[pos + 2] as u32 + 16777216 * b[pos
        + 3] as u32
}

/// The size field (the `u32` at byte 4) and the compressed data (from byte 8)
/// of a decrypted payload.
pub fn compressed_payload(data: &[u8]) -> (r: (u32, Vec<u8>))
    requires
        data@.len() >= 8,
    ensures
        r.0 == le_u32_at(data@, 4),
        r.1@ == data@.subrange(8, data@.len() as int),
{
    (read_u32_le(data, 4), bytes_range(data, 8, data.len() - 8))
}

/// Appends the four little-endian bytes of `x`.
pub fn push_u32_le(out: &mut Vec<u8>, x: u32)
    ensures
        final(out)@ == old(out)@ + u32_le(x),
{
    let ghost before = out@;
    out.push((x % 256) as u8);
    out.push(((x / 256) % 256) as u8);
    out.push(((x / 65536) % 256) as u8);
    out.push((x / 16777216) as u8);
    assert(out@ =~= before + u32_le(x));
}

/// Appends all of `src` to `dst`.
pub fn append_bytes(dst: &mut Vec<u8>, src: &[u8])
    ensures
        final(dst)@ == old(dst)@ + src@,
{
    let ghost start = dst@;
    let mut i: usize = 0;
    while i < src.len()
        invariant
            i <= src.len(),
            dst@ == start + src@.take(i as int),
        decreases src.len() - i,
    {
        dst.push(src[i]);
        i = i + 1;
        assert(src@.take(i as int) == src@.take(i - 1).push(src@[i - 1]));
    }
    assert(src@.take(src.len() as int) == src@);
}

/// A copy of `len` bytes of `b` from `start`.
pub fn bytes_range(b: &[u8], start: usize, len: usize) -> (v: Vec<u8>)
    requires
        start + len <= b.len(),
    ensures
        v@ == b@.subrange(start as int, start + len),
{
    let mut v: Vec<u8> = Vec::new();
    let mut i: usize = 0;
    while i < len
        invariant
            start + len <= b.len(),
            i <= len,
            v@ == b@.subrange(start as int, start + i),
        decreases len - i,
    {
        v.push(b[start + i]);
        i = i + 1;
        assert(v@ =~= b@.subrange(start as int, start + i));
    }
    v
}

/// Appends the index table of strings or blocks of lengths `lengths` stored
/// one after the other (see `offset_index_bytes`).
pub fn push_offset_index(out: &mut Vec<u8>, lengths: &[usize])
    requires
        sum_ints(lengths@.map_values(|x: usize| x as int)) <= u32::MAX,
    ensures
        final(out)@ == old(out)@ + offset_index_bytes(lengths@.map_values(|x: usize| x as int)),
{
    let ghost lv = lengths@.map_values(|x: usize| x as int);
    let ghost start = out@;
    let mut new_offset: u32 = 0;
    let mut i: usize = 0;
    proof {
        assert(lv.take(0) =~= Seq::<int>::empty());
        assert(start + Seq::<u8>::empty() =~= start);
    }
    while i < lengths.len()
        invariant
            lv == lengths@.map_values(|x: usize| x as int),
            forall|k: int| 0 <= k < lv.len() ==> lv[k] >= 0,
            sum_ints(lv) <= u32::MAX,
            i <= lengths.len(),
            new_offset == sum_ints(lv.take(i as int)),
            out@ == start + offset_index_bytes(lv.take(i as int)),
        decreases lengths.len() - i,
    {
        proof {
            assert(lv.take(i + 1).drop_last() =~= lv.take(i as int));
            assert(lv.take(i + 1).last() == lengths@[i as int] as int);
            lemma_sum_prefix(lv, i + 1);
        }
        push_u32_le(out, new_offset);
        push_u32_le(out, lengths[i] as u32);
        new_offset = new_offset + lengths[i] as u32;
        i = i + 1;
    }
    proof {
        assert(lv.take(lengths.len() as int) =~= lv);
    }
}

/// Appends every byte string of `parts`, in order.
pub fn push_all(out: &mut Vec<u8>, parts: &[Vec<u8>])
    ensures
        final(out)@ == old(out)@ + flatten_bytes(parts@.map_values(|v: Vec<u8>| v@)),
{
    let ghost pv = parts@.map_values(|v: Vec<u8>| v@);
    let ghost start = out@;
    let mut k: usize = 0;
    proof {
        assert(pv.take(0) =~= Seq::<Seq<u8>>::empty());
        assert(start + Seq::<u8>::empty() =~= start);
    }
    while k < parts.len()
        invariant
            pv == parts@.map_values(|v: Vec<u8>| v@),
            k <= parts.len(),
            out@ == start + flatten_bytes(pv.take(k as int)),
        decreases parts.len() - k,
    {
        proof {
            assert(pv.take(k + 1).drop_last() =~= pv.take(k as int));
            assert(pv.take(k + 1).last() == parts@[k as int]@);
        }
        append_bytes(out, &parts[k]);
        k = k + 1;
    }
    proof {
        assert(pv.take(parts.len() as int) =~= pv);
    }
}

} // verus!
