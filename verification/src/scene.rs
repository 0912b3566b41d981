use vstd::prelude::*;

use crate::bytes::{
    bytes_range, flatten_bytes, le_u32_at, lemma_flatten_len, lemma_flatten_part,
    lemma_le_u32_at_append, lemma_offset_index_entry, lemma_offset_index_len, lemma_sum_prefix,
    offset_index_bytes, push_all, push_offset_index, read_u32_le, sum_ints,
};
use crate::chars::{chars_range, string_of};
use crate::cipher::{decrypt1, key_xor};
use crate::utf16::{decode_utf16le_chars, utf16le_text};

verus! {

/// Why a scene pack could not be read.
#[derive(Debug, Clone, Copy, PartialEq, Eq)]
pub enum SceneError {
    /// The pack is shorter than its header (88 bytes).
    TruncatedHeader,
}

/// The size of the header of a scene pack: a 4-byte prefix and 21 `u32` fields.
pub open spec fn sc_header_size() -> int {
    88
}

/// Header field `k` (0..21) of scene pack `d`.
pub open spec fn sc_field(d: Seq<u8>, k: int) -> int {
    le_u32_at(d, 4 + 4 * k) as int
}

pub open spec fn sc_name_index_offset(d: Seq<u8>) -> int {
    sc_field(d, 12)
}

pub open spec fn sc_name_index_count(d: Seq<u8>) -> int {
    sc_field(d, 13)
}

pub open spec fn sc_name_offset(d: Seq<u8>) -> int {
    sc_field(d, 14)
}

pub open spec fn sc_name_count(d: Seq<u8>) -> int {
    sc_field(d, 15)
}

pub open spec fn sc_info_offset(d: Seq<u8>) -> int {
    sc_field(d, 16)
}

pub open spec fn sc_info_count(d: Seq<u8>) -> int {
    sc_field(d, 17)
}

pub open spec fn sc_data_offset(d: Seq<u8>) -> int {
    sc_field(d, 18)
}

pub open spec fn sc_data_count(d: Seq<u8>) -> int {
    sc_field(d, 19)
}

pub open spec fn sc_extra_key_use(d: Seq<u8>) -> int {
    sc_field(d, 20)
}

/// The length, in UTF-16 units, of scene name `j`.
pub open spec fn sc_name_len(d: Seq<u8>, j: int) -> int {
    le_u32_at(d, sc_name_index_offset(d) + 8 * j + 4) as int
}

/// The lengths of the scene names, one per name.
pub open spec fn sc_name_lens(d: Seq<u8>) -> Seq<int> {
    Seq::new(sc_name_count(d) as nat, |j: int| sc_name_len(d, j))
}

/// Where scene name `i` starts: the names are stored one after the other.
pub open spec fn sc_name_pos(d: Seq<u8>, i: int) -> int {
    sc_name_offset(d) + 2 * sum_ints(sc_name_lens(d).take(i))
}

/// Scene name `i`.
pub open spec fn sc_name(d: Seq<u8>, i: int) -> Seq<char> {
    utf16le_text(d.subrange(sc_name_pos(d, i), sc_name_pos(d, i) + 2 * sc_name_len(d, i)))
}

/// The offset of scene block `i` from the start of the scene data.
pub open spec fn sc_info_off(d: Seq<u8>, i: int) -> int {
    le_u32_at(d, sc_info_offset(d) + 8 * i) as int
}

/// The length of scene block `i`.
pub open spec fn sc_info_len(d: Seq<u8>, i: int) -> int {
    le_u32_at(d, sc_info_offset(d) + 8 * i + 4) as int
}

pub open spec fn sc_block_start(d: Seq<u8>, i: int) -> int {
    sc_data_offset(d) + sc_info_off(d, i)
}

/// The stored (encrypted, compressed) bytes of scene `i`.
pub open spec fn sc_block(d: Seq<u8>, i: int) -> Seq<u8> {
    d.subrange(sc_block_start(d, i), sc_block_start(d, i) + sc_info_len(d, i))
}

/// The header, the name index, the names, the block table and every block
/// lie inside `d`, and there are names and table entries for every block.
pub open spec fn sc_tables_ok(d: Seq<u8>) -> bool {
    &&& d.len() >= sc_header_size()
    &&& sc_name_index_offset(d) + 8 * sc_name_index_count(d) <= d.len()
    &&& sc_name_count(d) <= sc_name_index_count(d)
    &&& sc_name_offset(d) + 2 * sum_ints(sc_name_lens(d)) <= d.len()
    &&& sc_info_offset(d) + 8 * sc_info_count(d) <= d.len()
    &&& sc_data_count(d) <= sc_info_count(d)
    &&& sc_data_count(d) <= sc_name_count(d)
    &&& forall|i: int|
        0 <= i < sc_data_count(d) ==> #[trigger] sc_block_start(d, i) + sc_info_len(d, i)
            <= d.len()
}

/// The 16-byte key that the extra key layer uses: the given one, or zeros.
pub open spec fn key_or_zero(key: Option<Seq<u8>>) -> Seq<u8> {
    match key {
        Some(k) => k,
        None => Seq::new(16, |j: int| 0u8),
    }
}

/// A block with the extra key layer removed (or added) when the pack uses it.
pub open spec fn sc_key_layer(block: Seq<u8>, extra_key_use: int, key: Option<Seq<u8>>) -> Seq<
    u8,
> {
    if extra_key_use != 0 {
        key_xor(block, key_or_zero(key))
    } else {
        block
    }
}

/// The file name of scene `i`: its name and `.ss`.
pub open spec fn sc_file_name(d: Seq<u8>, i: int) -> Seq<char> {
    sc_name(d, i) + seq!['.', 's', 's']
}

/// For each block, the file name of its scene and the block with the extra
/// key layer removed.
pub open spec fn sc_unpacked(d: Seq<u8>, key: Option<Seq<u8>>) -> Seq<(Seq<char>, Seq<u8>)> {
    Seq::new(
        sc_data_count(d) as nat,
        |i: int| (sc_file_name(d, i), sc_key_layer(sc_block(d, i), sc_extra_key_use(d), key)),
    )
}

pub open spec fn key_view(key: Option<&[u8; 16]>) -> Option<Seq<u8>> {
    match key {
        Some(k) => Some(k@),
        None => None,
    }
}

/// The new block lengths: a replaced block has its new length, any other
/// table entry keeps its length.
pub open spec fn sc_new_lengths(d: Seq<u8>, reps: Seq<Option<Seq<u8>>>) -> Seq<int> {
    Seq::new(
        sc_info_count(d) as nat,
        |i: int|
            if i < sc_data_count(d) && reps[i] is Some {
                reps[i]->0.len() as int
            } else {
                sc_info_len(d, i)
            },
    )
}

/// The blocks of the rebuilt pack: the replacement where there is one, the
/// stored block otherwise.
pub open spec fn sc_new_blocks(d: Seq<u8>, reps: Seq<Option<Seq<u8>>>) -> Seq<Seq<u8>> {
    Seq::new(
        sc_data_count(d) as nat,
        |i: int|
            if reps[i] is Some {
                reps[i]->0
            } else {
                sc_block(d, i)
            },
    )
}

/// The rebuilt pack: everything before the block table, a new block table
/// (blocks one after the other), then the blocks.
pub open spec fn sc_packed(d: Seq<u8>, reps: Seq<Option<Seq<u8>>>) -> Seq<u8> {
    d.subrange(0, sc_info_offset(d)) + offset_index_bytes(sc_new_lengths(d, reps)) + flatten_bytes(
        sc_new_blocks(d, reps),
    )
}

pub open spec fn reps_view(reps: Seq<Option<Vec<u8>>>) -> Seq<Option<Seq<u8>>> {
    reps.map_values(
        |o: Option<Vec<u8>>|
            match o {
                Some(v) => Some(v@),
                None => None,
            },
    )
}

/// `pack_scene` can rebuild `d` with `reps`: the tables are sound, there is
/// one replacement slot per block, and the new lengths sum to at most
/// `u32::MAX`.
pub open spec fn sc_pack_ok(d: Seq<u8>, reps: Seq<Option<Seq<u8>>>) -> bool {
    &&& sc_tables_ok(d)
    &&& reps.len() == sc_data_count(d)
    &&& sum_ints(sc_new_lengths(d, reps)) <= u32::MAX
}

/// The header fields of a scene pack that its unpacking and packing read.
struct SceneHeader {
    var_info_offset: u32,
    scene_name_index_offset: u32,
    scene_name_index_count: u32,
    scene_name_offset: u32,
    scene_name_count: u32,
    scene_info_offset: u32,
    scene_info_count: u32,
    scene_data_offset: u32,
    scene_data_count: u32,
    extra_key_use: u32,
}

impl SceneHeader {
    spec fn matches(&self, d: Seq<u8>) -> bool {
        &&& self.var_info_offset == sc_field(d, 0)
        &&& self.scene_name_index_offset == sc_name_index_offset(d)
        &&& self.scene_name_index_count == sc_name_index_count(d)
        &&& self.scene_name_offset == sc_name_offset(d)
        &&& self.scene_name_count == sc_name_count(d)
        &&& self.scene_info_offset == sc_info_offset(d)
        &&& self.scene_info_count == sc_info_count(d)
        &&& self.scene_data_offset == sc_data_offset(d)
        &&& self.scene_data_count == sc_data_count(d)
        &&& self.extra_key_use == sc_extra_key_use(d)
    }
}

/// Reads the `u32` at `pos`, or fails when fewer than 4 bytes remain.
fn read_u32(data: &[u8], pos: usize) -> (r: Result<u32, SceneError>)
    ensures
        match r {
            Ok(x) => pos + 4 <= data.len() && x == le_u32_at(data@, pos as int),
            Err(_) => pos + 4 > data.len(),
        },
{
    if pos > data.len() || data.len() - pos < 4 {
        Err(SceneError::TruncatedHeader)
    } else {
        Ok(read_u32_le(data, pos))
    }
}

fn parse_header(data: &[u8]) -> (r: Result<SceneHeader, SceneError>)
    ensures
        match r {
            Ok(h) => data@.len() >= sc_header_size() && h.matches(data@),
            Err(e) => data@.len() < sc_header_size() && e == SceneError::TruncatedHeader,
        },
{
    if data.len() < 88 {
        return Err(SceneError::TruncatedHeader);
    }
    let var_info_offset = read_u32(data, 4)?;
    let scene_name_index_offset = read_u32(data, 52)?;
    let scene_name_index_count = read_u32(data, 56)?;
    let scene_name_offset = read_u32(data, 60)?;
    let scene_name_count = read_u32(data, 64)?;
    let scene_info_offset = read_u32(data, 68)?;
    let scene_info_count = read_u32(data, 72)?;
    let scene_data_offset = read_u32(data, 76)?;
    let scene_data_count = read_u32(data, 80)?;
    let extra_key_use = read_u32(data, 84)?;
    Ok(
        SceneHeader {
            var_info_offset,
            scene_name_index_offset,
            scene_name_index_count,
            scene_name_offset,
            scene_name_count,
            scene_info_offset,
            scene_info_count,
            scene_data_offset,
            scene_data_count,
            extra_key_use,
        },
    )
}

/// Whether `sc_tables_ok(data)` holds.
pub fn check_scene_tables(data: &[u8]) -> (r: bool)
    ensures
        r == sc_tables_ok(data@),
{
    let header = match parse_header(data) {
        Ok(h) => h,
        Err(_) => {
            return false;
        },
    };
    let len = data.len() as u64;
    if header.scene_name_index_offset as u64 + 8 * header.scene_name_index_count as u64 > len {
        return false;
    }
    if header.scene_name_count > header.scene_name_index_count {
        return false;
    }
    let name_lens = read_name_lengths(data, &header);
    let ghost nl = sc_name_lens(data@);
    let mut total: u64 = 0;
    let mut i: usize = 0;
    proof {
        assert(nl.take(0) =~= Seq::<int>::empty());
    }
    while i < name_lens.len()
        invariant
            nl == sc_name_lens(data@),
            name_lens@.len() == nl.len(),
            forall|j: int| 0 <= j < nl.len() ==> #[trigger] name_lens@[j] == nl[j],
            forall|j: int| 0 <= j < nl.len() ==> nl[j] >= 0,
            i <= name_lens.len(),
            len == data.len(),
            total == sum_ints(nl.take(i as int)),
            total <= len,
        decreases name_lens.len() - i,
    {
        proof {
            assert(nl.take(i + 1).drop_last() =~= nl.take(i as int));
            assert(nl.take(i + 1).last() == nl[i as int]);
        }
        if name_lens[i] as u64 > len - total {
            proof {
                lemma_sum_prefix(nl, i + 1);
            }
            return false;
        }
        total = total + name_lens[i] as u64;
        i = i + 1;
    }
    proof {
        assert(nl.take(nl.len() as int) =~= nl);
    }
    if header.scene_name_offset as u128 + 2 * total as u128 > len as u128 {
        return false;
    }
    if header.scene_info_offset as u64 + 8 * header.scene_info_count as u64 > len {
        return false;
    }
    if header.scene_data_count > header.scene_info_count || header.scene_data_count
        > header.scene_name_count {
        return false;
    }
    let mut k: u64 = 0;
    while k < header.scene_data_count as u64
        invariant
            data@.len() >= sc_header_size(),
            header.matches(data@),
            len == data.len(),
            sc_info_offset(data@) + 8 * sc_info_count(data@) <= data.len(),
            sc_data_count(data@) <= sc_info_count(data@),
            k <= sc_data_count(data@),
            forall|i: int|
                0 <= i < k ==> #[trigger] sc_block_start(data@, i) + sc_info_len(data@, i)
                    <= data.len(),
        decreases header.scene_data_count as u64 - k,
    {
        let pos = (header.scene_info_offset as u64 + 8 * k) as usize;
        let off = read_u32_le(data, pos) as u64;
        let blen = read_u32_le(data, pos + 4) as u64;
        if header.scene_data_offset as u64 + off + blen > len {
            assert(sc_block_start(data@, k as int) + sc_info_len(data@, k as int) > data.len());
            return false;
        }
        k = k + 1;
    }
    true
}

/// The name lengths of the name index (the first `scene_name_count` entries).
fn read_name_lengths(data: &[u8], header: &SceneHeader) -> (r: Vec<u32>)
    requires
        data@.len() >= sc_header_size(),
        header.matches(data@),
        sc_name_index_offset(data@) + 8 * sc_name_index_count(data@) <= data.len(),
        sc_name_count(data@) <= sc_name_index_count(data@),
    ensures
        r@.len() == sc_name_count(data@),
        forall|j: int| 0 <= j < r@.len() ==> #[trigger] r@[j] == sc_name_lens(data@)[j],
{
    let mut lens: Vec<u32> = Vec::new();
    let mut j: usize = 0;
    let count = header.scene_name_count as usize;
    while j < count
        invariant
            data@.len() >= sc_header_size(),
            header.matches(data@),
            sc_name_index_offset(data@) + 8 * sc_name_index_count(data@) <= data.len(),
            count == sc_name_count(data@),
            count <= sc_name_index_count(data@),
            j <= count,
            lens@.len() == j,
            forall|t: int| 0 <= t < j ==> #[trigger] lens@[t] == sc_name_lens(data@)[t],
        decreases count - j,
    {
        let pos = header.scene_name_index_offset as usize + 8 * j;
        lens.push(read_u32_le(data, pos + 4));
        j = j + 1;
    }
    lens
}

/// The scene names (without extension), by index.
fn read_names(data: &[u8], header: &SceneHeader) -> (r: Vec<Vec<char>>)
    requires
        sc_tables_ok(data@),
        header.matches(data@),
    ensures
        r@.len() == sc_name_count(data@),
        forall|i: int| 0 <= i < r@.len() ==> #[trigger] r@[i]@ == sc_name(data@, i),
{
    let name_lens = read_name_lengths(data, header);
    let ghost nl = sc_name_lens(data@);
    let mut names: Vec<Vec<char>> = Vec::new();
    let mut pos = header.scene_name_offset as usize;
    let mut i: usize = 0;
    while i < name_lens.len()
        invariant
            sc_tables_ok(data@),
            nl == sc_name_lens(data@),
            name_lens@.len() == nl.len(),
            forall|j: int| 0 <= j < nl.len() ==> #[trigger] name_lens@[j] == nl[j],
            i <= name_lens.len(),
            pos == sc_name_pos(data@, i as int),
            names@.len() == i,
            forall|j: int| 0 <= j < i ==> #[trigger] names@[j]@ == sc_name(data@, j),
        decreases name_lens.len() - i,
    {
        proof {
            assert(nl.take(i + 1).drop_last() =~= nl.take(i as int));
            assert(nl.take(i + 1).last() == nl[i as int]);
            assert forall|j: int| 0 <= j < nl.len() implies nl[j] >= 0 by {}
            lemma_sum_prefix(nl, i + 1);
        }
        assert(sum_ints(nl.take(i + 1)) == sum_ints(nl.take(i as int)) + nl[i as int]);
        assert(pos + 2 * nl[i as int] <= data.len());
        let byte_len = name_lens[i] as usize * 2;
        let raw = bytes_range(data, pos, byte_len);
        names.push(decode_utf16le_chars(&raw));
        pos = pos + byte_len;
        i = i + 1;
    }
    names
}

/// The block table: offsets and lengths, by index.
fn read_blocks_table(data: &[u8], header: &SceneHeader) -> (r: (Vec<u32>, Vec<u32>))
    requires
        sc_tables_ok(data@),
        header.matches(data@),
    ensures
        r.0@.len() == sc_info_count(data@),
        r.1@.len() == sc_info_count(data@),
        forall|i: int| 0 <= i < r.0@.len() ==> #[trigger] r.0@[i] == sc_info_off(data@, i),
        forall|i: int| 0 <= i < r.1@.len() ==> #[trigger] r.1@[i] == sc_info_len(data@, i),
{
    let mut offs: Vec<u32> = Vec::new();
    let mut lens: Vec<u32> = Vec::new();
    let count = header.scene_info_count as usize;
    let mut i: usize = 0;
    while i < count
        invariant
            sc_tables_ok(data@),
            header.matches(data@),
            count == sc_info_count(data@),
            i <= count,
            offs@.len() == i,
            lens@.len() == i,
            forall|t: int| 0 <= t < i ==> #[trigger] offs@[t] == sc_info_off(data@, t),
            forall|t: int| 0 <= t < i ==> #[trigger] lens@[t] == sc_info_len(data@, t),
        decreases count - i,
    {
        assert(sc_info_offset(data@) + 8 * i + 8 <= data.len());
        let pos = header.scene_info_offset as usize + 8 * i;
        offs.push(read_u32_le(data, pos));
        lens.push(read_u32_le(data, pos + 4));
        i = i + 1;
    }
    (offs, lens)
}

/// Removes (or adds) the extra key layer of a block when the pack uses it.
pub fn scene_key_layer(block: &[u8], extra_key_use: u32, key: Option<&[u8; 16]>) -> (r: Vec<u8>)
    ensures
        r@ == sc_key_layer(block@, extra_key_use as int, key_view(key)),
{
    if extra_key_use != 0 {
        match key {
            Some(k) => decrypt1(block, k),
            None => {
                let zero: [u8; 16] = [0u8; 16];
                assert(zero@ =~= key_or_zero(None));
                decrypt1(block, &zero)
            },
        }
    } else {
        bytes_range(block, 0, block.len())
    }
}

/// Splits a scene pack into its scenes: for each block, the file name of its
/// scene (the name and `.ss`) and the block with the extra key layer removed.
/// Fails when the pack is shorter than its header.
pub fn unpack_scene(data: &[u8], key: Option<&[u8; 16]>) -> (r: Result<
    Vec<(String, Vec<u8>)>,
    SceneError,
>)
    requires
        data@.len() >= sc_header_size() ==> sc_tables_ok(data@),
    ensures
        match r {
            Ok(v) => data@.len() >= sc_header_size() && v@.map_values(
                |p: (String, Vec<u8>)| (p.0@, p.1@),
            ) == sc_unpacked(
                data@,
                key_view(key),
            ),
            Err(e) => data@.len() < sc_header_size() && e == SceneError::TruncatedHeader,
        },
{
    let header = parse_header(data)?;
    let names = read_names(data, &header);
    let (offs, lens) = read_blocks_table(data, &header);
    let count = header.scene_data_count as usize;
    let mut results: Vec<(String, Vec<u8>)> = Vec::new();
    let mut i: usize = 0;
    while i < count
        invariant
            sc_tables_ok(data@),
            header.matches(data@),
            count == sc_data_count(data@),
            names@.len() == sc_name_count(data@),
            forall|t: int| 0 <= t < names@.len() ==> #[trigger] names@[t]@ == sc_name(data@, t),
            offs@.len() == sc_info_count(data@),
            lens@.len() == sc_info_count(data@),
            forall|t: int| 0 <= t < offs@.len() ==> #[trigger] offs@[t] == sc_info_off(data@, t),
            forall|t: int| 0 <= t < lens@.len() ==> #[trigger] lens@[t] == sc_info_len(data@, t),
            i <= count,
            results@.len() == i,
            results@.map_values(|p: (String, Vec<u8>)| (p.0@, p.1@)) == sc_unpacked(
                data@,
                key_view(key),
            ).take(i as int),
        decreases count - i,
    {
        assert(sc_block_start(data@, i as int) + sc_info_len(data@, i as int) <= data.len());
        let start = header.scene_data_offset as usize + offs[i] as usize;
        let raw = bytes_range(data, start, lens[i] as usize);
        assert(raw@ == sc_block(data@, i as int));
        let block = scene_key_layer(&raw, header.extra_key_use, key);
        let mut file_name = chars_range(&names[i], 0, names[i].len());
        file_name.push('.');
        file_name.push('s');
        file_name.push('s');
        assert(file_name@ =~= sc_file_name(data@, i as int));
        let ghost before = results@;
        results.push((string_of(&file_name), block));
        proof {
            assert(results@ == before.push(results@[i as int]));
            assert(results@.map_values(|p: (String, Vec<u8>)| (p.0@, p.1@)) =~= sc_unpacked(
                data@,
                key_view(key),
            ).take(i + 1));
        }
        i = i + 1;
    }
    proof {
        assert(sc_unpacked(data@, key_view(key)).take(count as int) =~= sc_unpacked(
            data@,
            key_view(key),
        ));
    }
    Ok(results)
}

/// The file names of the scenes (name and `.ss`), one per block, in order.
pub fn scene_file_names(data: &[u8]) -> (r: Result<Vec<String>, SceneError>)
    requires
        data@.len() >= sc_header_size() ==> sc_tables_ok(data@),
    ensures
        match r {
            Ok(v) => data@.len() >= sc_header_size() && v@.len() == sc_data_count(data@) && forall|i: int|
                0 <= i < v@.len() ==> #[trigger] v@[i]@ == sc_file_name(data@, i),
            Err(e) => data@.len() < sc_header_size() && e == SceneError::TruncatedHeader,
        },
{
    let header = parse_header(data)?;
    let names = read_names(data, &header);
    let count = header.scene_data_count as usize;
    let mut out: Vec<String> = Vec::new();
    let mut i: usize = 0;
    while i < count
        invariant
            sc_tables_ok(data@),
            count == sc_data_count(data@),
            names@.len() == sc_name_count(data@),
            forall|t: int| 0 <= t < names@.len() ==> #[trigger] names@[t]@ == sc_name(data@, t),
            i <= count,
            out@.len() == i,
            forall|t: int| 0 <= t < i ==> #[trigger] out@[t]@ == sc_file_name(data@, t),
        decreases count - i,
    {
        let mut file_name = chars_range(&names[i], 0, names[i].len());
        file_name.push('.');
        file_name.push('s');
        file_name.push('s');
        assert(file_name@ =~= sc_file_name(data@, i as int));
        out.push(string_of(&file_name));
        i = i + 1;
    }
    Ok(out)
}

/// Whether the pack uses the extra key layer (header field 20, nonzero when it does).
pub fn scene_extra_key_use(data: &[u8]) -> (r: Result<u32, SceneError>)
    ensures
        match r {
            Ok(v) => data@.len() >= sc_header_size() && v == sc_extra_key_use(data@),
            Err(e) => data@.len() < sc_header_size() && e == SceneError::TruncatedHeader,
        },
{
    let header = parse_header(data)?;
    Ok(header.extra_key_use)
}

/// A file name without its `.ss` extension, or the name itself when it has none.
pub open spec fn spec_strip_ss(name: Seq<char>) -> Seq<char> {
    if name.len() >= 3 && name.subrange(name.len() - 3, name.len() as int) == seq!['.', 's', 's'] {
        name.subrange(0, name.len() - 3)
    } else {
        name
    }
}

/// The scene name of a script file name: the name without `.ss`.
pub fn strip_ss_suffix(name: &str) -> (r: String)
    ensures
        r@ == spec_strip_ss(name@),
{
    let c = crate::chars::chars_of(name);
    let n = c.len();
    if n >= 3 && c[n - 3] == '.' && c[n - 2] == 's' && c[n - 1] == 's' {
        assert(c@.subrange(n - 3, n as int) =~= seq!['.', 's', 's']);
        string_of(&chars_range(&c, 0, n - 3))
    } else {
        proof {
            if n >= 3 && c@.subrange(n - 3, n as int) == seq!['.', 's', 's'] {
                assert(c@.subrange(n - 3, n as int)[0] == '.');
                assert(c@.subrange(n - 3, n as int)[1] == 's');
                assert(c@.subrange(n - 3, n as int)[2] == 's');
            }
        }
        string_of(&c)
    }
}

/// The new block lengths and blocks for the replacements `reps`.
fn new_blocks(data: &[u8], header: &SceneHeader, reps: &[Option<Vec<u8>>]) -> (r: (
    Vec<usize>,
    Vec<Vec<u8>>,
))
    requires
        sc_tables_ok(data@),
        header.matches(data@),
        reps@.len() == sc_data_count(data@),
    ensures
        r.0@.map_values(|x: usize| x as int) == sc_new_lengths(data@, reps_view(reps@)),
        r.1@.map_values(|v: Vec<u8>| v@) == sc_new_blocks(data@, reps_view(reps@)),
{
    let ghost rv = reps_view(reps@);
    let (offs, lens) = read_blocks_table(data, header);
    let data_count = header.scene_data_count as usize;
    let info_count = header.scene_info_count as usize;
    let mut blocks: Vec<Vec<u8>> = Vec::new();
    let mut i: usize = 0;
    while i < data_count
        invariant
            sc_tables_ok(data@),
            header.matches(data@),
            rv == reps_view(reps@),
            reps@.len() == data_count,
            data_count == sc_data_count(data@),
            offs@.len() == sc_info_count(data@),
            lens@.len() == sc_info_count(data@),
            forall|t: int| 0 <= t < offs@.len() ==> #[trigger] offs@[t] == sc_info_off(data@, t),
            forall|t: int| 0 <= t < lens@.len() ==> #[trigger] lens@[t] == sc_info_len(data@, t),
            i <= data_count,
            blocks@.len() == i,
            forall|t: int|
                0 <= t < i ==> #[trigger] blocks@[t]@ == sc_new_blocks(data@, rv)[t],
        decreases data_count - i,
    {
        let b = match &reps[i] {
            Some(v) => bytes_range(v, 0, v.len()),
            None => {
                assert(sc_block_start(data@, i as int) + sc_info_len(data@, i as int)
                    <= data.len());
                let start = header.scene_data_offset as usize + offs[i] as usize;
                bytes_range(data, start, lens[i] as usize)
            },
        };
        assert(b@ == sc_new_blocks(data@, rv)[i as int]);
        blocks.push(b);
        i = i + 1;
    }
    let mut lengths: Vec<usize> = Vec::new();
    let mut k: usize = 0;
    while k < info_count
        invariant
            sc_tables_ok(data@),
            rv == reps_view(reps@),
            reps@.len() == data_count,
            data_count == sc_data_count(data@),
            info_count == sc_info_count(data@),
            lens@.len() == info_count,
            forall|t: int| 0 <= t < lens@.len() ==> #[trigger] lens@[t] == sc_info_len(data@, t),
            blocks@.len() == data_count,
            forall|t: int|
                0 <= t < data_count ==> #[trigger] blocks@[t]@ == sc_new_blocks(data@, rv)[t],
            k <= info_count,
            lengths@.len() == k,
            forall|t: int|
                0 <= t < k ==> #[trigger] lengths@[t] as int == sc_new_lengths(data@, rv)[t],
        decreases info_count - k,
    {
        let n = if k < data_count && reps[k].is_some() {
            assert(blocks@[k as int]@ == rv[k as int]->0);
            blocks[k].len()
        } else {
            lens[k] as usize
        };
        lengths.push(n);
        k = k + 1;
    }
    assert(lengths@.map_values(|x: usize| x as int) =~= sc_new_lengths(data@, rv));
    assert(blocks@.map_values(|v: Vec<u8>| v@) =~= sc_new_blocks(data@, rv));
    (lengths, blocks)
}

/// Whether `sc_pack_ok(data, reps)` holds, that is whether `pack_scene` can
/// rebuild `data` with `reps`.
pub fn pack_scene_ok(data: &[u8], reps: &[Option<Vec<u8>>]) -> (r: bool)
    ensures
        r == sc_pack_ok(data@, reps_view(reps@)),
{
    if !check_scene_tables(data) {
        return false;
    }
    let header = match parse_header(data) {
        Ok(h) => h,
        Err(_) => {
            return false;
        },
    };
    if reps.len() != header.scene_data_count as usize {
        return false;
    }
    let (lengths, _blocks) = new_blocks(data, &header, reps);
    let ghost lv = lengths@.map_values(|x: usize| x as int);
    let mut sum: u64 = 0;
    let mut i: usize = 0;
    proof {
        assert(lv.take(0) =~= Seq::<int>::empty());
    }
    while i < lengths.len()
        invariant
            lv == lengths@.map_values(|x: usize| x as int),
            lv == sc_new_lengths(data@, reps_view(reps@)),
            sc_tables_ok(data@),
            reps@.len() == sc_data_count(data@),
            forall|t: int| 0 <= t < lv.len() ==> lv[t] >= 0,
            i <= lengths.len(),
            sum == sum_ints(lv.take(i as int)),
            sum <= u32::MAX,
        decreases lengths.len() - i,
    {
        proof {
            assert(lv.take(i + 1).drop_last() =~= lv.take(i as int));
            assert(lv.take(i + 1).last() == lengths@[i as int] as int);
        }
        if lengths[i] as u64 > u32::MAX as u64 - sum {
            proof {
                lemma_sum_prefix(lv, i + 1);
            }
            return false;
        }
        sum = sum + lengths[i] as u64;
        i = i + 1;
    }
    proof {
        assert(lv.take(lengths.len() as int) =~= lv);
    }
    true
}

/// Rebuilds a scene pack with new blocks: `reps[i]` is the new stored block
/// of scene `i`, or `None` to keep it. Everything before the block table is
/// kept, the block table is rebuilt with the blocks one after the other, and
/// the blocks follow. Fails when the pack is shorter than its header.
pub fn pack_scene(data: &[u8], reps: &[Option<Vec<u8>>]) -> (r: Result<Vec<u8>, SceneError>)
    requires
        data@.len() >= sc_header_size() ==> sc_pack_ok(data@, reps_view(reps@)),
    ensures
        match r {
            Ok(out) => data@.len() >= sc_header_size() && out@ == sc_packed(data@, reps_view(reps@)),
            Err(e) => data@.len() < sc_header_size() && e == SceneError::TruncatedHeader,
        },
{
    let header = parse_header(data)?;
    let (lengths, blocks) = new_blocks(data, &header, reps);
    let mut output = bytes_range(data, 0, header.scene_info_offset as usize);
    push_offset_index(&mut output, &lengths);
    push_all(&mut output, &blocks);
    Ok(output)
}

/// Applying the extra key layer twice gives back the block.
pub proof fn lemma_scene_key_layer_involution(
    block: Seq<u8>,
    extra_key_use: int,
    key: Option<Seq<u8>>,
)
    ensures
        sc_key_layer(sc_key_layer(block, extra_key_use, key), extra_key_use, key) == block,
{
    if extra_key_use != 0 {
        crate::cipher::lemma_key_xor_involution(block, key_or_zero(key));
    }
}

/// The layout under which a rebuilt pack reads back as built: the header,
/// the name index and the names lie before the block table, and the blocks
/// start right after the table.
pub open spec fn sc_compact_layout(d: Seq<u8>) -> bool {
    &&& sc_header_size() <= sc_info_offset(d)
    &&& sc_name_index_offset(d) + 8 * sc_name_index_count(d) <= sc_info_offset(d)
    &&& sc_name_offset(d) + 2 * sum_ints(sc_name_lens(d)) <= sc_info_offset(d)
    &&& sc_data_offset(d) == sc_info_offset(d) + 8 * sc_info_count(d)
}

proof fn lemma_packed_shape(d: Seq<u8>, reps: Seq<Option<Seq<u8>>>)
    requires
        sc_pack_ok(d, reps),
        sc_compact_layout(d),
    ensures
        sc_packed(d, reps) == d.subrange(0, sc_info_offset(d)) + (offset_index_bytes(
            sc_new_lengths(d, reps),
        ) + flatten_bytes(sc_new_blocks(d, reps))),
        sc_packed(d, reps).len() == sc_info_offset(d) + 8 * sc_info_count(d) + flatten_bytes(
            sc_new_blocks(d, reps),
        ).len(),
        forall|j: int|
            0 <= j < sc_info_count(d) ==> #[trigger] sc_new_lengths(d, reps)[j] >= 0,
        forall|j: int|
            0 <= j < sc_data_count(d) ==> #[trigger] sc_new_lengths(d, reps)[j] == sc_new_blocks(
                d,
                reps,
            )[j].len(),
{
    let io = sc_info_offset(d);
    let lens = sc_new_lengths(d, reps);
    let blocks = sc_new_blocks(d, reps);
    let pre = d.subrange(0, io);
    let idx = offset_index_bytes(lens);
    let fl = flatten_bytes(blocks);
    assert(sc_packed(d, reps) =~= pre + (idx + fl));
    lemma_offset_index_len(lens);
    assert forall|j: int| 0 <= j < sc_data_count(d) implies #[trigger] lens[j]
        == blocks[j].len() by {
        if reps[j] is None {
            assert(sc_block_start(d, j) + sc_info_len(d, j) <= d.len());
        }
    }
}

/// Two packs that agree before the block table read the same header fields,
/// name lengths and names.
proof fn lemma_same_prefix_reads(d: Seq<u8>, p: Seq<u8>)
    requires
        sc_tables_ok(d),
        sc_compact_layout(d),
        p.len() >= sc_info_offset(d),
        forall|k: int| 0 <= k < sc_info_offset(d) ==> p[k] == d[k],
    ensures
        forall|k: int| 0 <= k < 21 ==> #[trigger] sc_field(p, k) == sc_field(d, k),
        sc_name_lens(p) == sc_name_lens(d),
        forall|i: int| 0 <= i < sc_name_count(d) ==> #[trigger] sc_name(p, i) == sc_name(d, i),
{
    let io = sc_info_offset(d);
    assert forall|k: int| 0 <= k < 21 implies #[trigger] sc_field(p, k) == sc_field(d, k) by {}
    assert forall|j: int| 0 <= j < sc_name_count(d) implies #[trigger] sc_name_len(p, j)
        == sc_name_len(d, j) by {
        assert(sc_name_index_offset(d) + 8 * j + 8 <= io);
    }
    assert(sc_name_lens(p) =~= sc_name_lens(d));
    assert forall|j: int| 0 <= j < sc_name_lens(d).len() implies sc_name_lens(d)[j] >= 0 by {}
    assert forall|i: int| 0 <= i < sc_name_count(d) implies #[trigger] sc_name(p, i) == sc_name(
        d,
        i,
    ) by {
        let nl = sc_name_lens(d);
        lemma_sum_prefix(nl, i + 1);
        assert(nl.take(i + 1).drop_last() =~= nl.take(i));
        assert(nl.take(i + 1).last() == nl[i]);
        assert(nl[i] == sc_name_len(d, i));
        assert(sum_ints(nl.take(i + 1)) == sum_ints(nl.take(i)) + nl[i]);
        let a = sc_name_pos(d, i);
        assert(a + 2 * sc_name_len(d, i) <= io);
        lemma_sum_prefix(nl, i);
        assert(0 <= a);
        let ps = p.subrange(a, a + 2 * sc_name_len(d, i));
        let ds = d.subrange(a, a + 2 * sc_name_len(d, i));
        assert forall|k: int| 0 <= k < ps.len() implies #[trigger] ps[k] == ds[k] by {
            assert(p[a + k] == d[a + k]);
        }
        assert(p.subrange(a, a + 2 * sc_name_len(d, i)) =~= d.subrange(
            a,
            a + 2 * sc_name_len(d, i),
        ));
    }
}

proof fn lemma_packed_prefix(d: Seq<u8>, reps: Seq<Option<Seq<u8>>>)
    requires
        sc_pack_ok(d, reps),
        sc_compact_layout(d),
    ensures
        forall|k: int| 0 <= k < 21 ==> #[trigger] sc_field(sc_packed(d, reps), k) == sc_field(d, k),
        sc_name_lens(sc_packed(d, reps)) == sc_name_lens(d),
        forall|i: int|
            0 <= i < sc_name_count(d) ==> #[trigger] sc_name(sc_packed(d, reps), i) == sc_name(d, i),
{
    let io = sc_info_offset(d);
    let p = sc_packed(d, reps);
    lemma_packed_shape(d, reps);
    let rest = offset_index_bytes(sc_new_lengths(d, reps)) + flatten_bytes(sc_new_blocks(d, reps));
    assert forall|k: int| 0 <= k < io implies p[k] == d[k] by {
        assert((d.subrange(0, io) + rest)[k] == d.subrange(0, io)[k]);
    }
    lemma_same_prefix_reads(d, p);
}

proof fn lemma_packed_table(d: Seq<u8>, reps: Seq<Option<Seq<u8>>>, i: int)
    requires
        sc_pack_ok(d, reps),
        sc_compact_layout(d),
        0 <= i < sc_info_count(d),
        sc_info_offset(sc_packed(d, reps)) == sc_info_offset(d),
    ensures
        sc_info_off(sc_packed(d, reps), i) == sum_ints(sc_new_lengths(d, reps).take(i)),
        sc_info_len(sc_packed(d, reps), i) == sc_new_lengths(d, reps)[i],
{
    let lens = sc_new_lengths(d, reps);
    let pre = d.subrange(0, sc_info_offset(d));
    let idx = offset_index_bytes(lens);
    let fl = flatten_bytes(sc_new_blocks(d, reps));
    lemma_packed_shape(d, reps);
    lemma_offset_index_entry(lens, i);
    lemma_le_u32_at_append(idx, fl, 8 * i);
    lemma_le_u32_at_append(idx, fl, 8 * i + 4);
    lemma_le_u32_at_append(idx + fl, pre, 8 * i);
    lemma_le_u32_at_append(idx + fl, pre, 8 * i + 4);
}

proof fn lemma_packed_block(d: Seq<u8>, reps: Seq<Option<Seq<u8>>>, i: int)
    requires
        sc_pack_ok(d, reps),
        sc_compact_layout(d),
        0 <= i < sc_data_count(d),
        sc_info_offset(sc_packed(d, reps)) == sc_info_offset(d),
        sc_data_offset(sc_packed(d, reps)) == sc_data_offset(d),
    ensures
        sc_block(sc_packed(d, reps), i) == sc_new_blocks(d, reps)[i],
        sc_block_start(sc_packed(d, reps), i) + sc_info_len(sc_packed(d, reps), i) <= sc_packed(
            d,
            reps,
        ).len(),
{
    let io = sc_info_offset(d);
    let ic = sc_info_count(d);
    let lens = sc_new_lengths(d, reps);
    let blocks = sc_new_blocks(d, reps);
    let p = sc_packed(d, reps);
    let fl = flatten_bytes(blocks);
    lemma_packed_shape(d, reps);
    lemma_packed_table(d, reps, i);
    lemma_flatten_part(blocks, i);
    assert forall|j: int| 0 <= j < i implies #[trigger] lens.take(i)[j] == blocks.take(i)[j].len() by {}
    lemma_flatten_len(blocks.take(i), lens.take(i));
    let off = sum_ints(lens.take(i));
    let st = io + 8 * ic + off;
    assert(sc_block_start(p, i) == st);
    assert(p.subrange(st, st + lens[i]) =~= fl.subrange(off, off + blocks[i].len()));
}

/// Unpacking a rebuilt pack gives every scene under its old file name with
/// its new block (the replacement, or the old block where there was none):
/// what `pack_scene` writes, `unpack_scene` reads back.
pub proof fn lemma_pack_then_unpack(d: Seq<u8>, reps: Seq<Option<Seq<u8>>>, key: Option<Seq<u8>>)
    requires
        sc_pack_ok(d, reps),
        sc_compact_layout(d),
    ensures
        sc_tables_ok(sc_packed(d, reps)),
        sc_compact_layout(sc_packed(d, reps)),
        sc_unpacked(sc_packed(d, reps), key) == Seq::new(
            sc_data_count(d) as nat,
            |i: int|
                (
                    sc_file_name(d, i),
                    sc_key_layer(sc_new_blocks(d, reps)[i], sc_extra_key_use(d), key),
                ),
        ),
{
    let p = sc_packed(d, reps);
    let dc = sc_data_count(d);
    lemma_packed_shape(d, reps);
    lemma_packed_prefix(d, reps);
    assert(sc_info_offset(p) == sc_info_offset(d));
    assert(sc_data_offset(p) == sc_data_offset(d));
    assert(sc_info_count(p) == sc_info_count(d));
    assert(sc_data_count(p) == dc);
    assert(sc_extra_key_use(p) == sc_extra_key_use(d));
    assert(sc_name_count(p) == sc_name_count(d));
    assert forall|i: int| 0 <= i < dc implies #[trigger] sc_block_start(p, i) + sc_info_len(p, i)
        <= p.len() by {
        lemma_packed_block(d, reps, i);
    }
    assert forall|i: int| 0 <= i < dc implies #[trigger] sc_unpacked(p, key)[i] == (
        sc_file_name(d, i),
        sc_key_layer(sc_new_blocks(d, reps)[i], sc_extra_key_use(d), key),
    ) by {
        lemma_packed_block(d, reps, i);
    }
    assert(sc_unpacked(p, key) =~= Seq::new(
        dc as nat,
        |i: int|
            (sc_file_name(d, i), sc_key_layer(sc_new_blocks(d, reps)[i], sc_extra_key_use(d), key)),
    ));
}

/// Giving no key is the same as giving the all-zero key, and when the pack
/// does not use the extra key layer the key changes nothing.
pub proof fn lemma_scene_default_key(block: Seq<u8>, extra_key_use: int, key: Option<Seq<u8>>)
    ensures
        sc_key_layer(block, extra_key_use, None) == sc_key_layer(
            block,
            extra_key_use,
            Some(Seq::new(16, |j: int| 0u8)),
        ),
        extra_key_use == 0 ==> sc_key_layer(block, extra_key_use, key) == block,
{
}

} // verus!
