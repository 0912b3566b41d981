use vstd::prelude::*;

verus! {

/// The 16-bit key of the string with index `index` in a scene script:
/// the low 16 bits of `28807 * index`.
pub open spec fn string_key(index: int) -> u16 {
    ((28807 * index) % 0x10000) as u16
}

/// The key byte that applies at byte `j` of a string: the low byte of the
/// key for even `j`, the high byte for odd `j` (units are little-endian).
pub open spec fn string_key_byte(index: int, j: int) -> u8 {
    if j % 2 == 0 {
        (string_key(index) % 256) as u8
    } else {
        (string_key(index) / 256) as u8
    }
}

/// The first `len` UTF-16 units of `raw`, each XORed with the key of string
/// `index`. The same operation encrypts and decrypts.
pub open spec fn string_xor(raw: Seq<u8>, len: int, index: int) -> Seq<u8> {
    Seq::new((2 * len) as nat, |j: int| raw[j] ^ string_key_byte(index, j))
}

/// The bytes of `data`, each XORed with the byte of the 16-byte `key` at the
/// same position modulo 16.
pub open spec fn key_xor(data: Seq<u8>, key: Seq<u8>) -> Seq<u8> {
    Seq::new(data.len(), |j: int| data[j] ^ key[j % 16])
}

proof fn lemma_xor_twice(a: u8, k: u8)
    ensures
        (a ^ k) ^ k == a,
{
    assert((a ^ k) ^ k == a) by (bit_vector);
}

/// Applying the string cipher twice gives back the units it covers.
pub proof fn lemma_string_xor_involution(raw: Seq<u8>, len: int, index: int)
    requires
        0 <= len,
        2 * len <= raw.len(),
    ensures
        string_xor(string_xor(raw, len, index), len, index) == raw.subrange(0, 2 * len),
{
    let once = string_xor(raw, len, index);
    let twice = string_xor(once, len, index);
    assert forall|j: int| 0 <= j < 2 * len implies twice[j] == raw[j] by {
        lemma_xor_twice(raw[j], string_key_byte(index, j));
    }
    assert(twice =~= raw.subrange(0, 2 * len));
}

/// Applying the key cipher twice gives back the data.
pub proof fn lemma_key_xor_involution(data: Seq<u8>, key: Seq<u8>)
    ensures
        key_xor(key_xor(data, key), key) == data,
{
    let twice = key_xor(key_xor(data, key), key);
    assert forall|j: int| 0 <= j < data.len() implies twice[j] == data[j] by {
        lemma_xor_twice(data[j], key[j % 16]);
    }
    assert(twice =~= data);
}

/// Encrypts or decrypts the first `len` units of a scene-script string with
/// the key of string `index`.
pub fn decrypt_string(raw: &[u8], len: usize, index: usize) -> (out: Vec<u8>)
    requires
        2 * len <= raw.len(),
    ensures
        out@ == string_xor(raw@, len as int, index as int),
{
    let k = ((index % 0x10000) as u64 * 28807) % 0x10000;
    proof {
        assert((28807 * (index as int)) % 0x10000 == ((index as int % 0x10000) * 28807) % 0x10000)
            by (nonlinear_arith);
    }
    let lo = (k % 256) as u8;
    let hi = (k / 256) as u8;
    assert(lo == string_key_byte(index as int, 0));
    assert(hi == string_key_byte(index as int, 1));
    let mut out: Vec<u8> = Vec::new();
    let mut j: usize = 0;
    while j < 2 * len
        invariant
            2 * len <= raw.len(),
            j <= 2 * len,
            out@.len() == j,
            lo == string_key_byte(index as int, 0),
            hi == string_key_byte(index as int, 1),
            forall|t: int| 0 <= t < j ==> out@[t] == raw@[t] ^ string_key_byte(index as int, t),
        decreases 2 * len - j,
    {
        let kb = if j % 2 == 0 { lo } else { hi };
        assert(kb == string_key_byte(index as int, j as int));
        out.push(raw[j] ^ kb);
        j = j + 1;
    }
    assert(out@ =~= string_xor(raw@, len as int, index as int));
    out
}

/// XORs `data` with the 16-byte `key`, repeated.
pub fn decrypt1(data: &[u8], key: &[u8; 16]) -> (out: Vec<u8>)
    ensures
        out@ == key_xor(data@, key@),
{
    let mut out: Vec<u8> = Vec::new();
    let mut j: usize = 0;
    while j < data.len()
        invariant
            j <= data.len(),
            key@.len() == 16,
            out@.len() == j,
            forall|t: int| 0 <= t < j ==> out@[t] == data@[t] ^ key@[t % 16],
        decreases data.len() - j,
    {
        out.push(data[j] ^ key[j % 16]);
        j = j + 1;
    }
    assert(out@ =~= key_xor(data@, key@));
    out
}

/// The key of string 0 is 0, and each next string's key is the previous one
/// plus 28807, modulo 2^16, for every index.
pub proof fn lemma_string_key_step(index: int)
    requires
        0 <= index,
    ensures
        string_key(0) == 0,
        string_key(index + 1) as int == (string_key(index) as int + 28807) % 0x10000,
{
    vstd::arithmetic::div_mod::lemma_add_mod_noop(28807 * index, 28807, 0x10000);
    assert(28807 * (index + 1) == 28807 * index + 28807) by (nonlinear_arith);
    assert((28807int % 0x10000) == 28807);
}

/// The key bytes of a string: the low byte of its key on even bytes, the high
/// byte on odd ones, so that byte `2u` and `2u + 1` together are unit `u`
/// XORed with the 16-bit key.
pub proof fn lemma_string_key_bytes(index: int, u: int)
    requires
        0 <= u,
    ensures
        string_key_byte(index, 2 * u) as int + 256 * string_key_byte(index, 2 * u + 1) as int
            == string_key(index) as int,
{
    assert((2 * u) % 2 == 0);
    assert((2 * u + 1) % 2 == 1);
}

} // verus!
