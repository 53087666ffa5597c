//! The on-disk entry format.
//!
//! ```text
//! offset 0:          key_len    u32 big-endian
//! offset 4:          value_len  u32 big-endian (0 marks a tombstone)
//! offset 8:          key bytes
//! offset 8+key_len:  value bytes
//! ```
use vstd::prelude::*;

verus! {

/// Number of bytes in an entry header: the key length and the value length.
pub const HEADER_LEN: u64 = 8;

/// The four big-endian bytes of `n`.
pub open spec fn be_bytes(n: u32) -> Seq<u8> {
    seq![
        (n / 0x100_0000) as u8,
        ((n / 0x1_0000) % 0x100) as u8,
        ((n / 0x100) % 0x100) as u8,
        (n % 0x100) as u8,
    ]
}

/// The big-endian number held by the four bytes of `b` starting at `i`.
pub open spec fn be_value(b: Seq<u8>, i: int) -> int {
    b[i] as int * 0x100_0000 + b[i + 1] as int * 0x1_0000 + b[i + 2] as int * 0x100
        + b[i + 3] as int
}

/// The bytes of one entry: header, key, then value.  An empty value makes
/// the entry a tombstone.
pub open spec fn entry_bytes(key: Seq<u8>, value: Seq<u8>) -> Seq<u8> {
    be_bytes(key.len() as u32) + be_bytes(value.len() as u32) + key + value
}

/// Decoding the encoding of a number gives the number back.
pub proof fn lemma_be_round_trip(n: u32)
    ensures
        be_value(be_bytes(n), 0) == n,
{
    let b = be_bytes(n);
    let x = n as int;
    assert(b[0] as int == x / 0x100_0000);
    assert(b[1] as int == (x / 0x1_0000) % 0x100);
    assert(b[2] as int == (x / 0x100) % 0x100);
    assert(b[3] as int == x % 0x100);
    assert(x == (x / 0x100_0000) * 0x100_0000 + ((x / 0x1_0000) % 0x100) * 0x1_0000 + ((x
        / 0x100) % 0x100) * 0x100 + x % 0x100) by (nonlinear_arith)
        requires
            0 <= x < 0x1_0000_0000,
    ;
}

/// Appends the big-endian bytes of `n` to `out`.
pub fn push_u32_be(out: &mut Vec<u8>, n: u32)
    ensures
        final(out)@ == old(out)@ + be_bytes(n),
{
    out.push((n / 0x100_0000) as u8);
    out.push(((n / 0x1_0000) % 0x100) as u8);
    out.push(((n / 0x100) % 0x100) as u8);
    out.push((n % 0x100) as u8);
    assert(final(out)@ =~= old(out)@ + be_bytes(n));
}

/// Appends the bytes of `src` to `out`.
pub fn push_bytes(out: &mut Vec<u8>, src: &[u8])
    ensures
        final(out)@ == old(out)@ + src@,
{
    let ghost start = out@;
    let mut i: usize = 0;
    while i < src.len()
        invariant
            i <= src@.len(),
            out@ == start + src@.subrange(0, i as int),
        decreases src@.len() - i,
    {
        out.push(src[i]);
        i = i + 1;
        assert(out@ =~= start + src@.subrange(0, i as int));
    }
    assert(src@.subrange(0, i as int) =~= src@);
}

/// Encodes one entry; an empty `value` gives a tombstone.
pub fn encode_entry(key: &[u8], value: &[u8]) -> (r: Vec<u8>)
    requires
        key@.len() <= u32::MAX,
        value@.len() <= u32::MAX,
    ensures
        r@ == entry_bytes(key@, value@),
        r@.len() == HEADER_LEN + key@.len() + value@.len(),
{
    let mut out: Vec<u8> = Vec::new();
    push_u32_be(&mut out, key.len() as u32);
    push_u32_be(&mut out, value.len() as u32);
    push_bytes(&mut out, key);
    push_bytes(&mut out, value);
    assert(out@ =~= entry_bytes(key@, value@));
    out
}

/// Reads the big-endian `u32` held by `b[i..i + 4]`.
pub fn decode_u32_be(b: &[u8], i: usize) -> (r: u32)
    requires
        i + 4 <= b@.len(),
    ensures
        r as int == be_value(b@, i as int),
{
    let r = (b[i] as u32) * 0x100_0000 + (b[i + 1] as u32) * 0x1_0000 + (b[i + 2] as u32)
        * 0x100 + (b[i + 3] as u32);
    r
}

} // verus!
