//! Content hashing (BLAKE3), rendered as lowercase hexadecimal.

use vstd::prelude::*;

verus! {

/// The lowercase hex rendering of the BLAKE3 digest of `data`.
pub uninterp spec fn blake3_hex(data: Seq<u8>) -> Seq<char>;

pub open spec fn is_lower_hex(c: char) -> bool {
    ('0' <= c && c <= '9') || ('a' <= c && c <= 'f')
}

/// `blake3::hash(data).to_hex()`: the digest's 32 bytes as 64 lowercase
/// hexadecimal characters (two per byte, from the table `0-9a-f`). Its value
/// is named; that it is a function of `data` alone, 64 characters long and
/// lowercase hex is what the crate's `to_hex` shows.
#[verifier::external_body]
pub(crate) fn hash_hex(data: &[u8]) -> (r: String)
    ensures
        r@ == blake3_hex(data@),
        r@.len() == 64,
        forall|i: int| 0 <= i < 64 ==> is_lower_hex(#[trigger] r@[i]),
{
    blake3::hash(data).to_hex().as_str().to_owned()
}

/// The content hash of a file's bytes: the hex BLAKE3 digest.
pub fn content_hash(bytes: &[u8]) -> (r: String)
    ensures
        r@ == blake3_hex(bytes@),
        r@.len() == 64,
        forall|i: int| 0 <= i < 64 ==> is_lower_hex(#[trigger] r@[i]),
{
    hash_hex(bytes)
}

/// The UTF-8 bytes of a string.
pub fn utf8_bytes(s: &str) -> (b: Vec<u8>)
    ensures
        b@ == vstd::utf8::encode_utf8(s@),
{
    let bs = s.as_bytes();
    let mut v: Vec<u8> = Vec::new();
    let n = bs.len();
    for i in 0..n
        invariant
            n == bs@.len(),
            v@ == bs@.take(i as int),
    {
        v.push(bs[i]);
        assert(bs@.take(i + 1) =~= bs@.take(i as int).push(bs@[i as int]));
    }
    assert(bs@.take(n as int) =~= bs@);
    v
}

/// Appends `more` to `v`.
pub fn push_bytes(v: &mut Vec<u8>, more: &[u8])
    ensures
        final(v)@ == old(v)@ + more@,
{
    let n = more.len();
    for i in 0..n
        invariant
            n == more@.len(),
            v@ == old(v)@ + more@.take(i as int),
    {
        v.push(more[i]);
        assert(more@.take(i + 1) =~= more@.take(i as int).push(more@[i as int]));
        assert(v@ =~= old(v)@ + more@.take(i + 1));
    }
    assert(more@.take(n as int) =~= more@);
}

/// The little-endian bytes of a `u32` (`u32::to_le_bytes`).
pub open spec fn le_bytes(x: u32) -> Seq<u8> {
    seq![(x % 256) as u8, ((x / 256) % 256) as u8, ((x / 65536) % 256) as u8, ((x / 16777216) % 256) as u8]
}

pub fn le_bytes_of(x: u32) -> (r: Vec<u8>)
    ensures
        r@ == le_bytes(x),
{
    let mut r: Vec<u8> = Vec::new();
    r.push((x % 256) as u8);
    r.push(((x / 256) % 256) as u8);
    r.push(((x / 65536) % 256) as u8);
    r.push(((x / 16777216) % 256) as u8);
    assert(r@ =~= le_bytes(x));
    r
}

} // verus!
