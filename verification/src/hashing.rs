//! The 64-bit fingerprint hash and byte-level encoding helpers.

use vstd::prelude::*;

verus! {

/// What the 64-bit xxh3 hash returns on a byte string. The value is pinned
/// down only as a deterministic function of the bytes.
pub uninterp spec fn xxh3_of(bytes: Seq<u8>) -> u64;

/// What the 64-bit xxh3 hash returns on a string's UTF-8 encoding. The UTF-8
/// encoding is itself a function of the character sequence alone, so the
/// result depends on the characters and nothing else.
pub uninterp spec fn xxh3_of_str(s: Seq<char>) -> u64;

/// Relies on xxhash_rust::xxh3::xxh3_64: a pure 64-bit hash of the input
/// bytes, the same on every run and every machine.
#[verifier::external_body]
pub(crate) fn xxh3_bytes(bytes: &Vec<u8>) -> (r: u64)
    ensures
        r == xxh3_of(bytes@),
{
    xxhash_rust::xxh3::xxh3_64(bytes.as_slice())
}

/// Relies on xxhash_rust::xxh3::xxh3_64 applied to str::as_bytes: the hash of
/// a string's UTF-8 encoding, a pure function of its characters.
#[verifier::external_body]
pub(crate) fn xxh3_str(s: &str) -> (r: u64)
    ensures
        r == xxh3_of_str(s@),
{
    xxhash_rust::xxh3::xxh3_64(s.as_bytes())
}

/// The little-endian bytes of a 64-bit word.
pub open spec fn u64_le_bytes(x: u64) -> Seq<u8> {
    seq![
        (x & 0xff) as u8,
        ((x >> 8) & 0xff) as u8,
        ((x >> 16) & 0xff) as u8,
        ((x >> 24) & 0xff) as u8,
        ((x >> 32) & 0xff) as u8,
        ((x >> 40) & 0xff) as u8,
        ((x >> 48) & 0xff) as u8,
        ((x >> 56) & 0xff) as u8,
    ]
}

/// Appends the little-endian bytes of `x` to `out`.
pub(crate) fn push_u64_le(out: &mut Vec<u8>, x: u64)
    ensures
        final(out)@ == old(out)@ + u64_le_bytes(x),
{
    out.push((x & 0xff) as u8);
    out.push(((x >> 8) & 0xff) as u8);
    out.push(((x >> 16) & 0xff) as u8);
    out.push(((x >> 24) & 0xff) as u8);
    out.push(((x >> 32) & 0xff) as u8);
    out.push(((x >> 40) & 0xff) as u8);
    out.push(((x >> 48) & 0xff) as u8);
    out.push(((x >> 56) & 0xff) as u8);
    proof {
        assert(out@ =~= old(out)@ + u64_le_bytes(x));
    }
}

} // verus!
