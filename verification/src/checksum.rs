//! Hash functions of outside crates, and bytes that end with their checksum.

use crate::codec;
use vstd::prelude::*;

verus! {

/// The CRC32 (IEEE) checksum of a byte string.
pub uninterp spec fn crc32(bytes: Seq<u8>) -> u32;

/// The 128-bit XXH3 digest of a byte string.
pub uninterp spec fn xxh3_128(bytes: Seq<u8>) -> u128;

/// Calls `crc32fast::hash`. Claimed of it: the checksum depends on the bytes
/// alone; `crc32` is the name of that function.
#[verifier::external_body]
pub(crate) fn crc32_hash(bytes: &[u8]) -> (checksum: u32)
    ensures
        checksum == crc32(bytes@),
{
    crc32fast::hash(bytes)
}

/// Calls `xxhash_rust::xxh3::xxh3_128`. Claimed of it: the digest depends on
/// the bytes alone; `xxh3_128` is the name of that function.
#[verifier::external_body]
pub(crate) fn xxh3_128_hash(bytes: &[u8]) -> (digest: u128)
    ensures
        digest == xxh3_128(bytes@),
{
    xxhash_rust::xxh3::xxh3_128(bytes)
}

/// `p` followed by its CRC32.
pub open spec fn with_crc(p: Seq<u8>) -> Seq<u8> {
    p + codec::le32(crc32(p))
}

/// `b` is some bytes followed by their CRC32.
pub open spec fn crc_holds(b: Seq<u8>) -> bool {
    b.len() >= 4 && codec::u32_at(b, b.len() - 4) == crc32(b.take(b.len() - 4))
}

/// Bytes with their CRC32 pass the check and give the bytes back.
pub proof fn lemma_with_crc(p: Seq<u8>)
    ensures
        with_crc(p).len() == p.len() + 4,
        crc_holds(with_crc(p)),
        with_crc(p).take(p.len() as int) == p,
{
    let b = with_crc(p);
    let crc = crc32(p);
    codec::lemma_le32(crc);
    assert(b.take(p.len() as int) =~= p);
    assert(b.subrange(b.len() - 4, b.len() as int) =~= codec::le32(crc));
}

} // verus!
