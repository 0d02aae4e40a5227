//! Bloom filter for point lookups.
//!
//! A [`BloomFilter`] answers "is this key definitely not in the table?": a
//! key that was inserted is always reported, one that was not is reported at
//! a small rate. A reader skips the block read when the answer is no.
//!
//! A key is hashed once into 128 bits. The two halves `h1` and `h2` give the
//! `k` bit positions `(h1 + i * h2) mod m` (Kirsch and Mitzenmacher, 2008).

use crate::checksum;
use crate::checksum::{crc32_hash, xxh3_128_hash};
use crate::codec;
use crate::codec::{copy_range, get_u32, get_u64, push_bytes, push_u32, push_u64};
use crate::error::{corruption, Result};
use vstd::prelude::*;
use vstd::slice::slice_subrange;

verus! {

/// Bit `i` of the bit array `bits`; bit 0 is the least significant of the
/// first byte.
pub open spec fn bit_at(bits: Seq<u8>, i: int) -> bool {
    bits[i / 8] & (1u8 << ((i % 8) as u8)) != 0
}

/// The `i`-th bit position of `key` in an array of `m` bits.
pub open spec fn position(key: Seq<u8>, i: u8, m: u64) -> u64 {
    let digest = checksum::xxh3_128(key);
    let h1 = digest as u64;
    let h2 = (digest >> 64) as u64;
    h1.wrapping_add((i as u64).wrapping_mul(h2)) % m
}

/// Some position of `key` is bit `j`.
pub open spec fn touches(key: Seq<u8>, k: u8, m: u64, j: int) -> bool {
    exists|i: u8| i < k && #[trigger] position(key, i, m) == j
}

/// `bits` with bit `i` set.
pub open spec fn with_bit(bits: Seq<u8>, i: int) -> Seq<u8> {
    bits.update(i / 8, bits[i / 8] | (1u8 << ((i % 8) as u8)))
}

/// `bits` with the first `n` positions of `key` set.
pub open spec fn with_key(bits: Seq<u8>, key: Seq<u8>, n: nat, m: u64) -> Seq<u8>
    decreases n,
{
    if n == 0 {
        bits
    } else {
        with_bit(with_key(bits, key, (n - 1) as nat, m), position(key, (n - 1) as u8, m) as int)
    }
}

/// Number of bytes that hold `m` bits.
pub open spec fn bytes_for(m: int) -> int {
    (m + 7) / 8
}

/// Number of hash functions for `bits_per_key` bits per key: `ln 2` times as
/// many, taken as 69 hundredths and rounded, and at least 1 and at most 30. At
/// 10 bits per key there are 7.
pub open spec fn hash_count_for(bits_per_key: int) -> int {
    let k = (bits_per_key * 69 + 50) / 100;
    if k < 1 {
        1
    } else if k > 30 {
        30
    } else {
        k
    }
}

/// Number of bits for `keys` keys: at least 64, and no more than `usize` can
/// count.
pub open spec fn bit_count_for(keys: int, bits_per_key: int) -> int {
    let m = keys * bits_per_key;
    if m < 64 {
        64
    } else if m > usize::MAX {
        usize::MAX as int
    } else {
        m
    }
}

/// The bytes of an encoded filter without the checksum.
pub open spec fn filter_body(k: u8, m: u64, bits: Seq<u8>) -> Seq<u8> {
    seq![k] + codec::le64(m) + bits
}

/// The bytes of an encoded filter.
pub open spec fn filter_bytes(k: u8, m: u64, bits: Seq<u8>) -> Seq<u8> {
    filter_body(k, m, bits) + codec::le32(checksum::crc32(filter_body(k, m, bits)))
}

/// `b` is an encoded filter: its checksum holds, it has at least one hash
/// function and as many bit bytes as it declares bits for.
pub open spec fn is_filter(b: Seq<u8>) -> bool {
    &&& b.len() >= 13
    &&& codec::u32_at(b, b.len() - 4) == checksum::crc32(b.take(b.len() - 4))
    &&& b.len() - 13 == bytes_for(codec::u64_at(b, 1) as int)
    &&& b[0] != 0
}

/// Bloom filter.
#[derive(Debug, Clone)]
pub struct BloomFilter {
    /// Number of bits.
    m: u64,
    /// Number of hash functions.
    k: u8,
    /// The bit array.
    bits: Vec<u8>,
}

impl BloomFilter {
    /// Number of bits.
    pub closed spec fn spec_m(&self) -> u64 {
        self.m
    }

    /// Number of hash functions.
    pub closed spec fn spec_k(&self) -> u8 {
        self.k
    }

    /// The bit array.
    pub closed spec fn spec_bits(&self) -> Seq<u8> {
        self.bits@
    }

    /// There is a hash function, and a place for every bit.
    pub open spec fn wf(&self) -> bool {
        &&& self.spec_k() > 0
        &&& self.spec_bits().len() == bytes_for(self.spec_m() as int)
    }

    /// `key` may have been inserted: all its bits are set.
    pub open spec fn may_contain(&self, key: Seq<u8>) -> bool {
        forall|i: u8|
            i < self.spec_k() ==> bit_at(
                self.spec_bits(),
                #[trigger] position(key, i, self.spec_m()) as int,
            )
    }

    /// The bytes of the filter.
    pub open spec fn spec_encode(&self) -> Seq<u8> {
        filter_bytes(self.spec_k(), self.spec_m(), self.spec_bits())
    }

    /// An empty filter for `expected_keys` keys: it contains nothing.
    pub fn new(expected_keys: usize, bits_per_key: u32) -> (f: BloomFilter)
        requires
            bits_per_key > 0,
        ensures
            f.wf(),
            f.spec_m() == bit_count_for(expected_keys as int, bits_per_key as int),
            f.spec_k() == hash_count_for(bits_per_key as int),
            forall|j: int| 0 <= j < f.spec_bits().len() ==> #[trigger] f.spec_bits()[j] == 0,
            forall|j: int| 0 <= j < f.spec_m() ==> !#[trigger] bit_at(f.spec_bits(), j),
            forall|key: Seq<u8>| !#[trigger] f.may_contain(key),
    {
        let wanted: u64 = match expected_keys.checked_mul(bits_per_key as usize) {
            Some(n) => n as u64,
            None => usize::MAX as u64,
        };
        let m: u64 = if wanted < 64 {
            64
        } else {
            wanted
        };
        let share: u64 = (bits_per_key as u64 * 69 + 50) / 100;
        let k: u8 = if share < 1 {
            1
        } else if share > 30 {
            30
        } else {
            share as u8
        };
        let bytes: usize = (m / 8 + if m % 8 == 0 {
            0u64
        } else {
            1u64
        }) as usize;
        let f = BloomFilter { m, k, bits: vec![0u8;bytes] };
        proof {
            assert forall|j: int| 0 <= j < f.spec_m() implies !#[trigger] bit_at(
                f.spec_bits(),
                j,
            ) by {
                lemma_zero_bit((j % 8) as u8);
            }
            assert forall|key: Seq<u8>| !#[trigger] f.may_contain(key) by {
                assert(0u8 < f.spec_k());
                assert(!bit_at(f.spec_bits(), position(key, 0u8, f.spec_m()) as int));
            }
        }
        f
    }

    /// Records `key`: its bits are set, and no other bit changes.
    pub fn insert(&mut self, key: &[u8])
        requires
            old(self).wf(),
            old(self).spec_m() > 0,
        ensures
            final(self).wf(),
            final(self).spec_m() == old(self).spec_m(),
            final(self).spec_k() == old(self).spec_k(),
            final(self).spec_bits() == with_key(
                old(self).spec_bits(),
                key@,
                old(self).spec_k() as nat,
                old(self).spec_m(),
            ),
            forall|j: int|
                0 <= j < old(self).spec_m() ==> #[trigger] bit_at(final(self).spec_bits(), j) == (
                bit_at(old(self).spec_bits(), j) || touches(
                    key@,
                    old(self).spec_k(),
                    old(self).spec_m(),
                    j,
                )),
    {
        let (h1, h2) = double_hash(key);
        let ghost bits0 = self.bits@;
        let mut i: u8 = 0;
        while i < self.k
            invariant
                i <= self.k,
                self.k == old(self).k,
                self.m == old(self).m,
                self.m > 0,
                self.bits@.len() == bytes_for(self.m as int),
                self.bits@.len() == bits0.len(),
                h1 == checksum::xxh3_128(key@) as u64,
                h2 == (checksum::xxh3_128(key@) >> 64) as u64,
                self.bits@ == with_key(bits0, key@, i as nat, self.m),
                forall|j: int|
                    0 <= j < self.m ==> #[trigger] bit_at(self.bits@, j) == (bit_at(bits0, j)
                        || touches(key@, i, self.m, j)),
            decreases self.k - i,
        {
            let bit = synth_index(h1, h2, i, self.m);
            let ghost before = self.bits@;
            self.set_bit(bit);
            proof {
                assert(bit == position(key@, i, self.m));
                assert forall|j: int| 0 <= j < self.m implies #[trigger] bit_at(self.bits@, j) == (
                bit_at(bits0, j) || touches(key@, (i + 1) as u8, self.m, j)) by {
                    assert(bit_at(before, j) == (bit_at(bits0, j) || touches(key@, i, self.m, j)));
                    if touches(key@, (i + 1) as u8, self.m, j) {
                        let w = choose|w: u8|
                            w < (i + 1) as u8 && #[trigger] position(key@, w, self.m) == j;
                        if w < i {
                            assert(touches(key@, i, self.m, j));
                        }
                    }
                    if touches(key@, i, self.m, j) {
                        let w = choose|w: u8| w < i && #[trigger] position(key@, w, self.m) == j;
                        assert(w < (i + 1) as u8);
                    }
                }
            }
            i = i + 1;
        }
    }

    /// True if `key` may have been inserted.
    pub fn contains(&self, key: &[u8]) -> (r: bool)
        requires
            self.wf(),
            self.spec_m() > 0,
        ensures
            r == self.may_contain(key@),
    {
        let (h1, h2) = double_hash(key);
        let mut i: u8 = 0;
        while i < self.k
            invariant
                i <= self.k,
                self.wf(),
                self.m > 0,
                h1 == checksum::xxh3_128(key@) as u64,
                h2 == (checksum::xxh3_128(key@) >> 64) as u64,
                forall|w: u8|
                    w < i ==> bit_at(self.bits@, #[trigger] position(key@, w, self.m) as int),
            decreases self.k - i,
        {
            let bit = synth_index(h1, h2, i, self.m);
            assert(bit == position(key@, i, self.m));
            if !self.get_bit(bit) {
                return false;
            }
            i = i + 1;
        }
        true
    }

    /// Number of bits.
    pub fn bit_count(&self) -> (m: u64)
        ensures
            m == self.spec_m(),
    {
        self.m
    }

    /// Number of hash functions.
    pub fn hash_count(&self) -> (k: u8)
        ensures
            k == self.spec_k(),
    {
        self.k
    }

    /// Number of bytes of the encoded filter, checksum included.
    pub fn encoded_len(&self) -> (n: usize)
        requires
            self.spec_encode().len() <= usize::MAX,
        ensures
            n == self.spec_encode().len(),
    {
        proof {
            codec::lemma_le64(self.m);
            codec::lemma_le32(checksum::crc32(filter_body(self.k, self.m, self.bits@)));
        }
        1 + 8 + self.bits.len() + 4
    }

    /// Encodes the filter: `k`, `m`, the bits and a CRC32 of all that.
    pub fn encode(&self) -> (b: Vec<u8>)
        ensures
            b@ == self.spec_encode(),
    {
        let mut out: Vec<u8> = Vec::new();
        out.push(self.k);
        push_u64(&mut out, self.m);
        push_bytes(&mut out, self.bits.as_slice());
        assert(out@ =~= filter_body(self.k, self.m, self.bits@));
        let crc = crc32_hash(out.as_slice());
        push_u32(&mut out, crc);
        out
    }

    /// Decodes a filter.
    pub fn decode(bytes: &[u8]) -> (r: Result<BloomFilter>)
        ensures
            match r {
                Ok(f) => is_filter(bytes@) && f.wf() && f.spec_encode() == bytes@,
                Err(e) => !is_filter(bytes@) && e is Corruption,
            },
    {
        if bytes.len() < 13 {
            return Err(corruption("bloom block too short for header and checksum"));
        }
        let split: usize = bytes.len() - 4;
        let stored_crc = get_u32(bytes, split);
        let body = slice_subrange(bytes, 0, split);
        let computed_crc = crc32_hash(body);
        assert(body@ =~= bytes@.take(split as int));
        if stored_crc != computed_crc {
            return Err(corruption("bloom block checksum mismatch"));
        }
        let k = bytes[0];
        let m = get_u64(bytes, 1);
        let expected_bytes: u64 = m / 8 + if m % 8 == 0 {
            0u64
        } else {
            1u64
        };
        if (split - 9) as u64 != expected_bytes {
            return Err(corruption("bloom bit-array size mismatch"));
        }
        if k == 0 {
            return Err(corruption("bloom k = 0"));
        }
        let f = BloomFilter { m, k, bits: copy_range(bytes, 9, split) };
        proof {
            vstd::bytes::lemma_auto_spec_u32_to_from_le_bytes();
            vstd::bytes::lemma_auto_spec_u64_to_from_le_bytes();
            assert(codec::le64(m) == bytes@.subrange(1, 9));
            assert(codec::le32(stored_crc) == bytes@.subrange(split as int, split + 4));
            assert(filter_body(k, m, f.bits@) =~= body@);
            assert(f.spec_encode() =~= bytes@);
        }
        Ok(f)
    }

    fn set_bit(&mut self, bit: u64)
        requires
            old(self).wf(),
            bit < old(self).m,
        ensures
            final(self).k == old(self).k,
            final(self).m == old(self).m,
            final(self).bits@ == with_bit(old(self).bits@, bit as int),
            forall|j: int|
                0 <= j < old(self).m ==> #[trigger] bit_at(final(self).bits@, j) == (bit_at(
                    old(self).bits@,
                    j,
                ) || j == bit),
    {
        assert(self.bits.len() == bytes_for(self.m as int));
        let byte: usize = (bit / 8) as usize;
        let shift: u8 = (bit % 8) as u8;
        let mask: u8 = 1u8 << shift;
        let before: u8 = self.bits[byte];
        self.bits[byte] = before | mask;
        proof {
            assert forall|j: int| 0 <= j < old(self).m implies #[trigger] bit_at(self.bits@, j) == (
            bit_at(old(self).bits@, j) || j == bit) by {
                lemma_or_bit(before, shift, (j % 8) as u8);
            }
        }
    }

    fn get_bit(&self, bit: u64) -> (r: bool)
        requires
            self.wf(),
            bit < self.m,
        ensures
            r == bit_at(self.bits@, bit as int),
    {
        assert(self.bits.len() == bytes_for(self.m as int));
        let byte: usize = (bit / 8) as usize;
        let mask: u8 = 1u8 << ((bit % 8) as u8);
        self.bits[byte] & mask != 0
    }
}

/// The two halves of the digest of `key`.
fn double_hash(key: &[u8]) -> (h: (u64, u64))
    ensures
        h.0 == checksum::xxh3_128(key@) as u64,
        h.1 == (checksum::xxh3_128(key@) >> 64) as u64,
{
    let digest = xxh3_128_hash(key);
    (
        #[verifier::truncate]
        (digest as u64),
        #[verifier::truncate]
        ((digest >> 64) as u64),
    )
}

/// The `i`-th bit position.
fn synth_index(h1: u64, h2: u64, i: u8, m: u64) -> (bit: u64)
    requires
        m > 0,
    ensures
        bit == h1.wrapping_add((i as u64).wrapping_mul(h2)) % m,
        bit < m,
{
    h1.wrapping_add((i as u64).wrapping_mul(h2)) % m
}

proof fn lemma_or_bit(b: u8, i: u8, j: u8)
    by (bit_vector)
    requires
        i < 8,
        j < 8,
    ensures
        ((b | (1u8 << i)) & (1u8 << j) != 0) == (b & (1u8 << j) != 0 || i == j),
{
}

proof fn lemma_zero_bit(j: u8)
    by (bit_vector)
    requires
        j < 8,
    ensures
        0u8 & (1u8 << j) == 0,
{
}

proof fn lemma_set_bit_stays(b: u8, i: u8)
    by (bit_vector)
    requires
        i < 8,
        b & (1u8 << i) != 0,
    ensures
        b | (1u8 << i) == b,
{
}

/// Positions that are set already change nothing.
proof fn lemma_key_is_set(bits: Seq<u8>, key: Seq<u8>, n: nat, m: u64)
    requires
        n <= u8::MAX,
        m > 0,
        bits.len() == bytes_for(m as int),
        forall|i: u8| i < n ==> bit_at(bits, #[trigger] position(key, i, m) as int),
    ensures
        with_key(bits, key, n, m) == bits,
    decreases n,
{
    if n > 0 {
        lemma_key_is_set(bits, key, (n - 1) as nat, m);
        let p = position(key, (n - 1) as u8, m) as int;
        lemma_set_bit_stays(bits[p / 8], (p % 8) as u8);
        assert(with_key(bits, key, n, m) =~= bits);
    }
}

/// No false negatives: a key that was inserted is contained, and stays so
/// whatever is inserted later.
pub proof fn lemma_no_false_negatives(
    before: BloomFilter,
    inserted: Seq<u8>,
    after: BloomFilter,
    key: Seq<u8>,
)
    requires
        before.wf(),
        before.spec_m() > 0,
        after.spec_m() == before.spec_m(),
        after.spec_k() == before.spec_k(),
        forall|j: int|
            0 <= j < before.spec_m() ==> #[trigger] bit_at(after.spec_bits(), j) == (bit_at(
                before.spec_bits(),
                j,
            ) || touches(inserted, before.spec_k(), before.spec_m(), j)),
    ensures
        key == inserted ==> after.may_contain(key),
        before.may_contain(key) ==> after.may_contain(key),
{
    let k = before.spec_k();
    let m = before.spec_m();
    if key == inserted || before.may_contain(key) {
        assert forall|i: u8| i < k implies bit_at(
            after.spec_bits(),
            #[trigger] position(key, i, m) as int,
        ) by {
            let p = position(key, i, m) as int;
            if key == inserted {
                assert(touches(inserted, k, m, p));
            }
            assert(0 <= p < m);
        }
    }
}

/// Decoding undoes encoding, and membership survives it.
pub proof fn lemma_filter_round_trip(f: BloomFilter, g: BloomFilter, key: Seq<u8>)
    requires
        f.wf(),
    ensures
        is_filter(f.spec_encode()),
        g.spec_encode() == f.spec_encode() ==> g.spec_k() == f.spec_k() && g.spec_m() == f.spec_m()
            && g.spec_bits() == f.spec_bits() && g.may_contain(key) == f.may_contain(key),
{
    lemma_filter_fields(f.spec_k(), f.spec_m(), f.spec_bits());
    lemma_filter_fields(g.spec_k(), g.spec_m(), g.spec_bits());
}

/// To insert a key once more changes no byte of the filter.
pub proof fn lemma_insert_twice(
    before: BloomFilter,
    once: BloomFilter,
    twice: BloomFilter,
    key: Seq<u8>,
)
    requires
        before.wf(),
        before.spec_m() > 0,
        once.wf(),
        once.spec_m() == before.spec_m() == twice.spec_m(),
        once.spec_k() == before.spec_k() == twice.spec_k(),
        forall|j: int|
            0 <= j < before.spec_m() ==> #[trigger] bit_at(once.spec_bits(), j) == (bit_at(
                before.spec_bits(),
                j,
            ) || touches(key, before.spec_k(), before.spec_m(), j)),
        twice.spec_bits() == with_key(
            once.spec_bits(),
            key,
            once.spec_k() as nat,
            once.spec_m(),
        ),
    ensures
        twice.spec_encode() == once.spec_encode(),
{
    lemma_no_false_negatives(before, key, once, key);
    lemma_key_is_set(once.spec_bits(), key, once.spec_k() as nat, once.spec_m());
}

/// The fields of an encoded filter are found where they were put.
proof fn lemma_filter_fields(k: u8, m: u64, bits: Seq<u8>)
    ensures
        ({
            let b = filter_bytes(k, m, bits);
            &&& b.len() == bits.len() + 13
            &&& b[0] == k
            &&& codec::u64_at(b, 1) == m
            &&& b.subrange(9, b.len() - 4) == bits
            &&& codec::u32_at(b, b.len() - 4) == checksum::crc32(b.take(b.len() - 4))
        }),
{
    let b = filter_bytes(k, m, bits);
    let crc = checksum::crc32(filter_body(k, m, bits));
    codec::lemma_le64(m);
    codec::lemma_le32(crc);
    assert(b.subrange(1, 9) =~= codec::le64(m));
    assert(b.subrange(9, b.len() - 4) =~= bits);
    assert(b.take(b.len() - 4) =~= filter_body(k, m, bits));
    assert(b.subrange(b.len() - 4, b.len() as int) =~= codec::le32(crc));
}

} // verus!
