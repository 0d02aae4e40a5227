//! Bloom filters.

use sastran::sstable::bloom::BloomFilter;
use sastran::Error;

#[test]
fn inserted_keys_test_present() {
    let mut bf = BloomFilter::new(100, 10);
    let keys: Vec<Vec<u8>> = (0..100u32)
        .map(|i| format!("key_{i:03}").into_bytes())
        .collect();
    for k in &keys {
        bf.insert(k);
    }
    for k in &keys {
        assert!(bf.contains(k), "missing key: {k:?}");
    }
}

#[test]
fn absent_keys_mostly_test_absent() {
    // Sanity check on false-positive rate. With 10 bits/key and 1000
    // inserted keys, querying 10000 unrelated keys should produce far
    // fewer than 1000 false positives (expected ~100, i.e. 1%).
    // We assert a loose bound to keep the test robust to RNG variance.
    let mut bf = BloomFilter::new(1000, 10);
    for i in 0..1000u32 {
        bf.insert(format!("inserted_{i:05}").as_bytes());
    }
    let mut false_positives = 0;
    for i in 0..10_000u32 {
        // "absent_" keys are not in the filter.
        if bf.contains(format!("absent_{i:05}").as_bytes()) {
            false_positives += 1;
        }
    }
    // Expected ~100, give a wide margin (factor of 5) for variance.
    assert!(
        false_positives < 500,
        "too many false positives: {false_positives}/10000"
    );
}

#[test]
fn empty_filter_says_no_to_everything() {
    let bf = BloomFilter::new(100, 10);
    // No keys inserted. Every query should return false.
    for i in 0..1000u32 {
        assert!(!bf.contains(format!("k_{i}").as_bytes()));
    }
}

#[test]
fn encode_decode_round_trips() {
    let mut bf = BloomFilter::new(500, 10);
    for i in 0..500u32 {
        bf.insert(format!("k_{i:04}").as_bytes());
    }
    let bytes = bf.encode();
    assert_eq!(bytes.len(), bf.encoded_len());

    let decoded = BloomFilter::decode(&bytes).unwrap();
    assert_eq!(decoded.bit_count(), bf.bit_count());
    assert_eq!(decoded.hash_count(), bf.hash_count());

    // Every previously-inserted key must still test present.
    for i in 0..500u32 {
        assert!(decoded.contains(format!("k_{i:04}").as_bytes()));
    }
}

#[test]
fn decode_detects_crc_corruption() {
    let mut bf = BloomFilter::new(100, 10);
    bf.insert(b"x");
    let mut bytes = bf.encode();
    // Flip a bit in the bit-array.
    bytes[12] ^= 0x01;
    let err = BloomFilter::decode(&bytes).unwrap_err();
    assert!(matches!(err, Error::Corruption(_)));
}

#[test]
fn decode_detects_size_mismatch() {
    let mut bf = BloomFilter::new(100, 10);
    bf.insert(b"x");
    let mut bytes = bf.encode();
    // Bump the declared m to a value that won't match the bit-array size.
    // m is at bytes [1..9]. Set m to u64::MAX so size check fails.
    bytes[1..9].copy_from_slice(&u64::MAX.to_le_bytes());
    // Recompute CRC so the CRC check passes and we hit the size check.
    let split = bytes.len() - 4;
    let new_crc = crc32fast::hash(&bytes[..split]);
    bytes[split..].copy_from_slice(&new_crc.to_le_bytes());

    let err = BloomFilter::decode(&bytes).unwrap_err();
    assert!(matches!(err, Error::Corruption(_)));
}

#[test]
fn tiny_inputs_get_minimum_size() {
    // Even a 1-key filter rounds up to at least 64 bits, so the
    // synthetic-hash arithmetic has a non-degenerate modulus.
    let bf = BloomFilter::new(1, 10);
    assert!(bf.bit_count() >= 64);
}

#[test]
fn different_bits_per_key_give_different_hash_counts() {
    let lo = BloomFilter::new(100, 4);
    let hi = BloomFilter::new(100, 20);
    assert!(hi.hash_count() > lo.hash_count());
}

#[test]
fn bits_are_those_of_the_digest() {
    let mut filter = BloomFilter::new(50, 10);
    filter.insert(b"a key");
    let m = filter.bit_count();
    assert_eq!(m, 500);
    assert_eq!(filter.hash_count(), 7);

    let digest = xxhash_rust::xxh3::xxh3_128(b"a key");
    let h1 = digest as u64;
    let h2 = (digest >> 64) as u64;
    let mut bits = vec![0u8; 63];
    for i in 0..7u64 {
        let bit = h1.wrapping_add(i.wrapping_mul(h2)) % m;
        bits[(bit / 8) as usize] |= 1 << (bit % 8);
    }

    let encoded = filter.encode();
    assert_eq!(encoded[0], 7);
    assert_eq!(&encoded[1..9], &500u64.to_le_bytes());
    assert_eq!(&encoded[9..72], &bits[..]);
    assert_eq!(&encoded[72..], &crc32fast::hash(&encoded[..72]).to_le_bytes());
}

#[test]
fn ten_bits_per_key_take_seven_hashes() {
    assert_eq!(BloomFilter::new(1000, 10).hash_count(), 7);
    assert_eq!(BloomFilter::new(1000, 1).hash_count(), 1);
    assert_eq!(BloomFilter::new(1000, 100).hash_count(), 30);
}

#[test]
fn inserting_again_changes_nothing() {
    let mut filter = BloomFilter::new(7, 10);
    filter.insert(b"a");
    filter.insert(b"b");
    let before = filter.encode();
    filter.insert(b"a");
    assert_eq!(filter.encode(), before);
}
