//! Records of the write-ahead log.

use rand::rngs::StdRng;
use rand::{Rng, SeedableRng};
use sastran::wal::record::{
    decode, encode, encoded_len, DecodeError, RecordKind, HEADER_LEN, MAX_KEY_LEN, MAX_VALUE_LEN,
};
use sastran::Error;

/// Helper: encode then decode, asserting the round-trip preserves data.
fn round_trip(kind: RecordKind, key: &[u8], value: &[u8]) {
    let mut buf = Vec::new();
    let n = encode(kind, key, value, &mut buf).expect("encode");
    assert_eq!(n, buf.len(), "encode reported wrong byte count");

    let (decoded, consumed) = decode(&buf).expect("decode");
    assert_eq!(consumed, buf.len(), "decode consumed wrong byte count");
    assert_eq!(decoded.kind, kind);
    assert_eq!(decoded.key, key);
    assert_eq!(decoded.value, value);
}

#[test]
fn put_round_trip_basic() {
    round_trip(RecordKind::Put, b"hello", b"world");
}

#[test]
fn delete_round_trip_basic() {
    round_trip(RecordKind::Delete, b"hello", b"");
}

#[test]
fn put_round_trip_large_value() {
    let value = vec![0xABu8; 1024 * 1024];
    round_trip(RecordKind::Put, b"big", &value);
}

#[test]
fn rejects_empty_key_on_encode() {
    let mut buf = Vec::new();
    let err = encode(RecordKind::Put, b"", b"v", &mut buf).unwrap_err();
    assert!(matches!(err, Error::InvalidArgument(_)), "got {err:?}");
}

#[test]
fn rejects_oversized_key_on_encode() {
    let mut buf = Vec::new();
    let key = vec![0u8; MAX_KEY_LEN as usize + 1];
    let err = encode(RecordKind::Put, &key, b"v", &mut buf).unwrap_err();
    assert!(matches!(err, Error::InvalidArgument(_)));
}

#[test]
fn rejects_value_on_delete() {
    let mut buf = Vec::new();
    let err = encode(RecordKind::Delete, b"k", b"v", &mut buf).unwrap_err();
    assert!(matches!(err, Error::InvalidArgument(_)));
}

#[test]
fn decode_detects_truncated_header() {
    let buf = vec![0u8; HEADER_LEN - 1];
    let err = decode(&buf).unwrap_err();
    assert!(matches!(err, DecodeError::Truncated { .. }));
}

#[test]
fn decode_detects_truncated_payload() {
    let mut buf = Vec::new();
    encode(RecordKind::Put, b"key", b"value", &mut buf).unwrap();
    // Chop off the last byte of the value.
    buf.pop();
    let err = decode(&buf).unwrap_err();
    assert!(matches!(err, DecodeError::Truncated { .. }), "got {err:?}");
}

#[test]
fn decode_detects_crc_mismatch() {
    let mut buf = Vec::new();
    encode(RecordKind::Put, b"key", b"value", &mut buf).unwrap();
    // Flip a bit in the value.
    let last = buf.len() - 1;
    buf[last] ^= 0x01;
    let err = decode(&buf).unwrap_err();
    assert!(matches!(err, DecodeError::BadCrc { .. }), "got {err:?}");
}

#[test]
fn decode_detects_bad_kind() {
    let mut buf = Vec::new();
    encode(RecordKind::Put, b"key", b"value", &mut buf).unwrap();
    // Corrupt the kind byte (offset 4) then recompute the CRC so
    // CRC validation passes and we hit the kind check specifically.
    buf[4] = 0x00;
    let new_crc = crc32fast::hash(&buf[4..]);
    buf[0..4].copy_from_slice(&new_crc.to_le_bytes());
    let err = decode(&buf).unwrap_err();
    assert!(matches!(err, DecodeError::BadKind { byte: 0x00 }), "got {err:?}");
}

#[test]
fn decode_rejects_oversized_key_len() {
    // Build a header by hand with key_len = MAX_KEY_LEN + 1.
    let mut buf = vec![0u8; HEADER_LEN];
    buf[4] = 0x01;
    buf[5..9].copy_from_slice(&(MAX_KEY_LEN + 1).to_le_bytes());
    buf[9..13].copy_from_slice(&0u32.to_le_bytes());
    // Don't bother with a real CRC; the length check fires first.
    let err = decode(&buf).unwrap_err();
    assert!(
        matches!(err, DecodeError::LengthExceedsMax { field: "key", .. }),
        "got {err:?}"
    );
}



#[test]
fn vector_round_trip_basic() {
    round_trip(RecordKind::Vector, b"key", b"\x01\x02\x03\x04\x05\x06\x07\x08");
}

#[test]
fn vector_round_trip_large() {
    let value = vec![0xCDu8; 4096];
    round_trip(RecordKind::Vector, b"big_vec", &value);
}

fn random_bytes(rng: &mut StdRng, from: usize, to: usize) -> Vec<u8> {
    let n = rng.gen_range(from..to);
    (0..n).map(|_| rng.gen()).collect()
}

/// Arbitrary `(key, value)` pairs round-trip.
#[test]
fn prop_put_round_trip() {
    let mut rng = StdRng::seed_from_u64(2);
    for _ in 0..64 {
        let key = random_bytes(&mut rng, 1, 256);
        let value = random_bytes(&mut rng, 0, 4096);
        round_trip(RecordKind::Put, &key, &value);
    }
}

#[test]
fn prop_delete_round_trip() {
    let mut rng = StdRng::seed_from_u64(3);
    for _ in 0..64 {
        let key = random_bytes(&mut rng, 1, 256);
        round_trip(RecordKind::Delete, &key, b"");
    }
}

/// Any single-bit flip in the encoded form is detected, or gives another
/// record.
#[test]
fn prop_single_bit_flip_detected() {
    let mut rng = StdRng::seed_from_u64(4);
    for _ in 0..256 {
        let key = random_bytes(&mut rng, 1, 64);
        let value = random_bytes(&mut rng, 0, 64);
        let mut buf = Vec::new();
        encode(RecordKind::Put, &key, &value, &mut buf).unwrap();
        let flip_byte = rng.gen_range(0..buf.len());
        let flip_bit = rng.gen_range(0..8);
        buf[flip_byte] ^= 1 << flip_bit;
        if let Ok((decoded, _)) = decode(&buf) {
            assert!(
                decoded.key != &key[..] || decoded.value != &value[..],
                "bit flip at byte {flip_byte} bit {flip_bit} was not detected"
            );
        }
    }
}

/// The bytes of a record: checksum, kind, the two lengths, key and value.
#[test]
fn record_layout_is_fixed() {
    let mut buf = vec![0xEE];
    let n = encode(RecordKind::Vector, b"k1", b"abc", &mut buf).unwrap();
    assert_eq!(n, 18);
    assert_eq!(encoded_len(2, 3), 18);
    // What was in the buffer stays in front.
    assert_eq!(buf[0], 0xEE);
    let record = &buf[1..];
    assert_eq!(record[4], 0x03);
    assert_eq!(&record[5..9], &2u32.to_le_bytes());
    assert_eq!(&record[9..13], &3u32.to_le_bytes());
    assert_eq!(&record[13..], b"k1abc");
    assert_eq!(&record[..4], &crc32fast::hash(&record[4..]).to_le_bytes());
}

#[test]
fn encode_refuses_oversized_value() {
    let mut buf = Vec::new();
    let value = vec![0u8; MAX_VALUE_LEN as usize + 1];
    let err = encode(RecordKind::Put, b"k", &value, &mut buf).unwrap_err();
    assert!(matches!(err, Error::InvalidArgument(_)));
    assert!(buf.is_empty());
}

#[test]
fn decode_rejects_oversized_value_len() {
    let mut buf = vec![0u8; HEADER_LEN];
    buf[4] = 0x01;
    buf[5..9].copy_from_slice(&1u32.to_le_bytes());
    buf[9..13].copy_from_slice(&(MAX_VALUE_LEN + 1).to_le_bytes());
    let err = decode(&buf).unwrap_err();
    assert!(
        matches!(err, DecodeError::LengthExceedsMax { field: "value", .. }),
        "got {err:?}"
    );
    assert!(matches!(err.into_error(), Error::Corruption(_)));
}

/// A record is read from the front; what follows is left.
#[test]
fn decode_consumes_one_record() {
    let mut buf = Vec::new();
    let first = encode(RecordKind::Put, b"a", b"1", &mut buf).unwrap();
    encode(RecordKind::Delete, b"b", b"", &mut buf).unwrap();
    let (record, used) = decode(&buf).unwrap();
    assert_eq!((record.key, record.value, used), (&b"a"[..], &b"1"[..], first));
    let (record, used) = decode(&buf[first..]).unwrap();
    assert_eq!(record.kind, RecordKind::Delete);
    assert_eq!((record.key, used), (&b"b"[..], buf.len() - first));
}

/// Each error says what it found.
#[test]
fn decode_errors_have_messages() {
    let cases = vec![
        (
            DecodeError::Truncated { needed: 120, available: 7 },
            "record truncated: needed 120 bytes, have 7",
        ),
        (
            DecodeError::BadCrc { stored: 0xdead_beef, computed: 0x1f },
            "CRC mismatch: stored 0xdeadbeef, computed 0x0000001f",
        ),
        (DecodeError::BadKind { byte: 0x0c }, "unknown record kind 0x0c"),
        (DecodeError::BadKind { byte: 0xff }, "unknown record kind 0xff"),
        (
            DecodeError::LengthExceedsMax { field: "key", len: 4294967295, max: 65536 },
            "key length 4294967295 exceeds maximum 65536",
        ),
        (
            DecodeError::LengthExceedsMax { field: "value", len: 10, max: 0 },
            "value length 10 exceeds maximum 0",
        ),
        (DecodeError::EmptyKey, "record has zero-length key"),
        (
            DecodeError::UnexpectedDeleteValue,
            "Delete record carries a non-empty value",
        ),
    ];
    for (error, text) in cases {
        assert_eq!(error.message(), text);
        match error.into_error() {
            Error::Corruption(message) => assert_eq!(message, text),
            other => panic!("unexpected {other:?}"),
        }
    }
}
