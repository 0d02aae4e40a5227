//! The memtable.

use rand::rngs::StdRng;
use rand::{Rng, SeedableRng};
use sastran::memtable::{Entry, Lookup, Memtable};
use std::collections::BTreeMap;

#[test]
fn empty_get_is_missing() {
    let m = Memtable::new();
    assert_eq!(m.get(b"nope"), Lookup::Missing);
    assert!(m.is_empty());
    assert_eq!(m.len(), 0);
    assert_eq!(m.approximate_size(), 0);
}

#[test]
fn put_then_get_returns_value() {
    let mut m = Memtable::new();
    m.put(b"k".to_vec(), b"v".to_vec());
    assert_eq!(m.get(b"k"), Lookup::Found(b"v"));
    assert_eq!(m.len(), 1);
    assert_eq!(m.approximate_size(), 2);
}

#[test]
fn overwrite_replaces_value_and_adjusts_size() {
    let mut m = Memtable::new();
    m.put(b"k".to_vec(), b"v1".to_vec());
    assert_eq!(m.approximate_size(), 3); // 1 (key) + 2 (value)
    m.put(b"k".to_vec(), b"v22".to_vec());
    assert_eq!(m.get(b"k"), Lookup::Found(b"v22"));
    assert_eq!(m.approximate_size(), 4); // 1 + 3
    m.put(b"k".to_vec(), b"".to_vec());
    assert_eq!(m.get(b"k"), Lookup::Found(b""));
    assert_eq!(m.approximate_size(), 1); // 1 + 0
}

#[test]
fn delete_returns_deleted_not_missing() {
    let mut m = Memtable::new();
    m.put(b"k".to_vec(), b"v".to_vec());
    m.delete(b"k".to_vec());
    // The whole point of tombstones: deleted != missing.
    assert_eq!(m.get(b"k"), Lookup::Deleted);
    assert_eq!(m.len(), 1); // tombstone still occupies a slot
}

#[test]
fn delete_on_unseen_key_records_tombstone() {
    let mut m = Memtable::new();
    m.delete(b"ghost".to_vec());
    assert_eq!(m.get(b"ghost"), Lookup::Deleted);
    assert_eq!(m.approximate_size(), 5); // key bytes only
}

#[test]
fn put_after_delete_revives_key() {
    let mut m = Memtable::new();
    m.put(b"k".to_vec(), b"v1".to_vec());
    m.delete(b"k".to_vec());
    assert_eq!(m.get(b"k"), Lookup::Deleted);
    m.put(b"k".to_vec(), b"v2".to_vec());
    assert_eq!(m.get(b"k"), Lookup::Found(b"v2"));
}

#[test]
fn iter_yields_keys_in_sorted_order() {
    let mut m = Memtable::new();
    m.put(b"c".to_vec(), b"3".to_vec());
    m.put(b"a".to_vec(), b"1".to_vec());
    m.put(b"b".to_vec(), b"2".to_vec());
    m.delete(b"d".to_vec());

    let keys: Vec<&[u8]> = m.iter().into_iter().map(|(k, _)| k).collect();
    assert_eq!(keys, vec![&b"a"[..], &b"b"[..], &b"c"[..], &b"d"[..]]);
}

#[test]
fn iter_distinguishes_put_from_tombstone() {
    let mut m = Memtable::new();
    m.put(b"alive".to_vec(), b"yes".to_vec());
    m.delete(b"dead".to_vec());

    let entries: Vec<(&[u8], &Entry)> = m.iter();
    assert_eq!(entries.len(), 2);
    assert_eq!(entries[0], (&b"alive"[..], &Entry::Put(b"yes".to_vec())));
    assert_eq!(entries[1], (&b"dead"[..], &Entry::Tombstone));
}



#[test]
fn put_vector_then_get_returns_bytes() {
    let mut m = Memtable::new();
    let v_bytes = vec![1u8, 2, 3, 4, 5, 6, 7, 8]; // 2 f32 values worth
    m.put_vector(b"vec_key".to_vec(), v_bytes.clone());
    assert_eq!(m.get(b"vec_key"), Lookup::Found(v_bytes.as_slice()));
    assert_eq!(m.len(), 1);
    assert_eq!(m.approximate_size(), b"vec_key".len() + v_bytes.len());
}

#[test]
fn put_vector_then_delete_yields_deleted() {
    let mut m = Memtable::new();
    m.put_vector(b"k".to_vec(), vec![0xAB; 12]);
    m.delete(b"k".to_vec());
    assert_eq!(m.get(b"k"), Lookup::Deleted);
}

#[test]
fn put_vector_then_put_overwrites() {
    // Writing a regular Put on top of a Vector replaces it.
    let mut m = Memtable::new();
    m.put_vector(b"k".to_vec(), vec![0xAB; 12]);
    m.put(b"k".to_vec(), b"now i am bytes".to_vec());
    assert_eq!(m.get(b"k"), Lookup::Found(b"now i am bytes"));
}

#[test]
fn memtable_iter_yields_vector_entries() {
    let mut m = Memtable::new();
    m.put_vector(b"a".to_vec(), vec![1, 2, 3, 4]);
    m.put(b"b".to_vec(), b"plain".to_vec());
    let entries: Vec<(&[u8], &Entry)> = m.iter();
    assert_eq!(entries.len(), 2);
    assert!(matches!(entries[0].1, Entry::Vector(_)));
    assert!(matches!(entries[1].1, Entry::Put(_)));
}

#[test]
fn is_vector_correctly_identifies_variants() {
    assert!(Entry::Vector(vec![0; 8]).is_vector());
    assert!(!Entry::Put(vec![0; 8]).is_vector());
    assert!(!Entry::Tombstone.is_vector());
}

/// Keys of a small key space, so that operations meet the same keys often.
fn small_key(rng: &mut StdRng) -> Vec<u8> {
    let n = rng.gen_range(1..4);
    (0..n).map(|_| rng.gen_range(0u8..8)).collect()
}

/// A memtable, treated as a map from keys to what is known of them, matches a
/// reference model built from the same operations.
#[test]
fn prop_matches_reference_model() {
    let mut rng = StdRng::seed_from_u64(1);
    for _ in 0..64 {
        // None = tombstone, Some = put; a key that is not there is missing.
        let mut reference: BTreeMap<Vec<u8>, Option<Vec<u8>>> = BTreeMap::new();
        let mut m = Memtable::new();
        for _ in 0..rng.gen_range(0..100) {
            let k = small_key(&mut rng);
            match rng.gen_range(0..3) {
                0 => {
                    let n = rng.gen_range(0..32);
                    let v: Vec<u8> = (0..n).map(|_| rng.gen()).collect();
                    m.put(k.clone(), v.clone());
                    reference.insert(k, Some(v));
                }
                1 => {
                    m.delete(k.clone());
                    reference.insert(k, None);
                }
                _ => {
                    let expected = match reference.get(&k) {
                        None => Lookup::Missing,
                        Some(None) => Lookup::Deleted,
                        Some(Some(v)) => Lookup::Found(v.as_slice()),
                    };
                    assert_eq!(m.get(&k), expected, "mismatch on key {k:?}");
                }
            }
        }
        for (k, state) in &reference {
            let expected = match state {
                None => Lookup::Deleted,
                Some(v) => Lookup::Found(v.as_slice()),
            };
            assert_eq!(m.get(k), expected, "final state mismatch on key {k:?}");
        }
        // The size is that of the keys and the values that are held.
        let size: usize = reference
            .iter()
            .map(|(k, v)| k.len() + v.as_ref().map_or(0, |v| v.len()))
            .sum();
        assert_eq!(m.approximate_size(), size);
        assert_eq!(m.len(), reference.len());
    }
}
