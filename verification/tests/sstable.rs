//! Sorted tables: what the writer writes and the reader reads.

use sastran::io::mem::MemFs;
use sastran::io::Io;
use sastran::memtable::Entry;
use sastran::sstable::layout::FOOTER_LEN;
use sastran::sstable::reader::{candidate_block, SsTableLookup, SsTableReader};
use sastran::sstable::writer::{IndexEntry, SsTableWriter};
use sastran::{Error, Result};

const SST: &[u8] = b"sst.bin";
const FOOTER_MAGIC: &[u8] = b"SASTSST2";

/// Changes the bytes of the table.
fn edit(fs: &mut MemFs, change: impl FnOnce(&mut Vec<u8>)) {
    let mut bytes = fs.content(SST).unwrap();
    change(&mut bytes);
    fs.store(SST, bytes);
}

/// All entries of the table.
fn entries_of(r: &SsTableReader, fs: &MemFs) -> Vec<(Vec<u8>, Entry)> {
    let mut it = r.iter();
    std::iter::from_fn(|| it.next(fs))
        .collect::<Result<Vec<_>>>()
        .unwrap()
}

/// A file system with one table.
fn build_sst(entries: &[(Vec<u8>, Entry)]) -> MemFs {
    let mut fs = MemFs::new();
    // Tests construct SSTables with bloom filters enabled (10
    // bits/key) so the reader paths involving bloom are exercised.
    // expected_keys is the entries length, which is exact.
    let mut w = SsTableWriter::create(&mut fs, SST, entries.len(), 10).unwrap();
    for (k, e) in entries {
        w.add(&mut fs, k, e).unwrap();
    }
    w.finish(&mut fs).unwrap();
    fs
}

#[test]
fn round_trip_small_put() {
    let fs = build_sst(&[
        (b"a".to_vec(), Entry::Put(b"1".to_vec())),
        (b"b".to_vec(), Entry::Put(b"2".to_vec())),
        (b"c".to_vec(), Entry::Put(b"3".to_vec())),
    ]);

    let r = SsTableReader::open(&fs, SST).unwrap();
    assert_eq!(r.get(&fs, b"a").unwrap(), SsTableLookup::Found(b"1".to_vec()));
    assert_eq!(r.get(&fs, b"b").unwrap(), SsTableLookup::Found(b"2".to_vec()));
    assert_eq!(r.get(&fs, b"c").unwrap(), SsTableLookup::Found(b"3".to_vec()));
    assert_eq!(r.get(&fs, b"missing").unwrap(), SsTableLookup::Missing);
    assert_eq!(r.get(&fs, b"").unwrap(), SsTableLookup::Missing);
}

#[test]
fn tombstones_return_deleted_not_missing() {
    let fs = build_sst(&[
        (b"alive".to_vec(), Entry::Put(b"yes".to_vec())),
        (b"dead".to_vec(), Entry::Tombstone),
    ]);

    let r = SsTableReader::open(&fs, SST).unwrap();
    assert_eq!(
        r.get(&fs, b"alive").unwrap(),
        SsTableLookup::Found(b"yes".to_vec())
    );
    assert_eq!(r.get(&fs, b"dead").unwrap(), SsTableLookup::Deleted);
}

#[test]
fn key_before_first_block_is_missing() {
    let fs = build_sst(&[
        (b"m".to_vec(), Entry::Put(b"v".to_vec())),
        (b"n".to_vec(), Entry::Put(b"v".to_vec())),
    ]);

    let r = SsTableReader::open(&fs, SST).unwrap();
    assert_eq!(r.get(&fs, b"a").unwrap(), SsTableLookup::Missing);
}

#[test]
fn key_after_last_block_is_missing() {
    let fs = build_sst(&[
        (b"m".to_vec(), Entry::Put(b"v".to_vec())),
        (b"n".to_vec(), Entry::Put(b"v".to_vec())),
    ]);

    let r = SsTableReader::open(&fs, SST).unwrap();
    assert_eq!(r.get(&fs, b"z").unwrap(), SsTableLookup::Missing);
}

#[test]
fn many_keys_across_multiple_blocks() {
    let big = vec![0xABu8; 256];
    let entries: Vec<_> = (0..500u32)
        .map(|i| (format!("k_{i:04}").into_bytes(), Entry::Put(big.clone())))
        .collect();
    let fs = build_sst(&entries);

    let r = SsTableReader::open(&fs, SST).unwrap();
    assert!(r.block_count() > 1, "expected multiple data blocks");

    for i in 0..500u32 {
        let key = format!("k_{i:04}");
        let got = r.get(&fs, key.as_bytes()).unwrap();
        assert_eq!(got, SsTableLookup::Found(big.clone()), "mismatch on {key}");
    }

    assert_eq!(
        r.get(&fs, b"k_0500").unwrap(),
        SsTableLookup::Missing,
        "k_0500 should be just past the last key"
    );
    assert_eq!(r.get(&fs, b"zzz").unwrap(), SsTableLookup::Missing);
}

#[test]
fn rejects_truncated_file() {
    let mut fs = build_sst(&[(b"k".to_vec(), Entry::Put(b"v".to_vec()))]);
    edit(&mut fs, |bytes| {
        bytes.pop();
    });

    let result = SsTableReader::open(&fs, SST);
    assert!(
        matches!(result, Err(Error::Corruption(_))),
        "expected Corruption error, got {:?}",
        result.as_ref().err()
    );
}

#[test]
fn rejects_bad_magic() {
    let mut fs = build_sst(&[(b"k".to_vec(), Entry::Put(b"v".to_vec()))]);
    edit(&mut fs, |bytes| {
        let len = bytes.len();
        bytes[len - 4..].copy_from_slice(b"XXXX");
    });

    let result = SsTableReader::open(&fs, SST);
    assert!(
        matches!(result, Err(Error::Corruption(_))),
        "expected Corruption error, got {:?}",
        result.as_ref().err()
    );
}

#[test]
fn rejects_corrupted_data_block() {
    let mut fs = build_sst(&[
        (b"a".to_vec(), Entry::Put(b"v1".to_vec())),
        (b"b".to_vec(), Entry::Put(b"v2".to_vec())),
    ]);

    edit(&mut fs, |bytes| bytes[5] = 0xFF);

    let r = SsTableReader::open(&fs, SST).unwrap(); // header intact
    let err = r.get(&fs, b"a");
    assert!(
        matches!(err, Err(Error::Corruption(_))),
        "expected corruption, got {err:?}"
    );
}

#[test]
fn candidate_block_picks_correct_index() {
    let index = vec![
        IndexEntry { first_key: b"c".to_vec(), offset: 0, length: 10 },
        IndexEntry { first_key: b"m".to_vec(), offset: 10, length: 10 },
        IndexEntry { first_key: b"t".to_vec(), offset: 20, length: 10 },
    ];
    assert_eq!(candidate_block(&index, b"a"), None);
    assert_eq!(candidate_block(&index, b"c"), Some(0));
    assert_eq!(candidate_block(&index, b"f"), Some(0));
    assert_eq!(candidate_block(&index, b"m"), Some(1));
    assert_eq!(candidate_block(&index, b"zzz"), Some(2));
}

#[test]
fn iter_empty_sstable_yields_nothing() {
    let fs = build_sst(&[]);

    let r = SsTableReader::open(&fs, SST).unwrap();
    let items = entries_of(&r, &fs);
    assert!(items.is_empty());
}

#[test]
fn iter_yields_all_entries_in_order() {
    let entries: Vec<(Vec<u8>, Entry)> = vec![
        (b"a".to_vec(), Entry::Put(b"1".to_vec())),
        (b"b".to_vec(), Entry::Put(b"2".to_vec())),
        (b"c".to_vec(), Entry::Tombstone),
        (b"d".to_vec(), Entry::Put(b"4".to_vec())),
    ];
    let fs = build_sst(&entries);

    let r = SsTableReader::open(&fs, SST).unwrap();
    let got: Vec<(Vec<u8>, Entry)> = entries_of(&r, &fs);
    assert_eq!(got, entries);
}

#[test]
fn iter_crosses_multiple_blocks() {
    let big = vec![0xCDu8; 256];
    let entries: Vec<(Vec<u8>, Entry)> = (0..300u32)
        .map(|i| (format!("k_{i:04}").into_bytes(), Entry::Put(big.clone())))
        .collect();
    let fs = build_sst(&entries);

    let r = SsTableReader::open(&fs, SST).unwrap();
    assert!(r.block_count() > 1, "expected multiple blocks");

    let got: Vec<(Vec<u8>, Entry)> = entries_of(&r, &fs);
    assert_eq!(got.len(), entries.len());
    for (got, expected) in got.iter().zip(entries.iter()) {
        assert_eq!(got.0, expected.0, "key mismatch");
        assert_eq!(got.1, expected.1, "value mismatch on key {:?}", got.0);
    }
}

#[test]
fn iter_stops_after_corruption() {
    let mut fs = build_sst(&[
        (b"a".to_vec(), Entry::Put(b"v1".to_vec())),
        (b"b".to_vec(), Entry::Put(b"v2".to_vec())),
    ]);

    edit(&mut fs, |bytes| bytes[5] = 0xFF);

    let r = SsTableReader::open(&fs, SST).unwrap();
    let mut it = r.iter();
    let first = it.next(&fs).expect("iterator should yield error");
    assert!(matches!(first, Err(Error::Corruption(_))));
    assert!(it.next(&fs).is_none());
    assert!(it.next(&fs).is_none());
}

#[test]
fn reader_iter_yields_vector_entries() {
    let entries: Vec<(Vec<u8>, Entry)> = vec![
        (b"a".to_vec(), Entry::Put(b"plain".to_vec())),
        (b"b".to_vec(), Entry::Vector(vec![1, 2, 3, 4, 5, 6, 7, 8])),
        (b"c".to_vec(), Entry::Tombstone),
    ];
    let fs = build_sst(&entries);

    let r = SsTableReader::open(&fs, SST).unwrap();
    let got: Vec<(Vec<u8>, Entry)> = entries_of(&r, &fs);
    assert_eq!(got, entries);
}

#[test]
fn get_returns_bytes_for_vector_entry() {
    let v = vec![1u8, 2, 3, 4, 5, 6, 7, 8];
    let fs = build_sst(&[(b"k".to_vec(), Entry::Vector(v.clone()))]);

    let r = SsTableReader::open(&fs, SST).unwrap();
    assert_eq!(r.get(&fs, b"k").unwrap(), SsTableLookup::Found(v));
}

#[test]
fn rejects_keys_out_of_order() {
    let mut fs = MemFs::new();
    let mut w = SsTableWriter::create(&mut fs, SST, 0, 0).unwrap();
    w.add(&mut fs, b"b", &Entry::Put(b"1".to_vec())).unwrap();
    let err = w
        .add(&mut fs, b"a", &Entry::Put(b"2".to_vec()))
        .expect_err("should reject out-of-order key");
    assert!(matches!(err, Error::InvalidArgument(_)), "got {err:?}");
}

#[test]
fn rejects_duplicate_keys() {
    let mut fs = MemFs::new();
    let mut w = SsTableWriter::create(&mut fs, SST, 0, 0).unwrap();
    w.add(&mut fs, b"k", &Entry::Put(b"1".to_vec())).unwrap();
    let err = w
        .add(&mut fs, b"k", &Entry::Put(b"2".to_vec()))
        .expect_err("should reject duplicate key");
    assert!(matches!(err, Error::InvalidArgument(_)));
}

#[test]
fn rejects_empty_key() {
    let mut fs = MemFs::new();
    let mut w = SsTableWriter::create(&mut fs, SST, 0, 0).unwrap();
    let err = w
        .add(&mut fs, b"", &Entry::Put(b"1".to_vec()))
        .expect_err("should reject empty key");
    assert!(matches!(err, Error::InvalidArgument(_)));
}

#[test]
fn empty_sstable_finishes_cleanly() {
    let mut fs = MemFs::new();
    let w = SsTableWriter::create(&mut fs, SST, 0, 0).unwrap();
    w.finish(&mut fs).unwrap();
    let bytes = fs.content(SST).unwrap();
    let len = bytes.len();
    assert!(
        len >= FOOTER_LEN,
        "empty SSTable should still contain the footer"
    );
    assert_eq!(&bytes[len - 8..], FOOTER_MAGIC);
}

#[test]
fn populated_sstable_has_magic_at_end() {
    let mut fs = MemFs::new();
    let mut w = SsTableWriter::create(&mut fs, SST, 100, 10).unwrap();
    for i in 0..100u32 {
        let key = format!("k_{i:04}");
        let value = format!("v_{i}");
        w.add(&mut fs, key.as_bytes(), &Entry::Put(value.into_bytes())).unwrap();
    }
    w.finish(&mut fs).unwrap();

    let bytes = fs.content(SST).unwrap();
    let len = bytes.len();
    assert_eq!(&bytes[len - 8..], FOOTER_MAGIC);
}

#[test]
fn many_entries_produce_multiple_blocks() {
    let mut fs = MemFs::new();
    let mut w = SsTableWriter::create(&mut fs, SST, 100, 10).unwrap();
    let big_value = vec![0xCDu8; 200];
    for i in 0..100u32 {
        let key = format!("k_{i:04}");
        w.add(&mut fs, key.as_bytes(), &Entry::Put(big_value.clone())).unwrap();
    }
    w.finish(&mut fs).unwrap();

    let bytes = fs.content(SST).unwrap();
    let len = bytes.len();
    assert!(len > 20_000, "expected multi-block file, got {len} bytes");
}

/// After the last entry there is nothing more, and another walk starts anew.
#[test]
fn iter_stays_at_its_end() {
    let entries = vec![
        (b"a".to_vec(), Entry::Put(b"1".to_vec())),
        (b"b".to_vec(), Entry::Tombstone),
    ];
    let fs = build_sst(&entries);
    let r = SsTableReader::open(&fs, SST).unwrap();
    let mut it = r.iter();
    assert!(it.next(&fs).is_some());
    assert!(it.next(&fs).is_some());
    for _ in 0..3 {
        assert!(it.next(&fs).is_none());
    }
    assert_eq!(entries_of(&r, &fs), entries);
}

/// What the filter or the index excludes is missing without a read.
#[test]
fn excluded_keys_need_no_read() {
    let mut fs = build_sst(&[(b"m".to_vec(), Entry::Put(b"1".to_vec()))]);
    let r = SsTableReader::open(&fs, SST).unwrap();
    fs.remove_file(SST).unwrap();
    assert!(matches!(r.get(&fs, b"m"), Err(Error::Io(_))));
    assert_eq!(r.get(&fs, b"a").unwrap(), SsTableLookup::Missing);
    let missing = (0..100u32)
        .filter(|i| matches!(r.get(&fs, format!("n_{i}").as_bytes()), Ok(SsTableLookup::Missing)))
        .count();
    assert!(missing > 90, "{missing}");
}

/// A refused entry leaves no trace in the file.
#[test]
fn refused_entry_changes_no_byte() {
    let entries = [(b"a".to_vec(), Entry::Put(b"1".to_vec()))];
    let plain = build_sst(&entries).content(SST).unwrap();
    let mut fs = MemFs::new();
    let mut w = SsTableWriter::create(&mut fs, SST, 1, 10).unwrap();
    w.add(&mut fs, b"a", &entries[0].1).unwrap();
    assert!(w.add(&mut fs, b"a", &Entry::Tombstone).is_err());
    assert!(w.add(&mut fs, b"", &Entry::Tombstone).is_err());
    assert!(w.add(&mut fs, b"A", &Entry::Tombstone).is_err());
    w.finish(&mut fs).unwrap();
    assert_eq!(fs.content(SST).unwrap(), plain);
}
