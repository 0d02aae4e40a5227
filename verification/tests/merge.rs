//! The merge of sorted streams.

use sastran::memtable::Entry;
use sastran::sstable::merge::{MergeSource, MergingIterator, SortedEntryIter};
use sastran::{Error, Result};

/// Helper: build a source from a list of (key, entry) pairs.
fn src(sequence: u64, entries: Vec<(&[u8], Entry)>) -> MergeSource {
    let owned: Vec<Result<(Vec<u8>, Entry)>> = entries
        .into_iter()
        .map(|(k, e)| Ok((k.to_vec(), e)))
        .collect();
    MergeSource {
        sequence,
        iter: SortedEntryIter::new(owned),
    }
}

fn put(v: &[u8]) -> Entry {
    Entry::Put(v.to_vec())
}

fn drain(mut it: MergingIterator) -> Vec<(Vec<u8>, Entry)> {
    std::iter::from_fn(|| it.next())
        .collect::<Result<Vec<_>>>()
        .unwrap()
}

#[test]
fn empty_input_yields_nothing() {
    let it = MergingIterator::new(vec![]).unwrap();
    assert!(drain(it).is_empty());
}

#[test]
fn single_source_passes_through() {
    let it = MergingIterator::new(vec![src(
        0,
        vec![
            (b"a", put(b"1")),
            (b"b", put(b"2")),
            (b"c", put(b"3")),
        ],
    )])
    .unwrap();
    let got = drain(it);
    assert_eq!(
        got,
        vec![
            (b"a".to_vec(), put(b"1")),
            (b"b".to_vec(), put(b"2")),
            (b"c".to_vec(), put(b"3")),
        ]
    );
}

#[test]
fn two_disjoint_sources_interleave_by_key() {
    let s1 = src(0, vec![(b"a", put(b"1")), (b"c", put(b"3"))]);
    let s2 = src(1, vec![(b"b", put(b"2")), (b"d", put(b"4"))]);
    let got = drain(MergingIterator::new(vec![s1, s2]).unwrap());
    assert_eq!(
        got,
        vec![
            (b"a".to_vec(), put(b"1")),
            (b"b".to_vec(), put(b"2")),
            (b"c".to_vec(), put(b"3")),
            (b"d".to_vec(), put(b"4")),
        ]
    );
}

#[test]
fn duplicate_keys_keep_freshest_only() {
    // s1 is older (sequence 0), s2 is newer (sequence 1).
    // For key "k", the newer value should win.
    let s1 = src(0, vec![(b"k", put(b"old"))]);
    let s2 = src(1, vec![(b"k", put(b"new"))]);
    let got = drain(MergingIterator::new(vec![s1, s2]).unwrap());
    assert_eq!(got, vec![(b"k".to_vec(), put(b"new"))]);
}

#[test]
fn freshness_works_regardless_of_input_order() {
    // Same as above but the freshest source is listed *first* in
    // the input vector. Result should be identical.
    let s_new = src(1, vec![(b"k", put(b"new"))]);
    let s_old = src(0, vec![(b"k", put(b"old"))]);
    let got = drain(MergingIterator::new(vec![s_new, s_old]).unwrap());
    assert_eq!(got, vec![(b"k".to_vec(), put(b"new"))]);
}

#[test]
fn tombstone_can_win_over_put() {
    // Tombstone in the newer source masks the put in the older.
    let s_old = src(0, vec![(b"k", put(b"alive"))]);
    let s_new = src(1, vec![(b"k", Entry::Tombstone)]);
    let got = drain(MergingIterator::new(vec![s_old, s_new]).unwrap());
    assert_eq!(got, vec![(b"k".to_vec(), Entry::Tombstone)]);
}

#[test]
fn put_can_win_over_older_tombstone() {
    // The reverse: a fresh put resurrects a previously-tombstoned key.
    let s_old = src(0, vec![(b"k", Entry::Tombstone)]);
    let s_new = src(1, vec![(b"k", put(b"alive"))]);
    let got = drain(MergingIterator::new(vec![s_old, s_new]).unwrap());
    assert_eq!(got, vec![(b"k".to_vec(), put(b"alive"))]);
}

#[test]
fn three_sources_with_overlapping_keys() {
    // Sequence layout: s_a=2 (newest), s_b=1, s_c=0 (oldest)
    // Keys:           s_a: a, c        s_b: a, b, c    s_c: a, b
    // Expected output:
    //   a -> from s_a (sequence 2, newest)
    //   b -> from s_b (sequence 1, newer than s_c)
    //   c -> from s_a (sequence 2, newest)
    let s_a = src(2, vec![(b"a", put(b"a@2")), (b"c", put(b"c@2"))]);
    let s_b = src(
        1,
        vec![
            (b"a", put(b"a@1")),
            (b"b", put(b"b@1")),
            (b"c", put(b"c@1")),
        ],
    );
    let s_c = src(0, vec![(b"a", put(b"a@0")), (b"b", put(b"b@0"))]);

    let got = drain(MergingIterator::new(vec![s_a, s_b, s_c]).unwrap());
    assert_eq!(
        got,
        vec![
            (b"a".to_vec(), put(b"a@2")),
            (b"b".to_vec(), put(b"b@1")),
            (b"c".to_vec(), put(b"c@2")),
        ]
    );
}

#[test]
fn empty_sources_are_skipped_cleanly() {
    let s1 = src(0, vec![]);
    let s2 = src(1, vec![(b"x", put(b"1"))]);
    let s3 = src(2, vec![]);
    let got = drain(MergingIterator::new(vec![s1, s2, s3]).unwrap());
    assert_eq!(got, vec![(b"x".to_vec(), put(b"1"))]);
}

#[test]
fn error_from_source_poisons_iterator() {
    // Build a source whose iterator yields one Ok followed by Err.
    let err_iter: SortedEntryIter = SortedEntryIter::new(vec![
            Ok((b"a".to_vec(), put(b"1"))),
            Err(Error::Corruption("synthetic".into())),
        ]);
    let good_iter: SortedEntryIter = SortedEntryIter::new(vec![Ok((b"b".to_vec(), put(b"2")))]);
    let sources = vec![
        MergeSource { sequence: 0, iter: err_iter },
        MergeSource { sequence: 1, iter: good_iter },
    ];
    let mut it = MergingIterator::new(sources).unwrap();

    // First emit succeeds: "a" from the error source's first entry.
    let first = it.next().expect("first emit").expect("not an error yet");
    assert_eq!(first.0, b"a");

    // Second call refills from the error source and surfaces the error.
    let err = it.next().expect("second emit").expect_err("expected error");
    assert!(matches!(err, Error::Corruption(_)));

    // Iterator is now poisoned: subsequent calls yield None.
    assert!(it.next().is_none());
    assert!(it.next().is_none());
}

#[test]
fn many_keys_across_many_sources() {
    // Build 5 sources, each with 10 unique keys, no overlap. Output
    // should be all 50 keys in sorted order with no duplicates.
    let mut sources = Vec::new();
    for src_idx in 0..5u32 {
        let mut entries = Vec::new();
        for i in 0..10u32 {
            let key = format!("k_{:02}", src_idx * 10 + i);
            let value = format!("v_{src_idx}_{i}");
            entries.push((key.into_bytes(), Entry::Put(value.into_bytes())));
        }
        let owned: Vec<Result<(Vec<u8>, Entry)>> =
            entries.into_iter().map(Ok).collect();
        sources.push(MergeSource {
            sequence: src_idx as u64,
            iter: SortedEntryIter::new(owned),
        });
    }
    let got = drain(MergingIterator::new(sources).unwrap());
    assert_eq!(got.len(), 50);
    for (i, (key, _)) in got.iter().enumerate() {
        let expected = format!("k_{i:02}");
        assert_eq!(key, &expected.into_bytes());
    }
}

#[test]
fn all_sources_have_same_key_freshest_wins() {
    // Pathological case: every source holds an entry for the same key.
    // The freshest sequence should win and all others should drop.
    let s_a = src(0, vec![(b"k", put(b"v@0"))]);
    let s_b = src(5, vec![(b"k", put(b"v@5"))]);
    let s_c = src(3, vec![(b"k", put(b"v@3"))]);
    let s_d = src(99, vec![(b"k", put(b"v@99"))]);
    let s_e = src(1, vec![(b"k", put(b"v@1"))]);

    let got = drain(MergingIterator::new(vec![s_a, s_b, s_c, s_d, s_e]).unwrap());
    assert_eq!(got, vec![(b"k".to_vec(), put(b"v@99"))]);
}

fn failing(sequence: u64, key: &[u8], message: &str) -> MergeSource {
    let items = vec![
        Ok((key.to_vec(), put(b"v"))),
        Err(Error::Corruption(message.to_string())),
    ];
    MergeSource { sequence, iter: SortedEntryIter::new(items) }
}

/// Of several errors, that of the source whose entry is given comes last, the
/// others from newest to oldest.
#[test]
fn first_error_is_that_of_the_newest_stale_source() {
    let sources = vec![
        failing(1, b"a", "oldest"),
        failing(3, b"a", "winner"),
        failing(2, b"a", "middle"),
        src(0, vec![(b"b", put(b"2"))]),
    ];
    let mut it = MergingIterator::new(sources).unwrap();
    assert_eq!(it.next().unwrap().unwrap().0, b"a");
    match it.next() {
        Some(Err(Error::Corruption(m))) => assert_eq!(m, "middle"),
        other => panic!("unexpected {other:?}"),
    }
    assert!(it.next().is_none());
    assert!(it.next().is_none());
}

/// An error at the start of a source is returned, the first of several.
#[test]
fn first_source_that_starts_with_an_error_is_reported() {
    let bad = |m: &str| MergeSource {
        sequence: 0,
        iter: SortedEntryIter::new(vec![Err(Error::Corruption(m.to_string()))]),
    };
    let sources = vec![src(1, vec![(b"a", put(b"1"))]), bad("first"), bad("second")];
    match MergingIterator::new(sources) {
        Err(Error::Corruption(m)) => assert_eq!(m, "first"),
        _ => panic!("no error"),
    }
}
