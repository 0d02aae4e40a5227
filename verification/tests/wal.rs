//! The write-ahead log: write, sync, reopen, replay.

use sastran::io::mem::MemFs;
use sastran::wal::log::FILE_HEADER_LEN;
use sastran::wal::reader::{OwnedRecord, WalReader};
use sastran::wal::record::RecordKind;
use sastran::wal::writer::WalWriter;
use sastran::Error;

const WAL: &[u8] = b"wal.log";
const DIR: &str = "db";

/// Changes the bytes of the log.
fn edit(fs: &mut MemFs, change: impl FnOnce(&mut Vec<u8>)) {
    let mut bytes = fs.content(WAL).unwrap();
    change(&mut bytes);
    fs.store(WAL, bytes);
}

#[test]
fn write_then_replay_round_trips_all_records() {
    let mut fs = MemFs::new();

    // Write a few records.
    let mut writer = WalWriter::open(&mut fs, WAL, DIR).unwrap();
    writer.append(&mut fs, RecordKind::Put, b"k1", b"v1").unwrap();
    writer.append(&mut fs, RecordKind::Put, b"k2", b"v2").unwrap();
    writer.append(&mut fs, RecordKind::Delete, b"k1", b"").unwrap();
    writer.sync(&mut fs).unwrap();

    // Reopen for replay.
    let mut reader = WalReader::open(&fs, WAL).unwrap();
    let records: Vec<OwnedRecord> = std::iter::from_fn(|| reader.next_record(&fs).transpose())
        .collect::<Result<_, _>>()
        .unwrap();

    assert_eq!(records.len(), 3);
    assert_eq!(records[0].kind, RecordKind::Put);
    assert_eq!(records[0].key, b"k1");
    assert_eq!(records[0].value, b"v1");
    assert_eq!(records[1].kind, RecordKind::Put);
    assert_eq!(records[1].key, b"k2");
    assert_eq!(records[1].value, b"v2");
    assert_eq!(records[2].kind, RecordKind::Delete);
    assert_eq!(records[2].key, b"k1");
    assert!(records[2].value.is_empty());
}

#[test]
fn empty_wal_replays_zero_records() {
    let mut fs = MemFs::new();

    // Open and immediately drop: file gets the header but no records.
    let writer = WalWriter::open(&mut fs, WAL, DIR).unwrap();
    assert!(writer.is_empty(&fs).unwrap());

    let mut reader = WalReader::open(&fs, WAL).unwrap();
    assert!(reader.next_record(&fs).unwrap().is_none());
    // Polling after EOF stays at EOF cheaply.
    assert!(reader.next_record(&fs).unwrap().is_none());
}

#[test]
fn reopening_writer_appends_to_existing_file() {
    let mut fs = MemFs::new();

    {
        let mut writer = WalWriter::open(&mut fs, WAL, DIR).unwrap();
        writer.append(&mut fs, RecordKind::Put, b"a", b"1").unwrap();
        writer.sync(&mut fs).unwrap();
    }
    {
        let mut writer = WalWriter::open(&mut fs, WAL, DIR).unwrap();
        writer.append(&mut fs, RecordKind::Put, b"b", b"2").unwrap();
        writer.sync(&mut fs).unwrap();
    }

    let mut reader = WalReader::open(&fs, WAL).unwrap();
    let r1 = reader.next_record(&fs).unwrap().unwrap();
    let r2 = reader.next_record(&fs).unwrap().unwrap();
    assert_eq!(r1.key, b"a");
    assert_eq!(r2.key, b"b");
    assert!(reader.next_record(&fs).unwrap().is_none());
}

#[test]
fn torn_tail_is_silently_truncated_on_replay() {
    let mut fs = MemFs::new();

    // Write 3 records, sync.
    {
        let mut writer = WalWriter::open(&mut fs, WAL, DIR).unwrap();
        writer.append(&mut fs, RecordKind::Put, b"k1", b"v1").unwrap();
        writer.append(&mut fs, RecordKind::Put, b"k2", b"v2").unwrap();
        writer.append(&mut fs, RecordKind::Put, b"k3", b"v3").unwrap();
        writer.sync(&mut fs).unwrap();
    }

    // Simulate a torn write by truncating the last 5 bytes of the file.
    edit(&mut fs, |bytes| bytes.truncate(bytes.len() - 5));

    // Replay: should yield k1 and k2 cleanly and stop at the torn k3.
    let mut reader = WalReader::open(&fs, WAL).unwrap();
    let r1 = reader.next_record(&fs).unwrap().unwrap();
    let r2 = reader.next_record(&fs).unwrap().unwrap();
    assert_eq!(r1.key, b"k1");
    assert_eq!(r2.key, b"k2");
    assert!(
        reader.next_record(&fs).unwrap().is_none(),
        "torn tail should replay as clean EOF"
    );
}

#[test]
fn mid_file_corruption_is_fatal() {
    let mut fs = MemFs::new();

    // Write 3 records, sync.
    {
        let mut writer = WalWriter::open(&mut fs, WAL, DIR).unwrap();
        writer.append(&mut fs, RecordKind::Put, b"k1", b"v1").unwrap();
        writer.append(&mut fs, RecordKind::Put, b"k2", b"v2").unwrap();
        writer.append(&mut fs, RecordKind::Put, b"k3", b"v3").unwrap();
        writer.sync(&mut fs).unwrap();
    }

    // Corrupt a byte inside record 2's *value* payload. Choosing the
    // value (not a length field) is deliberate: a corrupted length
    // field can be indistinguishable from a torn tail (the implied
    // record size exceeds the remaining file → looks truncated), which
    // is a fundamental limitation of length-prefixed formats. By
    // corrupting a payload byte, the lengths are unchanged, the record
    // still fits, and the CRC check fires as intended.
    //
    // File layout:
    //   bytes 0..12   file header
    //   bytes 12..29  record 1 (CRC + 1B kind + 4B key_len + 4B value_len + "k1" + "v1")
    //   bytes 29..46  record 2  (same shape, with "k2" + "v2")
    //     -> offset 44 is the first byte of record 2's value, "v"
    edit(&mut fs, |bytes| bytes[44] = b'v' ^ 0x01); // flip one bit -> 'w'

    let mut reader = WalReader::open(&fs, WAL).unwrap();
    let r1 = reader.next_record(&fs).unwrap().unwrap();
    assert_eq!(r1.key, b"k1");
    // Second read should surface a corruption error, not a silent stop.
    let err = reader.next_record(&fs).unwrap_err();
    assert!(
        matches!(err, Error::Corruption(_)),
        "expected Corruption, got {err:?}"
    );
}

#[test]
fn rejects_file_with_bad_magic() {
    let mut fs = MemFs::new();
    fs.store(WAL, b"NOTAWAL!\x01\x00\x00\x00rest of file".to_vec());

    let result = WalReader::open(&fs, WAL);
    assert!(
        matches!(result, Err(Error::Corruption(_))),
        "expected Corruption error, got {:?}",
        result.as_ref().err()
    );
}

#[test]
fn rejects_file_with_unknown_version() {
    let mut bytes = Vec::new();
    bytes.extend_from_slice(b"SASTWAL1");
    bytes.extend_from_slice(&999u32.to_le_bytes());
    let mut fs = MemFs::new();
    fs.store(WAL, bytes);

    let result = WalReader::open(&fs, WAL);
    assert!(
        matches!(result, Err(Error::Corruption(_))),
        "expected Corruption error, got {:?}",
        result.as_ref().err()
    );
}

/// All records of the log.
fn replay(fs: &MemFs) -> sastran::Result<Vec<OwnedRecord>> {
    let mut reader = WalReader::open(fs, WAL)?;
    let mut records = Vec::new();
    while let Some(record) = reader.next_record(fs)? {
        records.push(record);
    }
    Ok(records)
}

/// Wherever a log is cut off behind its header, the records before the cut
/// are replayed and nothing else.
#[test]
fn every_cut_replays_a_prefix() {
    let mut fs = MemFs::new();
    let mut writer = WalWriter::open(&mut fs, WAL, DIR).unwrap();
    let mut ends = vec![FILE_HEADER_LEN];
    for i in 0..4u8 {
        writer
            .append(&mut fs, RecordKind::Put, &[b'k', i], &vec![i; i as usize])
            .unwrap();
        ends.push(fs.content(WAL).unwrap().len());
    }
    let whole = fs.content(WAL).unwrap();
    for cut in FILE_HEADER_LEN..=whole.len() {
        fs.store(WAL, whole[..cut].to_vec());
        let records = replay(&fs).unwrap();
        let expected = ends.iter().filter(|end| **end <= cut).count() - 1;
        assert_eq!(records.len(), expected, "cut at {cut}");
        for (i, record) in records.iter().enumerate() {
            assert_eq!(record.key, [b'k', i as u8]);
            assert_eq!(record.value, vec![i as u8; i]);
        }
    }
}

#[test]
fn new_log_holds_its_header() {
    let mut fs = MemFs::new();
    WalWriter::open(&mut fs, WAL, DIR).unwrap();
    let bytes = fs.content(WAL).unwrap();
    assert_eq!(&bytes[..8], b"SASTWAL1");
    assert_eq!(&bytes[8..], &1u32.to_le_bytes());
}

#[test]
fn reader_tells_its_position() {
    let mut fs = MemFs::new();
    let mut writer = WalWriter::open(&mut fs, WAL, DIR).unwrap();
    writer.append(&mut fs, RecordKind::Put, b"k1", b"v1").unwrap();
    assert_eq!(writer.len(&fs).unwrap(), 29);
    assert!(!writer.is_empty(&fs).unwrap());
    let mut reader = WalReader::open(&fs, WAL).unwrap();
    assert_eq!(reader.position(), 12);
    reader.next_record(&fs).unwrap();
    assert_eq!(reader.position(), 29);
}

#[test]
fn log_that_is_not_there_is_an_io_error() {
    let fs = MemFs::new();
    assert!(matches!(WalReader::open(&fs, WAL), Err(Error::Io(_))));
}

#[test]
fn refused_record_leaves_the_log_alone() {
    let mut fs = MemFs::new();
    let mut writer = WalWriter::open(&mut fs, WAL, DIR).unwrap();
    let before = fs.content(WAL).unwrap();
    let err = writer.append(&mut fs, RecordKind::Put, b"", b"v").unwrap_err();
    assert!(matches!(err, Error::InvalidArgument(_)));
    assert_eq!(fs.content(WAL).unwrap(), before);
}

#[test]
fn writer_refuses_a_file_with_another_header() {
    let starts: [&[u8]; 4] = [b"S", b"SASTWAL1\x01\x00\x00", b"SASTWAL1\x02\x00\x00\x00", b"something else"];
    for start in starts {
        let mut fs = MemFs::new();
        fs.store(WAL, start.to_vec());
        let r = WalWriter::open(&mut fs, WAL, DIR);
        assert!(matches!(r, Err(Error::Corruption(_))));
        assert_eq!(fs.content(WAL).unwrap(), start);
    }
}
