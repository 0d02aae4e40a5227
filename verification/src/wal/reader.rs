//! Log reader: replay that tolerates a torn tail.
//!
//! The reader yields one record at a time. A file that ends on a record
//! boundary and one that ends inside a record both end the log: a record that
//! was cut short was never durable. Any other damage is an error; the reader
//! does not skip past it.

use crate::codec::{copy_bytes, same_bytes};
use crate::error::{corruption, Error, Result};
use crate::io;
use crate::io::Io;
use crate::wal::log;
use crate::wal::log::FILE_HEADER_LEN;
use crate::wal::record;
use crate::wal::record::{decode, DecodeError, Parsed, RecordKind, RecordView, HEADER_LEN};
use crate::wal::writer::file_header;
use vstd::prelude::*;

verus! {

/// A record that owns its bytes.
#[derive(Debug, Clone, PartialEq, Eq)]
pub struct OwnedRecord {
    pub kind: RecordKind,
    pub key: Vec<u8>,
    pub value: Vec<u8>,
}

impl View for OwnedRecord {
    type V = RecordView;

    open spec fn view(&self) -> RecordView {
        RecordView { kind: self.kind, key: self.key@, value: self.value@ }
    }
}

/// Streaming reader over one log file.
#[derive(Debug)]
pub struct WalReader {
    name: Vec<u8>,
    /// Length of the file when it was opened.
    file_len: u64,
    /// Next byte to read.
    offset: u64,
    /// The end of the log was reached.
    done: bool,
}

impl WalReader {
    /// The file that is read.
    pub closed spec fn file_name(&self) -> Seq<u8> {
        self.name@
    }

    /// Next byte to read.
    pub closed spec fn at(&self) -> int {
        self.offset as int
    }

    /// Length of the file when it was opened.
    pub closed spec fn end(&self) -> int {
        self.file_len as int
    }

    /// The end of the log was reached.
    pub closed spec fn is_done(&self) -> bool {
        self.done
    }

    /// The next byte lies within the file.
    pub open spec fn wf(&self) -> bool {
        0 <= self.at() <= self.end() <= u64::MAX
    }

    /// The file still has the bytes it had when it was opened.
    pub open spec fn intact(&self, files: io::Files) -> bool {
        files.contains_key(self.file_name()) && self.end() <= files[self.file_name()].len()
    }

    /// The bytes not yet read.
    pub open spec fn rest(&self, files: io::Files) -> Seq<u8> {
        files[self.file_name()].subrange(self.at(), self.end())
    }

    /// Opens `name` for replay. A file that does not start with the header is
    /// corrupt.
    pub fn open<I: Io>(io: &I, name: &[u8]) -> (r: Result<WalReader>)
        ensures
            match r {
                Ok(w) => {
                    &&& w.wf()
                    &&& w.file_name() == name@
                    &&& w.intact(io.files())
                    &&& log::header().is_prefix_of(io.files()[name@])
                    &&& w.rest(io.files()) == io.files()[name@].skip(FILE_HEADER_LEN as int)
                    &&& w.at() == FILE_HEADER_LEN
                    &&& w.end() == io.files()[name@].len()
                    &&& !w.is_done()
                },
                Err(Error::Corruption(_)) => io.files().contains_key(name@)
                    && !log::header().is_prefix_of(io.files()[name@]),
                Err(e) => e is Io && (io.is_reliable() ==> !io.files().contains_key(name@)),
            },
    {
        proof {
            log::lemma_header_len();
        }
        match io.open_read(name) {
            Ok(_) => {},
            Err(e) => {
                return Err(e);
            },
        }
        let file_len = match io.len(name) {
            Ok(n) => n,
            Err(e) => {
                return Err(e);
            },
        };
        if file_len < FILE_HEADER_LEN as u64 {
            return Err(corruption("WAL file shorter than header"));
        }
        let header = match io.read_at(name, 0, FILE_HEADER_LEN) {
            Ok(b) => b,
            Err(e) => {
                return Err(e);
            },
        };
        let ghost content = io.files()[name@];
        if !same_bytes(header.as_slice(), file_header().as_slice()) {
            return Err(corruption("WAL magic or format version mismatch"));
        }
        assert(content.skip(12) =~= content.subrange(12, content.len() as int));
        Ok(
            WalReader {
                name: copy_bytes(name),
                file_len,
                offset: FILE_HEADER_LEN as u64,
                done: false,
            },
        )
    }

    /// The next record, or `None` at the end of the log.
    pub fn next_record<I: Io>(&mut self, io: &I) -> (r: Result<Option<OwnedRecord>>)
        requires
            old(self).wf(),
        ensures
            final(self).wf(),
            final(self).file_name() == old(self).file_name(),
            final(self).end() == old(self).end(),
            match r {
                Ok(Some(rec)) => {
                    &&& !old(self).is_done()
                    &&& !final(self).is_done()
                    &&& rec@.valid()
                    &&& final(self).at() == old(self).at() + rec@.size()
                },
                Ok(None) => final(self).at() == old(self).at() && final(self).is_done(),
                Err(e) => {
                    &&& !old(self).is_done()
                    &&& *final(self) == *old(self)
                    &&& e is Io || e is Corruption
                },
            },
            old(self).intact(io.files()) ==> match r {
                Ok(Some(rec)) => {
                    &&& record::parse(old(self).rest(io.files())) == Parsed::Record(rec@)
                    &&& final(self).rest(io.files()) == old(self).rest(io.files()).skip(
                        rec@.size(),
                    )
                },
                Ok(None) => old(self).is_done() || record::parse(
                    old(self).rest(io.files()),
                ) is Truncated,
                Err(Error::Corruption(_)) => {
                    let p = record::parse(old(self).rest(io.files()));
                    !(p is Record) && !(p is Truncated)
                },
                Err(_) => !io.is_reliable(),
            },
    {
        if self.done {
            return Ok(None);
        }
        let ghost rest = self.rest(io.files());
        if self.offset >= self.file_len {
            self.done = true;
            return Ok(None);
        }
        let remaining = self.file_len - self.offset;
        if remaining < HEADER_LEN as u64 {
            self.done = true;
            return Ok(None);
        }
        let head = match io.read_at(self.name.as_slice(), self.offset, HEADER_LEN) {
            Ok(b) => b,
            Err(e) => {
                return Err(e);
            },
        };
        proof {
            if self.intact(io.files()) {
                assert(head@ =~= rest.take(13));
                lemma_parse_head(rest);
            }
            lemma_head_only(head@);
        }
        match decode(head.as_slice()) {
            Err(DecodeError::Truncated { needed, .. }) => {
                if remaining < needed as u64 {
                    self.done = true;
                    return Ok(None);
                }
                let whole = match io.read_at(self.name.as_slice(), self.offset, needed) {
                    Ok(b) => b,
                    Err(e) => {
                        return Err(e);
                    },
                };
                let ghost content = io.files()[self.name@];
                let ghost at = self.offset as int;
                proof {
                    if self.intact(io.files()) {
                        assert(whole@ =~= rest.take(needed as int));
                        lemma_parse_whole(rest);
                    }
                    assert(head@ =~= content.subrange(at, at + 13));
                    assert(whole@.subrange(5, 9) =~= head@.subrange(5, 9));
                    assert(whole@.subrange(9, 13) =~= head@.subrange(9, 13));
                }
                match decode(whole.as_slice()) {
                    Ok((rec, consumed)) => {
                        let owned = OwnedRecord {
                            kind: rec.kind,
                            key: copy_bytes(rec.key),
                            value: copy_bytes(rec.value),
                        };
                        self.offset = self.offset + consumed as u64;
                        proof {
                            record::lemma_parse_sound(whole@);
                            if old(self).intact(io.files()) {
                                assert(self.rest(io.files()) =~= rest.skip(owned@.size()));
                            }
                        }
                        Ok(Some(owned))
                    },
                    Err(e) => Err(e.into_error()),
                }
            },
            Err(e) => Err(e.into_error()),
            Ok((rec, consumed)) => {
                // A record is longer than its header: its key is not empty.
                assert(false);
                Err(corruption("record without a key"))
            },
        }
    }

    /// Length of the file when it was opened.
    pub(crate) fn file_end(&self) -> (n: u64)
        ensures
            n == self.end(),
    {
        self.file_len
    }

    /// The byte at which the next record starts.
    pub fn position(&self) -> (n: u64)
        ensures
            n == self.at(),
    {
        self.offset
    }
}

/// A header alone is never a whole record.
proof fn lemma_head_only(head: Seq<u8>)
    requires
        head.len() == HEADER_LEN,
    ensures
        !(record::parse(head) is Record),
        record::parse(head) matches Parsed::Truncated { needed } ==> needed == record::record_len(
            head,
        ) && HEADER_LEN < needed <= HEADER_LEN + record::MAX_KEY_LEN + record::MAX_VALUE_LEN,
        record::parse(head) is BadCrc ==> false,
        record::parse(head) is BadKind ==> false,
        record::parse(head) is UnexpectedDeleteValue ==> false,
{
}

/// The first bytes of a record decide whether its lengths are acceptable.
proof fn lemma_parse_head(b: Seq<u8>)
    requires
        b.len() >= HEADER_LEN,
    ensures
        record::record_len(b.take(13)) == record::record_len(b),
        !(record::parse(b.take(13)) is Truncated) ==> record::parse(b) == record::parse(b.take(13)),
        record::parse(b.take(13)) is Truncated && b.len() < record::record_len(b) ==> record::parse(
            b,
        ) is Truncated,
{
    let h = b.take(13);
    assert(h.subrange(5, 9) =~= b.subrange(5, 9));
    assert(h.subrange(9, 13) =~= b.subrange(9, 13));
}

/// The bytes after a record do not matter to it.
proof fn lemma_parse_whole(b: Seq<u8>)
    requires
        HEADER_LEN <= record::record_len(b) <= b.len(),
    ensures
        record::parse(b.take(record::record_len(b))) == record::parse(b),
        record::record_len(b.take(record::record_len(b))) == record::record_len(b),
{
    let n = record::record_len(b);
    let w = b.take(n);
    assert(w.subrange(0, 4) =~= b.subrange(0, 4));
    assert(w.subrange(5, 9) =~= b.subrange(5, 9));
    assert(w.subrange(9, 13) =~= b.subrange(9, 13));
    assert(w.subrange(4, n) =~= b.subrange(4, n));
    let k = record::key_len(b);
    assert(w.subrange(13, 13 + k) =~= b.subrange(13, 13 + k));
    assert(w.subrange(13 + k, n) =~= b.subrange(13 + k, n));
}

} // verus!
