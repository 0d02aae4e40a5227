//! Log writer.
//!
//! [`WalWriter::append`] writes one record without syncing; durability is the
//! caller's to ask for with [`WalWriter::sync`], so that one sync may serve
//! many records.

use crate::codec::{copy_bytes, push_u32, same_bytes};
use crate::error::{corruption, Error, Result};
use crate::io;
use crate::io::Io;
use crate::wal::log;
use crate::wal::log::{FILE_HEADER_LEN, FORMAT_VERSION};
use crate::wal::record::{encode, RecordKind, RecordView};
use vstd::prelude::*;

verus! {

/// The bytes of the file header.
pub(crate) fn file_header() -> (h: Vec<u8>)
    ensures
        h@ == log::header(),
{
    let mut h: Vec<u8> = vec![83u8, 65u8, 83u8, 84u8, 87u8, 65u8, 76u8, 49u8];
    assert(h@ =~= log::magic());
    push_u32(&mut h, FORMAT_VERSION);
    h
}

/// Appender for one log file.
#[derive(Debug)]
pub struct WalWriter {
    name: Vec<u8>,
}

/// `name` is not there or has no bytes.
pub open spec fn is_new(files: io::Files, name: Seq<u8>) -> bool {
    !files.contains_key(name) || files[name].len() == 0
}

/// A new file `name` was created, and some of its header written.
pub open spec fn torn_open(before: io::Files, name: Seq<u8>, after: io::Files) -> bool {
    after == before || (is_new(before, name) && exists|n: int|
        0 <= n <= log::header().len() && after == before.insert(
            name,
            #[trigger] log::header().take(n),
        ))
}

impl WalWriter {
    /// The file that is written.
    pub closed spec fn file_name(&self) -> Seq<u8> {
        self.name@
    }

    /// Opens `name` for append in the directory `parent_dir`. A new file gets
    /// its header, which is synced, and so is the directory. An existing file
    /// stays as it is; one that does not start with the header is corrupt.
    pub fn open<I: Io>(io: &mut I, name: &[u8], parent_dir: &str) -> (r: Result<WalWriter>)
        ensures
            match r {
                Ok(w) => {
                    &&& w.file_name() == name@
                    &&& if is_new(old(io).files(), name@) {
                        &&& final(io).files() == old(io).files().insert(name@, log::header())
                        &&& final(io).is_synced(name@)
                        &&& forall|o: Seq<u8>|
                            final(io).files().contains_key(o) ==> #[trigger] final(io).is_linked(o)
                    } else {
                        &&& log::header().is_prefix_of(old(io).files()[name@])
                        &&& final(io).files() == old(io).files()
                        &&& old(io).is_synced(name@) ==> final(io).is_synced(name@)
                    }
                },
                Err(Error::Corruption(_)) => {
                    &&& !is_new(old(io).files(), name@)
                    &&& !log::header().is_prefix_of(old(io).files()[name@])
                    &&& final(io).files() == old(io).files()
                },
                Err(e) => {
                    &&& e is Io
                    &&& !old(io).is_reliable()
                    &&& torn_open(old(io).files(), name@, final(io).files())
                },
            },
            final(io).is_reliable() == old(io).is_reliable(),
            forall|o: Seq<u8>|
                o != name@ && old(io).is_synced(o) ==> #[trigger] final(io).is_synced(o),
            forall|o: Seq<u8>|
                o != name@ && old(io).is_linked(o) ==> #[trigger] final(io).is_linked(o),
            !is_new(old(io).files(), name@) && old(io).is_linked(name@) ==> final(io).is_linked(
                name@,
            ),
    {
        let ghost before = io.files();
        proof {
            log::lemma_header_len();
            assert(log::header().take(0) =~= Seq::<u8>::empty());
            assert(log::header().take(12) =~= log::header());
            if before.contains_key(name@) && before[name@].len() == 0 {
                assert(before[name@] =~= Seq::<u8>::empty());
                assert(before.insert(name@, before[name@]) =~= before);
            }
        }
        match io.open_append(name) {
            Ok(_) => {},
            Err(e) => {
                return Err(e);
            },
        }
        let ghost opened = io.files();
        let len = match io.len(name) {
            Ok(n) => n,
            Err(e) => {
                return Err(e);
            },
        };
        let header = file_header();
        if len == 0 {
            proof {
                assert(opened[name@] =~= Seq::<u8>::empty());
            }
            match io.append(name, header.as_slice()) {
                Ok(_) => {},
                Err(e) => {
                    proof {
                        lemma_torn_header(before, name@, opened, io.files());
                    }
                    return Err(e);
                },
            }
            proof {
                assert(opened[name@] + header@ =~= log::header());
                assert(io.files() =~= before.insert(name@, log::header()));
            }
            match io.sync(name) {
                Ok(_) => {},
                Err(e) => {
                    return Err(e);
                },
            }
            match io.sync_dir(parent_dir) {
                Ok(_) => {},
                Err(e) => {
                    return Err(e);
                },
            }
        } else {
            if len < FILE_HEADER_LEN as u64 {
                return Err(corruption("WAL file shorter than header"));
            }
            let start = match io.read_at(name, 0, FILE_HEADER_LEN) {
                Ok(b) => b,
                Err(e) => {
                    return Err(e);
                },
            };
            if !same_bytes(start.as_slice(), header.as_slice()) {
                return Err(corruption("WAL magic or format version mismatch"));
            }
        }
        Ok(WalWriter { name: copy_bytes(name) })
    }

    /// Appends one record; does not sync.
    pub fn append<I: Io>(
        &mut self,
        io: &mut I,
        kind: RecordKind,
        key: &[u8],
        value: &[u8],
    ) -> (r: Result<()>)
        ensures
            final(self).file_name() == old(self).file_name(),
            ({
                let rec = (RecordView { kind, key: key@, value: value@ });
                let name = old(self).file_name();
                match r {
                    Ok(_) => {
                        &&& rec.valid()
                        &&& old(io).files().contains_key(name)
                        &&& final(io).files() == old(io).files().insert(
                            name,
                            old(io).files()[name] + rec.encoding(),
                        )
                    },
                    Err(Error::InvalidArgument(_)) => {
                        &&& !rec.valid()
                        &&& final(io).files() == old(io).files()
                        &&& old(io).is_synced(name) ==> final(io).is_synced(name)
                    },
                    Err(e) => {
                        &&& rec.valid()
                        &&& e is Io
                        &&& old(io).is_reliable() ==> !old(io).files().contains_key(name)
                        &&& io::torn_append(
                            old(io).files(),
                            name,
                            rec.encoding(),
                            final(io).files(),
                        )
                    },
                }
            }),
            final(io).is_reliable() == old(io).is_reliable(),
            forall|o: Seq<u8>|
                o != old(self).file_name() && old(io).is_synced(o) ==>
                    #[trigger] final(io).is_synced(o),
            forall|o: Seq<u8>| old(io).is_linked(o) ==> #[trigger] final(io).is_linked(o),
    {
        let mut scratch: Vec<u8> = Vec::new();
        match encode(kind, key, value, &mut scratch) {
            Ok(_) => {},
            Err(e) => {
                return Err(e);
            },
        }
        let ghost rec = RecordView { kind, key: key@, value: value@ };
        assert(scratch@ =~= rec.encoding());
        io.append(self.name.as_slice(), scratch.as_slice())
    }

    /// Forces all appended records to stable storage.
    pub fn sync<I: Io>(&mut self, io: &mut I) -> (r: Result<()>)
        ensures
            final(self).file_name() == old(self).file_name(),
            final(io).files() == old(io).files(),
            match r {
                Ok(_) => {
                    &&& old(io).files().contains_key(old(self).file_name())
                    &&& final(io).is_synced(old(self).file_name())
                },
                Err(e) => e is Io && (old(io).is_reliable() ==> !old(io).files().contains_key(
                    old(self).file_name(),
                )),
            },
            final(io).is_reliable() == old(io).is_reliable(),
            forall|o: Seq<u8>| old(io).is_synced(o) ==> #[trigger] final(io).is_synced(o),
            forall|o: Seq<u8>| old(io).is_linked(o) ==> #[trigger] final(io).is_linked(o),
    {
        io.sync(self.name.as_slice())
    }

    /// Size of the file in bytes, header included.
    pub fn len<I: Io>(&self, io: &I) -> (r: Result<u64>)
        ensures
            match r {
                Ok(n) => io.files().contains_key(self.file_name()) && n
                    == io.files()[self.file_name()].len(),
                Err(e) => e is Io && (io.is_reliable() ==> !io.files().contains_key(
                    self.file_name(),
                )),
            },
    {
        io.len(self.name.as_slice())
    }

    /// True if the file holds no more than the header.
    pub fn is_empty<I: Io>(&self, io: &I) -> (r: Result<bool>)
        ensures
            match r {
                Ok(b) => io.files().contains_key(self.file_name()) && b
                    == (io.files()[self.file_name()].len() == FILE_HEADER_LEN),
                Err(e) => e is Io && (io.is_reliable() ==> !io.files().contains_key(
                    self.file_name(),
                )),
            },
    {
        match self.len(io) {
            Ok(n) => Ok(n == FILE_HEADER_LEN as u64),
            Err(e) => Err(e),
        }
    }
}

/// A torn append of the header to a new file leaves a part of the header.
proof fn lemma_torn_header(
    before: io::Files,
    name: Seq<u8>,
    opened: io::Files,
    after: io::Files,
)
    requires
        is_new(before, name),
        opened == before || opened == before.insert(name, Seq::empty()),
        opened.contains_key(name),
        opened[name].len() == 0,
        io::torn_append(opened, name, log::header(), after),
    ensures
        torn_open(before, name, after),
{
    log::lemma_header_len();
    assert(opened[name] =~= Seq::<u8>::empty());
    if after == opened {
        assert(log::header().take(0) =~= Seq::<u8>::empty());
        if opened != before {
            assert(after =~= before.insert(name, log::header().take(0)));
        }
    } else {
        let n = choose|n: int|
            0 <= n <= log::header().len() && opened.contains_key(name) && after == opened.insert(
                name,
                opened[name] + #[trigger] log::header().take(n),
            );
        assert(opened[name] + log::header().take(n) =~= log::header().take(n));
        assert(after =~= before.insert(name, log::header().take(n)));
    }
}

} // verus!
