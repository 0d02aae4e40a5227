//! The log-structured merge tree: log, memtable and tables.
//!
//! Every write goes to the log, which is synced, and then to the memtable. A
//! flush writes the memtable to a new table at the top level and starts a
//! fresh log. A compaction merges all tables into one at the bottom level and
//! drops the tombstones, below which there is nothing left to mask.
//!
//! - [`write`]: writes and flushes, with what they set off.
//! - [`mend`]: mending what a failed operation left.
//! - [`compact`]: compaction.
//! - [`recover`]: recovery from the files of a directory.
//! - [`index`] and [`snapshots`]: recovery of the vector index.
//! - [`laws`] and [`index_laws`]: what the files stand for at every point.

use crate::assoc;
use crate::codec::copy_bytes;
use crate::engine::levels::{LevelState, SsTableEntry};
use crate::engine::names;
use crate::engine::names::{sst_filename, tmp_filename, wal_filename};
use crate::engine::options::Options;
use crate::engine::state;
use crate::engine::state::TableRef;
use crate::error::{invalid_argument, Error, Result};
use crate::io;
use crate::io::Io;
use crate::memtable;
use crate::memtable::{Entry, EntryView, Lookup, Memtable};
use crate::order;
use crate::sstable::layout;
use crate::sstable::layout::{Pairs, Scan};
use crate::sstable::reader::SsTableLookup;
use crate::sstable::writer;
use crate::sstable::writer::SsTableWriter;
use crate::wal::log;
use crate::wal::record::{RecordKind, RecordView};
use crate::wal::writer as wal_writer;
use crate::wal::WalWriter;
use vstd::prelude::*;

pub mod compact;
pub mod index;
pub mod index_laws;
pub mod laws;
pub mod mend;
pub mod recover;
pub mod snapshots;
pub mod write;

verus! {

/// Log, memtable and tables.
#[derive(Debug)]
pub struct EngineInner {
    writer: WalWriter,
    memtable: Memtable,
    levels: LevelState,
    /// The id of the next table.
    next_sst_id: u64,
    closed: bool,
    /// The log may not hold what the memtable stems from: it is written anew
    /// before the next record.
    stale_log: bool,
    /// A compaction stopped, and may have left its table: it is removed before
    /// the next record.
    leftover: bool,
}

impl EngineInner {
    /// The entries of the memtable.
    pub closed spec fn mem(&self) -> Pairs {
        self.memtable.pairs()
    }

    /// The size estimate of the memtable.
    pub closed spec fn mem_size(&self) -> int {
        self.memtable.size()
    }

    /// The tables.
    pub closed spec fn levels(&self) -> LevelState {
        self.levels
    }

    /// The id of the next table.
    pub closed spec fn next_id(&self) -> u64 {
        self.next_sst_id
    }

    /// The engine was closed.
    pub closed spec fn is_closed(&self) -> bool {
        self.closed
    }

    /// The log is to be written anew before the next record.
    pub closed spec fn needs_log(&self) -> bool {
        self.stale_log
    }

    /// The table of a compaction that stopped is to be removed before the next
    /// record.
    pub closed spec fn needs_sweep(&self) -> bool {
        self.leftover
    }

    /// The file of the log.
    pub closed spec fn log_name(&self) -> Seq<u8> {
        self.writer.file_name()
    }

    /// All tables, newest first.
    #[verifier::inline]
    pub open spec fn refs(&self) -> Seq<TableRef> {
        self.levels().refs()
    }

    /// Table `i` has a name of its level and an id that was given out.
    pub open spec fn table_named(&self, i: int) -> bool {
        let t = self.refs()[i];
        let level: u8 = if i < self.levels().refs0().len() {
            0
        } else {
            1
        };
        &&& names::extension(t.1) == Some(names::sst_ext())
        &&& names::parse_sst(t.1) == Some((level, t.0))
        &&& t.0 < self.next_id()
    }

    /// The memtable can be written to a table, and the tables are open.
    pub open spec fn wf(&self, files: io::Files) -> bool {
        &&& assoc::sorted_pairs(self.mem())
        &&& state::all_storable(self.mem())
        &&& self.log_name() == names::wal_name()
        &&& self.levels().open_in(files)
        &&& forall|i: int| 0 <= i < self.refs().len() ==> #[trigger] self.table_named(i)
    }

    /// What `k` holds.
    pub open spec fn entry(&self, files: io::Files, k: Seq<u8>) -> Option<EntryView> {
        state::entry_in(self.mem(), self.levels().tables(files), k)
    }

    /// The value or embedding that `k` holds.
    pub open spec fn value(&self, files: io::Files, k: Seq<u8>) -> Option<EntryView> {
        state::unmasked(self.entry(files, k))
    }

    /// No table has damage.
    pub open spec fn is_sound(&self, files: io::Files) -> bool {
        self.levels().is_sound(files)
    }

    /// The tables are numbered from newest to oldest.
    pub open spec fn is_ordered(&self) -> bool {
        &&& self.levels().refs1().len() <= 1
        &&& forall|i: int, j: int|
            0 <= i < j < self.refs().len() ==> (#[trigger] self.refs()[i]).0 > (
            #[trigger] self.refs()[j]).0
    }

    /// Nothing but the files changed.
    pub open spec fn same(&self, other: &EngineInner) -> bool {
        &&& self.mem() == other.mem()
        &&& self.mem_size() == other.mem_size()
        &&& self.levels() == other.levels()
        &&& self.next_id() == other.next_id()
        &&& self.is_closed() == other.is_closed()
        &&& self.log_name() == other.log_name()
    }

    /// What is the same is as good.
    pub proof fn lemma_same(&self, other: &EngineInner, files: io::Files)
        requires
            other.wf(files),
            self.same(other),
        ensures
            self.wf(files),
            self.is_ordered() == other.is_ordered(),
            self.is_sound(files) == other.is_sound(files),
            forall|k: Seq<u8>| #[trigger] self.entry(files, k) == other.entry(files, k),
    {
        assert forall|i: int| 0 <= i < self.refs().len() implies #[trigger] self.table_named(i) by {
            assert(other.table_named(i));
        }
    }

    /// A file of a table ends before one of its blocks does.
    pub open spec fn has_lost(&self, files: io::Files) -> bool {
        exists|i: int|
            0 <= i < self.refs().len() && state::has_lost(files[(#[trigger] self.refs()[i]).1])
    }

    /// The tables with an id not below `from` have a filter with `bits` bits for
    /// each key: as many as a table at the top level has, and as many as were
    /// expected for one at the bottom level.
    pub open spec fn new_tables_filtered(&self, files: io::Files, from: u64, bits: u32) -> bool {
        let r0 = self.levels().refs0();
        let r1 = self.levels().refs1();
        &&& forall|i: int|
            0 <= i < r0.len() && (#[trigger] r0[i]).0 >= from ==> state::is_filtered(
                files[r0[i].1],
                state::pairs_in(files[r0[i].1]).len() as int,
                bits as int,
            )
        &&& forall|i: int|
            0 <= i < r1.len() && (#[trigger] r1[i]).0 >= from ==> exists|keys: int| #[trigger]
                state::is_filtered(files[r1[i].1], keys, bits as int)
    }

    /// The files of the tables stay as they are.
    pub open spec fn tables_kept(&self, before: io::Files, after: io::Files) -> bool {
        forall|i: int|
            0 <= i < self.refs().len() ==> after.contains_key((#[trigger] self.refs()[i]).1)
                && after[self.refs()[i].1] == before[self.refs()[i].1]
    }

    /// While the files of the tables stay as they are, nothing is lost.
    pub proof fn lemma_kept(&self, before: io::Files, after: io::Files)
        requires
            self.wf(before),
            self.tables_kept(before, after),
        ensures
            self.wf(after),
            self.levels().tables(after) == self.levels().tables(before),
            forall|k: Seq<u8>| #[trigger] self.entry(after, k) == self.entry(before, k),
            self.is_sound(before) ==> self.is_sound(after),
    {
        self.levels().lemma_open_in(before, after);
    }

    /// A change of one file that is no table keeps the tables.
    pub proof fn lemma_other_file(&self, before: io::Files, n: Seq<u8>, after: io::Files)
        requires
            self.wf(before),
            writer::only_changes(before, n, after),
            names::extension(n) != Some(names::sst_ext()),
        ensures
            self.tables_kept(before, after),
    {
        self.levels().lemma_files(before);
        assert forall|i: int| 0 <= i < self.refs().len() implies after.contains_key(
            (#[trigger] self.refs()[i]).1,
        ) && after[self.refs()[i].1] == before[self.refs()[i].1] by {
            assert(self.table_named(i));
            assert(after.contains_key(self.refs()[i].1) == before.contains_key(self.refs()[i].1));
        }
    }

    /// Appends a record to the log, syncs the log, and then sets the entry in
    /// the memtable. If the log fails, it is to be written anew.
    pub(crate) fn append<I: Io>(
        &mut self,
        io: &mut I,
        kind: RecordKind,
        key: &[u8],
        value: &[u8],
    ) -> (r: Result<()>)
        requires
            old(self).wf(old(io).files()),
        ensures
            final(self).wf(final(io).files()),
            final(self).levels() == old(self).levels(),
            final(self).next_id() == old(self).next_id(),
            final(self).is_closed() == old(self).is_closed(),
            writer::only_changes(old(io).files(), names::wal_name(), final(io).files()),
            old(self).tables_kept(old(io).files(), final(io).files()),
            ({
                let rec = (RecordView { kind, key: key@, value: value@ });
                match r {
                    Ok(_) => {
                        &&& rec.valid()
                        &&& forall|k: Seq<u8>| #[trigger]
                            assoc::find(final(self).mem(), k) == (if k == key@ {
                                Some(state::record_entry(rec))
                            } else {
                                assoc::find(old(self).mem(), k)
                            })
                        &&& final(self).mem().len() == old(self).mem().len() + (if assoc::has_key(
                            old(self).mem(),
                            key@,
                        ) {
                            0int
                        } else {
                            1int
                        })
                        &&& final(self).mem_size() == memtable::size_after(
                            old(self).mem_size(),
                            assoc::find(old(self).mem(), key@),
                            key@,
                            state::record_entry(rec),
                        )
                        &&& old(io).files().contains_key(names::wal_name())
                        &&& final(io).files() == old(io).files().insert(
                            names::wal_name(),
                            old(io).files()[names::wal_name()] + rec.encoding(),
                        )
                        &&& final(io).is_synced(names::wal_name())
                        &&& final(self).needs_log() == old(self).needs_log()
                    },
                    Err(Error::InvalidArgument(_)) => {
                        &&& !rec.valid()
                        &&& final(self).same(old(self))
                        &&& final(self).needs_log() == old(self).needs_log()
                        &&& final(io).files() == old(io).files()
                    },
                    Err(e) => {
                        &&& e is Io
                        &&& old(io).is_reliable() ==> !old(io).files().contains_key(
                            names::wal_name(),
                        )
                        &&& rec.valid()
                        &&& final(self).same(old(self))
                        &&& final(self).needs_log()
                        &&& io::torn_append(
                            old(io).files(),
                            names::wal_name(),
                            rec.encoding(),
                            final(io).files(),
                        )
                    },
                }
            }),
            final(self).needs_sweep() == old(self).needs_sweep(),
            final(io).is_reliable() == old(io).is_reliable(),
            forall|o: Seq<u8>|
                o != names::wal_name() && old(io).is_synced(o) ==> #[trigger] final(io).is_synced(o),
            forall|o: Seq<u8>| old(io).is_linked(o) ==> #[trigger] final(io).is_linked(o),
    {
        let ghost files = io.files();
        let ghost rec = RecordView { kind, key: key@, value: value@ };
        let ghost wal = names::wal_name();
        proof {
            names::lemma_names_differ(0, 0, wal);
            assert(rec.encoding().take(rec.encoding().len() as int) =~= rec.encoding());
        }
        match self.writer.append(io, kind, key, value) {
            Ok(_) => {},
            Err(e) => {
                match e {
                    Error::Io(_) => {
                        self.stale_log = true;
                    },
                    _ => {},
                }
                proof {
                    lemma_torn_is_local(files, wal, rec.encoding(), io.files());
                    old(self).lemma_other_file(files, wal, io.files());
                    old(self).lemma_kept(files, io.files());
                    self.lemma_same(old(self), io.files());
                }
                return Err(e);
            },
        }
        proof {
            lemma_torn_is_local(files, wal, rec.encoding(), io.files());
            old(self).lemma_other_file(files, wal, io.files());
            old(self).lemma_kept(files, io.files());
        }
        match self.writer.sync(io) {
            Ok(_) => {},
            Err(e) => {
                self.stale_log = true;
                proof {
                    self.lemma_same(old(self), io.files());
                }
                return Err(e);
            },
        }
        let entry = match kind {
            RecordKind::Put => Entry::Put(copy_bytes(value)),
            RecordKind::Vector => Entry::Vector(copy_bytes(value)),
            RecordKind::Delete => Entry::Tombstone,
        };
        assert(entry@ == state::record_entry(rec));
        self.memtable.set(copy_bytes(key), entry);
        proof {
            assert forall|k: Seq<u8>| #[trigger] assoc::find(self.mem(), k) == (if k == key@ {
                Some(state::record_entry(rec))
            } else {
                assoc::find(old(self).mem(), k)
            }) by {
                if k != key@ {
                    assert(self.memtable.entry(k) == old(self).memtable.entry(k));
                }
            }
            lemma_storable_set(old(self).mem(), self.mem(), rec);
            assert forall|i: int| 0 <= i < self.refs().len() implies #[trigger] self.table_named(
                i,
            ) by {
                assert(old(self).table_named(i));
            }
        }
        Ok(())
    }

    /// Writes the memtable to a new table at the top level and starts a fresh
    /// log. An empty memtable needs no table: the log is synced.
    pub(crate) fn flush_inner<I: Io>(&mut self, io: &mut I, options: &Options) -> (r: Result<()>)
        requires
            old(self).wf(old(io).files()),
        ensures
            final(self).wf(final(io).files()),
            final(self).is_closed() == old(self).is_closed(),
            old(self).is_ordered() ==> final(self).is_ordered(),
            old(self).is_sound(old(io).files()) ==> final(self).is_sound(final(io).files()),
            forall|k: Seq<u8>| #[trigger]
                final(self).entry(final(io).files(), k) == old(self).entry(old(io).files(), k),
            match r {
                Ok(_) => if old(self).mem().len() == 0 {
                    &&& final(self).same(old(self))
                    &&& final(io).files() == old(io).files()
                    &&& final(io).is_synced(names::wal_name())
                } else {
                    &&& old(self).flushes_to(old(io).files(), final(self), final(io).files())
                    &&& final(io).is_synced(names::wal_name())
                    &&& final(io).is_synced(names::sst_name(0, old(self).next_id()))
                    &&& forall|o: Seq<u8>|
                        final(io).files().contains_key(o) ==> #[trigger] final(io).is_linked(o)
                },
                Err(e) => {
                    &&& !(e is Closed)
                    &&& old(io).is_reliable() ==> !(e is Io) || !old(io).files().contains_key(
                        names::wal_name(),
                    )
                    &&& !(e is Io) ==> old(self).mem().len() > 0 && old(self).flush_is_blocked(
                        old(io).files(),
                        options.bloom_bits_per_key,
                    )
                    &&& old(self).flush_stops(old(io).files(), final(self), final(io).files())
                },
            },
            final(io).is_reliable() == old(io).is_reliable(),
            r is Ok && old(io).is_linked(names::wal_name()) ==> final(io).is_linked(
                names::wal_name(),
            ),
            final(self).levels() != old(self).levels() ==> {
                let sst = names::sst_name(0, old(self).next_id());
                final(io).is_synced(sst) && final(io).is_linked(sst)
            },
            final(self).levels() != old(self).levels() ==> state::is_filtered(
                final(io).files()[names::sst_name(0, old(self).next_id())],
                old(self).mem().len() as int,
                options.bloom_bits_per_key as int,
            ),
            final(self).levels() == old(self).levels() && old(io).is_synced(names::wal_name())
                ==> final(io).is_synced(names::wal_name()),
            final(self).levels() == old(self).levels() ==> final(self).needs_log() == old(
                self,
            ).needs_log(),
            r is Err ==> (old(self).needs_log() ==> final(self).needs_log()),
            final(self).needs_sweep() == old(self).needs_sweep(),
            forall|o: Seq<u8>|
                !old(self).flush_writes(o) && old(io).is_synced(o) ==>
                    #[trigger] final(io).is_synced(o),
            forall|o: Seq<u8>|
                !old(self).flush_writes(o) && old(io).is_linked(o) ==>
                    #[trigger] final(io).is_linked(o),
    {
        let ghost files = io.files();
        let ghost before = *self;
        if self.memtable.is_empty() {
            let r = self.writer.sync(io);
            proof {
                self.lemma_same(&before, files);
            }
            return r;
        }
        let id = self.next_sst_id;
        if id == u64::MAX {
            return Err(invalid_argument("SSTable ids are used up"));
        }
        let filename = sst_filename(0, id);
        let tmp = tmp_filename(filename.as_slice());
        let ghost sst = names::sst_name(0, id);
        let ghost wal = names::wal_name();
        let ghost mem = before.mem();
        proof {
            names::lemma_sst_name(0, id);
            names::lemma_tmp_name(sst);
            names::lemma_names_differ(0, id, sst);
        }
        // Write to a temporary file, then rename: the table appears whole or
        // not at all.
        match write_memtable(io, tmp.as_slice(), &self.memtable, options.bloom_bits_per_key) {
            Ok(_) => {},
            Err(e) => {
                proof {
                    lemma_others_agree(files, tmp@, io.files());
                    before.lemma_other_file(files, tmp@, io.files());
                    before.lemma_kept(files, io.files());
                }
                return Err(e);
            },
        }
        let ghost written = io.files();
        proof {
            lemma_others_agree(files, tmp@, written);
            before.lemma_other_file(files, tmp@, written);
            before.lemma_kept(files, written);
        }
        match io.rename(tmp.as_slice(), filename.as_slice()) {
            Ok(_) => {},
            Err(e) => {
                return Err(e);
            },
        }
        let ghost renamed = io.files();
        proof {
            assert forall|o: Seq<u8>| o != tmp@ && o != sst implies #[trigger] agree(
                files,
                renamed,
                o,
            ) by {
                assert(agree(files, written, o));
            }
            before.lemma_new_table(written, tmp@, sst, renamed);
            before.lemma_kept(written, renamed);
        }
        match io.sync_dir(options.path.as_str()) {
            Ok(_) => {},
            Err(e) => {
                return Err(e);
            },
        }
        // Register the table.
        let table = match SsTableEntry::open(io, id, filename.as_slice()) {
            Ok(t) => t,
            Err(e) => {
                return Err(e);
            },
        };
        self.levels.push_front(table);
        self.next_sst_id = id + 1;
        let ghost registered = *self;
        proof {
            lemma_registered(before, registered, renamed);
        }
        // Rotate the log.
        let wal_file = wal_filename();
        match io.remove_file(wal_file.as_slice()) {
            Ok(_) => {},
            Err(e) => {
                return Err(e);
            },
        }
        let ghost removed = io.files();
        proof {
            assert forall|o: Seq<u8>| o != tmp@ && o != sst && o != wal implies #[trigger] agree(
                files,
                removed,
                o,
            ) by {
                assert(agree(files, renamed, o));
            }
            registered.lemma_other_file(renamed, wal, removed);
            registered.lemma_kept(renamed, removed);
        }
        match WalWriter::open(io, wal_file.as_slice(), options.path.as_str()) {
            Ok(w) => {
                self.writer = w;
                self.stale_log = false;
            },
            Err(e) => {
                self.stale_log = true;
                proof {
                    lemma_torn_log(removed, io.files());
                    lemma_others_agree(removed, wal, io.files());
                    assert forall|o: Seq<u8>|
                        o != tmp@ && o != sst && o != wal implies #[trigger] agree(
                        files,
                        io.files(),
                        o,
                    ) by {
                        assert(agree(files, removed, o));
                        assert(agree(removed, io.files(), o));
                    }
                    registered.lemma_other_file(removed, wal, io.files());
                    registered.lemma_kept(removed, io.files());
                    self.lemma_same(&registered, io.files());
                }
                return Err(e);
            },
        }
        self.memtable = Memtable::new();
        proof {
            assert forall|o: Seq<u8>| o != tmp@ && o != sst && o != wal implies #[trigger] agree(
                files,
                io.files(),
                o,
            ) by {
                assert(agree(files, removed, o));
            }
            registered.lemma_other_file(removed, wal, io.files());
            registered.lemma_kept(removed, io.files());
            lemma_flushed(registered, *self, io.files());
        }
        Ok(())
    }

    /// Flushes the memtable if it has reached its size.
    pub(crate) fn maybe_auto_flush<I: Io>(&mut self, io: &mut I, options: &Options) -> (r: Result<
        (),
    >)
        requires
            old(self).wf(old(io).files()),
        ensures
            final(self).wf(final(io).files()),
            final(self).is_closed() == old(self).is_closed(),
            old(self).is_ordered() ==> final(self).is_ordered(),
            old(self).is_sound(old(io).files()) ==> final(self).is_sound(final(io).files()),
            forall|k: Seq<u8>| #[trigger]
                final(self).entry(final(io).files(), k) == old(self).entry(old(io).files(), k),
            match r {
                Ok(_) => if old(self).mem_size() < options.memtable_max_size_bytes || old(
                    self,
                ).mem().len() == 0 {
                    &&& final(self).same(old(self))
                    &&& final(io).files() == old(io).files()
                } else {
                    old(self).flushes_to(old(io).files(), final(self), final(io).files())
                },
                Err(e) => {
                    &&& !(e is Closed)
                    &&& old(io).is_reliable() ==> !(e is Io) || !old(io).files().contains_key(
                        names::wal_name(),
                    )
                    &&& !(e is Io) ==> old(self).mem().len() > 0 && old(self).flush_is_blocked(
                        old(io).files(),
                        options.bloom_bits_per_key,
                    )
                    &&& old(self).mem_size() >= options.memtable_max_size_bytes
                    &&& old(self).flush_stops(old(io).files(), final(self), final(io).files())
                },
            },
            final(io).is_reliable() == old(io).is_reliable(),
            r is Ok && old(io).is_synced(names::wal_name()) ==> final(io).is_synced(
                names::wal_name(),
            ),
            r is Ok && old(io).is_linked(names::wal_name()) ==> final(io).is_linked(
                names::wal_name(),
            ),
            final(self).levels() != old(self).levels() ==> {
                let sst = names::sst_name(0, old(self).next_id());
                final(io).is_synced(sst) && final(io).is_linked(sst)
            },
            final(self).levels() != old(self).levels() ==> state::is_filtered(
                final(io).files()[names::sst_name(0, old(self).next_id())],
                old(self).mem().len() as int,
                options.bloom_bits_per_key as int,
            ),
            final(self).levels() == old(self).levels() && old(io).is_synced(names::wal_name())
                ==> final(io).is_synced(names::wal_name()),
            final(self).levels() == old(self).levels() ==> final(self).needs_log() == old(
                self,
            ).needs_log(),
            r is Err ==> (old(self).needs_log() ==> final(self).needs_log()),
            final(self).needs_sweep() == old(self).needs_sweep(),
            forall|o: Seq<u8>|
                !old(self).flush_writes(o) && old(io).is_synced(o) ==>
                    #[trigger] final(io).is_synced(o),
            forall|o: Seq<u8>|
                !old(self).flush_writes(o) && old(io).is_linked(o) ==>
                    #[trigger] final(io).is_linked(o),
    {
        if self.memtable.approximate_size() >= options.memtable_max_size_bytes {
            return self.flush_inner(io, options);
        }
        Ok(())
    }

    /// What keeps the memtable from being flushed, whatever the storage does:
    /// the ids are used up, a temporary file is in the way, or the table would
    /// not fit in memory.
    pub open spec fn flush_is_blocked(&self, files: io::Files, bits: u32) -> bool {
        let tmp = names::tmp_name(names::sst_name(0, self.next_id()));
        ||| self.next_id() == u64::MAX
        ||| files.contains_key(tmp) && files[tmp].len() > 0
        ||| writer::too_long(self.mem(), self.mem().len() as int, bits as int)
    }

    /// The files that a flush writes.
    pub open spec fn flush_writes(&self, n: Seq<u8>) -> bool {
        let sst = names::sst_name(0, self.next_id());
        n == names::wal_name() || n == sst || n == names::tmp_name(sst)
    }

    /// Files that a flush does not write stay as they are.
    pub open spec fn flush_keeps(&self, before: io::Files, after: io::Files) -> bool {
        forall|n: Seq<u8>| !self.flush_writes(n) ==> #[trigger] agree(before, after, n)
    }

    /// The table of a flush is in `files`: it holds what the memtable holds.
    pub open spec fn flush_is_in(&self, files: io::Files) -> bool {
        let sst = names::sst_name(0, self.next_id());
        &&& files.contains_key(sst)
        &&& state::is_sound(files[sst])
        &&& state::pairs_in(files[sst]) == self.mem()
    }

    /// `after` has the table of a flush in front.
    pub open spec fn flush_registered(&self, after: &EngineInner) -> bool {
        let id = self.next_id();
        &&& id < u64::MAX
        &&& after.next_id() == id + 1
        &&& after.levels().refs0() == seq![(id, names::sst_name(0, id))] + self.levels().refs0()
        &&& after.levels().refs1() == self.levels().refs1()
    }

    /// A flush of `self` gives `after`: the memtable is empty, its entries are
    /// in a new table, and the log is empty.
    pub open spec fn flushes_to(
        &self,
        files: io::Files,
        after: &EngineInner,
        files_after: io::Files,
    ) -> bool {
        &&& self.flush_keeps(files, files_after)
        &&& self.flush_is_in(files_after)
        &&& self.flush_registered(after)
        &&& after.mem().len() == 0
        &&& after.mem_size() == 0
        &&& files_after.contains_key(names::wal_name())
        &&& files_after[names::wal_name()] == log::header()
        &&& !after.needs_log()
        &&& !files_after.contains_key(names::tmp_name(names::sst_name(0, self.next_id())))
    }

    /// A flush of `self` stopped at `after`. The memtable is as it was. The
    /// table may have appeared; if it was registered, the log may be gone, or
    /// a part of its header.
    pub open spec fn flush_stops(
        &self,
        files: io::Files,
        after: &EngineInner,
        files_after: io::Files,
    ) -> bool {
        let sst = names::sst_name(0, self.next_id());
        let wal = names::wal_name();
        &&& self.flush_keeps(files, files_after)
        &&& after.mem() == self.mem()
        &&& after.mem_size() == self.mem_size()
        &&& if after.same(self) {
            &&& agree(files, files_after, sst) || self.flush_is_in(files_after)
            &&& agree(files, files_after, wal)
        } else {
            &&& self.flush_registered(after)
            &&& self.flush_is_in(files_after)
            &&& agree(files, files_after, wal) || has_no_log(files_after) && after.needs_log()
        }
    }

    /// A rename to a table with a new id keeps the tables.
    pub(crate) proof fn lemma_new_table(
        &self,
        before: io::Files,
        tmp: Seq<u8>,
        sst: Seq<u8>,
        after: io::Files,
    )
        requires
            self.wf(before),
            before.contains_key(tmp),
            after == before.remove(tmp).insert(sst, before[tmp]),
            names::extension(tmp) == Some(names::tmp_ext()),
            names::parse_sst(sst) matches Some(p) && p.1 == self.next_id(),
        ensures
            self.tables_kept(before, after),
    {
        self.levels().lemma_files(before);
        assert(names::tmp_ext()[0] != names::sst_ext()[0]);
        assert forall|i: int| 0 <= i < self.refs().len() implies after.contains_key(
            (#[trigger] self.refs()[i]).1,
        ) && after[self.refs()[i].1] == before[self.refs()[i].1] by {
            assert(self.table_named(i));
        }
    }

    /// True if the engine was closed.
    pub(crate) fn closed(&self) -> (r: bool)
        ensures
            r == self.is_closed(),
    {
        self.closed
    }

    /// The id of the next table.
    pub(crate) fn next_table_id(&self) -> (id: u64)
        ensures
            id == self.next_id(),
    {
        self.next_sst_id
    }

    /// Number of tables at each level.
    pub(crate) fn level_counts(&self) -> (n: (usize, usize))
        ensures
            n.0 == self.levels().refs0().len(),
            n.1 == self.levels().refs1().len(),
    {
        (self.levels.len0(), self.levels.len1())
    }

    /// Number of entries of the memtable.
    pub(crate) fn memtable_len(&self) -> (n: usize)
        ensures
            n == self.mem().len(),
    {
        self.memtable.len()
    }

    /// Syncs the log and closes the engine. Idempotent.
    pub(crate) fn close<I: Io>(&mut self, io: &mut I) -> (r: Result<()>)
        requires
            old(self).wf(old(io).files()),
        ensures
            final(self).wf(final(io).files()),
            final(io).files() == old(io).files(),
            final(self).mem() == old(self).mem(),
            final(self).mem_size() == old(self).mem_size(),
            final(self).levels() == old(self).levels(),
            final(self).next_id() == old(self).next_id(),
            match r {
                Ok(_) => final(self).is_closed() && (old(self).is_closed() || final(io).is_synced(
                    names::wal_name(),
                )),
                Err(e) => {
                    &&& e is Io
                    &&& !old(self).is_closed()
                    &&& !final(self).is_closed()
                    &&& old(io).is_reliable() ==> !old(io).files().contains_key(names::wal_name())
                },
            },
            final(io).is_reliable() == old(io).is_reliable(),
    {
        if self.closed {
            return Ok(());
        }
        let ghost before = *self;
        let r = self.writer.sync(io);
        proof {
            self.lemma_same(&before, io.files());
        }
        match r {
            Ok(_) => {},
            Err(e) => {
                return Err(e);
            },
        }
        self.closed = true;
        proof {
            assert forall|i: int| 0 <= i < self.refs().len() implies #[trigger] self.table_named(
                i,
            ) by {
                assert(before.table_named(i));
            }
        }
        Ok(())
    }

    /// Looks up `key`: memtable first, then the tables, newest first.
    pub(crate) fn get<I: Io>(&self, io: &I, key: &[u8]) -> (r: Result<Option<Vec<u8>>>)
        requires
            self.wf(io.files()),
        ensures
            self.answers(io.files(), key@, r),
            io.is_reliable() ==> (r matches Err(Error::Io(_)) ==> exists|i: int| #[trigger]
                self.levels().decides(io.files(), key@, i, Scan::Lost)),
            io.is_reliable() && self.is_sound(io.files()) ==> r is Ok,
    {
        match self.memtable.get(key) {
            Lookup::Found(v) => {
                return Ok(Some(copy_bytes(v)));
            },
            Lookup::Deleted => {
                return Ok(None);
            },
            Lookup::Missing => {},
        }
        match self.levels.get(io, key) {
            Ok(SsTableLookup::Found(v)) => Ok(Some(v)),
            Ok(SsTableLookup::Deleted) => Ok(None),
            Ok(SsTableLookup::Missing) => Ok(None),
            Err(e) => Err(e),
        }
    }

    /// `r` answers a lookup of `k`: the memtable decides, else the first table
    /// in which a lookup gives something; damage in it is reported. If no
    /// table has damage, `r` is the value that `k` holds, unless reading fails.
    pub open spec fn answers(
        &self,
        files: io::Files,
        k: Seq<u8>,
        r: Result<Option<Vec<u8>>>,
    ) -> bool {
        &&& match assoc::find(self.mem(), k) {
            Some(e) => r matches Ok(v) && gives(v, e.visible()),
            None => match r {
                Ok(v) => (v is None && forall|j: int|
                    0 <= j < self.refs().len() ==> #[trigger] self.levels().may_give(
                        files,
                        k,
                        j,
                        Scan::Missing,
                    )) || exists|i: int, e: EntryView| #[trigger]
                    self.levels().decides(files, k, i, Scan::Hit(e)) && gives(v, e.visible()),
                Err(Error::Corruption(_)) => exists|i: int| #[trigger]
                    self.levels().decides(files, k, i, Scan::Damaged),
                Err(e) => e is Io,
            },
        }
        &&& self.is_sound(files) ==> match r {
            Ok(v) => gives(v, state::shown(self.entry(files, k))),
            Err(e) => e is Io,
        }
    }
}

/// Registering the table of a flush loses nothing.
proof fn lemma_registered(before: EngineInner, after: EngineInner, files: io::Files)
    requires
        before.wf(files),
        before.flush_is_in(files),
        before.flush_registered(&after),
        after.mem() == before.mem(),
        after.log_name() == before.log_name(),
        after.levels().open_in(files),
    ensures
        after.wf(files),
        before.is_ordered() ==> after.is_ordered(),
        before.is_sound(files) ==> after.is_sound(files),
        after.levels().tables(files) == seq![before.mem()] + before.levels().tables(files),
        forall|k: Seq<u8>| #[trigger] after.entry(files, k) == before.entry(files, k),
{
    let id = before.next_id();
    let sst = names::sst_name(0, id);
    let b = before.refs();
    let a = after.refs();
    names::lemma_sst_name(0, id);
    assert(a =~= seq![(id, sst)] + b);
    assert forall|i: int| 0 <= i < a.len() implies #[trigger] after.table_named(i) by {
        if i > 0 {
            assert(before.table_named(i - 1));
            assert(a[i] == b[i - 1]);
        }
    }
    if before.is_ordered() {
        assert forall|i: int, j: int| 0 <= i < j < a.len() implies (#[trigger] a[i]).0 > (
        #[trigger] a[j]).0 by {
            assert(a[j] == b[j - 1]);
            if i == 0 {
                assert(before.table_named(j - 1));
            } else {
                assert(a[i] == b[i - 1]);
            }
        }
    }
    if before.is_sound(files) {
        assert forall|i: int| 0 <= i < a.len() implies state::is_sound(
            files[(#[trigger] a[i]).1],
        ) by {
            if i > 0 {
                assert(a[i] == b[i - 1]);
            }
        }
    }
    let ta = after.levels().tables(files);
    let tb = before.levels().tables(files);
    assert(ta =~= seq![before.mem()] + tb) by {
        assert forall|i: int| 0 <= i < ta.len() implies ta[i] == (seq![before.mem()] + tb)[i] by {
            if i > 0 {
                assert(a[i] == b[i - 1]);
            }
        }
    }
    assert forall|k: Seq<u8>| #[trigger] after.entry(files, k) == before.entry(files, k) by {
        state::lemma_newest_front(before.mem(), tb, k);
    }
}

/// Emptying the memtable behind its table loses nothing.
proof fn lemma_flushed(
    registered: EngineInner,
    after: EngineInner,
    files: io::Files,
)
    requires
        registered.wf(files),
        registered.levels().tables(files).len() > 0,
        registered.levels().tables(files)[0] == registered.mem(),
        after.mem().len() == 0,
        after.levels() == registered.levels(),
        after.next_id() == registered.next_id(),
        after.log_name() == names::wal_name(),
    ensures
        after.wf(files),
        after.is_ordered() == registered.is_ordered(),
        after.is_sound(files) == registered.is_sound(files),
        forall|k: Seq<u8>| #[trigger] after.entry(files, k) == registered.entry(files, k),
{
    assert forall|i: int| 0 <= i < after.refs().len() implies #[trigger] after.table_named(i) by {
        assert(registered.table_named(i));
    }
    let t = registered.levels().tables(files);
    assert forall|k: Seq<u8>| #[trigger] after.entry(files, k) == registered.entry(files, k) by {
        assert(t =~= seq![t[0]] + t.skip(1));
        state::lemma_newest_front(t[0], t.skip(1), k);
        assert(!assoc::has_key(after.mem(), k));
    }
}

/// `n` is the same in `a` and `b`.
pub open spec fn agree(a: io::Files, b: io::Files, n: Seq<u8>) -> bool {
    a.contains_key(n) == b.contains_key(n) && (a.contains_key(n) ==> a[n] == b[n])
}

/// The log is not there, or has no more than a part of its header.
pub open spec fn has_no_log(files: io::Files) -> bool {
    files.contains_key(names::wal_name()) ==> files[names::wal_name()].is_prefix_of(log::header())
}

/// A log that could not be started has no more than a part of its header.
proof fn lemma_torn_log(before: io::Files, after: io::Files)
    requires
        !before.contains_key(names::wal_name()),
        wal_writer::torn_open(before, names::wal_name(), after),
    ensures
        has_no_log(after),
        writer::only_changes(before, names::wal_name(), after),
{
    if after != before {
        let n = choose|n: int|
            0 <= n <= log::header().len() && after == before.insert(
                names::wal_name(),
                #[trigger] log::header().take(n),
            );
        assert(log::header().take(n).is_prefix_of(log::header()));
    }
}

/// Writes a memtable to the file `name`.
fn write_memtable<I: Io>(io: &mut I, name: &[u8], memtable: &Memtable, bits: u32) -> (r: Result<()>)
    requires
        memtable.wf(),
        state::all_storable(memtable.pairs()),
    ensures
        writer::only_changes(old(io).files(), name@, final(io).files()),
        final(io).is_reliable() == old(io).is_reliable(),
        r matches Err(e) ==> {
            &&& e is Io || e is InvalidArgument
            &&& e is Io ==> !old(io).is_reliable()
            &&& e is InvalidArgument ==> (old(io).files().contains_key(name@) && old(
                io,
            ).files()[name@].len() > 0) || writer::too_long(
                memtable.pairs(),
                memtable.pairs().len() as int,
                bits as int,
            )
        },
        r is Ok ==> {
            &&& final(io).is_synced(name@)
            &&& final(io).files().contains_key(name@)
            &&& state::is_sound(final(io).files()[name@])
            &&& state::pairs_in(final(io).files()[name@]) == memtable.pairs()
            &&& state::is_filtered(
                final(io).files()[name@],
                memtable.pairs().len() as int,
                bits as int,
            )
            &&& final(io).files()[name@].len() > usize::MAX ==> writer::too_long(
                memtable.pairs(),
                memtable.pairs().len() as int,
                bits as int,
            )
        },
        forall|o: Seq<u8>|
            o != name@ && old(io).is_synced(o) ==> #[trigger] final(io).is_synced(o),
        forall|o: Seq<u8>|
            o != name@ && old(io).is_linked(o) ==> #[trigger] final(io).is_linked(o),
{
    let ghost files = io.files();
    let ghost mem = memtable.pairs();
    let entries = memtable.iter();
    let mut w = match SsTableWriter::create(io, name, entries.len(), bits) {
        Ok(w) => w,
        Err(e) => {
            return Err(e);
        },
    };
    let mut i: usize = 0;
    proof {
        assert(w.pairs() =~= mem.take(0));
    }
    while i < entries.len()
        invariant
            i <= entries@.len(),
            mem == memtable.pairs(),
            entries@.len() == mem.len(),
            assoc::sorted_pairs(mem),
            state::all_storable(mem),
            forall|j: int|
                0 <= j < entries@.len() ==> (#[trigger] entries@[j]).0@ == mem[j].0
                    && entries@[j].1@ == mem[j].1,
            w.wf(),
            w.file_name() == name@,
            w.pairs() == mem.take(i as int),
            w.in_step(io.files()),
            writer::sized_for(w.filter(), mem.len() as int, bits as int),
            io.is_reliable() == old(io).is_reliable(),
            files == old(io).files(),
            writer::only_changes(files, name@, io.files()),
            forall|o: Seq<u8>| o != name@ && old(io).is_synced(o) ==> #[trigger] io.is_synced(o),
            forall|o: Seq<u8>| o != name@ && old(io).is_linked(o) ==> #[trigger] io.is_linked(o),
        decreases entries@.len() - i,
    {
        let ghost now = io.files();
        assert(state::storable(mem[i as int].0, mem[i as int].1));
        let (key, entry) = entries[i];
        proof {
            assert(mem.take(i + 1) =~= mem.take(i as int).push(mem[i as int]));
            if i > 0 {
                assert(order::key_less(mem[i - 1].0, mem[i as int].0));
            }
        }
        match w.add(io, key, entry) {
            Ok(_) => {},
            Err(e) => {
                proof {
                    lemma_changes_add_up(files, now, io.files(), name@);
                    if e is InvalidArgument {
                        writer::lemma_refused_is_long(
                            mem,
                            i + 1,
                            w.filter(),
                            mem.len() as int,
                            bits as int,
                        );
                    }
                }
                return Err(e);
            },
        }
        proof {
            lemma_changes_add_up(files, now, io.files(), name@);
        }
        i = i + 1;
    }
    let ghost now = io.files();
    let ghost done = w;
    assert(mem.take(i as int) =~= mem);
    match w.finish(io) {
        Ok(_) => {},
        Err(e) => {
            proof {
                lemma_changes_add_up(files, now, io.files(), name@);
            }
            return Err(e);
        },
    }
    proof {
        lemma_changes_add_up(files, now, io.files(), name@);
        done.lemma_writable();
        state::lemma_written_is_sound(done.pairs(), done.filter());
        assert(io.files()[name@] == layout::table_bytes(mem, done.filter()));
    }
    Ok(())
}

pub(crate) proof fn lemma_changes_add_up(a: io::Files, b: io::Files, c: io::Files, n: Seq<u8>)
    requires
        writer::only_changes(a, n, b),
        writer::only_changes(b, n, c),
    ensures
        writer::only_changes(a, n, c),
{
    assert forall|o: Seq<u8>| o != n implies (#[trigger] c.contains_key(o) == a.contains_key(o))
        && (a.contains_key(o) ==> c[o] == a[o]) by {
        assert(b.contains_key(o) == a.contains_key(o));
        assert(c.contains_key(o) == b.contains_key(o));
    }
}

pub(crate) proof fn lemma_others_agree(a: io::Files, n: Seq<u8>, b: io::Files)
    requires
        writer::only_changes(a, n, b),
    ensures
        forall|o: Seq<u8>| o != n ==> #[trigger] agree(a, b, o),
{
    assert forall|o: Seq<u8>| o != n implies #[trigger] agree(a, b, o) by {
        assert(b.contains_key(o) == a.contains_key(o));
    }
}

/// `v` holds the bytes `s`.
pub open spec fn gives(v: Option<Vec<u8>>, s: Option<Seq<u8>>) -> bool {
    match s {
        Some(b) => v matches Some(x) && x@ == b,
        None => v is None,
    }
}

proof fn lemma_torn_is_local(before: io::Files, n: Seq<u8>, bytes: Seq<u8>, after: io::Files)
    requires
        io::torn_append(before, n, bytes, after) || after == before.insert(n, before[n] + bytes),
    ensures
        writer::only_changes(before, n, after),
{
}

/// A valid record keeps the memtable storable.
pub(crate) proof fn lemma_storable_set(before: Pairs, after: Pairs, rec: RecordView)
    requires
        state::all_storable(before),
        assoc::sorted_pairs(before),
        assoc::sorted_pairs(after),
        rec.valid(),
        forall|k: Seq<u8>| #[trigger]
            assoc::find(after, k) == (if k == rec.key {
                Some(state::record_entry(rec))
            } else {
                assoc::find(before, k)
            }),
    ensures
        state::all_storable(after),
{
    assert forall|i: int| 0 <= i < after.len() implies state::storable(
        (#[trigger] after[i]).0,
        after[i].1,
    ) by {
        let k = after[i].0;
        assoc::lemma_find_at(after, i);
        assert(assoc::find(after, k) == Some(after[i].1));
        if k != rec.key {
            assert(assoc::find(before, k) == Some(after[i].1));
            let j = choose|j: int| 0 <= j < before.len() && (#[trigger] before[j]).0 == k;
            assoc::lemma_find_at(before, j);
            assert(state::storable(before[j].0, before[j].1));
        }
    }
}

} // verus!
