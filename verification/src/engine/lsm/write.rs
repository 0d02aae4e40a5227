//! Writes and flushes, with what they set off.

use crate::assoc;
use crate::engine::lsm;
use crate::engine::lsm::compact;
use crate::engine::lsm::laws;
use crate::engine::lsm::mend;
use crate::engine::lsm::snapshots;
use crate::engine::lsm::EngineInner;
use crate::engine::names;
use crate::engine::options::Options;
use crate::engine::state;
use crate::error::{Error, Result};
use crate::io;
use crate::io::Io;
use crate::memtable;
use crate::sstable::layout::Pairs;
use crate::sstable::writer;
use crate::wal::record::{check, RecordKind, RecordView};
use vstd::prelude::*;

verus! {

/// A file that belongs to log and tables: the log or its temporary file, a
/// table, or a temporary file with the letter of tables.
pub open spec fn is_lsm_name(n: Seq<u8>) -> bool {
    &&& n.len() > 0
    &&& {
        ||| n == names::wal_name()
        ||| n == names::tmp_name(names::wal_name())
        ||| n[0] == 115u8 && (names::parse_sst(n) is Some || names::extension(n) == Some(
            names::tmp_ext(),
        ))
    }
}

/// The last bytes of `b` are `tail`.
pub open spec fn ends_with(b: Seq<u8>, tail: Seq<u8>) -> bool {
    b.len() >= tail.len() && b.skip(b.len() - tail.len()) == tail
}

impl EngineInner {
    /// For each key, `after` shows what `self` shows.
    pub open spec fn shows_same(
        &self,
        files: io::Files,
        after: &EngineInner,
        files_after: io::Files,
    ) -> bool {
        forall|k: Seq<u8>| #[trigger] after.value(files_after, k) == self.value(files, k)
    }

    /// For each key, `after` shows what `self` shows after the record `rec`.
    pub open spec fn shows_update(
        &self,
        files: io::Files,
        rec: RecordView,
        after: &EngineInner,
        files_after: io::Files,
    ) -> bool {
        forall|k: Seq<u8>| #[trigger]
            after.value(files_after, k) == laws::updated(self.view(files), rec)(k)
    }

    /// A compaction is due, once the memtable was flushed if it is `flushed`.
    pub open spec fn compaction_is_due(&self, flushed: bool, trigger: usize) -> bool {
        self.levels().refs0().len() + (if flushed {
            1int
        } else {
            0int
        }) >= trigger
    }

    /// How many tables there are after a write or a flush: one more at the top
    /// level if the memtable was flushed, and at most one at the bottom level
    /// if that set off a compaction.
    pub open spec fn levels_follow(
        &self,
        flushed: bool,
        trigger: usize,
        after: &EngineInner,
    ) -> bool {
        let n0 = self.levels().refs0().len() + (if flushed {
            1int
        } else {
            0int
        });
        let compacted = n0 >= trigger;
        &&& after.next_id() == self.next_id() + (if flushed {
            1int
        } else {
            0int
        }) + (if compacted {
            1int
        } else {
            0int
        })
        &&& if compacted {
            after.levels().refs0().len() == 0 && after.levels().refs1().len() <= 1
        } else {
            &&& after.levels().refs0().len() == n0
            &&& after.levels().refs1() == self.levels().refs1()
            &&& !flushed ==> after.levels() == self.levels()
        }
    }

    /// `after` is in step with its files if `self` was, or was ready to be; and
    /// if the memtable was flushed, whatever the log of `self` held. Tables
    /// stay in their places.
    pub open spec fn stays_in_step(
        &self,
        files: io::Files,
        flushed: bool,
        after: &EngineInner,
        files_after: io::Files,
    ) -> bool {
        &&& self.tables_in_step(files) ==> after.tables_in_step(files_after)
        &&& self.is_ready(files) || flushed && self.tables_in_step(files) ==> after.in_step(
            files_after,
        )
    }

    /// The memtable after a write of `rec`: empty if it was flushed, else with
    /// `rec` in it.
    pub open spec fn mem_follows(
        &self,
        flushed: bool,
        rec: RecordView,
        after: &EngineInner,
    ) -> bool {
        let e = state::record_entry(rec);
        if flushed {
            after.mem().len() == 0 && after.mem_size() == 0
        } else {
            &&& after.mem().len() == self.mem().len() + (if assoc::has_key(self.mem(), rec.key) {
                0int
            } else {
                1int
            })
            &&& after.mem_size() == memtable::size_after(
                self.mem_size(),
                assoc::find(self.mem(), rec.key),
                rec.key,
                e,
            )
            &&& forall|k: Seq<u8>| #[trigger]
                assoc::find(after.mem(), k) == (if k == rec.key {
                    Some(e)
                } else {
                    assoc::find(self.mem(), k)
                })
        }
    }

    /// `after` has the same tables, and the record `rec` in log and memtable.
    pub open spec fn only_logs(
        &self,
        files: io::Files,
        rec: RecordView,
        after: &EngineInner,
        files_after: io::Files,
    ) -> bool {
        &&& after.levels() == self.levels()
        &&& after.next_id() == self.next_id()
        &&& self.tables_kept(files, files_after)
        &&& forall|k: Seq<u8>| #[trigger]
            assoc::find(after.mem(), k) == (if k == rec.key {
                Some(state::record_entry(rec))
            } else {
                assoc::find(self.mem(), k)
            })
    }

    /// The record `rec` was appended to the log, after what was called for was
    /// mended, and set in the memtable.
    pub open spec fn appends_to(
        &self,
        files: io::Files,
        rec: RecordView,
        after: &EngineInner,
        files_after: io::Files,
    ) -> bool {
        &&& self.only_logs(files, rec, after, files_after)
        &&& after.mem_size() == memtable::size_after(
            self.mem_size(),
            assoc::find(self.mem(), rec.key),
            rec.key,
            state::record_entry(rec),
        )
        &&& files_after == self.mended(files).insert(
            names::wal_name(),
            self.mended(files)[names::wal_name()] + rec.encoding(),
        )
        &&& !after.needs_log()
        &&& !after.needs_sweep()
        &&& after.wf(files_after)
    }

    /// The record `rec` is on stable storage: at the end of the log, in a table,
    /// or, if the memtable is empty and all tables are on stable storage, in
    /// what these were merged from.
    pub open spec fn is_recorded<I: Io>(&self, io: &I, rec: RecordView) -> bool {
        let files = io.files();
        let wal = names::wal_name();
        ||| io.is_synced(wal) && files.contains_key(wal) && ends_with(files[wal], rec.encoding())
        ||| exists|i: int|
            0 <= i < self.refs().len() && io.is_synced((#[trigger] self.refs()[i]).1)
                && assoc::find(state::pairs_in(files[self.refs()[i].1]), rec.key) == Some(
                state::record_entry(rec),
            )
        ||| self.mem().len() == 0 && self.durable(io)
    }

    /// What `self` holds stays on stable storage: the log is as it was, or the
    /// memtable is in a table that is synced, or it is empty and all tables
    /// are on stable storage.
    pub open spec fn stays_recorded<I: Io>(
        &self,
        io: &I,
        after: &EngineInner,
        io_after: &I,
    ) -> bool {
        let sst = names::sst_name(0, self.next_id());
        let wal = names::wal_name();
        ||| lsm::agree(io.files(), io_after.files(), wal) && (io.is_synced(wal)
            ==> io_after.is_synced(wal))
        ||| {
            &&& after.refs().len() > 0
            &&& after.refs()[0] == (self.next_id(), sst)
            &&& io_after.is_synced(sst)
            &&& self.flush_is_in(io_after.files())
        }
        ||| after.mem().len() == 0 && after.durable(io_after)
    }

    /// What keeps a due flush or compaction from being done, even if the
    /// storage does not fail and no table has damage.
    pub open spec fn settle_is_blocked(
        &self,
        files: io::Files,
        flushed: bool,
        trigger: usize,
        bits: u32,
    ) -> bool {
        let files = self.mended(files);
        if flushed {
            ||| self.flush_is_blocked(files, bits)
            ||| exists|e: EngineInner, f: io::Files| #[trigger]
                self.flushes_to(files, &e, f) && e.levels().refs0().len() >= trigger
                    && e.compact_is_blocked(f, bits)
        } else {
            self.levels().refs0().len() >= trigger && self.compact_is_blocked(files, bits)
        }
    }

    /// What keeps a write of `rec` from being done, even if the storage does
    /// not fail and no table has damage.
    pub open spec fn write_is_blocked(
        &self,
        files: io::Files,
        rec: RecordView,
        flushed: bool,
        trigger: usize,
        bits: u32,
    ) -> bool {
        exists|e: EngineInner, f: io::Files| #[trigger]
            self.appends_to(files, rec, &e, f) && e.settle_is_blocked(f, flushed, trigger, bits)
    }

    /// Whatever a failed operation left behind, the files stand for one of two
    /// states.
    pub open spec fn leaves(
        &self,
        files: io::Files,
        rec: Option<RecordView>,
        files_after: io::Files,
    ) -> bool {
        ||| state::stands_for(files_after, self.view(files))
        ||| rec is Some && state::stands_for(
            files_after,
            laws::updated(self.view(files), rec->0),
        )
    }

    /// Writes one record: log, memtable, and a flush and a compaction where
    /// they are due. Returns true if there is a new table.
    #[verifier::rlimit(40)]
    pub(crate) fn write<I: Io>(
        &mut self,
        io: &mut I,
        options: &Options,
        kind: RecordKind,
        key: &[u8],
        value: &[u8],
    ) -> (r: Result<bool>)
        requires
            old(self).wf(old(io).files()),
        ensures
            final(self).wf(final(io).files()),
            final(self).is_closed() == old(self).is_closed(),
            old(self).is_ordered() ==> final(self).is_ordered(),
            old(self).is_sound(old(io).files()) ==> final(self).is_sound(final(io).files()),
            ({
                let rec = (RecordView { kind, key: key@, value: value@ });
                let flushed = memtable::size_after(
                    old(self).mem_size(),
                    assoc::find(old(self).mem(), key@),
                    key@,
                    state::record_entry(rec),
                ) >= options.memtable_max_size_bytes;
                if old(self).is_closed() {
                    &&& r matches Err(Error::Closed)
                    &&& final(self).same(old(self))
                    &&& final(io).files() == old(io).files()
                } else if !rec.valid() {
                    &&& r matches Err(Error::InvalidArgument(_))
                    &&& final(self).same(old(self))
                    &&& final(io).files() == old(io).files()
                } else {
                    match r {
                        Ok(changed) => {
                            &&& changed == (final(self).next_id() != old(self).next_id())
                            &&& old(self).is_ordered() || !old(self).compaction_is_due(
                                flushed,
                                options.l0_compaction_trigger,
                            ) ==> old(self).shows_update(
                                old(io).files(),
                                rec,
                                final(self),
                                final(io).files(),
                            )
                            &&& old(self).levels_follow(
                                flushed,
                                options.l0_compaction_trigger,
                                final(self),
                            )
                            &&& old(self).mem_follows(flushed, rec, final(self))
                            &&& old(self).stays_in_step(
                                old(io).files(),
                                flushed,
                                final(self),
                                final(io).files(),
                            )
                            &&& final(self).is_recorded(final(io), rec)
                            &&& old(io).is_reliable() && old(self).is_clean(old(io).files())
                                ==> final(self).is_clean(final(io).files())
                            &&& old(io).is_reliable() && old(self).is_clean(old(io).files())
                                && old(self).compaction_is_due(
                                flushed,
                                options.l0_compaction_trigger,
                            ) ==> final(self).has_no_empty_table(final(io).files())
                            &&& final(io).is_synced(names::wal_name())
                            &&& final(io).files().contains_key(names::wal_name())
                            &&& !changed ==> old(self).only_logs(
                                old(io).files(),
                                rec,
                                final(self),
                                final(io).files(),
                            )
                        },
                        Err(e) => {
                            &&& !(e is Closed)
                            &&& old(self).is_ordered() || !old(self).compaction_is_due(
                                flushed,
                                options.l0_compaction_trigger,
                            ) ==> old(self).shows_same(
                                old(io).files(),
                                final(self),
                                final(io).files(),
                            ) || old(self).shows_update(
                                old(io).files(),
                                rec,
                                final(self),
                                final(io).files(),
                            ) && final(self).is_recorded(final(io), rec)
                            &&& old(self).in_step(old(io).files()) ==> old(self).leaves(
                                old(io).files(),
                                Some(rec),
                                final(io).files(),
                            )
                            &&& old(self).is_ready(old(io).files()) ==> final(self).is_ready(
                                final(io).files(),
                            )
                            &&& old(self).is_ready(old(io).files()) && old(self).is_kept(
                                old(io).files(),
                            ) ==> final(self).is_kept(final(io).files())
                            &&& old(io).is_reliable() && old(io).files().contains_key(
                                names::wal_name(),
                            ) && old(self).is_sound(old(io).files()) ==> old(self).write_is_blocked(
                                old(io).files(),
                                rec,
                                flushed,
                                options.l0_compaction_trigger,
                                options.bloom_bits_per_key,
                            )
                        },
                    }
                }
            }),
            final(self).new_tables_filtered(
                final(io).files(),
                old(self).next_id(),
                options.bloom_bits_per_key,
            ),
            final(io).is_reliable() == old(io).is_reliable(),
            forall|n: Seq<u8>|
                !is_lsm_name(n) ==> #[trigger] lsm::agree(old(io).files(), final(io).files(), n),
            old(self).durable(&*old(io)) ==> final(self).durable(&*final(io)),
            r is Ok && old(io).is_linked(names::wal_name()) ==> final(io).is_linked(
                names::wal_name(),
            ),
            forall|o: Seq<u8>|
                !is_lsm_name(o) && old(io).is_synced(o) ==> #[trigger] final(io).is_synced(o),
            forall|o: Seq<u8>|
                !is_lsm_name(o) && old(io).is_linked(o) ==> #[trigger] final(io).is_linked(o),
    {
        proof {
            lemma_none_is_new(*self, io.files());
        }
        if self.closed {
            return Err(Error::Closed);
        }
        match check(kind, key, value) {
            Ok(_) => {},
            Err(e) => {
                return Err(e);
            },
        }
        let ghost b0 = *self;
        let ghost g0 = io.files();
        proof {
            lemma_lsm_names(b0, g0);
        }
        match self.mend(io, options.path.as_str()) {
            Ok(_) => {},
            Err(e) => {
                proof {
                    mend::lemma_mend_stopped(b0, g0, *self, io.files());
                    assert forall|n: Seq<u8>| !is_lsm_name(n) implies #[trigger] lsm::agree(
                        g0,
                        io.files(),
                        n,
                    ) by {
                        assert(!b0.mends(n));
                    }
                }
                return Err(e);
            },
        }
        let ghost e0 = *self;
        let ghost f0 = io.files();
        let ghost io0 = *io;
        let ghost rec = RecordView { kind, key: key@, value: value@ };
        let before_id = self.next_sst_id;
        proof {
            mend::lemma_mended(b0, g0, e0, f0);
            assert(b0.durable(&*old(io)) ==> e0.durable(&io0));
            assert forall|n: Seq<u8>| !is_lsm_name(n) implies #[trigger] lsm::agree(g0, f0, n) by {
                assert(!b0.mends(n));
            }
            lemma_lsm_names(e0, f0);
            e0.lemma_tables_not_written(f0);
        }
        match self.append(io, kind, key, value) {
            Ok(_) => {},
            Err(e) => {
                proof {
                    lsm::lemma_others_agree(f0, names::wal_name(), io.files());
                    if e0.in_step(f0) {
                        laws::lemma_torn_append(e0, f0, io.files(), rec);
                        names::lemma_names_differ(0, 0, names::wal_name());
                        laws::lemma_tables_stay(e0, f0, *self, io.files());
                    }
                    self.lemma_same(&e0, io.files());
                    e0.lemma_kept(f0, io.files());
                    assert(e0.shows_same(f0, self, io.files())) by {
                        assert forall|k: Seq<u8>| #[trigger] self.value(io.files(), k) == e0.value(
                            f0,
                            k,
                        ) by {
                            assert(self.entry(io.files(), k) == e0.entry(io.files(), k));
                        }
                    }
                    if e0.in_step(f0) {
                        lemma_left_is_kept(e0, f0, Some(rec), *self, io.files());
                    }
                    assert forall|n: Seq<u8>| !is_lsm_name(n) implies #[trigger] lsm::agree(
                        g0,
                        io.files(),
                        n,
                    ) by {
                        assert(lsm::agree(g0, f0, n));
                        assert(lsm::agree(f0, io.files(), n));
                    }
                }
                return Err(e);
            },
        }
        let ghost e1 = *self;
        let ghost f1 = io.files();
        proof {
            lsm::lemma_others_agree(f0, names::wal_name(), f1);
            lemma_appended(e0, f0, e1, f1, rec);
            assert(e0.appends_to(f0, rec, &e1, f1));
            assert(e1.view(f1) =~= laws::updated(e0.view(f0), rec)) by {
                assert forall|k: Seq<u8>| #[trigger] e1.view(f1)(k) == laws::updated(
                    e0.view(f0),
                    rec,
                )(k) by {
                    assert(e1.value(f1, k) == laws::updated(e0.view(f0), rec)(k));
                }
            }
            assert(b0.appends_to(g0, rec, &e1, f1));
            assert(e0.durable(&io0) ==> e1.durable(&*io));
            if e0.is_clean(f0) {
                assert forall|n: Seq<u8>| names::parse_sst(n) is Some implies #[trigger] lsm::agree(
                    f0,
                    f1,
                    n,
                ) by {
                    names::lemma_names_differ(0, 0, names::wal_name());
                }
                laws::lemma_clean_stays(e0, f0, e1, f1);
            }
        }
        let ghost io1 = *io;
        let r = self.settle(io, options, false);
        proof {
            if e1.in_step(f1) {
                laws::lemma_files_stand_for_engine(e1, f1);
                mend::lemma_is_ready(e1, f1);
            }
            lemma_recorded(e0, e1, io1, *self, *io, rec);
            assert forall|n: Seq<u8>| !is_lsm_name(n) implies #[trigger] lsm::agree(
                g0,
                io.files(),
                n,
            ) by {
                assert(lsm::agree(g0, f0, n));
                assert(lsm::agree(f0, f1, n));
                assert(lsm::agree(f1, io.files(), n));
            }
            let flushed = memtable::size_after(
                e0.mem_size(),
                assoc::find(e0.mem(), key@),
                key@,
                state::record_entry(rec),
            ) >= options.memtable_max_size_bytes;
            if e0.is_ordered() || !e0.compaction_is_due(flushed, options.l0_compaction_trigger) {
                assert forall|k: Seq<u8>| #[trigger] self.value(io.files(), k) == laws::updated(
                    e0.view(f0),
                    rec,
                )(k) by {
                    assert(self.value(io.files(), k) == e1.value(f1, k));
                }
            }
        }
        match r {
            Ok(_) => Ok(self.next_sst_id != before_id),
            Err(e) => Err(e),
        }
    }

    /// A flush of the memtable, if that is due or asked for, and a compaction of
    /// the levels, if that is due, give `after`, and return `r`.
    pub open spec fn settles<I: Io>(
        &self,
        io: &I,
        options: &Options,
        force: bool,
        after: &EngineInner,
        io_after: &I,
        r: Result<()>,
    ) -> bool {
        let files = io.files();
        let files_after = io_after.files();
        let wal = names::wal_name();
        let trigger = options.l0_compaction_trigger;
        let bits = options.bloom_bits_per_key;
        let flushed = (force || self.mem_size() >= options.memtable_max_size_bytes)
            && self.mem().len() > 0;
        &&& after.wf(files_after)
        &&& after.is_closed() == self.is_closed()
        &&& self.is_ordered() ==> after.is_ordered()
        &&& self.is_sound(files) ==> after.is_sound(files_after)
        &&& r is Ok ==> !after.needs_log() && !after.needs_sweep()
        &&& self.is_ordered() || !self.compaction_is_due(flushed, trigger) ==> self.shows_same(
            files,
            after,
            files_after,
        )
        &&& match r {
            Ok(_) => {
                &&& self.levels_follow(flushed, trigger, after)
                &&& if flushed {
                    after.mem().len() == 0 && after.mem_size() == 0
                } else {
                    after.mem() == self.mem() && after.mem_size() == self.mem_size()
                }
                &&& self.stays_in_step(files, flushed, after, files_after)
                &&& force || io.is_synced(wal) ==> io_after.is_synced(wal)
                &&& after.next_id() == self.next_id() ==> after.same(self) && files_after
                    == self.mended(files) && self.tables_kept(files, files_after)
                &&& files.contains_key(wal) ==> files_after.contains_key(wal)
                &&& io.is_reliable() && self.is_clean(files) ==> after.is_clean(files_after)
                &&& io.is_reliable() && self.is_clean(files) && self.compaction_is_due(
                    flushed,
                    trigger,
                ) ==> after.has_no_empty_table(files_after)
            },
            Err(e) => {
                &&& !(e is Closed)
                &&& self.in_step(files) ==> self.leaves(files, None, files_after)
                &&& self.is_ready(files) ==> after.is_ready(files_after)
                &&& self.is_ready(files) && self.is_kept(files) ==> after.is_kept(files_after)
                &&& io.is_reliable() && files.contains_key(wal) && self.is_sound(files)
                    ==> self.settle_is_blocked(files, flushed, trigger, bits)
            },
        }
        &&& after.new_tables_filtered(files_after, self.next_id(), bits)
        &&& io_after.is_reliable() == io.is_reliable()
        &&& forall|n: Seq<u8>|
            !is_lsm_name(n) ==> #[trigger] lsm::agree(io.files(), io_after.files(), n)
        &&& self.durable(io) ==> after.durable(io_after)
        &&& !self.needs_log() && !self.needs_sweep() ==> self.stays_recorded(io, after, io_after)
        &&& r is Ok && io.is_linked(wal) ==> io_after.is_linked(wal)
        &&& forall|o: Seq<u8>|
            !is_lsm_name(o) && io.is_synced(o) ==> #[trigger] io_after.is_synced(o)
        &&& forall|o: Seq<u8>|
            !is_lsm_name(o) && io.is_linked(o) ==> #[trigger] io_after.is_linked(o)
    }

    /// Mends what a failed operation left, flushes the memtable if that is due or
    /// asked for, and compacts the levels if that is due.
    pub(crate) fn settle<I: Io>(&mut self, io: &mut I, options: &Options, force: bool) -> (r: Result<
        (),
    >)
        requires
            old(self).wf(old(io).files()),
        ensures
            old(self).settles(old(io), options, force, final(self), final(io), r),
    {
        let ghost b1 = *self;
        let ghost io0 = *io;
        match self.mend(io, options.path.as_str()) {
            Ok(_) => {},
            Err(e) => {
                proof {
                    lemma_not_mended(b1, io0, options, force, *self, *io, e);
                }
                return Err(e);
            },
        }
        let ghost e1 = *self;
        let ghost io1 = *io;
        proof {
            mend::lemma_mended(b1, io0.files(), e1, io1.files());
        }
        let r = self.flush_and_compact(io, options, force);
        proof {
            lemma_settles(b1, io0, e1, io1, options, force, *self, *io, r);
        }
        r
    }

    /// Flushes the memtable if that is due or asked for, and compacts the
    /// levels if that is due.
    #[verifier::rlimit(40)]
    fn flush_and_compact<I: Io>(&mut self, io: &mut I, options: &Options, force: bool) -> (r: Result<
        (),
    >)
        requires
            old(self).wf(old(io).files()),
            !old(self).needs_log(),
            !old(self).needs_sweep(),
        ensures
            old(self).settles(old(io), options, force, final(self), final(io), r),
    {
        let ghost e1 = *self;
        let ghost f1 = io.files();
        let ghost io1 = *io;
        proof {
            e1.levels().lemma_files(f1);
            lemma_lsm_names(e1, f1);
            e1.lemma_tables_not_written(f1);
        }
        let r = if force {
            self.flush_inner(io, options)
        } else {
            self.maybe_auto_flush(io, options)
        };
        let ghost e2 = *self;
        let ghost f2 = io.files();
        proof {
            lemma_lsm_names(e2, f2);
            e2.lemma_tables_not_written(f2);
            assert(e1.durable(&io1) ==> e2.durable(&*io)) by {
                if e1.levels() != e2.levels() {
                    let id = e1.next_id();
                    assert(e2.refs() =~= seq![(id, names::sst_name(0, id))] + e1.refs());
                }
            }
            lemma_after_flush(e1, f1, e2, f2);
            assert forall|n: Seq<u8>| !is_lsm_name(n) implies #[trigger] lsm::agree(
                f1,
                f2,
                n,
            ) by {
                assert(!e1.flush_writes(n));
            }
            lemma_flush_filtered(e1, f1, e2, f2, options.bloom_bits_per_key);
            assert(e1.stays_recorded(&io1, &e2, &*io)) by {
                if !(e2.levels() == e1.levels()) {
                    let id = e1.next_id();
                    assert(e2.refs() =~= seq![(id, names::sst_name(0, id))] + e1.refs());
                }
            }
            if e1.is_clean(f1) {
                if e1.flushes_to(f1, &e2, f2) {
                    laws::lemma_flush_clean(e1, f1, e2, f2);
                } else if e2.same(&e1) && f2 == f1 {
                    laws::lemma_clean_stays(e1, f1, e2, f2);
                }
            }
        }
        match r {
            Ok(_) => {},
            Err(e) => {
                proof {
                    if e1.in_step(f1) {
                        lemma_left_is_kept(e1, f1, None, *self, io.files());
                    }
                }
                return Err(e);
            },
        }
        let ghost io2 = *io;
        let r = self.maybe_compact(io, options);
        proof {
            lemma_compact_recorded(e1, io1, e2, io2, *self, *io);
            if e2.is_clean(f2) {
                if e2.compacts_to(f2, self, io.files()) {
                    if e2.tables_gone(io.files()) {
                        laws::lemma_compact_clean(e2, f2, *self, io.files());
                    }
                } else if self.same(&e2) && io.files() == f2 {
                    laws::lemma_clean_stays(e2, f2, *self, io.files());
                }
            }
            lemma_after_compact(e1, f1, e2, f2, *self, io.files());
            if e2.levels().refs0().len() < options.l0_compaction_trigger {
                assert forall|k: Seq<u8>| #[trigger] self.value(io.files(), k) == e1.value(
                    f1,
                    k,
                ) by {
                    self.lemma_same(&e2, f2);
                    assert(self.entry(f2, k) == e2.entry(f2, k));
                    assert(e2.value(f2, k) == e1.value(f1, k));
                }
            }
            assert forall|n: Seq<u8>| !is_lsm_name(n) implies #[trigger] lsm::agree(
                f1,
                io.files(),
                n,
            ) by {
                assert(lsm::agree(f1, f2, n));
                assert(!e2.compact_writes(n));
                assert(!e2.is_input(n));
                assert(lsm::agree(f2, io.files(), n));
            }
            assert(lsm::agree(f2, io.files(), names::wal_name()));
            if e2.same(&e1) {
                e2.lemma_same_blocked(&e1, f2, options.bloom_bits_per_key);
            }
            if r is Err && e1.in_step(f1) {
                lemma_left_is_kept(e1, f1, None, *self, io.files());
            }
            lemma_compact_filtered(
                e1,
                e2,
                f2,
                *self,
                io.files(),
                options.bloom_bits_per_key,
            );
        }
        r
    }

    /// What is the same is kept from being compacted alike.
    proof fn lemma_same_blocked(&self, other: &EngineInner, files: io::Files, bits: u32)
        requires
            self.same(other),
        ensures
            self.compact_is_blocked(files, bits) ==> other.compact_is_blocked(files, bits),
    {
        if self.compact_is_blocked(files, bits) && !other.compact_is_blocked(files, bits) {
            let s = choose|s: Pairs| #[trigger]
                self.merges_to(files, s) && assoc::sorted_pairs(s) && writer::too_long(
                    s,
                    compact::held(
                        256 * compact::block_total(self.levels(), self.refs().len() as int),
                    ),
                    bits as int,
                );
            assert(other.merges_to(files, s));
        }
    }

    /// No table is one of the files that a flush or a compaction writes.
    proof fn lemma_tables_not_written(&self, files: io::Files)
        requires
            self.wf(files),
        ensures
            forall|i: int|
                0 <= i < self.refs().len() ==> {
                    let n = (#[trigger] self.refs()[i]).1;
                    n != names::wal_name() && !self.flush_writes(n) && !self.compact_writes(n)
                },
            !self.compact_writes(names::wal_name()),
            !self.is_input(names::wal_name()),
    {
        let top = names::sst_name(0, self.next_id());
        let bottom = names::sst_name(1, self.next_id());
        names::lemma_sst_name(0, self.next_id());
        names::lemma_sst_name(1, self.next_id());
        names::lemma_tmp_name(top);
        names::lemma_tmp_name(bottom);
        names::lemma_names_differ(0, self.next_id(), top);
        names::lemma_names_differ(1, self.next_id(), bottom);
        assert(names::tmp_ext()[0] != names::sst_ext()[0]);
        if self.is_table_file(names::wal_name()) {
            let i = choose|i: int|
                0 <= i < self.refs().len() && (#[trigger] self.refs()[i]).1 == names::wal_name();
            assert(self.table_named(i));
        } else if self.is_input(names::wal_name()) {
            let (i, level) = choose|i: int, level: u8|
                0 <= i < self.refs().len() && level <= 1 && names::wal_name()
                    == #[trigger] names::sst_name(level, self.refs()[i].0);
            names::lemma_sst_name(level, self.refs()[i].0);
        }
        assert forall|i: int| 0 <= i < self.refs().len() implies {
            let n = (#[trigger] self.refs()[i]).1;
            n != names::wal_name() && !self.flush_writes(n) && !self.compact_writes(n)
        } by {
            assert(self.table_named(i));
        }
    }
}

/// Files that stand for what the engine showed, and still shows, are kept.
proof fn lemma_left_is_kept(
    before: EngineInner,
    files: io::Files,
    rec: Option<RecordView>,
    after: EngineInner,
    files_after: io::Files,
)
    requires
        before.leaves(files, rec, files_after),
        before.shows_same(files, &after, files_after),
    ensures
        after.is_kept(files_after),
{
    assert forall|k: Seq<u8>| #[trigger] after.view(files_after)(k) == before.view(files)(k) by {
        assert(after.value(files_after, k) == before.value(files, k));
    }
    assert(after.view(files_after) =~= before.view(files));
    if !state::stands_for(files_after, before.view(files)) {
        assert(state::stands_for(files_after, laws::updated(after.view(files_after), rec->0)));
    }
}

/// What mending stopped at is an outcome too.
proof fn lemma_not_mended<I: Io>(
    before: EngineInner,
    io: I,
    options: &Options,
    force: bool,
    after: EngineInner,
    io_after: I,
    e: Error,
)
    requires
        before.wf(io.files()),
        e is Io,
        !io.is_reliable(),
        !io_after.is_reliable(),
        before.needs_log() || before.needs_sweep(),
        before.mend_stops(io.files(), &after, io_after.files()),
        forall|o: Seq<u8>|
            !before.mends(o) && io.is_synced(o) ==> #[trigger] io_after.is_synced(o),
        forall|o: Seq<u8>|
            !before.mends(o) && io.is_linked(o) ==> #[trigger] io_after.is_linked(o),
    ensures
        before.settles(&io, options, force, &after, &io_after, Err(e)),
{
    let g = io.files();
    let f = io_after.files();
    lemma_lsm_names(before, g);
    mend::lemma_mend_stopped(before, g, after, f);
    assert forall|n: Seq<u8>| !is_lsm_name(n) implies #[trigger] lsm::agree(g, f, n) by {
        assert(!before.mends(n));
    }
    assert(after.new_tables_filtered(f, before.next_id(), options.bloom_bits_per_key)) by {
        lemma_none_is_new(after, f);
    }
}

/// No table has the next id, or a later one.
pub(crate) proof fn lemma_none_is_new(e: EngineInner, files: io::Files)
    requires
        e.wf(files),
    ensures
        forall|i: int|
            0 <= i < e.levels().refs0().len() ==> (#[trigger] e.levels().refs0()[i]).0 < e.next_id(),
        forall|i: int|
            0 <= i < e.levels().refs1().len() ==> (#[trigger] e.levels().refs1()[i]).0 < e.next_id(),
{
    let r0 = e.levels().refs0();
    let r1 = e.levels().refs1();
    assert forall|i: int| 0 <= i < r0.len() implies (#[trigger] r0[i]).0 < e.next_id() by {
        assert(e.refs()[i] == r0[i]);
        assert(e.table_named(i));
    }
    assert forall|i: int| 0 <= i < r1.len() implies (#[trigger] r1[i]).0 < e.next_id() by {
        assert(e.refs()[r0.len() + i] == r1[i]);
        assert(e.table_named(r0.len() + i));
    }
}

/// While the files of the tables stay as they are, their filters do.
pub(crate) proof fn lemma_filters_stay(e: EngineInner, before: io::Files, after: io::Files)
    requires
        e.tables_kept(before, after),
    ensures
        forall|from: u64, bits: u32| #[trigger]
            e.new_tables_filtered(before, from, bits) ==> e.new_tables_filtered(after, from, bits),
{
    let r0 = e.levels().refs0();
    let r1 = e.levels().refs1();
    assert forall|i: int| 0 <= i < r0.len() implies after[(#[trigger] r0[i]).1] == before[r0[i].1] by {
        assert(e.refs()[i] == r0[i]);
    }
    assert forall|i: int| 0 <= i < r1.len() implies after[(#[trigger] r1[i]).1] == before[r1[i].1] by {
        assert(e.refs()[r0.len() + i] == r1[i]);
    }
    assert forall|from: u64, bits: u32| #[trigger]
        e.new_tables_filtered(before, from, bits) implies e.new_tables_filtered(
        after,
        from,
        bits,
    ) by {
        assert forall|i: int| 0 <= i < r1.len() && (#[trigger] r1[i]).0 >= from implies exists|
            keys: int,
        | #[trigger] state::is_filtered(after[r1[i].1], keys, bits as int) by {
            assert(after[r1[i].1] == before[r1[i].1]);
        }
    }
}

/// The table of a flush has its filter.
proof fn lemma_flush_filtered(
    e1: EngineInner,
    f1: io::Files,
    e2: EngineInner,
    f2: io::Files,
    bits: u32,
)
    requires
        e1.wf(f1),
        e2.levels() == e1.levels() || e1.flush_registered(&e2) && e1.flush_is_in(f2)
            && state::is_filtered(
            f2[names::sst_name(0, e1.next_id())],
            e1.mem().len() as int,
            bits as int,
        ),
    ensures
        e2.new_tables_filtered(f2, e1.next_id(), bits),
{
    lemma_none_is_new(e1, f1);
    let r0 = e2.levels().refs0();
    if e2.levels() != e1.levels() {
        assert forall|i: int| 0 <= i < r0.len() && (#[trigger] r0[i]).0 >= e1.next_id() implies
            state::is_filtered(
            f2[r0[i].1],
            state::pairs_in(f2[r0[i].1]).len() as int,
            bits as int,
        ) by {
            if i > 0 {
                assert(r0[i] == e1.levels().refs0()[i - 1]);
            }
        }
    }
}

/// So has that of a compaction.
proof fn lemma_compact_filtered(
    e1: EngineInner,
    e2: EngineInner,
    f2: io::Files,
    e3: EngineInner,
    f3: io::Files,
    bits: u32,
)
    requires
        e2.wf(f2),
        e2.new_tables_filtered(f2, e1.next_id(), bits),
        ({
            ||| e3.same(&e2) && f3 == f2
            ||| e2.compacts_to(f2, &e3, f3) && e2.compact_is_filtered(&e3, f3, bits)
            ||| e2.compact_stops(f2, &e3, f3)
        }),
    ensures
        e3.new_tables_filtered(f3, e1.next_id(), bits),
{
    if e2.compacts_to(f2, &e3, f3) && e2.compact_is_filtered(&e3, f3, bits) {
        let r1 = e3.levels().refs1();
        assert(e3.refs() =~= r1);
        assert forall|i: int| 0 <= i < r1.len() && (#[trigger] r1[i]).0 >= e1.next_id() implies exists|
            keys: int,
        | #[trigger] state::is_filtered(f3[r1[i].1], keys, bits as int) by {
            assert(r1[i] == (e2.next_id(), names::sst_name(1, e2.next_id())));
            let keys = compact::held(
                256 * compact::block_total(e2.levels(), e2.refs().len() as int),
            );
            assert(state::is_filtered(f3[r1[i].1], keys, bits as int));
        }
    } else {
        e2.lemma_tables_not_written(f2);
        let r0 = e2.levels().refs0();
        let r1 = e2.levels().refs1();
        assert forall|i: int| 0 <= i < r0.len() implies f3[(#[trigger] r0[i]).1] == f2[r0[i].1] by {
            assert(e2.refs()[i] == r0[i]);
            assert(f3 == f2 || lsm::agree(f2, f3, r0[i].1));
            e2.levels().lemma_files(f2);
        }
        assert forall|i: int| 0 <= i < r1.len() implies f3[(#[trigger] r1[i]).1] == f2[r1[i].1] by {
            assert(e2.refs()[r0.len() + i] == r1[i]);
            assert(f3 == f2 || lsm::agree(f2, f3, r1[i].1));
            e2.levels().lemma_files(f2);
        }
        assert forall|i: int| 0 <= i < r1.len() && (#[trigger] r1[i]).0 >= e1.next_id() implies exists|
            keys: int,
        | #[trigger] state::is_filtered(f3[r1[i].1], keys, bits as int) by {
            assert(f3[r1[i].1] == f2[r1[i].1]);
        }
    }
}

/// What was called for was mended first.
proof fn lemma_settles<I: Io>(
    before: EngineInner,
    io: I,
    mended: EngineInner,
    io_mended: I,
    options: &Options,
    force: bool,
    after: EngineInner,
    io_after: I,
    r: Result<()>,
)
    requires
        before.wf(io.files()),
        mended.same(&before),
        !mended.needs_log(),
        !mended.needs_sweep(),
        io_mended.files() == before.mended(io.files()),
        io_mended.is_reliable() == io.is_reliable(),
        before.needs_log() ==> io_mended.is_synced(names::wal_name()) && io_mended.is_linked(
            names::wal_name(),
        ),
        !before.needs_log() && !before.needs_sweep() ==> io_mended == io,
        !before.needs_log() && io.is_synced(names::wal_name()) ==> io_mended.is_synced(
            names::wal_name(),
        ),
        !before.needs_log() && io.is_linked(names::wal_name()) ==> io_mended.is_linked(
            names::wal_name(),
        ),
        forall|o: Seq<u8>|
            !before.mends(o) && io.is_synced(o) ==> #[trigger] io_mended.is_synced(o),
        forall|o: Seq<u8>|
            !before.mends(o) && io.is_linked(o) ==> #[trigger] io_mended.is_linked(o),
        mended.settles(&io_mended, options, force, &after, &io_after, r),
    ensures
        before.settles(&io, options, force, &after, &io_after, r),
{
    let g = io.files();
    let f = io_mended.files();
    let f2 = io_after.files();
    mend::lemma_mended(before, g, mended, f);
    lemma_lsm_names(before, g);
    if before.in_step(g) {
        mend::lemma_is_ready(before, g);
    }
    if before.is_ready(g) {
        laws::lemma_files_stand_for_engine(mended, f);
        mend::lemma_is_ready(mended, f);
    }
    assert forall|n: Seq<u8>| !is_lsm_name(n) implies #[trigger] lsm::agree(g, f2, n) by {
        assert(!before.mends(n));
        assert(lsm::agree(g, f, n));
        assert(lsm::agree(f, f2, n));
    }
    mended.lemma_same_blocked(&before, f, options.bloom_bits_per_key);
    assert(before.durable(&io) ==> mended.durable(&io_mended));
    let flushed = (force || before.mem_size() >= options.memtable_max_size_bytes)
        && before.mem().len() > 0;
    let trigger = options.l0_compaction_trigger;
    let bits = options.bloom_bits_per_key;
    if mended.settle_is_blocked(f, flushed, trigger, bits) {
        if flushed && !mended.flush_is_blocked(f, bits) {
            let (e, x) = choose|e: EngineInner, x: io::Files| #[trigger]
                mended.flushes_to(f, &e, x) && e.levels().refs0().len() >= trigger
                    && e.compact_is_blocked(x, bits);
            assert(before.flushes_to(f, &e, x)) by {
                assert forall|n: Seq<u8>| !before.flush_writes(n) implies #[trigger] lsm::agree(
                    f,
                    x,
                    n,
                ) by {
                    assert(!mended.flush_writes(n));
                }
            }
        }
        assert(before.settle_is_blocked(g, flushed, trigger, bits));
    }
}

/// What belongs to log and tables is named accordingly.
proof fn lemma_lsm_names(e: EngineInner, files: io::Files)
    requires
        e.wf(files),
    ensures
        is_lsm_name(names::wal_name()),
        is_lsm_name(names::tmp_name(names::wal_name())),
        forall|n: Seq<u8>| #[trigger] e.mends(n) ==> is_lsm_name(n),
        forall|n: Seq<u8>| #[trigger] e.flush_writes(n) ==> is_lsm_name(n),
        forall|n: Seq<u8>| #[trigger] e.compact_writes(n) ==> is_lsm_name(n),
        forall|n: Seq<u8>| #[trigger] e.is_input(n) ==> is_lsm_name(n),
{
    assert forall|level: u8, id: u64| is_lsm_name(#[trigger] names::sst_name(level, id))
        && is_lsm_name(names::tmp_name(names::sst_name(level, id))) by {
        let n = names::sst_name(level, id);
        names::lemma_sst_name(level, id);
        names::lemma_tmp_name(n);
        assert(n[0] == names::sst_prefix()[0]);
        assert(names::tmp_name(n)[0] == n[0]);
    }
    assert(names::wal_name()[0] == 119u8);
    assert forall|n: Seq<u8>| #[trigger] e.is_input(n) implies is_lsm_name(n) by {
        if e.is_table_file(n) {
            let i = choose|i: int| 0 <= i < e.refs().len() && (#[trigger] e.refs()[i]).1 == n;
            assert(e.table_named(i));
            snapshots::lemma_table_letter(n);
        } else {
            let (i, level) = choose|i: int, level: u8|
            0 <= i < e.refs().len() && level <= 1 && n == #[trigger] names::sst_name(
                level,
                e.refs()[i].0,
            );
            assert(is_lsm_name(names::sst_name(level, e.refs()[i].0)));
        }
    }
}

/// What was appended to the log stays on stable storage.
proof fn lemma_recorded<I: Io>(
    e0: EngineInner,
    e1: EngineInner,
    io1: I,
    e2: EngineInner,
    io2: I,
    rec: RecordView,
)
    requires
        io1.is_synced(names::wal_name()),
        io1.files().contains_key(names::wal_name()),
        exists|head: Seq<u8>| io1.files()[names::wal_name()] == #[trigger] (head + rec.encoding()),
        assoc::find(e1.mem(), rec.key) == Some(state::record_entry(rec)),
        e1.stays_recorded(&io1, &e2, &io2),
    ensures
        e2.is_recorded(&io2, rec),
{
    let wal = names::wal_name();
    let sst = names::sst_name(0, e1.next_id());
    let head = choose|head: Seq<u8>| io1.files()[wal] == #[trigger] (head + rec.encoding());
    assert((head + rec.encoding()).skip(head.len() as int) =~= rec.encoding());
    if lsm::agree(io1.files(), io2.files(), wal) && io2.is_synced(wal) {
        assert(ends_with(io2.files()[wal], rec.encoding()));
    } else if !(e2.mem().len() == 0 && e2.durable(&io2)) {
        assert(e2.refs()[0].1 == sst);
    }
}

/// A compaction, whether it was done, not due, or stopped, keeps what is on
/// stable storage.
proof fn lemma_compact_recorded<I: Io>(
    e1: EngineInner,
    io1: I,
    e2: EngineInner,
    io2: I,
    e3: EngineInner,
    io3: I,
)
    requires
        e2.wf(io2.files()),
        e1.stays_recorded(&io1, &e2, &io2),
        !e2.compact_writes(names::wal_name()),
        !e2.is_input(names::wal_name()),
        forall|i: int|
            0 <= i < e2.refs().len() ==> !e2.compact_writes((#[trigger] e2.refs()[i]).1),
        e2.mem().len() == 0 || lsm::agree(io1.files(), io2.files(), names::wal_name()) && (
        io1.is_synced(names::wal_name()) ==> io2.is_synced(names::wal_name())),
        ({
            ||| e3.same(&e2) && io3.files() == io2.files()
            ||| e2.compacts_to(io2.files(), &e3, io3.files())
            ||| e2.compact_stops(io2.files(), &e3, io3.files())
        }),
        forall|o: Seq<u8>|
            !e2.compact_writes(o) && (e3.levels() == e2.levels() || !e2.is_input(o))
                && io2.is_synced(o) ==> #[trigger] io3.is_synced(o),
        forall|o: Seq<u8>|
            !e2.compact_writes(o) && (e3.levels() == e2.levels() || !e2.is_input(o))
                && io2.is_linked(o) ==> #[trigger] io3.is_linked(o),
        e3.levels() != e2.levels() ==> e3.durable(&io3),
    ensures
        e1.stays_recorded(&io1, &e3, &io3),
{
    let wal = names::wal_name();
    let sst = names::sst_name(0, e1.next_id());
    assert(lsm::agree(io2.files(), io3.files(), wal));
    if e3.levels() == e2.levels() {
        if e2.refs().len() > 0 {
            assert(e2.table_named(0));
            assert(e3.refs() == e2.refs());
            if e2.compacts_to(io2.files(), &e3, io3.files()) {
                assert(e3.refs()[0] == e3.levels().refs1()[0]);
            }
            assert(!e2.compact_writes(e2.refs()[0].1));
            assert(lsm::agree(io2.files(), io3.files(), e2.refs()[0].1));
        }
        if e2.durable(&io2) {
            assert(e3.durable(&io3)) by {
                assert forall|i: int| 0 <= i < e3.refs().len() implies io3.is_synced(
                    (#[trigger] e3.refs()[i]).1,
                ) && io3.is_linked(e3.refs()[i].1) by {
                    assert(!e2.compact_writes(e2.refs()[i].1));
                }
            }
        }
    }
}

/// After the record was appended.
proof fn lemma_appended(
    e0: EngineInner,
    f0: io::Files,
    e1: EngineInner,
    f1: io::Files,
    rec: RecordView,
)
    requires
        e0.wf(f0),
        e1.wf(f1),
        e1.levels() == e0.levels(),
        e1.next_id() == e0.next_id(),
        e0.tables_kept(f0, f1),
        rec.valid(),
        forall|k: Seq<u8>| #[trigger]
            assoc::find(e1.mem(), k) == (if k == rec.key {
                Some(state::record_entry(rec))
            } else {
                assoc::find(e0.mem(), k)
            }),
        f1 == f0.insert(names::wal_name(), f0[names::wal_name()] + rec.encoding()),
    ensures
        e0.shows_update(f0, rec, &e1, f1),
        e0.tables_in_step(f0) ==> e1.tables_in_step(f1),
        e0.in_step(f0) ==> e1.in_step(f1),
        e1.is_ordered() == e0.is_ordered(),
        e0.is_sound(f0) ==> e1.is_sound(f1),
        e1.mem().len() > 0,
{
    e0.lemma_kept(f0, f1);
    assert forall|k: Seq<u8>| #[trigger] e1.value(f1, k) == laws::updated(e0.view(f0), rec)(k) by {
        assert(assoc::find(e1.mem(), k) == (if k == rec.key {
            Some(state::record_entry(rec))
        } else {
            assoc::find(e0.mem(), k)
        }));
    }
    if e0.tables_in_step(f0) {
        laws::lemma_append_in_step(e0, f0, e1, f1, rec);
    }
    assert(assoc::find(e1.mem(), rec.key) is Some);
}

/// After a flush, whether it was done, not due, or stopped.
proof fn lemma_after_flush(e1: EngineInner, f1: io::Files, e2: EngineInner, f2: io::Files)
    requires
        e1.wf(f1),
        e1.is_ordered() ==> e2.is_ordered(),
        e2.wf(f2),
        forall|k: Seq<u8>| #[trigger] e2.entry(f2, k) == e1.entry(f1, k),
        ({
            ||| e2.same(&e1) && f2 == f1
            ||| e1.flushes_to(f1, &e2, f2)
            ||| e1.flush_stops(f1, &e2, f2)
        }),
        !e2.needs_sweep(),
    ensures
        e1.shows_same(f1, &e2, f2),
        e1.in_step(f1) && (e2.same(&e1) && f2 == f1 || e1.flushes_to(f1, &e2, f2)) ==> e2.in_step(
            f2,
        ),
        e1.tables_in_step(f1) && e2.same(&e1) && f2 == f1 ==> e2.tables_in_step(f2),
        e1.tables_in_step(f1) && e1.flushes_to(f1, &e2, f2) ==> e2.in_step(f2),
        e1.in_step(f1) ==> e1.leaves(f1, None, f2),
        e1.in_step(f1) ==> e2.is_ready(f2),
{
    assert forall|k: Seq<u8>| #[trigger] e2.value(f2, k) == e1.value(f1, k) by {
        assert(e2.entry(f2, k) == e1.entry(f1, k));
    }
    if e1.tables_in_step(f1) {
        if e2.same(&e1) && f2 == f1 {
            assert(e2.tables_in_step(f2)) by {
                assert forall|n: Seq<u8>, level: u8, id: u64| #[trigger]
                    state::is_sst(f2, n, level, id) implies e2.is_placed(f2, n, level, id) by {
                    assert(e1.is_placed(f1, n, level, id));
                }
            }
        }
        if e1.flushes_to(f1, &e2, f2) {
            laws::lemma_flush_in_step(e1, f1, e2, f2);
        }
    }
    if e1.in_step(f1) {
        if !(e2.same(&e1) && f2 == f1) && !e1.flushes_to(f1, &e2, f2) {
            if !e2.same(&e1) && lsm::has_no_log(f2) {
                laws::lemma_flush_stops_stands(e1, f1, e2, f2);
            }
            laws::lemma_flush_stops_in_step(e1, f1, e2, f2);
        }
        if e2.in_step(f2) {
            laws::lemma_files_stand_for_engine(e2, f2);
            assert(e2.view(f2) =~= e1.view(f1)) by {
                assert forall|k: Seq<u8>| #[trigger] e2.view(f2)(k) == e1.view(f1)(k) by {
                    assert(e2.value(f2, k) == e1.value(f1, k));
                }
            }
        }
    }
}

/// After a compaction, whether it was done, not due, or stopped.
proof fn lemma_after_compact(
    e1: EngineInner,
    f1: io::Files,
    e2: EngineInner,
    f2: io::Files,
    e3: EngineInner,
    f3: io::Files,
)
    requires
        e1.shows_same(f1, &e2, f2),
        e1.in_step(f1) ==> e2.in_step(f2),
        e2.wf(f2),
        e3.wf(f3),
        e1.is_ordered() ==> e2.is_ordered(),
        e2.is_ordered() ==> e3.is_ordered(),
        e2.is_ordered() ==> forall|k: Seq<u8>| #[trigger] e3.value(f3, k) == e2.value(f2, k),
        ({
            ||| e3.same(&e2) && f3 == f2
            ||| e2.compacts_to(f2, &e3, f3)
            ||| e2.compact_stops(f2, &e3, f3)
        }),
    ensures
        e1.is_ordered() ==> e1.shows_same(f1, &e3, f3),
        e2.in_step(f2) && (e3.same(&e2) && f3 == f2 || e2.compacts_to(f2, &e3, f3)) ==> e3.in_step(
            f3,
        ),
        e2.tables_in_step(f2) && (e3.same(&e2) && f3 == f2 || e2.compacts_to(f2, &e3, f3))
            ==> e3.tables_in_step(f3),
        e1.in_step(f1) && e2.compact_stops(f2, &e3, f3) ==> e1.leaves(f1, None, f3),
        e1.in_step(f1) && e2.compact_stops(f2, &e3, f3) && e3.needs_sweep() ==> e3.is_ready(f3),
{
    if e1.is_ordered() {
        assert forall|k: Seq<u8>| #[trigger] e3.value(f3, k) == e1.value(f1, k) by {
            assert(e3.value(f3, k) == e2.value(f2, k));
            assert(e2.value(f2, k) == e1.value(f1, k));
        }
    }
    if e1.in_step(f1) {
        if e2.compact_stops(f2, &e3, f3) {
            laws::lemma_compact_stops(e2, f2, e3, f3);
            assert(e2.view(f2) =~= e1.view(f1)) by {
                assert forall|k: Seq<u8>| #[trigger] e2.view(f2)(k) == e1.view(f1)(k) by {
                    assert(e2.value(f2, k) == e1.value(f1, k));
                }
            }
        }
    }
    if e2.tables_in_step(f2) {
        if e3.same(&e2) && f3 == f2 {
            assert(e3.tables_in_step(f3)) by {
                assert forall|n: Seq<u8>, level: u8, id: u64| #[trigger]
                    state::is_sst(f3, n, level, id) implies e3.is_placed(f3, n, level, id) by {
                    assert(e2.is_placed(f2, n, level, id));
                }
            }
        } else if e2.compacts_to(f2, &e3, f3) {
            laws::lemma_compact_in_step(e2, f2, e3, f3);
        }
    }
}

} // verus!
