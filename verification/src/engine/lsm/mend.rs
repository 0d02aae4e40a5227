//! Mending what a failed operation left: the log is written anew from the
//! memtable, and the table of a compaction that stopped is removed.

use crate::assoc;
use crate::engine::lsm;
use crate::engine::lsm::laws;
use crate::engine::lsm::recover::{file_exists, fresh_file};
use crate::engine::lsm::EngineInner;
use crate::engine::names;
use crate::engine::names::{sst_filename, tmp_filename, wal_filename};
use crate::engine::state;
use crate::error::Result;
use crate::io;
use crate::io::Io;
use crate::memtable::{Entry, EntryView};
use crate::order;
use crate::sstable::layout::Pairs;
use crate::wal::log;
use crate::wal::record::{encode, RecordKind, RecordView};
use crate::wal::writer::file_header;
use vstd::prelude::*;

verus! {

/// The record that sets the entry `p`.
pub open spec fn record_of(p: (Seq<u8>, EntryView)) -> RecordView {
    match p.1 {
        EntryView::Put(v) => RecordView { kind: RecordKind::Put, key: p.0, value: v },
        EntryView::Vector(v) => RecordView { kind: RecordKind::Vector, key: p.0, value: v },
        EntryView::Tombstone => RecordView {
            kind: RecordKind::Delete,
            key: p.0,
            value: Seq::empty(),
        },
    }
}

/// The records that set the entries `s`.
pub open spec fn records_of(s: Pairs) -> Seq<RecordView> {
    s.map_values(|p: (Seq<u8>, EntryView)| record_of(p))
}

/// The log of the entries `s`.
pub open spec fn log_of(s: Pairs) -> Seq<u8> {
    log::header() + log::encodings(records_of(s))
}

/// The records of a memtable are valid, and replay to it.
proof fn lemma_records_of(s: Pairs)
    requires
        assoc::sorted_pairs(s),
        state::all_storable(s),
    ensures
        log::all_valid(records_of(s)),
        state::replays_to(records_of(s), s),
    decreases s.len(),
{
    let recs = records_of(s);
    assert forall|i: int| 0 <= i < recs.len() implies (#[trigger] recs[i]).valid() by {
        assert(state::storable(s[i].0, s[i].1));
    }
    if s.len() == 0 {
        assert forall|k: Seq<u8>| #[trigger] assoc::find(s, k) == state::replayed(recs, k) by {
            assert(!assoc::has_key(s, k));
        }
    } else {
        let d = s.drop_last();
        assert forall|i: int, j: int| 0 <= i < j < d.len() implies order::key_less(
            #[trigger] d[i].0,
            #[trigger] d[j].0,
        ) by {
            assert(order::key_less(s[i].0, s[j].0));
        }
        assert forall|i: int| 0 <= i < d.len() implies state::storable(
            (#[trigger] d[i]).0,
            d[i].1,
        ) by {
            assert(state::storable(s[i].0, s[i].1));
        }
        lemma_records_of(d);
        assert(records_of(d).push(record_of(s.last())) =~= recs);
        assert(d.push(s.last()) =~= s);
        assert forall|k: Seq<u8>| #[trigger] assoc::find(s, k) == state::replayed(recs, k) by {
            if d.len() > 0 {
                assert(order::key_less(s[s.len() - 2].0, s[s.len() - 1].0));
            }
            assoc::lemma_find_push(d, s.last(), k);
            state::lemma_replayed_push(records_of(d), record_of(s.last()), k);
            assert(assoc::find(d, k) == state::replayed(records_of(d), k));
        }
    }
}

/// No file that is mended is one of the tables.
proof fn lemma_apart(e: EngineInner, files: io::Files)
    requires
        e.wf(files),
    ensures
        e.tables_not_mended(),
        forall|n: Seq<u8>|
            names::extension(n) == Some(names::sst_ext()) ==> n != names::wal_name()
                && #[trigger] names::tmp_name(names::wal_name()) != n,
        names::sst_name(1, e.next_id()) != names::wal_name(),
        names::sst_name(1, e.next_id()) != names::tmp_name(names::wal_name()),
        names::tmp_name(names::wal_name()) != names::wal_name(),
{
    let id = e.next_id();
    names::lemma_names_differ(1, id, names::wal_name());
    names::lemma_tmp_name(names::wal_name());
    names::lemma_sst_name(1, id);
    assert(names::tmp_ext()[0] != names::sst_ext()[0]);
    assert forall|i: int| 0 <= i < e.refs().len() implies !e.mends(
        (#[trigger] e.refs()[i]).1,
    ) by {
        assert(e.table_named(i));
    }
}

/// Without the table of a compaction that stopped, nothing else changes.
proof fn lemma_cleaned(e: EngineInner, files: io::Files)
    requires
        e.wf(files),
    ensures
        e.wf(e.cleaned(files)),
        e.is_sound(files) ==> e.is_sound(e.cleaned(files)),
        e.tables_kept(files, e.cleaned(files)),
        forall|k: Seq<u8>| #[trigger] e.entry(e.cleaned(files), k) == e.entry(files, k),
        e.tables_in_step(files) ==> e.cleaned(files) == files,
        e.is_clean(files) ==> e.cleaned(files) == files,
        e.log_in_step(files) ==> e.log_in_step(e.cleaned(files)),
{
    let sst = names::sst_name(1, e.next_id());
    let f = e.cleaned(files);
    lemma_apart(e, files);
    e.levels().lemma_files(files);
    assert(e.tables_kept(files, f)) by {
        assert forall|i: int| 0 <= i < e.refs().len() implies f.contains_key(
            (#[trigger] e.refs()[i]).1,
        ) && f[e.refs()[i].1] == files[e.refs()[i].1] by {
            assert(!e.mends(e.refs()[i].1));
        }
    }
    e.lemma_kept(files, f);
    names::lemma_sst_name(1, e.next_id());
    if files.contains_key(sst) {
        assert(state::is_sst(files, sst, 1, e.next_id()));
        if e.refs().contains((e.next_id(), sst)) {
            let i = choose|i: int| 0 <= i < e.refs().len() && e.refs()[i] == (e.next_id(), sst);
            assert(!e.mends(e.refs()[i].1));
        }
        if e.tables_in_step(files) {
            assert(e.is_placed(files, sst, 1, e.next_id()));
            let l1 = e.levels().refs1();
            let n0 = e.levels().refs0().len();
            if l1.len() == 1 {
                assert(e.refs()[n0 as int] == l1[0]);
                assert(e.table_named(n0 as int));
            }
        }
    } else {
        assert(files.remove(sst) =~= files);
    }
    if e.log_in_step(files) {
        laws::lemma_log_of(f, state::log_records(files));
    }
}

/// With a log that is written anew, nothing else changes, and it is in step.
proof fn lemma_renewed(
    before: EngineInner,
    files: io::Files,
    after: EngineInner,
    files_after: io::Files,
)
    requires
        before.wf(files),
        after.same(&before),
        files_after == before.renewed(files),
    ensures
        after.wf(files_after),
        before.is_sound(files) ==> after.is_sound(files_after),
        before.tables_kept(files, files_after),
        forall|k: Seq<u8>| #[trigger] after.entry(files_after, k) == before.entry(files, k),
        before.tables_in_step(files) ==> after.tables_in_step(files_after),
        before.log_in_step(files) || before.needs_log() ==> after.log_in_step(files_after),
        before.is_clean(files) ==> after.is_clean(files_after),
{
    lemma_apart(before, files);
    before.levels().lemma_files(files);
    assert forall|n: Seq<u8>| names::extension(n) == Some(
        names::sst_ext(),
    ) implies #[trigger] lsm::agree(files, files_after, n) by {
        assert(names::tmp_name(names::wal_name()) != n);
    }
    assert(before.tables_kept(files, files_after)) by {
        assert forall|i: int| 0 <= i < before.refs().len() implies files_after.contains_key(
            (#[trigger] before.refs()[i]).1,
        ) && files_after[before.refs()[i].1] == files[before.refs()[i].1] by {
            assert(!before.mends(before.refs()[i].1));
        }
    }
    before.lemma_kept(files, files_after);
    after.lemma_same(&before, files_after);
    if before.tables_in_step(files) {
        laws::lemma_tables_stay(before, files, after, files_after);
    }
    if before.needs_log() {
        lemma_records_of(before.mem());
        laws::lemma_log_of(files_after, records_of(before.mem()));
    }
    if before.is_clean(files) {
        laws::lemma_clean_stays(before, files, after, files_after);
    }
}

/// With what was called for mended, nothing else changes, and the files are in
/// step.
pub(crate) proof fn lemma_mended(
    before: EngineInner,
    files: io::Files,
    after: EngineInner,
    files_after: io::Files,
)
    requires
        before.wf(files),
        after.same(&before),
        files_after == before.mended(files),
    ensures
        after.wf(files_after),
        after.is_ordered() == before.is_ordered(),
        before.is_sound(files) ==> after.is_sound(files_after),
        before.tables_kept(files, files_after),
        before.shows_same(files, &after, files_after),
        after.view(files_after) == before.view(files),
        before.tables_in_step(files) ==> after.tables_in_step(files_after),
        before.is_ready(files) ==> after.in_step(files_after),
        before.in_step(files) ==> before.is_ready(files),
        before.is_clean(files) ==> after.is_clean(files_after),
        before.tables_not_mended(),
{
    lemma_apart(before, files);
    lemma_cleaned(before, files);
    let f = before.cleaned(files);
    lemma_renewed(before, f, after, files_after);
    after.lemma_same(&before, files_after);
    assert forall|k: Seq<u8>| #[trigger] after.value(files_after, k) == before.value(files, k) by {
        assert(after.entry(files_after, k) == before.entry(f, k));
        assert(before.entry(f, k) == before.entry(files, k));
    }
    assert(after.view(files_after) =~= before.view(files));
}

/// What is in step needs no mending.
pub proof fn lemma_is_ready(e: EngineInner, files: io::Files)
    requires
        e.in_step(files),
    ensures
        e.is_ready(files),
{
    lemma_cleaned(e, files);
}

/// Where not all could be mended, nothing is lost.
pub(crate) proof fn lemma_mend_stopped(
    before: EngineInner,
    files: io::Files,
    after: EngineInner,
    files_after: io::Files,
)
    requires
        before.wf(files),
        before.mend_stops(files, &after, files_after),
    ensures
        after.wf(files_after),
        after.is_ordered() == before.is_ordered(),
        before.is_sound(files) ==> after.is_sound(files_after),
        before.shows_same(files, &after, files_after),
        before.is_ready(files) ==> after.is_ready(files_after),
        before.in_step(files) ==> state::stands_for(files_after, before.view(files)),
        before.is_ready(files) && before.is_kept(files) ==> after.is_kept(files_after),
        before.tables_not_mended(),
        forall|n: Seq<u8>| !before.mends(n) ==> #[trigger] lsm::agree(files, files_after, n),
{
    let wal = names::wal_name();
    let tmp = names::tmp_name(wal);
    let f = before.cleaned(files);
    assert forall|n: Seq<u8>| !before.mends(n) implies #[trigger] lsm::agree(
        files,
        files_after,
        n,
    ) by {
        assert(lsm::agree(files, f, n));
        if !after.needs_sweep() && files_after != before.renewed(f) {
            assert(lsm::agree(f, files_after, n));
        }
    }
    lemma_apart(before, files);
    lemma_cleaned(before, files);
    if after.needs_sweep() {
        assert(after.cleaned(files_after) =~= f);
        after.lemma_same(&before, files_after);
        if before.tables_in_step(f) {
            laws::lemma_tables_stay(before, f, after, f);
        }
    } else if files_after == before.renewed(f) {
        lemma_renewed(before, f, after, files_after);
    } else {
        before.levels().lemma_files(f);
        assert forall|n: Seq<u8>| names::extension(n) == Some(
            names::sst_ext(),
        ) implies #[trigger] lsm::agree(f, files_after, n) by {
            assert(tmp != n);
        }
        assert(before.tables_kept(f, files_after)) by {
            assert forall|i: int| 0 <= i < before.refs().len() implies files_after.contains_key(
                (#[trigger] before.refs()[i]).1,
            ) && files_after[before.refs()[i].1] == f[before.refs()[i].1] by {
                assert(!before.mends(before.refs()[i].1));
                assert(lsm::agree(f, files_after, before.refs()[i].1));
            }
        }
        before.lemma_kept(f, files_after);
        after.lemma_same(&before, files_after);
        if before.tables_in_step(f) {
            laws::lemma_tables_stay(before, f, after, files_after);
        }
        assert(lsm::agree(f, files_after, wal));
        if before.log_in_step(f) {
            laws::lemma_log_of(files_after, state::log_records(f));
        }
    }
    after.lemma_same(&before, files_after);
    assert forall|k: Seq<u8>| #[trigger] after.value(files_after, k) == before.value(files, k) by {
        assert(before.entry(f, k) == before.entry(files, k));
        assert(after.entry(files_after, k) == before.entry(f, k));
    }
    assert(after.view(files_after) =~= before.view(files));
    if before.in_step(files) {
        if after.needs_sweep() {
            laws::lemma_tables_stay(before, files, after, files_after);
        }
        laws::lemma_files_stand_for_engine(after, files_after);
    }
    if before.is_ready(files) && before.is_kept(files) {
        lemma_still_kept(before, files, after, files_after);
    }
}

/// Where not all could be mended, the files are kept.
proof fn lemma_still_kept(
    before: EngineInner,
    files: io::Files,
    after: EngineInner,
    files_after: io::Files,
)
    requires
        before.is_ready(files),
        before.is_kept(files),
        before.mend_stops(files, &after, files_after),
        after.wf(files_after),
        after.view(files_after) == before.view(files),
    ensures
        after.is_kept(files_after),
{
    let wal = names::wal_name();
    let tmp = names::tmp_name(wal);
    let f = before.cleaned(files);
    lemma_cleaned(before, files);
    lemma_apart(before, files);
    if files_after == files {
    } else if after.needs_sweep() {
        laws::lemma_tables_stay(before, f, after, f);
        laws::lemma_files_stand_for_engine(after, files_after);
    } else if files_after == before.renewed(f) {
        lemma_renewed(before, f, after, files_after);
        laws::lemma_files_stand_for_engine(after, files_after);
    } else {
        let view = before.view(files);
        assert forall|n: Seq<u8>|
            n == wal || names::parse_sst(n) is Some implies #[trigger] lsm::agree(
            f,
            files_after,
            n,
        ) by {
            assert(tmp != n);
        }
        if before.needs_sweep() {
            laws::lemma_tables_stay(before, f, after, files_after);
            assert(lsm::agree(f, files_after, wal));
            laws::lemma_log_of(files_after, state::log_records(f));
            laws::lemma_files_stand_for_engine(after, files_after);
        } else if state::stands_for(files, view) {
            laws::lemma_others_stand(files, files_after, view);
        } else {
            let rec = choose|rec: RecordView| #[trigger]
                state::stands_for(files, laws::updated(view, rec));
            laws::lemma_others_stand(files, files_after, laws::updated(view, rec));
        }
    }
}

/// `after` differs from `before` in the temporary file of the log at most, or
/// that has replaced the log, as the log of `mem`.
pub open spec fn renew_stops(before: io::Files, mem: Pairs, after: io::Files) -> bool {
    let wal = names::wal_name();
    let tmp = names::tmp_name(wal);
    ||| forall|n: Seq<u8>| n != tmp ==> #[trigger] lsm::agree(before, after, n)
    ||| after == before.remove(tmp).insert(wal, log_of(mem))
}

impl EngineInner {
    /// The file `n` may be mended: the log, its temporary file, or the table of
    /// a compaction that stopped.
    pub open spec fn mends(&self, n: Seq<u8>) -> bool {
        ||| n == names::wal_name()
        ||| n == names::tmp_name(names::wal_name())
        ||| n == names::sst_name(1, self.next_id())
    }

    /// No table is mended.
    pub open spec fn tables_not_mended(&self) -> bool {
        forall|i: int|
            0 <= i < self.refs().len() ==> !self.mends((#[trigger] self.refs()[i]).1)
    }

    /// The files with the log written anew, if that is called for.
    pub open spec fn renewed(&self, files: io::Files) -> io::Files {
        if self.needs_log() {
            let wal = names::wal_name();
            files.remove(names::tmp_name(wal)).insert(wal, log_of(self.mem()))
        } else {
            files
        }
    }

    /// The files once all was mended that is called for.
    pub open spec fn mended(&self, files: io::Files) -> io::Files {
        self.renewed(self.cleaned(files))
    }

    /// Mending stopped: at the table that is to be removed, or at the log.
    pub open spec fn mend_stops(
        &self,
        files: io::Files,
        after: &EngineInner,
        files_after: io::Files,
    ) -> bool {
        &&& after.same(self)
        &&& after.needs_log() == self.needs_log()
        &&& if after.needs_sweep() {
            self.needs_sweep() && (files_after == files || files_after == self.cleaned(files))
        } else {
            self.needs_log() && renew_stops(self.cleaned(files), self.mem(), files_after)
        }
    }

    /// Mends what a failed operation left.
    pub(crate) fn mend<I: Io>(&mut self, io: &mut I, dir: &str) -> (r: Result<()>)
        requires
            old(self).wf(old(io).files()),
        ensures
            match r {
                Ok(_) => {
                    &&& final(self).same(old(self))
                    &&& !final(self).needs_log()
                    &&& !final(self).needs_sweep()
                    &&& final(io).files() == old(self).mended(old(io).files())
                    &&& old(self).needs_log() ==> final(io).is_synced(names::wal_name())
                        && final(io).is_linked(names::wal_name())
                    &&& !old(self).needs_log() && !old(self).needs_sweep() ==> *final(io) == *old(
                        io,
                    )
                },
                Err(e) => {
                    &&& e is Io
                    &&& !old(io).is_reliable()
                    &&& old(self).needs_log() || old(self).needs_sweep()
                    &&& old(self).mend_stops(old(io).files(), final(self), final(io).files())
                },
            },
            final(io).is_reliable() == old(io).is_reliable(),
            !old(self).needs_log() && old(io).is_synced(names::wal_name())
                ==> final(io).is_synced(names::wal_name()),
            !old(self).needs_log() && old(io).is_linked(names::wal_name())
                ==> final(io).is_linked(names::wal_name()),
            forall|o: Seq<u8>|
                !old(self).mends(o) && old(io).is_synced(o) ==> #[trigger] final(io).is_synced(o),
            forall|o: Seq<u8>|
                !old(self).mends(o) && old(io).is_linked(o) ==> #[trigger] final(io).is_linked(o),
    {
        let ghost before = *self;
        proof {
            lemma_cleaned(before, io.files());
            lemma_apart(before, io.files());
        }
        if self.leftover {
            match self.remove_leftover(io, dir) {
                Ok(_) => {},
                Err(e) => {
                    return Err(e);
                },
            }
            proof {
                self.lemma_same(&before, io.files());
            }
        }
        if self.stale_log {
            return self.renew_log(io, dir);
        }
        Ok(())
    }

    /// Removes the table of a compaction that stopped, if it is there.
    fn remove_leftover<I: Io>(&mut self, io: &mut I, dir: &str) -> (r: Result<()>)
        requires
            old(self).needs_sweep(),
        ensures
            final(self).same(old(self)),
            final(self).needs_log() == old(self).needs_log(),
            match r {
                Ok(_) => {
                    &&& !final(self).needs_sweep()
                    &&& final(io).files() == old(self).cleaned(old(io).files())
                },
                Err(e) => {
                    &&& e is Io
                    &&& !old(io).is_reliable()
                    &&& final(self).needs_sweep()
                    &&& final(io).files() == old(io).files() || final(io).files() == old(
                        self,
                    ).cleaned(old(io).files())
                },
            },
            final(io).is_reliable() == old(io).is_reliable(),
            forall|o: Seq<u8>|
                o != names::sst_name(1, old(self).next_id()) && old(io).is_synced(o) ==>
                    #[trigger] final(io).is_synced(o),
            forall|o: Seq<u8>|
                o != names::sst_name(1, old(self).next_id()) && old(io).is_linked(o) ==>
                    #[trigger] final(io).is_linked(o),
    {
        let name = sst_filename(1, self.next_sst_id);
        let found = match file_exists(io, dir, name.as_slice()) {
            Ok(b) => b,
            Err(e) => {
                return Err(e);
            },
        };
        assert(!found ==> io.files().remove(name@) =~= io.files());
        if found {
            match io.remove_file(name.as_slice()) {
                Ok(_) => {},
                Err(e) => {
                    return Err(e);
                },
            }
        }
        match io.sync_dir(dir) {
            Ok(_) => {},
            Err(e) => {
                return Err(e);
            },
        }
        self.leftover = false;
        Ok(())
    }

    /// Replaces the log by one that holds the memtable and nothing else.
    fn renew_log<I: Io>(&mut self, io: &mut I, dir: &str) -> (r: Result<()>)
        requires
            old(self).wf(old(io).files()),
        ensures
            final(self).same(old(self)),
            final(self).needs_sweep() == old(self).needs_sweep(),
            match r {
                Ok(_) => {
                    let wal = names::wal_name();
                    &&& !final(self).needs_log()
                    &&& final(io).files() == old(io).files().remove(names::tmp_name(wal)).insert(
                        wal,
                        log_of(old(self).mem()),
                    )
                    &&& final(io).is_synced(wal)
                    &&& final(io).is_linked(wal)
                },
                Err(e) => {
                    &&& e is Io
                    &&& !old(io).is_reliable()
                    &&& final(self).needs_log() == old(self).needs_log()
                    &&& renew_stops(old(io).files(), old(self).mem(), final(io).files())
                },
            },
            final(io).is_reliable() == old(io).is_reliable(),
            forall|o: Seq<u8>|
                o != names::wal_name() && o != names::tmp_name(names::wal_name()) && old(
                    io,
                ).is_synced(o) ==> #[trigger] final(io).is_synced(o),
            forall|o: Seq<u8>|
                o != names::wal_name() && o != names::tmp_name(names::wal_name()) && old(
                    io,
                ).is_linked(o) ==> #[trigger] final(io).is_linked(o),
    {
        let wal = wal_filename();
        let tmp = tmp_filename(wal.as_slice());
        let ghost files = io.files();
        let ghost mem = self.mem();
        proof {
            names::lemma_names_differ(0, 0, wal@);
        }
        match fresh_file(io, tmp.as_slice()) {
            Ok(_) => {},
            Err(e) => {
                return Err(e);
            },
        }
        let header = file_header();
        match io.append(tmp.as_slice(), header.as_slice()) {
            Ok(_) => {},
            Err(e) => {
                return Err(e);
            },
        }
        let entries = self.memtable.iter();
        let mut i: usize = 0;
        proof {
            assert(Seq::<u8>::empty() + header@ =~= log_of(mem.take(0)));
            assert(io.files() =~= files.insert(tmp@, log_of(mem.take(0))));
        }
        while i < entries.len()
            invariant
                i <= entries@.len(),
                wal@ == names::wal_name(),
                tmp@ == names::tmp_name(wal@),
                tmp@ != wal@,
                files == old(io).files(),
                mem == old(self).mem(),
                state::all_storable(mem),
                entries@.len() == mem.len(),
                forall|j: int|
                    0 <= j < entries@.len() ==> (#[trigger] entries@[j]).0@ == mem[j].0
                        && entries@[j].1@ == mem[j].1,
                io.files() == files.insert(tmp@, log_of(mem.take(i as int))),
                io.is_reliable() == old(io).is_reliable(),
                forall|o: Seq<u8>|
                    o != tmp@ && old(io).is_synced(o) ==> #[trigger] io.is_synced(o),
                forall|o: Seq<u8>|
                    o != tmp@ && old(io).is_linked(o) ==> #[trigger] io.is_linked(o),
            decreases entries@.len() - i,
        {
            let (key, entry) = entries[i];
            let ghost rec = record_of(mem[i as int]);
            let mut bytes: Vec<u8> = Vec::new();
            let none: Vec<u8> = Vec::new();
            assert(state::storable(mem[i as int].0, mem[i as int].1));
            assert(none@ =~= Seq::<u8>::empty());
            let encoded = match entry {
                Entry::Put(v) => encode(RecordKind::Put, key, v.as_slice(), &mut bytes),
                Entry::Vector(v) => encode(RecordKind::Vector, key, v.as_slice(), &mut bytes),
                Entry::Tombstone => encode(RecordKind::Delete, key, none.as_slice(), &mut bytes),
            };
            match encoded {
                Ok(_) => {},
                Err(e) => {
                    assert(false);
                    return Err(e);
                },
            }
            match io.append(tmp.as_slice(), bytes.as_slice()) {
                Ok(_) => {},
                Err(e) => {
                    return Err(e);
                },
            }
            proof {
                let t = mem.take(i + 1);
                assert(bytes@ =~= rec.encoding());
                assert(records_of(t).drop_last() =~= records_of(mem.take(i as int)));
                assert(records_of(t).last() == rec);
                assert(log_of(mem.take(i as int)) + bytes@ =~= log_of(t));
                assert(io.files() =~= files.insert(tmp@, log_of(t)));
            }
            i = i + 1;
        }
        assert(mem.take(i as int) =~= mem);
        match io.sync(tmp.as_slice()) {
            Ok(_) => {},
            Err(e) => {
                return Err(e);
            },
        }
        match io.rename(tmp.as_slice(), wal.as_slice()) {
            Ok(_) => {},
            Err(e) => {
                return Err(e);
            },
        }
        proof {
            assert(io.files() =~= files.remove(tmp@).insert(wal@, log_of(mem)));
        }
        match io.sync_dir(dir) {
            Ok(_) => {},
            Err(e) => {
                return Err(e);
            },
        }
        self.stale_log = false;
        Ok(())
    }
}

} // verus!
