//! Recovery of log, memtable and tables from the files of a directory.

use crate::assoc;
use crate::codec::{copy_range, same_bytes};
use crate::engine::discover;
use crate::engine::discover::discover_sstables;
use crate::engine::lsm;
use crate::engine::lsm::EngineInner;
use crate::engine::names;
use crate::engine::names::{tmp_filename, wal_filename};
use crate::engine::state;
use crate::engine::state::TableRef;
use crate::error::{Error, Result};
use crate::io;
use crate::io::Io;
use crate::memtable::{Entry, Memtable};
use crate::sstable::writer;
use crate::wal::log;
use crate::wal::log::FILE_HEADER_LEN;
use crate::wal::record;
use crate::wal::record::{RecordKind, RecordView};
use crate::wal::writer as wal_writer;
use crate::wal::writer::file_header;
use crate::wal::{WalReader, WalWriter};
use vstd::prelude::*;

verus! {

/// How much of a log is copied at a time.
const COPY_SIZE: usize = 65536;

/// True if the directory `dir` holds the file `name`.
pub(crate) fn file_exists<I: Io>(io: &I, dir: &str, name: &[u8]) -> (r: Result<bool>)
    ensures
        match r {
            Ok(b) => b == io.files().contains_key(name@),
            Err(e) => e is Io && !io.is_reliable(),
        },
{
    let listed = match io.list_dir(dir) {
        Ok(l) => l,
        Err(e) => {
            return Err(e);
        },
    };
    let mut i: usize = 0;
    while i < listed.len()
        invariant
            i <= listed@.len(),
            io::lists(listed@, io.files()),
            forall|j: int| 0 <= j < i ==> (#[trigger] listed@[j])@ != name@,
        decreases listed@.len() - i,
    {
        if same_bytes(listed[i].as_slice(), name) {
            return Ok(true);
        }
        i = i + 1;
    }
    Ok(false)
}

/// Removes the log `name` if it is no more than a part of its header. True if
/// there is a log then.
fn drop_cut_log<I: Io>(io: &mut I, dir: &str, name: &[u8]) -> (r: Result<bool>)
    ensures
        match r {
            Ok(there) => {
                let b = old(io).files()[name@];
                let cut = old(io).files().contains_key(name@) && log::is_cut(b);
                &&& there == (old(io).files().contains_key(name@) && !cut)
                &&& final(io).files() == (if cut {
                    old(io).files().remove(name@)
                } else {
                    old(io).files()
                })
                &&& !cut ==> *final(io) == *old(io)
            },
            Err(e) => {
                &&& e is Io
                &&& !old(io).is_reliable()
                &&& final(io).files() == old(io).files()
            },
        },
        final(io).is_reliable() == old(io).is_reliable(),
        forall|o: Seq<u8>|
            o != name@ && old(io).is_synced(o) ==> #[trigger] final(io).is_synced(o),
        forall|o: Seq<u8>|
            o != name@ && old(io).is_linked(o) ==> #[trigger] final(io).is_linked(o),
{
    proof {
        log::lemma_header_len();
    }
    match file_exists(io, dir, name) {
        Ok(true) => {},
        r => {
            return r;
        },
    }
    let ghost b = io.files()[name@];
    let len = match io.len(name) {
        Ok(n) => n,
        Err(e) => {
            return Err(e);
        },
    };
    if len >= FILE_HEADER_LEN as u64 {
        return Ok(true);
    }
    let start = match io.read_at(name, 0, len as usize) {
        Ok(b) => b,
        Err(e) => {
            return Err(e);
        },
    };
    let header = file_header();
    let part = copy_range(header.as_slice(), 0, len as usize);
    proof {
        assert(start@ =~= b);
        assert(part@ =~= log::header().take(len as int));
        if log::is_cut(b) {
            assert(b =~= log::header().take(len as int));
        } else if start@ == part@ {
            assert(b.is_prefix_of(log::header()));
        }
    }
    if !same_bytes(start.as_slice(), part.as_slice()) {
        return Ok(true);
    }
    match io.remove_file(name) {
        Ok(_) => Ok(false),
        Err(e) => Err(e),
    }
}

/// Replays the log `name` into a memtable. Also returns where the last whole
/// record ends, if something follows it.
fn replay_wal<I: Io>(io: &I, name: &[u8]) -> (r: Result<(Memtable, Option<u64>)>)
    ensures
        ({
            let b = io.files()[name@];
            match r {
                Ok((m, torn)) => {
                    let body = b.skip(log::FILE_HEADER_LEN as int);
                    &&& io.files().contains_key(name@)
                    &&& log::header().is_prefix_of(b)
                    &&& log::ends_clean(body)
                    &&& state::replays_to(log::records(body), m.pairs())
                    &&& m.size() == state::replayed_size(log::records(body))
                    &&& state::all_storable(m.pairs())
                    &&& match torn {
                        Some(end) => end <= b.len() && log::whole(b) == b.take(end as int),
                        None => log::whole(b) == b,
                    }
                },
                Err(Error::Corruption(_)) => {
                    &&& io.files().contains_key(name@)
                    &&& !(log::header().is_prefix_of(b) && log::ends_clean(
                        b.skip(log::FILE_HEADER_LEN as int),
                    ))
                },
                Err(e) => e is Io && (io.is_reliable() ==> !io.files().contains_key(name@)),
            }
        }),
{
    let mut wal = match WalReader::open(io, name) {
        Ok(w) => w,
        Err(e) => {
            return Err(e);
        },
    };
    let ghost b = io.files()[name@];
    let ghost body = b.skip(log::FILE_HEADER_LEN as int);
    let ghost mut done: Seq<RecordView> = Seq::empty();
    let mut memtable = Memtable::new();
    proof {
        assert(done + log::records(body) =~= log::records(body));
        assert forall|k: Seq<u8>| #[trigger] assoc::find(memtable.pairs(), k) == state::replayed(
            done,
            k,
        ) by {
            assert(!assoc::has_key(memtable.pairs(), k));
        }
    }
    loop
        invariant
            io.files().contains_key(name@),
            b == io.files()[name@],
            body == b.skip(log::FILE_HEADER_LEN as int),
            log::header().is_prefix_of(b),
            wal.wf(),
            wal.file_name() == name@,
            wal.intact(io.files()),
            wal.end() == b.len(),
            !wal.is_done(),
            log::records(body) == done + log::records(wal.rest(io.files())),
            log::leftover(body) == log::leftover(wal.rest(io.files())),
            state::replays_to(done, memtable.pairs()),
            memtable.size() == state::replayed_size(done),
            state::all_storable(memtable.pairs()),
        decreases wal.rest(io.files()).len(),
    {
        let ghost rest = wal.rest(io.files());
        let at = wal.position();
        match wal.next_record(io) {
            Ok(Some(rec)) => {
                let ghost r = rec@;
                let ghost before = memtable.pairs();
                proof {
                    record::lemma_parse_sound(rest);
                    assert(log::records(rest) == seq![r] + log::records(rest.skip(r.size())));
                    assert(done + log::records(rest) =~= done.push(r) + log::records(
                        rest.skip(r.size()),
                    ));
                }
                let entry = match rec.kind {
                    RecordKind::Put => Entry::Put(rec.value),
                    RecordKind::Vector => Entry::Vector(rec.value),
                    RecordKind::Delete => Entry::Tombstone,
                };
                assert(entry@ == state::record_entry(r));
                let ghost old_table = memtable;
                memtable.set(rec.key, entry);
                proof {
                    assert forall|k: Seq<u8>| #[trigger] assoc::find(memtable.pairs(), k) == (if k
                        == r.key {
                        Some(state::record_entry(r))
                    } else {
                        assoc::find(before, k)
                    }) by {
                        if k != r.key {
                            assert(memtable.entry(k) == old_table.entry(k));
                        }
                    }
                    lsm::lemma_storable_set(before, memtable.pairs(), r);
                    assert forall|k: Seq<u8>| #[trigger] assoc::find(memtable.pairs(), k)
                        == state::replayed(done.push(r), k) by {
                        state::lemma_replayed_push(done, r, k);
                        assert(assoc::find(before, k) == state::replayed(done, k));
                    }
                    assert(done.push(r).drop_last() =~= done);
                    done = done.push(r);
                }
            },
            Ok(None) => {
                let torn = if at < wal.file_end() {
                    Some(at)
                } else {
                    None
                };
                proof {
                    assert(done + log::records(rest) =~= done);
                    assert(log::leftover(body) == rest);
                    log::lemma_whole(b);
                    assert(b.take(b.len() as int) =~= b);
                    assert(at == b.len() - rest.len());
                }
                return Ok((memtable, torn));
            },
            Err(e) => {
                return Err(e);
            },
        }
    }
}

/// `after` differs from `before` in the temporary file of the log at most, or
/// that has replaced the log.
pub open spec fn restart_stops(before: io::Files, after: io::Files) -> bool {
    let wal = names::wal_name();
    let tmp = names::tmp_name(wal);
    ||| forall|n: Seq<u8>| n != tmp ==> #[trigger] lsm::agree(before, after, n)
    ||| before.contains_key(wal) && after == before.remove(tmp).insert(
        wal,
        log::whole(before[wal]),
    )
}

/// Creates the file `name`, or empties it.
pub(crate) fn fresh_file<I: Io>(io: &mut I, name: &[u8]) -> (r: Result<()>)
    ensures
        match r {
            Ok(_) => final(io).files() == old(io).files().insert(name@, Seq::empty()),
            Err(e) => {
                &&& e is Io
                &&& !old(io).is_reliable()
                &&& forall|n: Seq<u8>|
                    n != name@ ==> #[trigger] lsm::agree(old(io).files(), final(io).files(), n)
            },
        },
        final(io).is_reliable() == old(io).is_reliable(),
        forall|o: Seq<u8>|
            o != name@ && old(io).is_synced(o) ==> #[trigger] final(io).is_synced(o),
        forall|o: Seq<u8>|
            o != name@ && old(io).is_linked(o) ==> #[trigger] final(io).is_linked(o),
{
    let ghost files = io.files();
    match io.open_append(name) {
        Ok(_) => {},
        Err(e) => {
            return Err(e);
        },
    }
    let fresh = match io.is_empty(name) {
        Ok(fresh) => fresh,
        Err(e) => {
            return Err(e);
        },
    };
    if !fresh {
        match io.remove_file(name) {
            Ok(_) => {},
            Err(e) => {
                return Err(e);
            },
        }
        match io.open_append(name) {
            Ok(_) => {},
            Err(e) => {
                return Err(e);
            },
        }
    }
    proof {
        assert(io.files()[name@] =~= Seq::<u8>::empty());
        assert(io.files() =~= files.insert(name@, Seq::empty()));
    }
    Ok(())
}

/// Replaces the log by its first `end` bytes, which are its whole records, so
/// that what is appended later is found again.
fn restart_log<I: Io>(io: &mut I, dir: &str, end: u64) -> (r: Result<()>)
    requires
        old(io).files().contains_key(names::wal_name()),
        log::whole(old(io).files()[names::wal_name()]) == old(
            io,
        ).files()[names::wal_name()].take(end as int),
        end <= old(io).files()[names::wal_name()].len(),
    ensures
        match r {
            Ok(_) => {
                let wal = names::wal_name();
                &&& final(io).files() == old(io).files().remove(names::tmp_name(wal)).insert(
                    wal,
                    log::whole(old(io).files()[wal]),
                )
                &&& final(io).is_synced(wal)
                &&& final(io).is_linked(wal)
            },
            Err(e) => {
                &&& e is Io
                &&& !old(io).is_reliable()
                &&& restart_stops(old(io).files(), final(io).files())
            },
        },
        final(io).is_reliable() == old(io).is_reliable(),
        forall|o: Seq<u8>|
            o != names::wal_name() && o != names::tmp_name(names::wal_name()) && old(
                io,
            ).is_synced(o) ==> #[trigger] final(io).is_synced(o),
        forall|o: Seq<u8>|
            o != names::wal_name() && o != names::tmp_name(names::wal_name()) && old(
                io,
            ).is_linked(o) ==> #[trigger] final(io).is_linked(o),
{
    let wal = wal_filename();
    let tmp = tmp_filename(wal.as_slice());
    let ghost files = io.files();
    let ghost b = files[wal@];
    proof {
        names::lemma_names_differ(0, 0, wal@);
    }
    match fresh_file(io, tmp.as_slice()) {
        Ok(_) => {},
        Err(e) => {
            return Err(e);
        },
    }
    let mut done: u64 = 0;
    proof {
        assert(io.files()[tmp@] =~= b.take(0));
        assert(io.files() =~= files.insert(tmp@, b.take(0)));
    }
    while done < end
        invariant
            done <= end,
            wal@ == names::wal_name(),
            tmp@ == names::tmp_name(wal@),
            tmp@ != wal@,
            files.contains_key(wal@),
            b == files[wal@],
            end <= b.len(),
            files == old(io).files(),
            io.files() == files.insert(tmp@, b.take(done as int)),
            io.is_reliable() == old(io).is_reliable(),
            forall|o: Seq<u8>|
                o != tmp@ && old(io).is_synced(o) ==> #[trigger] io.is_synced(o),
            forall|o: Seq<u8>|
                o != tmp@ && old(io).is_linked(o) ==> #[trigger] io.is_linked(o),
        decreases end - done,
    {
        let left = end - done;
        let n: usize = if left < COPY_SIZE as u64 {
            left as usize
        } else {
            COPY_SIZE
        };
        let bytes = match io.read_at(wal.as_slice(), done, n) {
            Ok(bytes) => bytes,
            Err(e) => {
                return Err(e);
            },
        };
        match io.append(tmp.as_slice(), bytes.as_slice()) {
            Ok(_) => {},
            Err(e) => {
                return Err(e);
            },
        }
        proof {
            assert(b.take(done as int) + bytes@ =~= b.take(done + n));
            assert(io.files() =~= files.insert(tmp@, b.take(done + n)));
        }
        done = done + n as u64;
    }
    match io.sync(tmp.as_slice()) {
        Ok(_) => {},
        Err(e) => {
            return Err(e);
        },
    }
    match io.rename(tmp.as_slice(), wal.as_slice()) {
        Ok(_) => {},
        Err(e) => {
            return Err(e);
        },
    }
    proof {
        assert(io.files() =~= files.remove(tmp@).insert(wal@, log::whole(b)));
    }
    io.sync_dir(dir)
}

/// `after` is what is left of `before` when the tables `live` were opened and
/// a log was started where there was none, or no more than a part of its
/// header, or cut off behind its last whole record.
pub open spec fn opens_to(before: io::Files, after: io::Files, live: Seq<TableRef>) -> bool {
    let wal = names::wal_name();
    &&& after.contains_key(wal)
    &&& after[wal] == (if state::has_log(before) {
        log::whole(before[wal])
    } else {
        log::header()
    })
    &&& forall|n: Seq<u8>| #[trigger]
        after.contains_key(n) && n != wal ==> before.contains_key(n) && after[n] == before[n]
    &&& forall|n: Seq<u8>| #[trigger]
        before.contains_key(n) && !after.contains_key(n) ==> discover::expendable(before, n, live)
}

/// What a failed attempt to open leaves of `before`: some files were removed
/// that no longer count, and a new log may have a part of its header, or the
/// log is being cut off.
pub open spec fn open_stops(before: io::Files, after: io::Files) -> bool {
    exists|mid: io::Files|
        (mid == before || discover::tidied(before, mid)) && #[trigger] log_stops(mid, after)
}

/// What a failed attempt to start the log, or to cut it off, leaves of
/// `before`.
pub open spec fn log_stops(before: io::Files, after: io::Files) -> bool {
    let wal = names::wal_name();
    ||| wal_writer::torn_open(before, wal, after)
    ||| restart_stops(before, after)
    ||| before.contains_key(wal) && log::is_cut(before[wal]) && wal_writer::torn_open(
        before.remove(wal),
        wal,
        after,
    )
}

impl EngineInner {
    /// `self` was recovered from `files`.
    pub open spec fn recovered_from(&self, files: io::Files) -> bool {
        &&& state::discovered(
            files,
            self.levels().refs0(),
            self.levels().refs1(),
            self.next_id() as int,
        )
        &&& state::log_readable(files)
        &&& state::replays_to(state::log_records(files), self.mem())
        &&& self.mem_size() == state::replayed_size(state::log_records(files))
    }

    /// `self` was opened on `files`, of which `after` are left.
    pub open spec fn opened_from(&self, files: io::Files, after: io::Files) -> bool {
        &&& self.wf(after)
        &&& !self.is_closed()
        &&& self.recovered_from(files)
        &&& opens_to(files, after, self.refs())
    }

    /// Recovers the state that the files of `dir` stand for.
    pub(crate) fn open<I: Io>(io: &mut I, dir: &str) -> (r: Result<EngineInner>)
        ensures
            match r {
                Ok(e) => {
                    &&& e.wf(final(io).files())
                    &&& !e.is_closed()
                    &&& e.recovered_from(old(io).files())
                    &&& !discover::is_hopeless(old(io).files())
                    &&& opens_to(old(io).files(), final(io).files(), e.refs())
                    &&& old(io).is_reliable() ==> discover::swept(
                        old(io).files(),
                        final(io).files(),
                        e.refs(),
                    )
                    &&& forall|k: Seq<u8>| #[trigger]
                        e.value(final(io).files(), k) == state::recovered(
                            old(io).files(),
                            e.levels().refs0(),
                            e.levels().refs1(),
                            k,
                        )
                    &&& state::has_log(old(io).files()) || (final(io).is_synced(
                        names::wal_name(),
                    ) && final(io).is_linked(names::wal_name()))
                    &&& forall|o: Seq<u8>|
                        old(io).files().contains_key(o) && !discover::expendable(
                            old(io).files(),
                            o,
                            e.refs(),
                        ) && old(io).is_synced(o) ==> #[trigger] final(io).is_synced(o)
                    &&& forall|o: Seq<u8>|
                        old(io).files().contains_key(o) && !discover::expendable(
                            old(io).files(),
                            o,
                            e.refs(),
                        ) && old(io).is_linked(o) ==> #[trigger] final(io).is_linked(o)
                },
                Err(e) => {
                    &&& e is Io || e is Corruption
                    &&& e is Corruption ==> discover::is_unusable(old(io).files())
                        || !state::log_readable(old(io).files())
                    &&& e is Io ==> !old(io).is_reliable()
                    &&& open_stops(old(io).files(), final(io).files())
                },
            },
            final(io).is_reliable() == old(io).is_reliable(),
    {
        let ghost files = io.files();
        let ghost wal = names::wal_name();
        let (levels, next_sst_id) = match discover_sstables(io, dir) {
            Ok(p) => p,
            Err(e) => {
                assert(log_stops(io.files(), io.files()));
                return Err(e);
            },
        };
        let ghost mid = io.files();
        let wal_file = wal_filename();
        proof {
            names::lemma_names_differ(0, 0, wal);
            assert(discover::tidied(files, mid));
            lemma_log_stays(files, mid, levels.refs());
            assert(log_stops(mid, mid));
        }
        let exists_already = match drop_cut_log(io, dir, wal_file.as_slice()) {
            Ok(b) => b,
            Err(e) => {
                return Err(e);
            },
        };
        let ghost clear = io.files();
        let (memtable, torn) = if exists_already {
            match replay_wal(io, wal_file.as_slice()) {
                Ok(p) => p,
                Err(e) => {
                    return Err(e);
                },
            }
        } else {
            (Memtable::new(), None)
        };
        proof {
            if !exists_already {
                assert forall|k: Seq<u8>| #[trigger] assoc::find(memtable.pairs(), k)
                    == state::replayed(state::log_records(files), k) by {
                    assert(!assoc::has_key(memtable.pairs(), k));
                }
            } else {
                log::lemma_header_len();
                log::lemma_whole(clear[wal]);
            }
        }
        match torn {
            Some(end) => {
                match restart_log(io, dir, end) {
                    Ok(_) => {},
                    Err(e) => {
                        assert(log_stops(mid, io.files()));
                        return Err(e);
                    },
                }
            },
            None => {},
        }
        let ghost ready = io.files();
        proof {
            if exists_already {
                let recs = log::records(clear[wal].skip(12));
                assert(log::header().is_prefix_of(ready[wal])) by {
                    assert((log::header() + log::encodings(recs)).subrange(0, 12)
                        =~= log::header());
                }
            }
        }
        let writer = match WalWriter::open(io, wal_file.as_slice(), dir) {
            Ok(w) => w,
            Err(e) => {
                assert(log_stops(mid, io.files()));
                return Err(e);
            },
        };
        let e = EngineInner {
            writer,
            memtable,
            levels,
            next_sst_id,
            closed: false,
            stale_log: false,
            leftover: false,
        };
        proof {
            lemma_opened(e, files, mid, io.files());
            levels.lemma_files(mid);
            assert(levels.refs() =~= levels.refs0() + levels.refs1());
        }
        Ok(e)
    }
}

/// The log is none of what may be removed.
proof fn lemma_log_stays(before: io::Files, after: io::Files, live: Seq<TableRef>)
    requires
        discover::pruned(before, after, live),
    ensures
        lsm::agree(before, after, names::wal_name()),
        !discover::expendable(before, names::wal_name(), live),
{
    let wal = names::wal_name();
    names::lemma_names_differ(0, 0, wal);
}

proof fn lemma_opened(e: EngineInner, files: io::Files, mid: io::Files, after: io::Files)
    requires
        discover::pruned(files, mid, e.refs()),
        e.recovered_from(files),
        e.levels().open_in(mid),
        state::all_storable(e.mem()),
        e.log_name() == names::wal_name(),
        after.contains_key(names::wal_name()),
        after[names::wal_name()] == (if state::has_log(files) {
            log::whole(files[names::wal_name()])
        } else {
            log::header()
        }),
        forall|n: Seq<u8>|
            n != names::wal_name() && n != names::tmp_name(names::wal_name())
                ==> #[trigger] lsm::agree(mid, after, n),
        after.contains_key(names::tmp_name(names::wal_name())) ==> lsm::agree(
            mid,
            after,
            names::tmp_name(names::wal_name()),
        ),
    ensures
        e.wf(after),
        opens_to(files, after, e.refs()),
        forall|k: Seq<u8>| #[trigger]
            e.value(after, k) == state::recovered(
                files,
                e.levels().refs0(),
                e.levels().refs1(),
                k,
            ),
{
    let wal = names::wal_name();
    let l0 = e.levels().refs0();
    let l1 = e.levels().refs1();
    let tmp = names::tmp_name(wal);
    lemma_log_stays(files, mid, e.refs());
    names::lemma_names_differ(0, 0, wal);
    names::lemma_tmp_name(wal);
    assert(names::tmp_ext()[0] != names::sst_ext()[0]);
    assert forall|i: int| 0 <= i < e.refs().len() implies #[trigger] e.table_named(i) by {
        if i < l0.len() {
            assert(state::is_sst(files, l0[i].1, 0, l0[i].0));
            assert(e.refs()[i] == l0[i]);
        } else {
            assert(e.refs()[i] == l1[i - l0.len()]);
            assert(state::is_sst(files, l1[0].1, 1, l1[0].0));
        }
    }
    e.levels().lemma_files(mid);
    assert(e.wf(mid));
    assert(e.tables_kept(mid, after)) by {
        assert forall|i: int| 0 <= i < e.refs().len() implies after.contains_key(
            (#[trigger] e.refs()[i]).1,
        ) && after[e.refs()[i].1] == mid[e.refs()[i].1] by {
            assert(e.table_named(i));
            assert(lsm::agree(mid, after, e.refs()[i].1));
        }
    }
    e.lemma_kept(mid, after);
    assert(opens_to(files, after, e.refs())) by {
        assert forall|n: Seq<u8>| #[trigger] after.contains_key(n) && n
            != wal implies files.contains_key(n) && after[n] == files[n] by {
            assert(lsm::agree(mid, after, n));
            assert(mid.contains_key(n));
        }
        assert forall|n: Seq<u8>| #[trigger]
            files.contains_key(n) && !after.contains_key(n) implies discover::expendable(
            files,
            n,
            e.refs(),
        ) by {
            if n != tmp {
                assert(lsm::agree(mid, after, n));
            }
        }
    }
    let t = e.levels().tables(mid);
    assert(t =~= state::tables_in(files, state::names_of(l0 + l1))) by {
        assert forall|i: int| 0 <= i < t.len() implies t[i] == state::tables_in(
            files,
            state::names_of(l0 + l1),
        )[i] by {
            assert(mid.contains_key(e.refs()[i].1));
        }
    }
    assert forall|k: Seq<u8>| #[trigger] e.value(after, k) == state::recovered(
        files,
        l0,
        l1,
        k,
    ) by {
        assert(e.entry(after, k) == e.entry(mid, k));
        assert(assoc::find(e.mem(), k) == state::replayed(state::log_records(files), k));
    }
}

} // verus!
