//! What the files stand for at every point: the state that the engine shows.

use crate::assoc;
use crate::engine::discover;
use crate::engine::lsm;
use crate::engine::lsm::compact;
use crate::engine::lsm::recover;
use crate::engine::lsm::EngineInner;
use crate::engine::names;
use crate::engine::state;
use crate::engine::state::TableRef;
use crate::io;
use crate::memtable::EntryView;
use crate::sstable::layout;
use crate::sstable::layout::Pairs;
use crate::wal::log;
use crate::wal::record;
use crate::wal::record::RecordView;
use vstd::prelude::*;

verus! {

/// Every table has the name that its level and its number give it.
pub open spec fn is_tidy(files: io::Files) -> bool {
    forall|n: Seq<u8>, level: u8, id: u64| #[trigger]
        state::is_sst(files, n, level, id) ==> n == names::sst_name(level, id)
}

impl EngineInner {
    /// The log holds the records that the memtable stems from, and nothing
    /// else.
    pub open spec fn log_in_step(&self, files: io::Files) -> bool {
        let recs = state::log_records(files);
        &&& files.contains_key(names::wal_name())
        &&& files[names::wal_name()] == log::header() + log::encodings(recs)
        &&& log::all_valid(recs)
        &&& state::replays_to(recs, self.mem())
    }

    /// The table `id` at `level` no longer counts: the table at the bottom
    /// level is newer.
    pub open spec fn is_buried(&self, level: u8, id: u64) -> bool {
        let l1 = self.levels().refs1();
        l1.len() == 1 && (level == 1 && id < l1[0].0 || level == 0 && id <= l1[0].0)
    }

    /// The table in the file `n` has no damage, and adds nothing to the
    /// memtable.
    pub open spec fn is_covered(&self, files: io::Files, n: Seq<u8>) -> bool {
        &&& state::is_sound(files[n])
        &&& forall|k: Seq<u8>| #[trigger]
            assoc::has_key(state::pairs_in(files[n]), k) ==> assoc::has_key(self.mem(), k)
    }

    /// The file `n` with the table `id` at `level` is in its place: it is one
    /// of the tables, or no longer counts, or is left from a flush that did
    /// not come to its end.
    pub open spec fn is_placed(&self, files: io::Files, n: Seq<u8>, level: u8, id: u64) -> bool {
        ||| self.refs().contains((id, n))
        ||| level >= 2 && id < self.next_id()
        ||| self.is_buried(level, id)
        ||| level == 0 && id == self.next_id() && self.is_covered(files, n)
    }

    /// Every table on disk is in its place.
    pub open spec fn tables_in_step(&self, files: io::Files) -> bool {
        &&& is_tidy(files)
        &&& self.is_ordered()
        &&& forall|n: Seq<u8>, level: u8, id: u64| #[trigger]
            state::is_sst(files, n, level, id) ==> self.is_placed(files, n, level, id)
    }

    /// The files hold what the engine holds.
    pub open spec fn in_step(&self, files: io::Files) -> bool {
        &&& self.wf(files)
        &&& self.log_in_step(files)
        &&& self.tables_in_step(files)
    }

    /// The files without the table of a compaction that stopped, if that is to
    /// be removed.
    pub open spec fn cleaned(&self, files: io::Files) -> io::Files {
        if self.needs_sweep() {
            files.remove(names::sst_name(1, self.next_id()))
        } else {
            files
        }
    }

    /// Once all was mended that is called for, the files hold what the engine
    /// holds.
    pub open spec fn is_ready(&self, files: io::Files) -> bool {
        &&& self.wf(files)
        &&& self.log_in_step(files) || self.needs_log() && !self.needs_sweep()
        &&& self.tables_in_step(self.cleaned(files))
    }

    /// The files stand for what the engine shows, or for that with one record
    /// more, which was not acknowledged.
    pub open spec fn is_kept(&self, files: io::Files) -> bool {
        ||| state::stands_for(files, self.view(files))
        ||| exists|rec: RecordView| #[trigger]
            state::stands_for(files, updated(self.view(files), rec))
    }

    /// Every file of a table, at one of the two levels, is one of the tables.
    pub open spec fn is_clean(&self, files: io::Files) -> bool {
        forall|n: Seq<u8>, level: u8, id: u64| #[trigger]
            state::is_sst(files, n, level, id) && level <= 1 ==> self.refs().contains((id, n))
    }

    /// What a compaction keeps for `k`: what the newest table that has it holds,
    /// unless that is a tombstone.
    pub open spec fn kept(&self, files: io::Files, k: Seq<u8>) -> Option<EntryView> {
        state::unmasked(state::newest(self.levels().tables(files), k))
    }

    /// What each key holds.
    pub open spec fn view(&self, files: io::Files) -> spec_fn(Seq<u8>) -> Option<EntryView> {
        |k: Seq<u8>| self.value(files, k)
    }
}

/// `view` after the record `r`.
pub open spec fn updated(
    view: spec_fn(Seq<u8>) -> Option<EntryView>,
    r: RecordView,
) -> spec_fn(Seq<u8>) -> Option<EntryView> {
    |k: Seq<u8>|
        if k == r.key {
            state::unmasked(Some(state::record_entry(r)))
        } else {
            view(k)
        }
}

/// A log of `recs`, and nothing else, replays to `recs`.
pub proof fn lemma_log_of(files: io::Files, recs: Seq<RecordView>)
    requires
        files.contains_key(names::wal_name()),
        files[names::wal_name()] == log::header() + log::encodings(recs),
        log::all_valid(recs),
    ensures
        state::log_records(files) == recs,
        state::log_readable(files),
{
    let b = files[names::wal_name()];
    let body = log::encodings(recs);
    log::lemma_header_len();
    assert(b.skip(12) =~= body);
    assert(log::header().is_prefix_of(b)) by {
        assert(b.subrange(0, 12) =~= log::header());
    }
    log::lemma_replay_whole(recs);
}

/// The ids descend strictly.
spec fn descends(s: Seq<TableRef>) -> bool {
    forall|i: int, j: int| 0 <= i < j < s.len() ==> (#[trigger] s[i]).0 > (#[trigger] s[j]).0
}

/// Two strictly descending sequences of the same tables are equal.
proof fn lemma_descending_unique(a: Seq<TableRef>, b: Seq<TableRef>)
    requires
        descends(a),
        descends(b),
        forall|x: TableRef| #[trigger] a.contains(x) <==> b.contains(x),
    ensures
        a == b,
    decreases a.len(),
{
    if a.len() == 0 {
        if b.len() > 0 {
            assert(b.contains(b[0]));
            assert(a.contains(b[0]));
        }
        assert(a =~= b);
    } else {
        assert(a.contains(a[0]));
        assert(b.contains(a[0]));
        assert(b.contains(b[0]));
        assert(a.contains(b[0]));
        let i = choose|i: int| 0 <= i < b.len() && b[i] == a[0];
        let j = choose|j: int| 0 <= j < a.len() && a[j] == b[0];
        if i > 0 {
            assert(b[0].0 > b[i].0);
            if j > 0 {
                assert(a[0].0 > a[j].0);
            }
        }
        assert(a[0] == b[0]);
        let x = a.skip(1);
        let y = b.skip(1);
        assert(descends(x)) by {
            assert forall|i: int, j: int| 0 <= i < j < x.len() implies (#[trigger] x[i]).0 > (
            #[trigger] x[j]).0 by {
                assert(a[i + 1].0 > a[j + 1].0);
            }
        }
        assert(descends(y)) by {
            assert forall|i: int, j: int| 0 <= i < j < y.len() implies (#[trigger] y[i]).0 > (
            #[trigger] y[j]).0 by {
                assert(b[i + 1].0 > b[j + 1].0);
            }
        }
        assert forall|t: TableRef| #[trigger] x.contains(t) <==> y.contains(t) by {
            if x.contains(t) {
                let i = choose|i: int| 0 <= i < x.len() && x[i] == t;
                assert(a[i + 1] == t);
                assert(a.contains(t));
                assert(b.contains(t));
                let j = choose|j: int| 0 <= j < b.len() && b[j] == t;
                assert(a[0].0 > a[i + 1].0);
                assert(j > 0);
                assert(y[j - 1] == t);
            }
            if y.contains(t) {
                let i = choose|i: int| 0 <= i < y.len() && y[i] == t;
                assert(b[i + 1] == t);
                assert(b.contains(t));
                assert(a.contains(t));
                let j = choose|j: int| 0 <= j < a.len() && a[j] == t;
                assert(b[0].0 > b[i + 1].0);
                assert(j > 0);
                assert(x[j - 1] == t);
            }
        }
        lemma_descending_unique(x, y);
        assert(a =~= seq![a[0]] + x);
        assert(b =~= seq![b[0]] + y);
    }
}

/// What is found on disk when every table is in its place: the tables, and
/// maybe one that is left from a flush.
pub(crate) proof fn lemma_found(
    e: EngineInner,
    files: io::Files,
    l0: Seq<TableRef>,
    l1: Seq<TableRef>,
    next: int,
)
    requires
        e.wf(files),
        e.tables_in_step(files),
        state::discovered(files, l0, l1, next),
    ensures
        l1 == e.levels().refs1(),
        ({
            let p = (e.next_id(), names::sst_name(0, e.next_id()));
            ||| l0 == e.levels().refs0()
            ||| l0 == seq![p] + e.levels().refs0() && e.is_covered(files, p.1)
        }),
{
    let r0 = e.levels().refs0();
    let r1 = e.levels().refs1();
    let refs = e.refs();
    let p = (e.next_id(), names::sst_name(0, e.next_id()));
    e.levels().lemma_files(files);
    // The bottom level.
    assert forall|n: Seq<u8>, id: u64| #[trigger] state::is_sst(
        files,
        n,
        1,
        id,
    ) implies r1.len() == 1 && ((id, n) == r1[0] || id < r1[0].0) by {
        assert(e.is_placed(files, n, 1, id));
        if refs.contains((id, n)) {
            let i = choose|i: int| 0 <= i < refs.len() && refs[i] == (id, n);
            assert(e.table_named(i));
            assert(refs[i] == r1[i - r0.len()]);
        }
    }
    if r1.len() == 1 {
        assert(refs[r0.len() as int] == r1[0]);
        assert(e.table_named(r0.len() as int));
        assert(state::is_sst(files, r1[0].1, 1, r1[0].0));
        assert(state::is_sst(files, l1[0].1, 1, l1[0].0));
        assert(l1 =~= r1);
    } else {
        if l1.len() == 1 {
            assert(state::is_sst(files, l1[0].1, 1, l1[0].0));
        }
        assert(l1 =~= r1);
    }
    // The top level.
    let has_p = l0.contains(p);
    let target = if has_p {
        seq![p] + r0
    } else {
        r0
    };
    assert forall|x: TableRef| #[trigger] l0.contains(x) <==> target.contains(x) by {
        if l0.contains(x) {
            let i = choose|i: int| 0 <= i < l0.len() && l0[i] == x;
            assert(state::is_sst(files, l0[i].1, 0, l0[i].0));
            assert(e.is_placed(files, x.1, 0, x.0));
            if refs.contains((x.0, x.1)) {
                let j = choose|j: int| 0 <= j < refs.len() && refs[j] == (x.0, x.1);
                assert(e.table_named(j));
                assert(refs[j] == r0[j]);
                if has_p {
                    assert(target[j + 1] == r0[j]);
                }
            } else if e.is_buried(0, x.0) {
                assert(state::above(l1, l0[i].0));
            } else {
                assert(x == p);
                assert(target[0] == p);
            }
        }
        if target.contains(x) {
            let i = choose|i: int| 0 <= i < target.len() && target[i] == x;
            let j = if has_p {
                i - 1
            } else {
                i
            };
            if j >= 0 {
                assert(r0[j] == x);
                assert(refs[j] == x);
                assert(e.table_named(j));
                assert(state::is_sst(files, x.1, 0, x.0));
                if r1.len() == 1 {
                    assert(refs[r0.len() as int] == r1[0]);
                    assert(refs[j].0 > refs[r0.len() as int].0);
                }
                assert(state::above(l1, x.0));
                assert(l0.contains((x.0, x.1)));
            }
        }
    }
    assert(descends(target)) by {
        assert forall|i: int, j: int| 0 <= i < j < target.len() implies (#[trigger] target[i]).0 > (
        #[trigger] target[j]).0 by {
            let a = if has_p {
                i - 1
            } else {
                i
            };
            let b = if has_p {
                j - 1
            } else {
                j
            };
            assert(target[j] == refs[b]);
            if a >= 0 {
                assert(target[i] == refs[a]);
                assert(refs[a].0 > refs[b].0);
            } else {
                assert(e.table_named(b));
            }
        }
    }
    assert(descends(l0)) by {
        assert forall|i: int, j: int| 0 <= i < j < l0.len() implies (#[trigger] l0[i]).0 > (
        #[trigger] l0[j]).0 by {
            assert(state::is_sst(files, l0[i].1, 0, l0[i].0));
            assert(state::is_sst(files, l0[j].1, 0, l0[j].0));
        }
    }
    lemma_descending_unique(l0, target);
    if has_p {
        let i = choose|i: int| 0 <= i < l0.len() && l0[i] == p;
        assert(state::is_sst(files, l0[i].1, 0, l0[i].0));
        assert(e.is_placed(files, p.1, 0, p.0));
        if refs.contains((p.0, p.1)) {
            let j = choose|j: int| 0 <= j < refs.len() && refs[j] == (p.0, p.1);
            assert(e.table_named(j));
        }
        if e.is_buried(0, p.0) {
            assert(refs[r0.len() as int] == r1[0]);
            assert(e.table_named(r0.len() as int));
        }
    }
}

/// While every table is in its place, the files stand for what log and tables
/// give, whatever the log holds beyond the memtable.
proof fn lemma_stands_with_log(
    e: EngineInner,
    files: io::Files,
    view: spec_fn(Seq<u8>) -> Option<EntryView>,
)
    requires
        e.wf(files),
        e.tables_in_step(files),
        state::log_readable(files),
        (forall|n: Seq<u8>| !(#[trigger] state::is_sst(files, n, 0, e.next_id()))) || (forall|
            k: Seq<u8>,
        | #[trigger]
            assoc::has_key(e.mem(), k) ==> state::replayed(state::log_records(files), k) is Some),
        forall|k: Seq<u8>| #[trigger]
            view(k) == state::unmasked(
                match state::replayed(state::log_records(files), k) {
                    Some(x) => Some(x),
                    None => state::newest(e.levels().tables(files), k),
                },
            ),
    ensures
        state::stands_for(files, view),
{
    let p = (e.next_id(), names::sst_name(0, e.next_id()));
    let refs = e.refs();
    let tables = e.levels().tables(files);
    e.levels().lemma_files(files);
    assert forall|l0: Seq<TableRef>, l1: Seq<TableRef>, next: int| #[trigger]
        state::discovered(files, l0, l1, next) implies {
        &&& forall|i: int|
            0 <= i < (l0 + l1).len() ==> layout::is_table(files[(#[trigger] (l0 + l1)[i]).1])
        &&& forall|k: Seq<u8>| #[trigger] state::recovered(files, l0, l1, k) == view(k)
    } by {
        lemma_found(e, files, l0, l1, next);
        let all = l0 + l1;
        let found = state::tables_in(files, state::names_of(all));
        if l0 == e.levels().refs0() {
            assert(all == refs);
        } else {
            assert(l0[0] == p);
            assert(state::is_sst(files, p.1, 0, p.0));
            assert(all =~= seq![p] + refs);
            assert(found =~= seq![state::pairs_in(files[p.1])] + tables) by {
                assert forall|i: int| 0 <= i < found.len() implies found[i] == (seq![
                    state::pairs_in(files[p.1]),
                ] + tables)[i] by {
                    if i > 0 {
                        assert(all[i] == refs[i - 1]);
                    }
                }
            }
        }
        assert forall|i: int| 0 <= i < all.len() implies layout::is_table(
            files[(#[trigger] all[i]).1],
        ) by {
            if all != refs && i > 0 {
                assert(all[i] == refs[i - 1]);
            }
        }
        assert forall|k: Seq<u8>| #[trigger] state::recovered(files, l0, l1, k) == view(k) by {
            let r = state::replayed(state::log_records(files), k);
            if r is None && all != refs {
                state::lemma_newest_front(state::pairs_in(files[p.1]), tables, k);
                assert(!assoc::has_key(e.mem(), k));
                assert(!assoc::has_key(state::pairs_in(files[p.1]), k));
            }
        }
    }
}

/// The files of an engine stand for what the engine shows: whoever opens them
/// finds for each key what it holds now.
pub proof fn lemma_files_stand_for_engine(e: EngineInner, files: io::Files)
    requires
        e.in_step(files),
    ensures
        state::stands_for(files, e.view(files)),
{
    let recs = state::log_records(files);
    lemma_log_of(files, recs);
    assert forall|k: Seq<u8>| #[trigger] assoc::has_key(e.mem(), k) implies state::replayed(
        recs,
        k,
    ) is Some by {
        assert(assoc::find(e.mem(), k) == state::replayed(recs, k));
    }
    let view = e.view(files);
    assert forall|k: Seq<u8>| #[trigger] view(k) == state::unmasked(
        match state::replayed(recs, k) {
            Some(x) => Some(x),
            None => state::newest(e.levels().tables(files), k),
        },
    ) by {
        assert(assoc::find(e.mem(), k) == state::replayed(recs, k));
    }
    lemma_stands_with_log(e, files, view);
}

/// The files of an engine whose tables have no damage can be opened again:
/// log and tables can be read, no table has damage, and each key holds what it
/// holds now.
pub proof fn lemma_opens_again(e: EngineInner, files: io::Files)
    requires
        e.in_step(files),
        e.is_sound(files),
        e.next_id() < u64::MAX,
        forall|n: Seq<u8>| #[trigger] files.contains_key(n) ==> files[n].len() <= usize::MAX,
    ensures
        !discover::is_unusable(files),
        state::log_readable(files),
        forall|x: EngineInner, mid: io::Files| #[trigger]
            x.opened_from(files, mid) ==> x.is_sound(mid) && forall|k: Seq<u8>| #[trigger]
                x.value(mid, k) == e.value(files, k),
{
    lemma_files_stand_for_engine(e, files);
    assert forall|l0: Seq<TableRef>, l1: Seq<TableRef>, next: int| #[trigger]
        state::discovered(files, l0, l1, next) implies next <= u64::MAX && forall|i: int|
        0 <= i < (l0 + l1).len() ==> state::is_sound(files[(#[trigger] (l0 + l1)[i]).1]) by {
        lemma_found(e, files, l0, l1, next);
        let r0 = e.levels().refs0();
        assert forall|i: int| 0 <= i < (l0 + l1).len() implies state::is_sound(
            files[(#[trigger] (l0 + l1)[i]).1],
        ) by {
            let t = (l0 + l1)[i];
            if l0 == r0 {
                assert(e.refs()[i] == t);
            } else if i > 0 {
                assert(e.refs()[i - 1] == t);
            }
        }
        if next != 0 {
            let (n, level, id) = choose|n: Seq<u8>, level: u8, id: u64|
                #[trigger] state::is_sst(files, n, level, id) && id == next - 1;
            assert(e.is_placed(files, n, level, id));
            if e.refs().contains((id, n)) {
                let i = choose|i: int| 0 <= i < e.refs().len() && e.refs()[i] == (id, n);
                assert(e.table_named(i));
            } else if e.is_buried(level, id) {
                assert(e.refs()[r0.len() as int] == e.levels().refs1()[0]);
                assert(e.table_named(r0.len() as int));
            }
        }
    }
    if discover::is_unusable(files) {
        let (l0, l1, next) = choose|l0: Seq<TableRef>, l1: Seq<TableRef>, next: int|
            #[trigger] state::discovered(files, l0, l1, next) && (next > u64::MAX
                || discover::some_damaged(files, l0 + l1));
        let i = choose|i: int|
            0 <= i < (l0 + l1).len() && discover::is_damaged(files, (#[trigger] (l0 + l1)[i]).1);
        assert(state::is_sound(files[(l0 + l1)[i].1]));
    }
    assert forall|x: EngineInner, mid: io::Files| #[trigger]
        x.opened_from(files, mid) implies x.is_sound(mid) && forall|k: Seq<u8>| #[trigger]
        x.value(mid, k) == e.value(files, k) by {
        lemma_opened_values(x, files, mid);
        assert forall|k: Seq<u8>| #[trigger] x.value(mid, k) == e.value(files, k) by {
            assert(x.value(mid, k) == state::recovered(
                files,
                x.levels().refs0(),
                x.levels().refs1(),
                k,
            ));
            assert(e.view(files)(k) == e.value(files, k));
        }
        assert forall|i: int| 0 <= i < x.refs().len() implies state::is_sound(
            mid[(#[trigger] x.refs()[i]).1],
        ) by {
            assert(mid[x.refs()[i].1] == files[x.refs()[i].1]);
        }
    }
}

/// The tables of an engine that was opened are those of the files.
proof fn lemma_opened_values(x: EngineInner, files: io::Files, mid: io::Files)
    requires
        x.opened_from(files, mid),
    ensures
        forall|i: int|
            0 <= i < x.refs().len() ==> mid[(#[trigger] x.refs()[i]).1] == files[x.refs()[i].1],
        forall|k: Seq<u8>| #[trigger]
            x.value(mid, k) == state::recovered(files, x.levels().refs0(), x.levels().refs1(), k),
{
    let l0 = x.levels().refs0();
    let l1 = x.levels().refs1();
    names::lemma_names_differ(0, 0, names::wal_name());
    x.levels().lemma_files(mid);
    assert forall|i: int| 0 <= i < x.refs().len() implies mid[(#[trigger] x.refs()[i]).1]
        == files[x.refs()[i].1] by {
        assert(x.table_named(i));
        assert(mid.contains_key(x.refs()[i].1));
    }
    let t = x.levels().tables(mid);
    assert(t =~= state::tables_in(files, state::names_of(l0 + l1))) by {
        assert forall|i: int| 0 <= i < t.len() implies t[i] == state::tables_in(
            files,
            state::names_of(l0 + l1),
        )[i] by {
            assert(mid[x.refs()[i].1] == files[x.refs()[i].1]);
        }
    }
    assert forall|k: Seq<u8>| #[trigger] x.value(mid, k) == state::recovered(
        files,
        l0,
        l1,
        k,
    ) by {
        assert(assoc::find(x.mem(), k) == state::replayed(state::log_records(files), k));
    }
}

/// An engine that was recovered from files that stand for a state shows that
/// state.
pub proof fn lemma_reopened(
    e: EngineInner,
    before: io::Files,
    files: io::Files,
    view: spec_fn(Seq<u8>) -> Option<EntryView>,
)
    requires
        state::stands_for(before, view),
        e.recovered_from(before),
        forall|k: Seq<u8>| #[trigger]
            e.value(files, k) == state::recovered(
                before,
                e.levels().refs0(),
                e.levels().refs1(),
                k,
            ),
    ensures
        forall|k: Seq<u8>| #[trigger] e.value(files, k) == view(k),
{
    assert forall|k: Seq<u8>| #[trigger] e.value(files, k) == view(k) by {
        assert(state::recovered(before, e.levels().refs0(), e.levels().refs1(), k) == view(k));
    }
}

/// Tables stay in their places while no table file changes and the memtable
/// keeps its keys.
pub proof fn lemma_tables_stay(
    before: EngineInner,
    files: io::Files,
    after: EngineInner,
    files_after: io::Files,
)
    requires
        before.tables_in_step(files),
        after.levels() == before.levels(),
        after.next_id() == before.next_id(),
        forall|k: Seq<u8>| #[trigger]
            assoc::has_key(before.mem(), k) ==> assoc::has_key(after.mem(), k),
        forall|n: Seq<u8>|
            names::extension(n) == Some(names::sst_ext()) && names::parse_sst(n) is Some ==>
                #[trigger] lsm::agree(files, files_after, n),
    ensures
        after.tables_in_step(files_after),
{
    assert forall|n: Seq<u8>, level: u8, id: u64| #[trigger]
        state::is_sst(files_after, n, level, id) implies state::is_sst(files, n, level, id)
        && after.is_placed(files_after, n, level, id) by {
        assert(lsm::agree(files, files_after, n));
        assert(state::is_sst(files, n, level, id));
        assert(before.is_placed(files, n, level, id));
    }
    assert(is_tidy(files_after)) by {
        assert forall|n: Seq<u8>, level: u8, id: u64| #[trigger]
            state::is_sst(files_after, n, level, id) implies n == names::sst_name(level, id) by {
            assert(state::is_sst(files, n, level, id));
        }
    }
}

/// Whatever happens to other files, files and engine stay in step.
pub proof fn lemma_others_in_step(e: EngineInner, before: io::Files, after: io::Files)
    requires
        e.wf(before),
        e.tables_in_step(before),
        forall|n: Seq<u8>|
            n == names::wal_name() || names::parse_sst(n) is Some ==> #[trigger] lsm::agree(
                before,
                after,
                n,
            ),
    ensures
        e.tables_in_step(after),
        e.in_step(before) ==> e.in_step(after),
        forall|k: Seq<u8>| #[trigger] e.entry(after, k) == e.entry(before, k),
{
    e.levels().lemma_files(before);
    assert(e.tables_kept(before, after)) by {
        assert forall|i: int| 0 <= i < e.refs().len() implies after.contains_key(
            (#[trigger] e.refs()[i]).1,
        ) && after[e.refs()[i].1] == before[e.refs()[i].1] by {
            assert(e.table_named(i));
            assert(lsm::agree(before, after, e.refs()[i].1));
        }
    }
    e.lemma_kept(before, after);
    assert(lsm::agree(before, after, names::wal_name()));
    if e.in_step(before) {
        lemma_log_of(after, state::log_records(before));
    }
    lemma_tables_stay(e, before, e, after);
}

/// Files that agree on the log and the tables stand for the same state.
pub proof fn lemma_others_stand(
    before: io::Files,
    after: io::Files,
    view: spec_fn(Seq<u8>) -> Option<EntryView>,
)
    requires
        state::stands_for(before, view),
        forall|n: Seq<u8>|
            n == names::wal_name() || names::parse_sst(n) is Some ==> #[trigger] lsm::agree(
                before,
                after,
                n,
            ),
    ensures
        state::stands_for(after, view),
{
    assert(lsm::agree(before, after, names::wal_name()));
    assert(state::log_records(after) == state::log_records(before));
    assert forall|n: Seq<u8>, level: u8, id: u64| #[trigger]
        state::is_sst(after, n, level, id) == state::is_sst(before, n, level, id) by {
        if names::parse_sst(n) is Some {
            assert(lsm::agree(before, after, n));
        }
    }
    assert forall|l0: Seq<TableRef>, l1: Seq<TableRef>, next: int| #[trigger]
        state::discovered(after, l0, l1, next) implies {
        &&& forall|i: int|
            0 <= i < (l0 + l1).len() ==> layout::is_table(after[(#[trigger] (l0 + l1)[i]).1])
        &&& forall|k: Seq<u8>| #[trigger] state::recovered(after, l0, l1, k) == view(k)
    } by {
        assert(state::discovered(before, l0, l1, next)) by {
            assert forall|n: Seq<u8>, id: u64| #[trigger]
                state::is_sst(before, n, 1, id) implies l1.len() == 1 && id <= l1[0].0 by {
                assert(state::is_sst(after, n, 1, id));
            }
            assert forall|n: Seq<u8>, id: u64| #[trigger]
                state::is_sst(before, n, 0, id) && state::above(l1, id) implies l0.contains(
                (id, n),
            ) by {
                assert(state::is_sst(after, n, 0, id));
            }
            assert forall|n: Seq<u8>, level: u8, id: u64| #[trigger]
                state::is_sst(before, n, level, id) implies id < next by {
                assert(state::is_sst(after, n, level, id));
            }
            assert forall|i: int| 0 <= i < l0.len() implies state::is_sst(
                before,
                (#[trigger] l0[i]).1,
                0,
                l0[i].0,
            ) by {
                assert(state::is_sst(after, l0[i].1, 0, l0[i].0));
            }
            if l1.len() == 1 {
                assert(state::is_sst(after, l1[0].1, 1, l1[0].0));
            }
            if next != 0 {
                let (n, level, id) = choose|n: Seq<u8>, level: u8, id: u64|
                    #[trigger] state::is_sst(after, n, level, id) && id == next - 1;
                assert(state::is_sst(before, n, level, id));
            }
        }
        let all = l0 + l1;
        assert forall|i: int| 0 <= i < all.len() implies after[(#[trigger] all[i]).1]
            == before[all[i].1] by {
            if i < l0.len() {
                assert(all[i] == l0[i]);
                assert(state::is_sst(after, l0[i].1, 0, l0[i].0));
            } else {
                assert(all[i] == l1[i - l0.len()]);
                assert(state::is_sst(after, l1[0].1, 1, l1[0].0));
            }
            assert(lsm::agree(before, after, all[i].1));
        }
        let a = state::tables_in(after, state::names_of(all));
        let b = state::tables_in(before, state::names_of(all));
        assert(a =~= b) by {
            assert forall|i: int| 0 <= i < a.len() implies a[i] == b[i] by {
                assert(after[all[i].1] == before[all[i].1]);
            }
        }
        assert forall|k: Seq<u8>| #[trigger] state::recovered(after, l0, l1, k) == view(k) by {
            assert(state::recovered(before, l0, l1, k) == view(k));
        }
    }
}

/// A write that was acknowledged is in the files.
pub proof fn lemma_append_in_step(
    before: EngineInner,
    files: io::Files,
    after: EngineInner,
    files_after: io::Files,
    rec: RecordView,
)
    requires
        before.tables_in_step(files),
        after.wf(files_after),
        after.levels() == before.levels(),
        after.next_id() == before.next_id(),
        rec.valid(),
        forall|k: Seq<u8>| #[trigger]
            assoc::find(after.mem(), k) == (if k == rec.key {
                Some(state::record_entry(rec))
            } else {
                assoc::find(before.mem(), k)
            }),
        files_after == files.insert(
            names::wal_name(),
            files[names::wal_name()] + rec.encoding(),
        ),
    ensures
        after.tables_in_step(files_after),
        before.in_step(files) ==> after.in_step(files_after),
{
    let wal = names::wal_name();
    names::lemma_names_differ(0, 0, wal);
    if before.in_step(files) {
        let recs = state::log_records(files);
        let more = recs.push(rec);
        assert(more.drop_last() =~= recs);
        assert(files_after[wal] =~= log::header() + log::encodings(more));
        lemma_log_of(files_after, more);
        assert forall|k: Seq<u8>| #[trigger] assoc::find(after.mem(), k) == state::replayed(
            more,
            k,
        ) by {
            state::lemma_replayed_push(recs, rec, k);
            assert(assoc::find(before.mem(), k) == state::replayed(recs, k));
        }
    }
    assert forall|k: Seq<u8>| #[trigger] assoc::has_key(before.mem(), k) implies assoc::has_key(
        after.mem(),
        k,
    ) by {
        assert(assoc::find(before.mem(), k) is Some);
        assert(assoc::find(after.mem(), k) is Some);
    }
    lemma_tables_stay(before, files, after, files_after);
}

/// A write that failed left the files as they were, or stands in them: they
/// stand for the state before or after it.
pub proof fn lemma_torn_append(
    e: EngineInner,
    files: io::Files,
    files_after: io::Files,
    rec: RecordView,
)
    requires
        e.in_step(files),
        rec.valid(),
        io::torn_append(files, names::wal_name(), rec.encoding(), files_after),
    ensures
        state::stands_for(files_after, e.view(files)) || state::stands_for(
            files_after,
            updated(e.view(files), rec),
        ),
{
    let wal = names::wal_name();
    let recs = state::log_records(files);
    names::lemma_names_differ(0, 0, wal);
    if files_after == files {
        lemma_files_stand_for_engine(e, files);
    } else {
        let enc = rec.encoding();
        let n = choose|n: int|
            0 <= n <= enc.len() && files.contains_key(wal) && files_after == files.insert(
                wal,
                files[wal] + #[trigger] enc.take(n),
            );
        let tail = enc.take(n);
        let b = files_after[wal];
        let body = log::encodings(recs) + tail;
        log::lemma_header_len();
        record::lemma_parse_encoding(rec, Seq::empty());
        assert(b.skip(12) =~= body);
        assert(log::header().is_prefix_of(b)) by {
            assert(b.subrange(0, 12) =~= log::header());
        }
        log::lemma_records_of_encodings(recs, tail);
        if n < enc.len() {
            record::lemma_parse_cut(rec, n);
            assert(recs + log::records(tail) =~= recs);
        } else {
            assert(tail =~= enc);
            assert(enc + Seq::<u8>::empty() =~= enc);
            let one = seq![rec];
            reveal_with_fuel(log::encodings, 2);
            assert(one.drop_last() =~= Seq::empty());
            assert(log::encodings(one) =~= enc);
            log::lemma_replay_whole(one);
            assert(recs + log::records(tail) =~= recs.push(rec));
        }
        assert(log::ends_clean(body));
        let now = state::log_records(files_after);
        assert(now == recs || now == recs.push(rec));
        assert(e.tables_kept(files, files_after)) by {
            e.levels().lemma_files(files);
            assert forall|i: int| 0 <= i < e.refs().len() implies files_after.contains_key(
                (#[trigger] e.refs()[i]).1,
            ) && files_after[e.refs()[i].1] == files[e.refs()[i].1] by {
                assert(e.table_named(i));
            }
        }
        e.lemma_kept(files, files_after);
        lemma_tables_stay(e, files, e, files_after);
        let view = if now == recs {
            e.view(files)
        } else {
            updated(e.view(files), rec)
        };
        assert forall|k: Seq<u8>| #[trigger] assoc::has_key(e.mem(), k) implies state::replayed(
            now,
            k,
        ) is Some by {
            assert(assoc::find(e.mem(), k) == state::replayed(recs, k));
            state::lemma_replayed_push(recs, rec, k);
        }
        assert forall|k: Seq<u8>| #[trigger] view(k) == state::unmasked(
            match state::replayed(now, k) {
                Some(x) => Some(x),
                None => state::newest(e.levels().tables(files_after), k),
            },
        ) by {
            assert(assoc::find(e.mem(), k) == state::replayed(recs, k));
            state::lemma_replayed_push(recs, rec, k);
        }
        lemma_stands_with_log(e, files_after, view);
    }
}

/// A flush brings files and engine in step, whatever the log held.
pub proof fn lemma_flush_in_step(
    before: EngineInner,
    files: io::Files,
    after: EngineInner,
    files_after: io::Files,
)
    requires
        before.wf(files),
        before.tables_in_step(files),
        after.wf(files_after),
        after.is_ordered(),
        before.flushes_to(files, &after, files_after),
    ensures
        after.in_step(files_after),
{
    let none = Seq::<RecordView>::empty();
    assert(files_after[names::wal_name()] =~= log::header() + log::encodings(none));
    lemma_log_of(files_after, none);
    assert forall|k: Seq<u8>| #[trigger] assoc::find(after.mem(), k) == state::replayed(none, k) by {
        assert(!assoc::has_key(after.mem(), k));
    }
    lemma_flush_places(before, files, after, files_after);
}

/// The table of a flush is in its place once it is registered.
proof fn lemma_flush_places(
    before: EngineInner,
    files: io::Files,
    after: EngineInner,
    files_after: io::Files,
)
    requires
        before.wf(files),
        before.tables_in_step(files),
        after.is_ordered(),
        before.flush_keeps(files, files_after),
        before.flush_registered(&after),
    ensures
        after.tables_in_step(files_after),
{
    let id = before.next_id();
    let sst = names::sst_name(0, id);
    let wal = names::wal_name();
    names::lemma_sst_name(0, id);
    names::lemma_tmp_name(sst);
    names::lemma_names_differ(0, id, sst);
    assert(names::tmp_ext()[0] != names::sst_ext()[0]);
    let a = after.refs();
    let b = before.refs();
    assert(a =~= seq![(id, sst)] + b);
    assert forall|n: Seq<u8>, level: u8, x: u64| #[trigger]
        state::is_sst(files_after, n, level, x) implies n == names::sst_name(level, x)
        && after.is_placed(files_after, n, level, x) by {
        if n == sst {
            assert(a[0] == (id, sst));
        } else {
            assert(!before.flush_writes(n));
            assert(lsm::agree(files, files_after, n));
            assert(state::is_sst(files, n, level, x));
            assert(before.is_placed(files, n, level, x));
            if b.contains((x, n)) {
                let i = choose|i: int| 0 <= i < b.len() && b[i] == (x, n);
                assert(a[i + 1] == (x, n));
            }
        }
    }
}

/// A flush that stopped keeps files and engine in step, unless the log could
/// not be started anew.
pub proof fn lemma_flush_stops_in_step(
    before: EngineInner,
    files: io::Files,
    after: EngineInner,
    files_after: io::Files,
)
    requires
        before.in_step(files),
        after.wf(files_after),
        after.is_ordered(),
        before.flush_stops(files, &after, files_after),
        !after.needs_sweep(),
    ensures
        after.in_step(files_after) || !after.same(&before) && lsm::has_no_log(files_after)
            && after.is_ready(files_after),
{
    let id = before.next_id();
    let sst = names::sst_name(0, id);
    let wal = names::wal_name();
    let recs = state::log_records(files);
    names::lemma_sst_name(0, id);
    names::lemma_tmp_name(sst);
    names::lemma_names_differ(0, id, sst);
    assert(names::tmp_ext()[0] != names::sst_ext()[0]);
    if after.same(&before) || !lsm::has_no_log(files_after) {
        assert(lsm::agree(files, files_after, wal));
        lemma_log_of(files_after, recs);
        if after.same(&before) {
            assert forall|n: Seq<u8>, level: u8, x: u64| #[trigger]
                state::is_sst(files_after, n, level, x) implies n == names::sst_name(level, x)
                && after.is_placed(files_after, n, level, x) by {
                if n == sst && !lsm::agree(files, files_after, sst) {
                    assert(after.is_covered(files_after, n));
                } else {
                    assert(lsm::agree(files, files_after, n)) by {
                        if n != sst {
                            assert(!before.flush_writes(n));
                        }
                    }
                    assert(state::is_sst(files, n, level, x));
                    assert(before.is_placed(files, n, level, x));
                }
            }
        } else {
            lemma_flush_places(before, files, after, files_after);
        }
    } else {
        lemma_flush_places(before, files, after, files_after);
    }
}

/// A flush that stopped while the log was started anew lost nothing: the files
/// stand for the same state.
pub proof fn lemma_flush_stops_stands(
    before: EngineInner,
    files: io::Files,
    after: EngineInner,
    files_after: io::Files,
)
    requires
        before.in_step(files),
        after.wf(files_after),
        after.is_ordered(),
        before.flush_stops(files, &after, files_after),
        !after.same(&before),
        lsm::has_no_log(files_after),
    ensures
        state::stands_for(files_after, before.view(files)),
{
    let id = before.next_id();
    let sst = names::sst_name(0, id);
    let wal = names::wal_name();
    let view = before.view(files);
    let none = Seq::<RecordView>::empty();
    let tables = after.levels().tables(files_after);
    let olds = before.levels().tables(files);
    names::lemma_sst_name(0, id);
    names::lemma_tmp_name(sst);
    names::lemma_names_differ(0, id, sst);
    lemma_flush_places(before, files, after, files_after);
    if state::has_log(files_after) {
        assert(files_after[wal] =~= log::header() + log::encodings(none));
        lemma_log_of(files_after, none);
    }
    assert(state::log_records(files_after) =~= none);
    assert forall|n: Seq<u8>| !(#[trigger] state::is_sst(files_after, n, 0, after.next_id())) by {
        if state::is_sst(files_after, n, 0, after.next_id()) {
            assert(n != sst);
            assert(!before.flush_writes(n));
            assert(lsm::agree(files, files_after, n));
            assert(state::is_sst(files, n, 0, after.next_id()));
            assert(before.is_placed(files, n, 0, after.next_id()));
            if before.refs().contains((after.next_id(), n)) {
                let i = choose|i: int|
                    0 <= i < before.refs().len() && before.refs()[i] == (after.next_id(), n);
                assert(before.table_named(i));
            } else {
                let r0 = before.levels().refs0();
                assert(before.refs()[r0.len() as int] == before.levels().refs1()[0]);
                assert(before.table_named(r0.len() as int));
            }
        }
    }
    before.levels().lemma_files(files);
    assert(tables =~= seq![before.mem()] + olds) by {
        assert(after.refs() =~= seq![(id, sst)] + before.refs());
        assert forall|i: int| 0 <= i < tables.len() implies tables[i] == (seq![before.mem()]
            + olds)[i] by {
            if i > 0 {
                assert(after.refs()[i] == before.refs()[i - 1]);
                assert(before.table_named(i - 1));
                assert(!before.flush_writes(before.refs()[i - 1].1));
                assert(lsm::agree(files, files_after, before.refs()[i - 1].1));
            }
        }
    }
    assert forall|k: Seq<u8>| #[trigger] view(k) == state::unmasked(
        match state::replayed(state::log_records(files_after), k) {
            Some(x) => Some(x),
            None => state::newest(tables, k),
        },
    ) by {
        state::lemma_newest_front(before.mem(), olds, k);
    }
    lemma_stands_with_log(after, files_after, view);
}

/// A compaction keeps files and engine in step.
pub proof fn lemma_compact_in_step(
    before: EngineInner,
    files: io::Files,
    after: EngineInner,
    files_after: io::Files,
)
    requires
        before.wf(files),
        before.tables_in_step(files),
        after.wf(files_after),
        after.is_ordered(),
        before.compacts_to(files, &after, files_after),
    ensures
        after.tables_in_step(files_after),
        before.in_step(files) ==> after.in_step(files_after),
{
    let id = before.next_id();
    let sst = names::sst_name(1, id);
    let wal = names::wal_name();
    let recs = state::log_records(files);
    let a = after.refs();
    let b = before.refs();
    let r0 = before.levels().refs0();
    let r1 = before.levels().refs1();
    names::lemma_sst_name(1, id);
    names::lemma_tmp_name(sst);
    names::lemma_names_differ(1, id, sst);
    assert(names::tmp_ext()[0] != names::sst_ext()[0]);
    assert(!before.is_input(wal)) by {
        if before.is_table_file(wal) {
            let i = choose|i: int| 0 <= i < b.len() && (#[trigger] b[i]).1 == wal;
            assert(before.table_named(i));
        } else if before.is_input(wal) {
            let (i, level) = choose|i: int, level: u8|
                0 <= i < b.len() && level <= 1 && wal == #[trigger] names::sst_name(
                    level,
                    b[i].0,
                );
            names::lemma_sst_name(level, b[i].0);
        }
    }
    assert(lsm::agree(files, files_after, wal));
    if before.in_step(files) {
        lemma_log_of(files_after, recs);
    }
    assert(a =~= after.levels().refs1());
    if r1.len() == 1 {
        assert(b[r0.len() as int] == r1[0]);
        assert(before.table_named(r0.len() as int));
    }
    assert forall|n: Seq<u8>, level: u8, x: u64| #[trigger]
        state::is_sst(files_after, n, level, x) implies n == names::sst_name(level, x)
        && after.is_placed(files_after, n, level, x) by {
        if n == sst {
            assert(a.len() > 0);
            assert(a[0] == (id, sst));
        } else {
            assert(!before.compact_writes(n));
            assert(state::is_sst(files, n, level, x));
            assert(before.is_placed(files, n, level, x));
            if b.contains((x, n)) {
                let i = choose|i: int| 0 <= i < b.len() && b[i] == (x, n);
                assert(before.table_named(i));
            }
        }
    }
}

/// What a compaction makes of the tables, where nothing fails: one table at
/// the bottom level, with the next id, that holds for each key what the table
/// with the highest id holds, and no tombstones; none if nothing is left. The
/// old tables are gone, the memtable is as it was, and every key reads as
/// before.
pub proof fn lemma_compaction(
    before: EngineInner,
    files: io::Files,
    after: EngineInner,
    files_after: io::Files,
)
    requires
        before.wf(files),
        before.is_ordered(),
        before.is_clean(files),
        after.wf(files_after),
        before.compacts_to(files, &after, files_after),
        before.tables_gone(files_after),
        after.has_no_empty_table(files_after),
    ensures
        after.levels().refs0().len() == 0,
        ({
            let id = before.next_id();
            let sst = names::sst_name(1, id);
            if exists|k: Seq<u8>| #[trigger] before.kept(files, k) is Some {
                &&& after.levels().refs1() == seq![(id, sst)]
                &&& forall|k: Seq<u8>| #[trigger]
                    assoc::find(state::pairs_in(files_after[sst]), k) == before.kept(files, k)
            } else {
                after.levels().refs1().len() == 0
            }
        }),
        after.next_id() == before.next_id() + 1,
        after.mem() == before.mem(),
        after.mem_size() == before.mem_size(),
        forall|k: Seq<u8>| #[trigger] after.value(files_after, k) == before.value(files, k),
        after.is_clean(files_after),
{
    let id = before.next_id();
    let sst = names::sst_name(1, id);
    let r1 = after.levels().refs1();
    lemma_compact_clean(before, files, after, files_after);
    assert(after.refs() =~= r1);
    compact::lemma_compacted(before, files, after, files_after);
    if r1.len() == 0 {
        let none: Pairs = Seq::empty();
        assert forall|k: Seq<u8>| #[trigger] before.kept(files, k) is None by {
            assert(assoc::find(none, k) == state::unmasked(
                state::newest(before.levels().tables(files), k),
            ));
            assert(!assoc::has_key(none, k));
        }
    } else {
        let pairs = state::pairs_in(files_after[sst]);
        assert(after.refs()[0] == (id, sst));
        assert(pairs.len() > 0);
        let k = pairs[0].0;
        assert(assoc::has_key(pairs, k));
        assert(assoc::find(pairs, k) == state::unmasked(
            state::newest(before.levels().tables(files), k),
        ));
        assert(before.kept(files, k) is Some);
    }
}

/// With the same tables, and the same files of tables, nothing else comes in.
pub proof fn lemma_clean_stays(
    before: EngineInner,
    files: io::Files,
    after: EngineInner,
    files_after: io::Files,
)
    requires
        before.is_clean(files),
        after.refs() == before.refs(),
        forall|n: Seq<u8>|
            names::parse_sst(n) is Some ==> #[trigger] lsm::agree(files, files_after, n),
    ensures
        after.is_clean(files_after),
{
    assert forall|n: Seq<u8>, level: u8, id: u64| #[trigger]
        state::is_sst(files_after, n, level, id) && level <= 1 implies after.refs().contains(
        (id, n),
    ) by {
        assert(lsm::agree(files, files_after, n));
        assert(state::is_sst(files, n, level, id));
    }
}

/// An engine that was opened on files of which nothing is left that does not
/// count has no other tables.
pub proof fn lemma_opened_clean(e: EngineInner, before: io::Files, files: io::Files)
    requires
        recover::opens_to(before, files, e.refs()),
        discover::swept(before, files, e.refs()),
    ensures
        e.is_clean(files),
{
    names::lemma_names_differ(0, 0, names::wal_name());
    assert forall|n: Seq<u8>, level: u8, id: u64| #[trigger]
        state::is_sst(files, n, level, id) && level <= 1 implies e.refs().contains((id, n)) by {
        assert(state::is_sst(before, n, level, id));
        if !e.refs().contains((id, n)) {
            assert(discover::expendable(before, n, e.refs()));
        }
    }
}

/// A flush leaves nothing but its table.
pub proof fn lemma_flush_clean(
    before: EngineInner,
    files: io::Files,
    after: EngineInner,
    files_after: io::Files,
)
    requires
        before.is_clean(files),
        before.flushes_to(files, &after, files_after),
    ensures
        after.is_clean(files_after),
{
    let id = before.next_id();
    let sst = names::sst_name(0, id);
    names::lemma_sst_name(0, id);
    names::lemma_tmp_name(sst);
    names::lemma_names_differ(0, id, sst);
    assert(names::tmp_ext()[0] != names::sst_ext()[0]);
    assert(after.refs() =~= seq![(id, sst)] + before.refs());
    assert forall|n: Seq<u8>, level: u8, x: u64| #[trigger]
        state::is_sst(files_after, n, level, x) && level <= 1 implies after.refs().contains(
        (x, n),
    ) by {
        if n == sst {
            assert(after.refs()[0] == (x, n));
        } else {
            assert(!before.flush_writes(n));
            assert(lsm::agree(files, files_after, n));
            assert(state::is_sst(files, n, level, x));
            let i = choose|i: int| 0 <= i < before.refs().len() && before.refs()[i] == (x, n);
            assert(after.refs()[i + 1] == (x, n));
        }
    }
}

/// A compaction whose inputs are gone leaves nothing but its table.
pub proof fn lemma_compact_clean(
    before: EngineInner,
    files: io::Files,
    after: EngineInner,
    files_after: io::Files,
)
    requires
        before.wf(files),
        before.is_clean(files),
        before.compacts_to(files, &after, files_after),
        before.tables_gone(files_after),
    ensures
        after.is_clean(files_after),
{
    let id = before.next_id();
    let sst = names::sst_name(1, id);
    names::lemma_sst_name(1, id);
    names::lemma_tmp_name(sst);
    assert(names::tmp_ext()[0] != names::sst_ext()[0]);
    assert(after.refs() =~= after.levels().refs1());
    assert forall|n: Seq<u8>, level: u8, x: u64| #[trigger]
        state::is_sst(files_after, n, level, x) && level <= 1 implies after.refs().contains(
        (x, n),
    ) by {
        if n == sst {
            assert(after.refs()[0] == (id, sst));
        } else {
            assert(!before.compact_writes(n));
            assert(state::is_sst(files, n, level, x));
            let i = choose|i: int| 0 <= i < before.refs().len() && before.refs()[i] == (x, n);
            assert(before.table_named(i));
            assert(!files_after.contains_key(before.refs()[i].1));
        }
    }
}

/// Whatever a compaction that stopped left behind, the files stand for the
/// same state.
pub proof fn lemma_compact_stops(
    before: EngineInner,
    files: io::Files,
    after: EngineInner,
    files_after: io::Files,
)
    requires
        before.in_step(files),
        after.wf(files_after),
        before.compact_stops(files, &after, files_after),
    ensures
        state::stands_for(files_after, before.view(files)),
        lsm::agree(files, files_after, names::sst_name(1, before.next_id())) ==> after.in_step(
            files_after,
        ),
        after.needs_sweep() ==> after.is_ready(files_after),
{
    let id = before.next_id();
    let sst = names::sst_name(1, id);
    let wal = names::wal_name();
    let recs = state::log_records(files);
    let b = before.refs();
    let r0 = before.levels().refs0();
    let r1 = before.levels().refs1();
    let view = before.view(files);
    names::lemma_sst_name(1, id);
    names::lemma_tmp_name(sst);
    names::lemma_names_differ(1, id, sst);
    assert(names::tmp_ext()[0] != names::sst_ext()[0]);
    assert(lsm::agree(files, files_after, wal));
    lemma_log_of(files_after, recs);
    if r1.len() == 1 {
        assert(b[r0.len() as int] == r1[0]);
        assert(before.table_named(r0.len() as int));
    }
    assert(after.tables_in_step(files_after.remove(sst))) by {
        if files.contains_key(sst) {
            assert(state::is_sst(files, sst, 1, id));
            assert(before.is_placed(files, sst, 1, id));
            if b.contains((id, sst)) {
                let i = choose|i: int| 0 <= i < b.len() && b[i] == (id, sst);
                assert(before.table_named(i));
            }
        }
        assert forall|n: Seq<u8>| names::extension(n) == Some(
            names::sst_ext(),
        ) implies #[trigger] lsm::agree(files, files_after.remove(sst), n) by {
            if n != sst {
                assert(!before.compact_writes(n));
                assert(lsm::agree(files, files_after, n));
            }
        }
        lemma_tables_stay(before, files, after, files_after.remove(sst));
    }
    if lsm::agree(files, files_after, sst) {
        assert forall|n: Seq<u8>| names::extension(n) == Some(
            names::sst_ext(),
        ) implies #[trigger] lsm::agree(files, files_after, n) by {
            if n != sst {
                assert(!before.compact_writes(n));
            }
        }
        lemma_tables_stay(before, files, after, files_after);
        assert(after.in_step(files_after));
        lemma_files_stand_for_engine(after, files_after);
        before.levels().lemma_files(files);
        assert(before.tables_kept(files, files_after)) by {
            assert forall|i: int| 0 <= i < b.len() implies files_after.contains_key(
                (#[trigger] b[i]).1,
            ) && files_after[b[i].1] == files[b[i].1] by {
                assert(before.table_named(i));
                assert(lsm::agree(files, files_after, b[i].1));
            }
        }
        before.lemma_kept(files, files_after);
        assert forall|k: Seq<u8>| #[trigger] view(k) == after.view(files_after)(k) by {
            assert(before.entry(files_after, k) == before.entry(files, k));
        }
        assert(view =~= after.view(files_after));
    } else {
        assert forall|n: Seq<u8>, level: u8, x: u64| #[trigger]
            state::is_sst(files_after, n, level, x) && n != sst implies (level <= 1 ==> x <= id)
            && (level == 1 ==> x < id) by {
            assert(!before.compact_writes(n));
            assert(lsm::agree(files, files_after, n));
            assert(state::is_sst(files, n, level, x));
            assert(before.is_placed(files, n, level, x));
            if b.contains((x, n)) {
                let i = choose|i: int| 0 <= i < b.len() && b[i] == (x, n);
                assert(before.table_named(i));
            }
        }
        assert(state::is_sst(files_after, sst, 1, id));
        assert forall|l0: Seq<TableRef>, l1: Seq<TableRef>, next: int| #[trigger]
            state::discovered(files_after, l0, l1, next) implies {
            &&& forall|i: int|
                0 <= i < (l0 + l1).len() ==> layout::is_table(
                    files_after[(#[trigger] (l0 + l1)[i]).1],
                )
            &&& forall|k: Seq<u8>| #[trigger] state::recovered(files_after, l0, l1, k) == view(k)
        } by {
            assert(state::is_sst(files_after, l1[0].1, 1, l1[0].0));
            assert(l1[0] == (id, sst));
            assert(l1 =~= seq![(id, sst)]);
            if l0.len() > 0 {
                assert(state::is_sst(files_after, l0[0].1, 0, l0[0].0));
                assert(state::above(l1, l0[0].0));
            }
            assert(l0 + l1 =~= seq![(id, sst)]);
            let pairs = state::pairs_in(files_after[sst]);
            let found = state::tables_in(files_after, state::names_of(l0 + l1));
            assert(found =~= seq![pairs] + Seq::<Pairs>::empty());
            assert forall|k: Seq<u8>| #[trigger] state::recovered(
                files_after,
                l0,
                l1,
                k,
            ) == view(k) by {
                state::lemma_newest_front(pairs, Seq::empty(), k);
                assert(assoc::find(before.mem(), k) == state::replayed(recs, k));
                assert(assoc::find(pairs, k) == state::unmasked(
                    state::newest(before.levels().tables(files), k),
                ));
            }
        }
    }
}

/// The tables of an engine that was opened on tidy files are numbered from
/// newest to oldest.
proof fn lemma_opened_ordered(e: EngineInner, before: io::Files)
    requires
        is_tidy(before),
        e.recovered_from(before),
    ensures
        e.is_ordered(),
{
    let l0 = e.levels().refs0();
    let l1 = e.levels().refs1();
    let refs = e.refs();
    assert forall|i: int, j: int| 0 <= i < j < refs.len() implies (#[trigger] refs[i]).0 > (
    #[trigger] refs[j]).0 by {
        assert(refs[i] == l0[i]);
        assert(state::is_sst(before, l0[i].1, 0, l0[i].0));
        if j < l0.len() {
            assert(refs[j] == l0[j]);
            assert(state::is_sst(before, l0[j].1, 0, l0[j].0));
        } else {
            assert(refs[j] == l1[0]);
            assert(state::above(l1, l0[i].0));
        }
    }
}

/// An engine that was opened on tidy files is in step with what is left of
/// them.
pub proof fn lemma_opened_in_step(e: EngineInner, before: io::Files, files: io::Files)
    requires
        is_tidy(before),
        e.wf(files),
        e.recovered_from(before),
        recover::opens_to(before, files, e.refs()),
    ensures
        e.in_step(files),
{
    let wal = names::wal_name();
    let l0 = e.levels().refs0();
    let l1 = e.levels().refs1();
    let refs = e.refs();
    let recs = state::log_records(before);
    names::lemma_names_differ(0, 0, wal);
    log::lemma_header_len();
    if state::has_log(before) {
        log::lemma_whole(before[wal]);
        log::lemma_records_whole(before[wal].skip(12));
    } else {
        assert(files[wal] =~= log::header() + log::encodings(recs));
    }
    lemma_log_of(files, recs);
    lemma_opened_ordered(e, before);
    assert forall|n: Seq<u8>, level: u8, id: u64| #[trigger]
        state::is_sst(files, n, level, id) implies n == names::sst_name(level, id) && e.is_placed(
        files,
        n,
        level,
        id,
    ) by {
        assert(n != wal);
        assert(state::is_sst(before, n, level, id));
        if level == 0 {
            if state::above(l1, id) {
                assert(l0.contains((id, n)));
                let i = choose|i: int| 0 <= i < l0.len() && l0[i] == (id, n);
                assert(refs[i] == (id, n));
            }
        } else if level == 1 {
            assert(state::is_sst(before, l1[0].1, 1, l1[0].0));
            if id == l1[0].0 {
                assert(refs[l0.len() as int] == l1[0]);
            }
        }
    }
}

} // verus!
