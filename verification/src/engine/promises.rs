//! What the operations of an engine promise of keys, values and embeddings, as
//! they are handed in and come back.

use crate::assoc;
use crate::checksum;
use crate::codec;
use crate::engine::discover;
use crate::engine::history;
use crate::engine::history::Step;
use crate::engine::lsm;
use crate::engine::lsm::compact;
use crate::engine::lsm::index;
use crate::engine::lsm::index_laws;
use crate::engine::lsm::laws;
use crate::engine::lsm::mend;
use crate::engine::lsm::snapshots;
use crate::engine::lsm::EngineInner;
use crate::engine::names;
use crate::engine::query;
use crate::engine::query::NearestResult;
use crate::engine::snapshot_file;
use crate::engine::state;
use crate::engine::state::TableRef;
use crate::engine::vector;
use crate::engine::vector::VectorIndex;
use crate::engine::Engine;
use crate::error::Result;
use crate::hnsw::float;
use crate::hnsw::graph;
use crate::hnsw::insert;
use crate::hnsw::laws as hnsw_laws;
use crate::hnsw::math::VectorMath;
use crate::hnsw::snapshot;
use crate::hnsw::snapshot::SnapshotView;
use crate::hnsw::{DistanceMetric, HnswIndex};
use crate::io;
use crate::io::Io;
use crate::memtable::EntryView;
use crate::sstable::bloom::BloomFilter;
use crate::sstable::layout;
use crate::sstable::layout::Pairs;
use crate::sstable::writer;
use crate::wal::log;
use crate::wal::record;
use crate::wal::record::{RecordKind, RecordView};
use vstd::prelude::*;

verus! {

/// A record can be written if its key has 1 to 65536 bytes, its value has at
/// most 64 MiB, and a deletion has no value; and no other can.
pub proof fn lemma_valid(rec: RecordView)
    ensures
        rec.valid() <==> {
            &&& 1 <= rec.key.len() <= 65536
            &&& rec.value.len() <= 67108864
            &&& rec.kind is Delete ==> rec.value.len() == 0
        },
{
}

/// What a reader sees of the entry that a record sets: the bytes of the value,
/// all of them, and nothing of a deletion.
pub proof fn lemma_seen(rec: RecordView)
    ensures
        match rec.kind {
            RecordKind::Put => {
                &&& state::record_entry(rec) == EntryView::Put(rec.value)
                &&& state::record_entry(rec).visible() == Some(rec.value)
                &&& state::record_entry(rec).payload() == rec.value
            },
            RecordKind::Vector => {
                &&& state::record_entry(rec) == EntryView::Vector(rec.value)
                &&& state::record_entry(rec).visible() == Some(rec.value)
                &&& state::record_entry(rec).payload() == rec.value
            },
            RecordKind::Delete => {
                &&& state::record_entry(rec) == EntryView::Tombstone
                &&& state::record_entry(rec).visible() is None
                &&& state::record_entry(rec).payload().len() == 0
            },
        },
{
}

/// A log is refused if what follows its whole records is a record that is there
/// in full but is damaged: its checksum is wrong, its key is empty, or one of
/// its lengths is over the limit.
pub proof fn lemma_damaged_log_is_refused(files: io::Files, recs: Seq<RecordView>, tail: Seq<u8>)
    requires
        files.contains_key(names::wal_name()),
        files[names::wal_name()] == log::header() + log::encodings(recs) + tail,
        log::all_valid(recs),
        tail.len() >= 13,
        ({
            let kl = codec::u32_at(tail, 5);
            let vl = codec::u32_at(tail, 9);
            ||| kl == 0
            ||| kl > 65536
            ||| vl > 67108864
            ||| tail.len() >= 13 + kl + vl && checksum::crc32(tail.subrange(4, 13 + kl + vl))
                != codec::u32_at(tail, 0)
        }),
    ensures
        !state::log_readable(files),
{
    let b = files[names::wal_name()];
    log::lemma_header_len();
    log::lemma_records_of_encodings(recs, tail);
    assert(b.skip(12) =~= log::encodings(recs) + tail);
    assert(log::leftover(tail) == tail);
}

/// A log that ends in a part of a record is read, and holds the records before
/// it.
pub proof fn lemma_torn_log_is_read(
    files: io::Files,
    recs: Seq<RecordView>,
    last: RecordView,
    n: int,
)
    requires
        files.contains_key(names::wal_name()),
        files[names::wal_name()] == log::header() + log::encodings(recs) + last.encoding().take(n),
        log::all_valid(recs),
        last.valid(),
        0 <= n < last.encoding().len(),
    ensures
        state::log_readable(files),
        state::log_records(files) == recs,
{
    let b = files[names::wal_name()];
    let tail = last.encoding().take(n);
    log::lemma_header_len();
    record::lemma_parse_encoding(last, Seq::empty());
    record::lemma_parse_cut(last, n);
    log::lemma_records_of_encodings(recs, tail);
    assert(b.skip(12) =~= log::encodings(recs) + tail);
    assert(log::records(tail) =~= Seq::empty());
    assert(recs + log::records(tail) =~= recs);
    assert(b.subrange(0, 12) =~= log::header());
}

/// Files of others are let alone: one whose name is not that of the log and does
/// not end in `.sst`, `.idx` or `.tmp` is none that an operation may change, nor
/// one that is removed when an engine is opened.
pub proof fn lemma_other_files(files: io::Files, n: Seq<u8>, live: Seq<TableRef>)
    requires
        n != seq![119u8, 97u8, 108u8, 46u8, 108u8, 111u8, 103u8],
        n.len() < 4 || n.skip(n.len() - 4) != seq![46u8, 115u8, 115u8, 116u8],
        n.len() < 4 || n.skip(n.len() - 4) != seq![46u8, 105u8, 100u8, 120u8],
        n.len() < 4 || n.skip(n.len() - 4) != seq![46u8, 116u8, 109u8, 112u8],
    ensures
        !lsm::write::is_lsm_name(n),
        !snapshot_file::is_snapshot_name(n),
        !discover::expendable(files, n, live),
        names::parse_snapshot(n) is None,
{
    if names::extension(n) is Some {
        names::lemma_extension(n);
        let x = names::extension(n)->0;
        if x.len() == 3 {
            assert(n.skip(n.len() - 4) =~= seq![46u8] + x);
            if x == names::sst_ext() {
                assert(n.skip(n.len() - 4) =~= seq![46u8, 115u8, 115u8, 116u8]);
            } else if x == names::snapshot_ext() {
                assert(n.skip(n.len() - 4) =~= seq![46u8, 105u8, 100u8, 120u8]);
            } else if x == names::tmp_ext() {
                assert(n.skip(n.len() - 4) =~= seq![46u8, 116u8, 109u8, 112u8]);
            }
        }
    }
    assert(names::wal_name() =~= seq![119u8, 97u8, 108u8, 46u8, 108u8, 111u8, 103u8]);
    names::lemma_tmp_name(names::wal_name());
    if lsm::write::is_lsm_name(n) {
        assert(names::extension(n) == Some(names::tmp_ext()) || names::extension(n) == Some(
            names::sst_ext(),
        ));
    }
}

/// Where nothing is left over after an engine was opened, no file with a name
/// that ends in `.tmp` is there.
pub proof fn lemma_no_temporary_files(
    before: io::Files,
    after: io::Files,
    live: Seq<TableRef>,
    n: Seq<u8>,
)
    requires
        discover::swept(before, after, live),
        n.len() > 1,
    ensures
        !after.contains_key(n + seq![46u8, 116u8, 109u8, 112u8]),
{
    let t = n + seq![46u8, 116u8, 109u8, 112u8];
    names::lemma_tmp_name(n);
    assert(t =~= names::tmp_name(n));
    assert(discover::expendable(before, t, live));
}

/// Of several snapshots only the one with the highest number stays, as it is.
pub proof fn lemma_latest_snapshot_stays(
    before: io::Files,
    after: io::Files,
    kept: Seq<u8>,
    n: Seq<u8>,
    id: u64,
)
    requires
        snapshots::drops_snapshots(before, after, kept),
        snapshots::keeps_latest(before, kept),
        snapshots::none_stale(after, kept, None),
        before.contains_key(n),
        names::parse_snapshot(n) == Some(id),
    ensures
        after.contains_key(n) <==> n == kept,
        after.contains_key(kept),
        after[kept] == before[kept],
        names::parse_snapshot(kept) matches Some(x) && id <= x,
{
    assert(snapshots::is_snapshot(before, n, id));
    let x = choose|x: u64| #[trigger] snapshots::is_latest(before, kept, x);
    assert(before.contains_key(kept));
    if n != kept {
        assert(snapshots::is_stale(n, kept, None));
    }
}

/// No table of `refs` has a number from `n` on.
proof fn lemma_none_since(refs: Seq<TableRef>, n: u64)
    requires
        forall|i: int| 0 <= i < refs.len() ==> (#[trigger] refs[i]).0 < n,
    ensures
        index::since(refs, n).len() == 0,
    decreases refs.len(),
{
    if refs.len() > 0 {
        let d = refs.drop_last();
        assert forall|i: int| 0 <= i < d.len() implies (#[trigger] d[i]).0 < n by {
            assert(d[i] == refs[i]);
        }
        lemma_none_since(d, n);
        assert(refs[refs.len() - 1].0 < n);
    }
}

/// An index that is loaded from the snapshot of another is that index again, if
/// nothing was written since: the same nodes with the same links, the same
/// entry point, and the same key for each live node.
pub proof fn lemma_loaded_as_saved<M: VectorMath>(
    e: EngineInner,
    files: io::Files,
    math: &M,
    saved: VectorIndex,
    next: u64,
    v: SnapshotView,
    index: VectorIndex,
)
    requires
        saved.wf(),
        saved.is_storable(),
        snapshot::snapshot_of(
            snapshot::snapshot_bytes(saved.graph().snapshot(next, saved.keys())),
        ) == Some(v),
        e.index_loaded(files, math, v, index),
        e.mem().len() == 0,
        forall|i: int| 0 <= i < e.refs().len() ==> (#[trigger] e.refs()[i]).0 < next,
    ensures
        index.graph().nodes() == saved.graph().nodes(),
        index.graph().entry() == saved.graph().entry(),
        index.graph().spec_dim() == saved.graph().spec_dim(),
        index.graph().spec_params().metric == saved.graph().spec_params().metric,
        index.graph().spec_params().m == saved.graph().spec_params().m,
        index.graph().spec_params().m_max_0 == saved.graph().spec_params().m_max_0,
        index.graph().spec_params().ef_search == saved.graph().spec_params().ef_search,
        index.graph().spec_params().ef_construction
            == saved.graph().spec_params().ef_construction,
        index.graph().spec_params().seed == saved.graph().spec_params().seed,
        forall|k: Seq<u8>| #[trigger] index.node_of(k) == saved.node_of(k),
{
    index_laws::lemma_snapshot_of_index(saved, next);
    assert(v == saved.graph().snapshot(next, saved.keys()));
    let sources = e.sources_since(files, next);
    lemma_none_since(e.refs(), next);
    assert(state::names_of(index::since(e.refs(), next)).len() == 0);
    assert(sources =~= seq![e.mem()]);
    assert(index::all_entries(sources) =~= Seq::empty()) by {
        reveal_with_fuel(index::all_entries, 2);
        assert(sources.drop_last() =~= Seq::empty());
        assert(sources.last() == e.mem());
    }
    assert forall|k: Seq<u8>| #[trigger] index.node_of(k) == saved.node_of(k) by {
        if index.node_of(k) is Some {
            let id = index.node_of(k)->0;
            assert(assoc::find(saved.keys(), v.keys[id as int]) == Some(id)) by {
                assert(!v.nodes[id as int].deleted);
            }
        }
        if saved.node_of(k) is Some {
            let id = saved.node_of(k)->0;
            assert(assoc::find(saved.keys(), k) == Some(id));
            assert(assoc::find(index.keys(), v.keys[id as int]) == Some(id)) by {
                assert(!v.nodes[id as int].deleted);
            }
        }
    }
}

/// Of several operations the last that writes a key decides what it holds: the
/// value that was put, the embedding, or nothing after a deletion. A key that
/// none of them writes holds what it held before.
pub proof fn lemma_last_write_decides(
    view: spec_fn(Seq<u8>) -> Option<EntryView>,
    steps: Seq<Step>,
    k: Seq<u8>,
    at: int,
)
    requires
        -1 <= at < steps.len(),
        at >= 0 ==> (steps[at] matches Step::Write(rec) && rec.key == k),
        forall|i: int|
            at < i < steps.len() ==> ((#[trigger] steps[i]) matches Step::Write(rec) ==> rec.key
                != k),
    ensures
        at < 0 ==> history::told(view, steps)(k) == view(k),
        at >= 0 ==> (steps[at] matches Step::Write(rec) && match rec.kind {
            RecordKind::Put => history::told(view, steps)(k) == Some(EntryView::Put(rec.value)),
            RecordKind::Vector => history::told(view, steps)(k) == Some(
                EntryView::Vector(rec.value),
            ),
            RecordKind::Delete => history::told(view, steps)(k) is None,
        }),
    decreases steps.len(),
{
    let n = steps.len() - 1;
    if steps.len() > 0 && at < n {
        let d = steps.drop_last();
        assert forall|i: int| at < i < d.len() implies ((#[trigger] d[i]) matches Step::Write(rec)
            ==> rec.key != k) by {
            assert(d[i] == steps[i]);
        }
        if at >= 0 {
            assert(d[at] == steps[at]);
        }
        lemma_last_write_decides(view, d, k, at);
        assert(steps[n] matches Step::Write(rec) ==> rec.key != k);
    }
}

/// A table that an operation wrote has a filter exactly if there are to be bits
/// for it: at the top level as many for each of its keys, and 64 at least.
pub proof fn lemma_new_tables_have_filters(
    e: EngineInner,
    files: io::Files,
    from: u64,
    bits: u32,
    i: int,
)
    requires
        e.new_tables_filtered(files, from, bits),
    ensures
        0 <= i < e.levels().refs0().len() && e.levels().refs0()[i].0 >= from ==> {
            let b = files[e.levels().refs0()[i].1];
            let s = state::pairs_in(b);
            exists|f: Option<BloomFilter>|
                {
                    &&& b == #[trigger] layout::table_bytes(s, f)
                    &&& f is Some <==> bits > 0
                    &&& f matches Some(f) ==> {
                        &&& s.len() * bits < 64 ==> f.spec_m() == 64
                        &&& 64 <= s.len() * bits <= usize::MAX ==> f.spec_m() == s.len() * bits
                    }
                }
        },
        0 <= i < e.levels().refs1().len() && e.levels().refs1()[i].0 >= from ==> {
            let b = files[e.levels().refs1()[i].1];
            exists|f: Option<BloomFilter>|
                {
                    &&& b == #[trigger] layout::table_bytes(state::pairs_in(b), f)
                    &&& f is Some <==> bits > 0
                    &&& f matches Some(f) ==> f.spec_m() >= 64
                }
        },
{
    if 0 <= i < e.levels().refs0().len() && e.levels().refs0()[i].0 >= from {
        let b = files[e.levels().refs0()[i].1];
        let s = state::pairs_in(b);
        assert(state::is_filtered(b, s.len() as int, bits as int));
    }
    if 0 <= i < e.levels().refs1().len() && e.levels().refs1()[i].0 >= from {
        let b = files[e.levels().refs1()[i].1];
        let keys = choose|keys: int| #[trigger] state::is_filtered(b, keys, bits as int);
        assert(state::is_filtered(b, keys, bits as int));
    }
}

impl<I: Io, M: VectorMath> Engine<I, M> {
    /// A write flushes the memtable if the bytes of keys and values in it reach
    /// its size then, and only if they do. It sets off a compaction if there are
    /// as many tables at the top level then as trigger one.
    pub proof fn lemma_due(&self, rec: RecordView)
        ensures
            ({
                let size = self.lsm().mem_size();
                let new = match rec.kind {
                    RecordKind::Delete => 0,
                    _ => rec.value.len() as int,
                };
                let then = match assoc::find(self.lsm().mem(), rec.key) {
                    None => size + rec.key.len() + new,
                    Some(EntryView::Put(v)) => size - v.len() + new,
                    Some(EntryView::Vector(v)) => size - v.len() + new,
                    Some(EntryView::Tombstone) => size + new,
                };
                let full = then >= self.config().memtable_max_size_bytes;
                &&& size <= then + 67108864 && 0 <= then - new && then <= usize::MAX
                    ==> self.flush_is_due(rec) == full
                &&& self.compaction_is_due(rec) <==> self.lsm().levels().refs0().len() + (
                if self.flush_is_due(rec) {
                    1int
                } else {
                    0int
                }) >= self.config().l0_compaction_trigger
            }),
    {
    }

    /// How many tables there are after a write that was acknowledged: those that
    /// there were, and one more at the top level if the memtable was flushed; or
    /// none there and one at the bottom level at most, if that set off a
    /// compaction.
    pub proof fn lemma_levels(&self, rec: RecordView, after: &Self)
        requires
            !self.lsm().is_closed(),
            rec.valid(),
            self.writes(rec, after, Ok(())),
        ensures
            ({
                let before = self.lsm().levels();
                let then = after.lsm().levels();
                if self.compaction_is_due(rec) {
                    then.refs0().len() == 0 && then.refs1().len() <= 1
                } else if self.flush_is_due(rec) {
                    then.refs0().len() == before.refs0().len() + 1 && then.refs1()
                        == before.refs1()
                } else {
                    then == before
                }
            }),
            self.flush_is_due(rec) ==> after.lsm().mem().len() == 0,
            !self.flush_is_due(rec) ==> assoc::find(after.lsm().mem(), rec.key) is Some,
    {
    }

    /// How many tables there are after a flush: one more at the top level if
    /// there was something to flush; or none there and one at the bottom level at
    /// most, if there would be as many at the top level as trigger a compaction.
    pub proof fn lemma_flush_levels(&self, after: &Self)
        requires
            self.lsm().levels_follow(
                self.lsm().mem().len() > 0,
                self.config().l0_compaction_trigger,
                &after.lsm(),
            ),
        ensures
            ({
                let before = self.lsm().levels();
                let then = after.lsm().levels();
                let trigger = self.config().l0_compaction_trigger;
                if self.lsm().mem().len() == 0 && before.refs0().len() < trigger {
                    then == before
                } else if self.lsm().mem().len() > 0 && before.refs0().len() + 1 < trigger {
                    then.refs0().len() == before.refs0().len() + 1 && then.refs1()
                        == before.refs1()
                } else {
                    then.refs0().len() == 0 && then.refs1().len() <= 1
                }
            }),
            self.lsm().mem().len() > 0 ==> after.lsm().next_id() > self.lsm().next_id(),
    {
    }

    /// A lookup after a write that was acknowledged gives, for its key, the
    /// bytes that were written, or nothing after a deletion. For another key it
    /// gives what a lookup before the write gave.
    pub proof fn lemma_get_after_write(
        &self,
        rec: RecordView,
        after: &Self,
        k: Seq<u8>,
        before_get: Result<Option<Vec<u8>>>,
        after_get: Result<Option<Vec<u8>>>,
    )
        requires
            self.lsm().is_ordered(),
            !self.lsm().is_closed(),
            rec.valid(),
            self.writes(rec, after, Ok(())),
            self.lsm().is_sound(self.files()),
            after.lsm().is_sound(after.files()),
            self.lsm().answers(self.files(), k, before_get),
            after.lsm().answers(after.files(), k, after_get),
            before_get is Ok,
            after_get is Ok,
        ensures
            k == rec.key ==> match rec.kind {
                RecordKind::Delete => after_get->Ok_0 is None,
                _ => after_get->Ok_0 matches Some(x) && x@ == rec.value,
            },
            k != rec.key ==> {
                &&& after_get->Ok_0 is Some <==> before_get->Ok_0 is Some
                &&& after_get->Ok_0 is Some ==> after_get->Ok_0->0@ == before_get->Ok_0->0@
            },
    {
        assert(after.lsm().value(after.files(), k) == laws::updated(
            self.lsm().view(self.files()),
            rec,
        )(k));
    }

    /// An engine that is opened on the files after a write that was acknowledged
    /// holds the bytes that were written, or nothing after a deletion, and for
    /// every other key what was held before.
    pub proof fn lemma_write_is_found_again(
        &self,
        rec: RecordView,
        after: &Self,
        reopened: &Self,
        k: Seq<u8>,
    )
        requires
            self.in_step(),
            !self.lsm().is_closed(),
            rec.valid(),
            self.writes(rec, after, Ok(())),
            reopened.shows_files(after.files()),
        ensures
            k != rec.key ==> reopened.value(k) == self.value(k),
            k == rec.key ==> match rec.kind {
                RecordKind::Put => reopened.value(k) == Some(EntryView::Put(rec.value)),
                RecordKind::Vector => reopened.value(k) == Some(EntryView::Vector(rec.value)),
                RecordKind::Delete => reopened.value(k) is None,
            },
    {
        mend::lemma_is_ready(self.lsm(), self.files());
        self.lemma_write_survives(rec, after, reopened);
        assert(reopened.value(k) == laws::updated(self.lsm().view(self.files()), rec)(k));
    }

    /// What an engine holds after any number of operations, each of them
    /// acknowledged, and what one that is opened on its files then holds: for
    /// each key what the last write of it was, and nothing if there was none and
    /// the engine began empty.
    pub proof fn lemma_history_in_bytes(
        states: Seq<Self>,
        steps: Seq<Step>,
        reopened: &Self,
        k: Seq<u8>,
        at: int,
    )
        requires
            Self::is_history(states, steps),
            states[0].in_step(),
            reopened.shows_files(states.last().files()),
            -1 <= at < steps.len(),
            at >= 0 ==> (steps[at] matches Step::Write(rec) && rec.key == k),
            forall|i: int|
                at < i < steps.len() ==> ((#[trigger] steps[i]) matches Step::Write(rec) ==> rec.key
                    != k),
        ensures
            states.last().value(k) == reopened.value(k),
            at < 0 ==> reopened.value(k) == states[0].value(k),
            at >= 0 ==> (steps[at] matches Step::Write(rec) && match rec.kind {
                RecordKind::Put => reopened.value(k) == Some(EntryView::Put(rec.value)),
                RecordKind::Vector => reopened.value(k) == Some(EntryView::Vector(rec.value)),
                RecordKind::Delete => reopened.value(k) is None,
            }),
    {
        Self::lemma_history(states, steps);
        lemma_last_write_decides(states[0].contents(), steps, k, at);
        let goal = history::told(states[0].contents(), steps);
        assert(reopened.value(k) == goal(k));
        assert(states.last().contents()(k) == goal(k));
        assert(states[0].contents()(k) == states[0].value(k));
    }

    /// What keeps a write from being done, though the storage does not fail and
    /// no table has damage: the ids of tables are used up, a temporary file that
    /// is not empty is in the way, a table holds the empty key, or a table of
    /// what is held and written would be longer than a machine can address.
    pub proof fn lemma_blocked(&self, rec: RecordView)
        requires
            self.wf(),
            self.lsm().is_ordered(),
            rec.valid(),
            self.write_is_blocked(rec),
        ensures
            ({
                let e = self.lsm();
                let mem = e.mem();
                let tables = e.levels().tables(self.files());
                let new = match rec.kind {
                    RecordKind::Put => EntryView::Put(rec.value),
                    RecordKind::Vector => EntryView::Vector(rec.value),
                    RecordKind::Delete => EntryView::Tombstone,
                };
                ||| e.next_id() >= u64::MAX - 1
                ||| exists|n: Seq<u8>| #[trigger]
                    self.files().contains_key(n) && names::extension(n) == Some(names::tmp_ext())
                        && self.files()[n].len() > 0
                ||| state::newest(tables, Seq::empty()) is Some
                ||| exists|s: Pairs, f: Option<BloomFilter>|
                    {
                        &&& (#[trigger] layout::table_bytes(s, f)).len() > usize::MAX
                        &&& assoc::sorted_pairs(s)
                        &&& f matches Some(f) ==> f.wf() && (e.levels().refs0().len() + 1
                            < self.config().l0_compaction_trigger ==> f.spec_m() <= 64
                            || f.spec_m() <= s.len() * self.config().bloom_bits_per_key)
                        &&& forall|k: Seq<u8>| #[trigger]
                            assoc::find(s, k) is Some ==> {
                                ||| k == rec.key && assoc::find(s, k) == Some(new)
                                ||| assoc::find(s, k) == assoc::find(mem, k)
                                ||| assoc::find(s, k) == state::newest(tables, k)
                            }
                    }
            }),
    {
        let e0 = self.lsm();
        let f0 = self.files();
        let trigger = self.config().l0_compaction_trigger;
        let bits = self.config().bloom_bits_per_key;
        let flushed = self.flush_is_due(rec);
        let (e, f) = choose|e: EngineInner, f: io::Files| #[trigger]
            e0.appends_to(f0, rec, &e, f) && e.settle_is_blocked(f, flushed, trigger, bits);
        lemma_still_blocked(e0, f0, rec, e, f, flushed, trigger, bits);
    }

    /// An embedding is refused if it has no components, one that is infinite or
    /// not a number, another dimension than the index, no unit vector where the
    /// metric asks for one, or if there are no more ids; and only then.
    pub proof fn lemma_refused_embedding(&self, v: Seq<u32>)
        ensures
            self.refuses_embedding(v) ==> {
                ||| v.len() == 0
                ||| exists|i: int| 0 <= i < v.len() && (#[trigger] v[i]) % 0x8000_0000 >= 0x7f80_0000
                ||| self.index().dim() matches Some(d) && d != v.len()
                ||| self.index().graph().spec_dim() != 0 && self.index().graph().spec_dim()
                    != v.len()
                ||| self.index().graph().spec_params().metric is Cosine
                    && self.arithmetic().normalized(v) is None
                ||| self.index().graph().nodes().len() >= u32::MAX
            },
            v.len() == 0 ==> self.refuses_embedding(v),
            forall|i: int|
                0 <= i < v.len() && (#[trigger] v[i]) % 0x8000_0000 >= 0x7f80_0000
                    ==> self.refuses_embedding(v),
            self.index().dim() is Some && self.index().dim()->0 != v.len()
                ==> self.refuses_embedding(v),
            !self.lsm().is_closed() && self.index().graph().spec_dim() != 0
                && self.index().graph().spec_dim() != v.len() ==> self.refuses_embedding(v),
            !self.lsm().is_closed() && self.index().graph().spec_params().metric is Cosine
                && self.arithmetic().normalized(v) is None ==> self.refuses_embedding(v),
            !self.lsm().is_closed() && self.index().graph().nodes().len() == u32::MAX
                ==> self.refuses_embedding(v),
    {
        float::lemma_finite(v);
    }

    /// A query is refused if it has another dimension than the index, a component
    /// that is infinite or not a number, or no unit vector where the metric asks
    /// for one; and only then, and only where there is something to find.
    pub proof fn lemma_refused_query(&self, q: Seq<u32>, k: usize)
        ensures
            self.index().refuses_query(&self.arithmetic(), q, k) ==> k > 0
                && self.index().graph().nodes().len() > 0 && {
                ||| q.len() != self.index().graph().spec_dim()
                ||| self.index().graph().spec_params().metric is Cosine
                    && self.arithmetic().normalized(q) is None
                ||| exists|i: int| 0 <= i < q.len() && (#[trigger] q[i]) % 0x8000_0000 >= 0x7f80_0000
            },
            k > 0 && self.index().graph().nodes().len() > 0 && self.index().graph().entry() is Some
                ==> {
                let refused = self.index().refuses_query(&self.arithmetic(), q, k);
                &&& q.len() != self.index().graph().spec_dim() ==> refused
                &&& self.index().graph().spec_params().metric is Cosine
                    && self.arithmetic().normalized(q) is None ==> refused
                &&& !(self.index().graph().spec_params().metric is Cosine) ==> forall|i: int|
                    0 <= i < q.len() && (#[trigger] q[i]) % 0x8000_0000 >= 0x7f80_0000 ==> refused
            },
    {
        float::lemma_finite(q);
    }

    /// What the index holds for a key, if it holds what it should: the unit vector
    /// of the embedding that the key holds, or the embedding itself, as the
    /// metric has it; and nothing for a key that holds a plain value or nothing.
    pub proof fn lemma_index_holds(&self, k: Seq<u8>, v: Seq<u32>)
        requires
            self.index_fits(k),
        ensures
            self.value(k) == Some(EntryView::Vector(codec::u32s_bytes(v))) ==> match self.index().graph().spec_params().metric {
                DistanceMetric::Cosine => self.index().indexed(k) == self.arithmetic().normalized(
                    v,
                ),
                _ => (forall|i: int|
                    0 <= i < v.len() ==> (#[trigger] v[i]) % 0x8000_0000 < 0x7f80_0000)
                    ==> self.index().indexed(k) == Some(v),
            },
            self.value(k) is None ==> self.index().indexed(k) is None,
            self.value(k) matches Some(EntryView::Put(_)) ==> self.index().indexed(k) is None,
    {
        vector::lemma_vector_round_trip(v);
        float::lemma_finite(v);
    }

    /// An embedding that was put, and was the last write of its key, is in the
    /// index of an engine that is opened on the files, with its vector, whether
    /// the snapshot is intact, missing or damaged; and a key whose last write was
    /// a plain value or a deletion is not.
    pub proof fn lemma_embedding_is_found_again(
        states: Seq<Self>,
        steps: Seq<Step>,
        files: io::Files,
        reopened: &Self,
        k: Seq<u8>,
        at: int,
        v: Seq<u32>,
    )
        requires
            Self::is_history(states, steps),
            states[0].in_step(),
            states[0].index_in_step(),
            states.last().keeps_but_snapshots(files),
            reopened.arithmetic() == states[0].arithmetic(),
            reopened.shows_files(files),
            0 <= at < steps.len(),
            steps[at] matches Step::Write(rec) && rec.key == k && (rec.kind is Vector ==> rec.value
                == codec::u32s_bytes(v)),
            forall|i: int|
                at < i < steps.len() ==> ((#[trigger] steps[i]) matches Step::Write(rec) ==> rec.key
                    != k),
        ensures
            steps[at] matches Step::Write(rec) && match rec.kind {
                RecordKind::Vector => match reopened.index().graph().spec_params().metric {
                    DistanceMetric::Cosine => reopened.index().indexed(k)
                        == reopened.arithmetic().normalized(v),
                    _ => (forall|i: int|
                        0 <= i < v.len() ==> (#[trigger] v[i]) % 0x8000_0000 < 0x7f80_0000)
                        ==> reopened.index().indexed(k) == Some(v),
                },
                _ => reopened.index().indexed(k) is None,
            },
    {
        Self::lemma_history_survives(states, steps, files, reopened);
        lemma_last_write_decides(states[0].contents(), steps, k, at);
        assert(reopened.value(k) == history::told(states[0].contents(), steps)(k));
        assert(reopened.index_fits(k));
        reopened.lemma_index_holds(k, v);
    }

    /// What keeps a flush from being done, though the storage does not fail and
    /// no table has damage: the ids of tables are used up, a temporary file that
    /// is not empty is in the way, a table holds the empty key, or a table of
    /// what is held would be longer than a machine can address.
    pub proof fn lemma_flush_blocked(&self)
        requires
            self.wf(),
            self.lsm().is_ordered(),
            self.lsm().settle_is_blocked(
                self.files(),
                self.lsm().mem().len() > 0,
                self.config().l0_compaction_trigger,
                self.config().bloom_bits_per_key,
            ),
        ensures
            ({
                let e = self.lsm();
                let mem = e.mem();
                let tables = e.levels().tables(self.files());
                ||| e.next_id() >= u64::MAX - 1
                ||| exists|n: Seq<u8>| #[trigger]
                    self.files().contains_key(n) && names::extension(n) == Some(names::tmp_ext())
                        && self.files()[n].len() > 0
                ||| state::newest(tables, Seq::empty()) is Some
                ||| exists|s: Pairs, f: Option<BloomFilter>|
                    {
                        &&& (#[trigger] layout::table_bytes(s, f)).len() > usize::MAX
                        &&& assoc::sorted_pairs(s)
                        &&& f matches Some(f) ==> f.wf() && (e.levels().refs0().len() + 1
                            < self.config().l0_compaction_trigger ==> f.spec_m() <= 64
                            || f.spec_m() <= s.len() * self.config().bloom_bits_per_key)
                        &&& forall|k: Seq<u8>| #[trigger]
                            assoc::find(s, k) is Some ==> {
                                ||| assoc::find(s, k) == assoc::find(mem, k)
                                ||| assoc::find(s, k) == state::newest(tables, k)
                            }
                    }
            }),
    {
        let e0 = self.lsm();
        let f0 = self.files();
        let trigger = self.config().l0_compaction_trigger;
        let bits = self.config().bloom_bits_per_key;
        lemma_flush_still_blocked(e0, f0, trigger, bits);
    }

    /// A query of an index in one piece gives as many keys as it is asked for,
    /// or all that there are. If the index has fewer nodes than the search is
    /// wide, these are the nearest of all: a key that is not among them is no
    /// closer than the last.
    pub proof fn lemma_nearest(
        &self,
        query: Seq<u32>,
        k: usize,
        hits: Seq<(u32, u32)>,
        out: Seq<NearestResult>,
        key: Seq<u8>,
    )
        requires
            self.wf(),
            k > 0,
            self.index().graph().is_whole(),
            self.index().graph().nodes().len() > 0,
            self.index().are_hits(&self.arithmetic(), query, k, hits),
            out.len() == hits.len(),
            forall|i: int|
                0 <= i < out.len() ==> self.index().names_hit(hits[i], #[trigger] out[i]),
        ensures
            k <= self.index().graph().nodes().len() ==> out.len() == k,
            k > self.index().graph().nodes().len() ==> out.len()
                == self.index().graph().nodes().len(),
            self.index().indexed(key) is Some && (self.index().graph().nodes().len() < 2 * k && 2
                * k <= usize::MAX || self.index().graph().nodes().len()
                < self.index().graph().spec_params().ef_search) ==> {
                let metric = self.index().graph().spec_params().metric;
                let p = if metric is Cosine {
                    self.arithmetic().normalized(query)->0
                } else {
                    query
                };
                ||| exists|i: int| 0 <= i < out.len() && (#[trigger] out[i]).key@ == key
                ||| out.len() == k && !float::below(
                    self.arithmetic().distance_of(metric, p, self.index().indexed(key)->0),
                    out.last().distance,
                )
            },
    {
        let index = self.index();
        let g = index.graph();
        let math = self.arithmetic();
        let metric = g.spec_params().metric;
        let p = insert::prepared(&math, metric, query)->0;
        if g.entry() is None {
            assert(g.nodes().len() == 0);
        }
        g.lemma_search_count(&math, p, k, hits);
        if index.indexed(key) is Some && (g.nodes().len() < 2 * k && 2 * k <= usize::MAX
            || g.nodes().len() < g.spec_params().ef_search) {
            let x = index.node_of(key)->0;
            assert(index.reverse().contains_key(x) && index.reverse()[x]@ == key);
            assert(graph::is_live(g.nodes(), x as int));
            g.lemma_search_is_exact(&math, p, k, hits, x);
            if hnsw_laws::is_hit(hits, x) {
                let i = choose|i: int| 0 <= i < hits.len() && (#[trigger] hits[i]).0 == x;
                assert(index.names_hit(hits[i], out[i]));
                assert(out[i].key@ == key);
            } else {
                let last = out.len() - 1;
                assert(index.names_hit(hits[last], out[last]));
            }
        }
    }

    /// A filtered query of an index in one piece, with fewer nodes than the search
    /// is wide, gives the nearest of the keys that pass: a key to which
    /// `predicate` never says no is among them, or there are `k` and it is no
    /// closer than the last.
    pub proof fn lemma_filtered_is_nearest<F: Fn(&[u8]) -> bool>(
        &self,
        query: Seq<u32>,
        k: usize,
        predicate: F,
        out: Seq<NearestResult>,
        key: Seq<u8>,
    )
        requires
            self.wf(),
            k > 0,
            self.index().graph().is_whole(),
            self.index().graph().nodes().len() < self.index().graph().spec_params().ef_search,
            self.index().fits_query(&self.arithmetic(), query),
            self.index().is_filtered(&self.arithmetic(), query, k, predicate, out),
            self.index().indexed(key) is Some,
            !query::says(predicate, key, false),
        ensures
            ({
                let metric = self.index().graph().spec_params().metric;
                let p = if metric is Cosine {
                    self.arithmetic().normalized(query)->0
                } else {
                    query
                };
                ||| exists|i: int| 0 <= i < out.len() && (#[trigger] out[i]).key@ == key
                ||| out.len() == k && !float::below(
                    self.arithmetic().distance_of(metric, p, self.index().indexed(key)->0),
                    out.last().distance,
                )
            }),
    {
        let index = self.index();
        let g = index.graph();
        let nodes = g.nodes();
        let n = nodes.len();
        let math = self.arithmetic();
        let metric = g.spec_params().metric;
        let p = insert::prepared(&math, metric, query)->0;
        let x = index.node_of(key)->0;
        assert(index.reverse().contains_key(x) && index.reverse()[x]@ == key);
        assert(graph::is_live(nodes, x as int));
        hnsw_laws::lemma_all_live(nodes);
        if exists|pass: nat, hits: Seq<(u32, u32)>, answers: Seq<bool>, m: int| #[trigger]
            index.filters(&math, query, k, predicate, pass, hits, answers, m, out) {
            let (pass, hits, answers, m) = choose|
                pass: nat,
                hits: Seq<(u32, u32)>,
                answers: Seq<bool>,
                m: int,
            | #[trigger]
                index.filters(&math, query, k, predicate, pass, hits, answers, m, out);
            self.lemma_pass_is_nearest(
                query,
                k,
                predicate,
                pass,
                hits,
                answers,
                m,
                out,
                key,
                x,
                p,
            );
        } else {
            let (pass, hits) = choose|pass: nat, hits: Seq<(u32, u32)>| #[trigger]
                index.scans(&math, query, k, predicate, pass, hits, out);
            assert(index.is_settled(&math, p, k, predicate, hits, x));
            if exists|i: int| 0 <= i < hits.len() && (#[trigger] hits[i]).0 == x {
                let i = choose|i: int| 0 <= i < hits.len() && (#[trigger] hits[i]).0 == x;
                assert(index.names_hit(hits[i], out[i]));
            } else {
                assert(index.names_hit(hits[out.len() - 1], out[out.len() - 1]));
            }
        }
    }

    proof fn lemma_pass_is_nearest<F: Fn(&[u8]) -> bool>(
        &self,
        query: Seq<u32>,
        k: usize,
        predicate: F,
        pass: nat,
        hits: Seq<(u32, u32)>,
        answers: Seq<bool>,
        m: int,
        out: Seq<NearestResult>,
        key: Seq<u8>,
        x: u32,
        p: Seq<u32>,
    )
        requires
            self.wf(),
            k > 0,
            self.index().graph().is_whole(),
            self.index().graph().nodes().len() < self.index().graph().spec_params().ef_search,
            self.index().fits_query(&self.arithmetic(), query),
            p == insert::prepared(
                &self.arithmetic(),
                self.index().graph().spec_params().metric,
                query,
            )->0,
            self.index().filters(
                &self.arithmetic(),
                query,
                k,
                predicate,
                pass,
                hits,
                answers,
                m,
                out,
            ),
            graph::live_count(self.index().graph().nodes()) == self.index().graph().nodes().len(),
            x < self.index().graph().nodes().len(),
            self.index().node_of(key) == Some(x),
            self.index().reverse()[x]@ == key,
            !query::says(predicate, key, false),
        ensures
            ({
                ||| exists|i: int| 0 <= i < out.len() && (#[trigger] out[i]).key@ == key
                ||| out.len() == k && float::rank(out.last().distance) <= float::rank(
                    self.index().graph().distance_from(&self.arithmetic(), p, x),
                )
            }),
    {
        let index = self.index();
        let g = index.graph();
        let nodes = g.nodes();
        let n = nodes.len();
        let math = self.arithmetic();
        let width = query::width_at(k, n as int, pass);
        query::lemma_factor(pass);
        assert(k * query::factor_at(pass) >= 1) by (nonlinear_arith)
            requires
                k >= 1,
                query::factor_at(pass) >= 1,
        ;
        assert(width >= 1);
        if g.entry() is None {
            assert(n == 0);
        }
        let w = width as usize;
        g.lemma_search(&math, p, w, hits);
        let start = choose|start: u32| #[trigger] g.finds(&math, p, w as int, start, hits);
        g.lemma_search_is_exact(&math, p, w, hits, x);
        let picked = query::chosen(hits.take(m), answers);
        let asked = hits.take(m);
        query::lemma_chosen(asked, answers);
        if hnsw_laws::is_hit(hits, x) {
            let j = choose|j: int| 0 <= j < hits.len() && (#[trigger] hits[j]).0 == x;
            if j < m {
                assert(asked[j] == hits[j]);
                assert(query::says(predicate, index.reverse()[asked[j].0]@, answers[j]));
                query::lemma_chosen_has(asked, answers, j);
                let y = choose|y: int| 0 <= y < picked.len() && #[trigger] picked[y] == asked[j];
                assert(index.names_hit(picked[y], out[y]));
                assert(out[y].key@ == key);
            } else {
                let last = out.len() - 1;
                assert(index.names_hit(picked[last], out[last]));
                assert(asked.contains(picked[last]));
                let i = choose|i: int| 0 <= i < asked.len() && asked[i] == picked[last];
                assert(hits[i] == picked[last]);
                lemma_ranks(g, &math, p, w, start, hits, i, j);
            }
        } else if out.len() == k {
            let last = out.len() - 1;
            assert(index.names_hit(picked[last], out[last]));
            assert(asked.contains(picked[last]));
            let i = choose|i: int| 0 <= i < asked.len() && asked[i] == picked[last];
            assert(hits[i] == picked[last]);
            let t = hits.len() - 1;
            if i < t {
                lemma_ranks(g, &math, p, w, start, hits, i, t);
            }
        } else {
            let got = hnsw_laws::hit_ids(hits);
            assert(hits.len() == n);
            assert(got.no_duplicates()) by {
                assert forall|i: int, j: int|
                    0 <= i < got.len() && 0 <= j < got.len() && i != j implies got[i] != got[j] by {
                    if i < j {
                        assert(hits[i].0 != hits[j].0);
                    } else {
                        assert(hits[j].0 != hits[i].0);
                    }
                }
            }
            assert forall|i: int| 0 <= i < got.len() implies (#[trigger] got[i]) < n by {
                assert(got[i] == hits[i].0);
            }
            hnsw_laws::lemma_all_there(got, n, x);
            let i = choose|i: int| 0 <= i < got.len() && got[i] == x;
            assert(hits[i].0 == x);
        }
    }

    /// An embedding for a key that is not in the index keeps the index in one
    /// piece, with one node more, as long as no list at layer 0 is full.
    pub proof fn lemma_put_indexed_keeps_whole(&self, key: Seq<u8>, v: Seq<u32>, after: &Self)
        requires
            self.wf(),
            self.index().graph().is_whole(),
            self.index().graph().spec_params().m > 0,
            self.index().node_of(key) is None,
            self.index().replaces(&self.arithmetic(), key, v, after.index().graph()),
            forall|x: int|
                0 <= x < self.index().graph().nodes().len() ==> (
                #[trigger] self.index().graph().nodes()[x]).layers[0].len()
                    < self.index().graph().spec_params().m_max_0,
        ensures
            after.index().graph().is_whole(),
            after.index().graph().nodes().len() == self.index().graph().nodes().len() + 1,
    {
        let math = self.arithmetic();
        let before = self.index().graph();
        let then = after.index().graph();
        hnsw_laws::lemma_insert(&math, before, v, then);
        hnsw_laws::lemma_insert_connects(&math, before, v, then);
        assert forall|x: int| 0 <= x < then.nodes().len() implies !(
        #[trigger] then.nodes()[x]).deleted by {
            if x < before.nodes().len() {
                assert(!before.nodes()[x].deleted);
            }
        }
    }
}

/// Hits are ranked by their distances.
proof fn lemma_ranks<M: VectorMath>(
    g: HnswIndex,
    math: &M,
    p: Seq<u32>,
    w: usize,
    start: u32,
    hits: Seq<(u32, u32)>,
    i: int,
    j: int,
)
    requires
        g.wf(),
        w > 0,
        g.entry() is Some,
        g.is_result(math, p, w, hits),
        0 <= i < j < hits.len(),
    ensures
        float::rank(hits[i].1) <= float::rank(hits[j].1),
        hits[j].1 == g.distance_from(math, p, hits[j].0),
{
    g.lemma_result_ascends(math, p, w, hits, i, j);
}

/// What keeps the memtable from being flushed after the record was appended, or
/// the tables from being compacted then, is what keeps it before.
proof fn lemma_still_blocked(
    e0: EngineInner,
    f0: io::Files,
    rec: RecordView,
    e: EngineInner,
    f: io::Files,
    flushed: bool,
    trigger: usize,
    bits: u32,
)
    requires
        e0.wf(f0),
        e0.is_ordered(),
        rec.valid(),
        e0.appends_to(f0, rec, &e, f),
        e.settle_is_blocked(f, flushed, trigger, bits),
    ensures
        ({
            let tables = e0.levels().tables(f0);
            let new = match rec.kind {
                RecordKind::Put => EntryView::Put(rec.value),
                RecordKind::Vector => EntryView::Vector(rec.value),
                RecordKind::Delete => EntryView::Tombstone,
            };
            ||| e0.next_id() >= u64::MAX - 1
            ||| exists|n: Seq<u8>| #[trigger]
                f0.contains_key(n) && names::extension(n) == Some(names::tmp_ext())
                    && f0[n].len() > 0
            ||| state::newest(tables, Seq::empty()) is Some
            ||| exists|s: Pairs, b: Option<BloomFilter>|
                {
                    &&& (#[trigger] layout::table_bytes(s, b)).len() > usize::MAX
                    &&& assoc::sorted_pairs(s)
                    &&& b matches Some(b) ==> b.wf() && (e0.levels().refs0().len() + 1 < trigger
                        ==> b.spec_m() <= 64 || b.spec_m() <= s.len() * bits)
                    &&& forall|k: Seq<u8>| #[trigger]
                        assoc::find(s, k) is Some ==> {
                            ||| k == rec.key && assoc::find(s, k) == Some(new)
                            ||| assoc::find(s, k) == assoc::find(e0.mem(), k)
                            ||| assoc::find(s, k) == state::newest(tables, k)
                        }
                }
        }),
{
    let id = e0.next_id();
    let wal = names::wal_name();
    let t0 = names::tmp_name(names::sst_name(0, id));
    let tables = e0.levels().tables(f0);
    names::lemma_sst_name(0, id);
    names::lemma_sst_name(1, id);
    names::lemma_tmp_name(names::sst_name(0, id));
    names::lemma_tmp_name(names::sst_name(1, id));
    names::lemma_names_differ(0, id, wal);
    names::lemma_names_differ(0, id, names::sst_name(0, id));
    names::lemma_names_differ(1, id, names::sst_name(1, id));
    assert(e.mended(f) == f);
    assert forall|n: Seq<u8>| n != wal && #[trigger] f.contains_key(n) implies f0.contains_key(n)
        && f0[n] == f[n] by {}
    e0.levels().lemma_files(f0);
    assert(e.levels().tables(f) =~= tables) by {
        assert forall|i: int| 0 <= i < tables.len() implies e.levels().tables(f)[i]
            == tables[i] by {
            assert(f[e0.refs()[i].1] == f0[e0.refs()[i].1]);
        }
    }
    if flushed {
        if e.flush_is_blocked(f, bits) {
            if e.next_id() != u64::MAX && !(f.contains_key(t0) && f[t0].len() > 0) {
                let b = choose|b: Option<BloomFilter>|
                    writer::sized_for(b, e.mem().len() as int, bits as int) && (
                    #[trigger] layout::table_bytes(e.mem(), b)).len() > usize::MAX;
                assert(layout::table_bytes(e.mem(), b).len() > usize::MAX);
            } else if e.next_id() != u64::MAX {
                assert(f0.contains_key(t0));
            }
        } else {
            let (e2, f2) = choose|e2: EngineInner, f2: io::Files| #[trigger]
                e.flushes_to(f, &e2, f2) && e2.levels().refs0().len() >= trigger
                    && e2.compact_is_blocked(f2, bits);
            let sst = names::sst_name(0, id);
            let t1 = names::tmp_name(names::sst_name(1, e2.next_id()));
            names::lemma_sst_name(1, e2.next_id());
            names::lemma_tmp_name(names::sst_name(1, e2.next_id()));
            names::lemma_names_differ(0, id, names::sst_name(1, e2.next_id()));
            names::lemma_names_differ(1, e2.next_id(), names::sst_name(1, e2.next_id()));
            assert(e2.refs() =~= seq![(id, sst)] + e.refs());
            let after = e2.levels().tables(f2);
            assert(after =~= seq![e.mem()] + tables) by {
                assert forall|i: int| 0 <= i < after.len() implies after[i] == (seq![e.mem()]
                    + tables)[i] by {
                    if i > 0 {
                        assert(e2.refs()[i] == e.refs()[i - 1]);
                        assert(e.table_named(i - 1));
                        assert(!e.flush_writes(e.refs()[i - 1].1));
                        assert(lsm::agree(f, f2, e.refs()[i - 1].1));
                        e.levels().lemma_files(f);
                    }
                }
            }
            assert forall|k: Seq<u8>| #[trigger] state::newest(after, k) == (match assoc::find(
                e.mem(),
                k,
            ) {
                Some(x) => Some(x),
                None => state::newest(tables, k),
            }) by {
                state::lemma_newest_front(e.mem(), tables, k);
            }
            if f2.contains_key(t1) {
                assert(t1 != t0);
                assert(t1 != sst) by {
                    names::lemma_names_differ(0, id, names::sst_name(1, e2.next_id()));
                }
                assert(!e.flush_writes(t1));
                assert(lsm::agree(f, f2, t1));
            }
            assert(e2.is_ordered()) by {
                assert forall|i: int, j: int| 0 <= i < j < e2.refs().len() implies (
                #[trigger] e2.refs()[i]).0 > (#[trigger] e2.refs()[j]).0 by {
                    assert(e2.refs()[j] == e0.refs()[j - 1]);
                    assert(e0.table_named(j - 1));
                    if i > 0 {
                        assert(e2.refs()[i] == e0.refs()[i - 1]);
                    }
                }
            }
            lemma_compact_blocked(e0, f0, Some(rec), e, e2, f2, tables, after, t1, trigger, bits);
        }
    } else {
        let t1 = names::tmp_name(names::sst_name(1, id));
        lemma_compact_blocked(e0, f0, Some(rec), e, e, f, tables, tables, t1, trigger, bits);
    }
}

proof fn lemma_flush_still_blocked(
    e: EngineInner,
    f0: io::Files,
    trigger: usize,
    bits: u32,
)
    requires
        e.wf(f0),
        e.is_ordered(),
        e.settle_is_blocked(f0, e.mem().len() > 0, trigger, bits),
    ensures
        ({
            let tables = e.levels().tables(f0);
            ||| e.next_id() >= u64::MAX - 1
            ||| exists|n: Seq<u8>| #[trigger]
                f0.contains_key(n) && names::extension(n) == Some(names::tmp_ext())
                    && f0[n].len() > 0
            ||| state::newest(tables, Seq::empty()) is Some
            ||| exists|s: Pairs, b: Option<BloomFilter>|
                {
                    &&& (#[trigger] layout::table_bytes(s, b)).len() > usize::MAX
                    &&& assoc::sorted_pairs(s)
                    &&& b matches Some(b) ==> b.wf() && (e.levels().refs0().len() + 1 < trigger
                        ==> b.spec_m() <= 64 || b.spec_m() <= s.len() * bits)
                    &&& forall|k: Seq<u8>| #[trigger]
                        assoc::find(s, k) is Some ==> {
                            ||| assoc::find(s, k) == assoc::find(e.mem(), k)
                            ||| assoc::find(s, k) == state::newest(tables, k)
                        }
                }
        }),
{
    let f = e.mended(f0);
    let id = e.next_id();
    let wal = names::wal_name();
    let t0 = names::tmp_name(names::sst_name(0, id));
    let tables = e.levels().tables(f0);
    names::lemma_sst_name(0, id);
    names::lemma_sst_name(1, id);
    names::lemma_tmp_name(names::sst_name(0, id));
    names::lemma_tmp_name(names::sst_name(1, id));
    names::lemma_names_differ(0, id, wal);
    names::lemma_names_differ(0, id, names::sst_name(0, id));
    names::lemma_names_differ(1, id, names::sst_name(1, id));
    assert forall|n: Seq<u8>| n != wal && #[trigger] f.contains_key(n) implies f0.contains_key(n)
        && f0[n] == f[n] by {}
    mend::lemma_mended(e, f0, e, f);
    e.levels().lemma_files(f0);
    assert(e.levels().tables(f) =~= tables) by {
        assert forall|i: int| 0 <= i < tables.len() implies e.levels().tables(f)[i]
            == tables[i] by {
            assert(f[e.refs()[i].1] == f0[e.refs()[i].1]);
        }
    }
    if e.mem().len() > 0 {
        if e.flush_is_blocked(f, bits) {
            if e.next_id() != u64::MAX && !(f.contains_key(t0) && f[t0].len() > 0) {
                let b = choose|b: Option<BloomFilter>|
                    writer::sized_for(b, e.mem().len() as int, bits as int) && (
                    #[trigger] layout::table_bytes(e.mem(), b)).len() > usize::MAX;
                assert(layout::table_bytes(e.mem(), b).len() > usize::MAX);
            } else if e.next_id() != u64::MAX {
                assert(f0.contains_key(t0));
            }
        } else {
            let (e2, f2) = choose|e2: EngineInner, f2: io::Files| #[trigger]
                e.flushes_to(f, &e2, f2) && e2.levels().refs0().len() >= trigger
                    && e2.compact_is_blocked(f2, bits);
            let sst = names::sst_name(0, id);
            let t1 = names::tmp_name(names::sst_name(1, e2.next_id()));
            names::lemma_sst_name(1, e2.next_id());
            names::lemma_tmp_name(names::sst_name(1, e2.next_id()));
            names::lemma_names_differ(0, id, names::sst_name(1, e2.next_id()));
            names::lemma_names_differ(1, e2.next_id(), names::sst_name(1, e2.next_id()));
            assert(e2.refs() =~= seq![(id, sst)] + e.refs());
            let after = e2.levels().tables(f2);
            assert(after =~= seq![e.mem()] + tables) by {
                assert forall|i: int| 0 <= i < after.len() implies after[i] == (seq![e.mem()]
                    + tables)[i] by {
                    if i > 0 {
                        assert(e2.refs()[i] == e.refs()[i - 1]);
                        assert(e.table_named(i - 1));
                        assert(!e.flush_writes(e.refs()[i - 1].1));
                        assert(lsm::agree(f, f2, e.refs()[i - 1].1));
                        e.levels().lemma_files(f);
                    }
                }
            }
            assert forall|k: Seq<u8>| #[trigger] state::newest(after, k) == (match assoc::find(
                e.mem(),
                k,
            ) {
                Some(x) => Some(x),
                None => state::newest(tables, k),
            }) by {
                state::lemma_newest_front(e.mem(), tables, k);
            }
            if f2.contains_key(t1) {
                assert(t1 != t0);
                assert(!e.flush_writes(t1));
                assert(lsm::agree(f, f2, t1));
            }
            assert(e2.is_ordered()) by {
                assert forall|i: int, j: int| 0 <= i < j < e2.refs().len() implies (
                #[trigger] e2.refs()[i]).0 > (#[trigger] e2.refs()[j]).0 by {
                    assert(e2.refs()[j] == e.refs()[j - 1]);
                    assert(e.table_named(j - 1));
                    if i > 0 {
                        assert(e2.refs()[i] == e.refs()[i - 1]);
                    }
                }
            }
            lemma_compact_blocked(e, f0, None, e, e2, f2, tables, after, t1, trigger, bits);
        }
    } else {
        let t1 = names::tmp_name(names::sst_name(1, id));
        lemma_compact_blocked(e, f0, None, e, e, f, tables, tables, t1, trigger, bits);
    }
}

proof fn lemma_compact_blocked(
    e0: EngineInner,
    f0: io::Files,
    rec: Option<RecordView>,
    e: EngineInner,
    e2: EngineInner,
    f2: io::Files,
    tables: Seq<Pairs>,
    after: Seq<Pairs>,
    t1: Seq<u8>,
    trigger: usize,
    bits: u32,
)
    requires
        e0.wf(f0),
        forall|k: Seq<u8>| #[trigger]
            assoc::find(e.mem(), k) == assoc::find(e0.mem(), k) || rec is Some && k == rec->0.key
                && assoc::find(e.mem(), k) == Some(state::record_entry(rec->0)),
        rec is Some ==> rec->0.valid(),
        e2.is_ordered(),
        e2.next_id() <= e0.next_id() + 1,
        e2.levels().refs0().len() <= e0.levels().refs0().len() + 1,
        e2.levels().refs0().len() >= trigger,
        e2.compact_is_blocked(f2, bits),
        e2.levels().tables(f2) == after,
        t1 == names::tmp_name(names::sst_name(1, e2.next_id())),
        names::extension(t1) == Some(names::tmp_ext()),
        f2.contains_key(t1) ==> f0.contains_key(t1) && f0[t1] == f2[t1],
        forall|k: Seq<u8>| #[trigger]
            state::newest(after, k) == state::newest(tables, k) || state::newest(after, k)
                == assoc::find(e.mem(), k) && assoc::find(e.mem(), k) is Some,
    ensures
        ({
            ||| e0.next_id() >= u64::MAX - 1
            ||| exists|n: Seq<u8>| #[trigger]
                f0.contains_key(n) && names::extension(n) == Some(names::tmp_ext())
                    && f0[n].len() > 0
            ||| state::newest(tables, Seq::empty()) is Some
            ||| exists|s: Pairs, b: Option<BloomFilter>|
                {
                    &&& (#[trigger] layout::table_bytes(s, b)).len() > usize::MAX
                    &&& assoc::sorted_pairs(s)
                    &&& b matches Some(b) ==> b.wf() && (e0.levels().refs0().len() + 1 < trigger
                        ==> b.spec_m() <= 64 || b.spec_m() <= s.len() * bits)
                    &&& forall|k: Seq<u8>| #[trigger]
                        assoc::find(s, k) is Some ==> {
                            ||| rec is Some && k == rec->0.key && assoc::find(s, k) == Some(
                                state::record_entry(rec->0),
                            )
                            ||| assoc::find(s, k) == assoc::find(e0.mem(), k)
                            ||| assoc::find(s, k) == state::newest(tables, k)
                        }
                }
        }),
{
    let none = Seq::<u8>::empty();
    assert(assoc::find(e.mem(), none) is None) by {
        assert(assoc::find(e.mem(), none) == assoc::find(e0.mem(), none));
        if assoc::has_key(e0.mem(), none) {
            let i = choose|i: int| 0 <= i < e0.mem().len() && (#[trigger] e0.mem()[i]).0 == none;
            assert(state::storable(e0.mem()[i].0, e0.mem()[i].1));
        }
    }
    if e2.next_id() == u64::MAX {
    } else if f2.contains_key(t1) && f2[t1].len() > 0 {
        assert(f0.contains_key(t1));
    } else if state::newest(after, none) is Some {
        assert(state::newest(after, none) == state::newest(tables, none));
    } else {
        let keys = compact::held(
            256 * compact::block_total(e2.levels(), e2.refs().len() as int),
        );
        let s = choose|s: Pairs| #[trigger]
            e2.merges_to(f2, s) && assoc::sorted_pairs(s) && writer::too_long(s, keys, bits as int);
        let b = choose|b: Option<BloomFilter>|
            writer::sized_for(b, keys, bits as int) && (#[trigger] layout::table_bytes(s, b)).len()
                > usize::MAX;
        assert(layout::table_bytes(s, b).len() > usize::MAX);
        assert forall|k: Seq<u8>| #[trigger] assoc::find(s, k) is Some implies {
            ||| rec is Some && k == rec->0.key && assoc::find(s, k) == Some(
                state::record_entry(rec->0),
            )
            ||| assoc::find(s, k) == assoc::find(e0.mem(), k)
            ||| assoc::find(s, k) == state::newest(tables, k)
        } by {
            assert(assoc::find(s, k) == state::unmasked(state::newest(after, k)));
        }
    }
}

} // verus!
