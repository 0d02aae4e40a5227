//! What a snapshot of the vector index is worth: whoever opens the files finds
//! the embeddings that the keys hold.

use crate::assoc;
use crate::engine::lsm;
use crate::engine::lsm::index;
use crate::engine::lsm::laws;
use crate::engine::lsm::recover;
use crate::engine::lsm::snapshots;
use crate::engine::lsm::EngineInner;
use crate::engine::names;
use crate::engine::state;
use crate::engine::state::TableRef;
use crate::engine::vector::VectorIndex;
use crate::hnsw::graph;
use crate::hnsw::math::VectorMath;
use crate::hnsw::snapshot;
use crate::hnsw::snapshot::SnapshotView;
use crate::hnsw::snapshot_laws;
use crate::hnsw::{DistanceMetric, HnswParams};
use crate::io;
use crate::memtable::EntryView;
use crate::sstable::layout::Pairs;
use vstd::prelude::*;

verus! {

/// `stored` is what an index should hold for a key with the value `e`: its
/// embedding, and nothing if the value is plain or there is none.
pub open spec fn fits<M: VectorMath>(
    math: &M,
    metric: DistanceMetric,
    stored: Option<Seq<u32>>,
    e: Option<EntryView>,
) -> bool {
    match e {
        Some(EntryView::Vector(b)) => stored == index::embedding(
            math,
            metric,
            Some(EntryView::Vector(b)),
        ),
        _ => stored is None,
    }
}

/// The tables of `refs` with a number below `n`.
pub open spec fn until(refs: Seq<TableRef>, n: u64) -> Seq<TableRef>
    decreases refs.len(),
{
    if refs.len() == 0 {
        refs
    } else {
        let before = until(refs.drop_last(), n);
        if refs.last().0 < n {
            before.push(refs.last())
        } else {
            before
        }
    }
}

/// The snapshot `v` is right for the memtable `mem` and the tables `refs`: for
/// each key that neither the memtable nor a table since the snapshot holds, it
/// holds what the tables before give.
pub open spec fn snapshot_fits<M: VectorMath>(
    math: &M,
    files: io::Files,
    mem: Pairs,
    refs: Seq<TableRef>,
    v: SnapshotView,
) -> bool {
    let newer = state::tables_in(files, state::names_of(index::since(refs, v.next_sstable_id)));
    let older = state::tables_in(files, state::names_of(until(refs, v.next_sstable_id)));
    forall|k: Seq<u8>|
        #![trigger snapshots::vector_in(v, k)]
        assoc::find(mem, k) is None && state::newest(newer, k) is None ==> fits(
            math,
            v.params.metric,
            snapshots::vector_in(v, k),
            state::unmasked(state::newest(older, k)),
        )
}

/// Every snapshot has the name that its number gives it.
pub open spec fn snapshots_tidy(files: io::Files) -> bool {
    forall|n: Seq<u8>, id: u64| #[trigger]
        snapshots::is_snapshot(files, n, id) ==> n == names::snapshot_name(id)
}

/// Whoever opens `files` finds a snapshot that is right, or none that can be
/// used.
pub open spec fn index_stands<M: VectorMath>(math: &M, files: io::Files) -> bool {
    &&& snapshots_tidy(files)
    &&& forall|l0: Seq<TableRef>, l1: Seq<TableRef>, next: int, mem: Pairs, n: Seq<u8>, id: u64, v:
        SnapshotView|
        #![trigger
            state::discovered(files, l0, l1, next),
            state::replays_to(state::log_records(files), mem),
            snapshots::is_latest(files, n, id),
            snapshots::is_usable(files, n, v)]
        state::discovered(files, l0, l1, next) && state::replays_to(state::log_records(files), mem)
            && snapshots::is_latest(files, n, id) && snapshots::is_usable(files, n, v)
            ==> snapshot_fits(math, files, mem, l0 + l1, v) && snapshots::is_regular(v)
}

/// No snapshot has a number above `next`, by name or by content, and none was
/// left half written.
pub open spec fn snapshots_settled(files: io::Files, next: u64) -> bool {
    &&& snapshots_tidy(files)
    &&& forall|n: Seq<u8>, id: u64| #[trigger] snapshots::is_snapshot(files, n, id) ==> id <= next
    &&& forall|n: Seq<u8>, id: u64, v: SnapshotView|
        #![trigger snapshots::is_snapshot(files, n, id), snapshots::is_usable(files, n, v)]
        snapshots::is_snapshot(files, n, id) && snapshots::is_usable(files, n, v)
            ==> v.next_sstable_id <= next
    &&& forall|id: u64| !files.contains_key(#[trigger] names::tmp_name(names::snapshot_name(id)))
}

impl EngineInner {
    /// The latest snapshot, if it can be used, is right.
    pub open spec fn snapshots_in_step<M: VectorMath>(&self, files: io::Files, math: &M) -> bool {
        &&& snapshots_settled(files, self.next_id())
        &&& forall|n: Seq<u8>, id: u64, v: SnapshotView|
            #![trigger snapshots::is_latest(files, n, id), snapshots::is_usable(files, n, v)]
            snapshots::is_latest(files, n, id) && snapshots::is_usable(files, n, v)
                ==> snapshots::is_regular(v) && snapshot_fits(
                math,
                files,
                self.mem(),
                self.refs(),
                v,
            )
    }
}

/// The numbers do not ascend.
pub open spec fn newest_first(refs: Seq<TableRef>) -> bool {
    forall|i: int, j: int|
        0 <= i < j < refs.len() ==> (#[trigger] refs[i]).0 >= (#[trigger] refs[j]).0
}

/// Tables numbered from newest to oldest split into those since a number and
/// those before.
proof fn lemma_split(refs: Seq<TableRef>, n: u64)
    requires
        newest_first(refs),
    ensures
        refs == index::since(refs, n) + until(refs, n),
    decreases refs.len(),
{
    if refs.len() == 0 {
        assert(refs =~= index::since(refs, n) + until(refs, n));
    } else {
        let d = refs.drop_last();
        let last = refs.last();
        assert(newest_first(d)) by {
            assert forall|i: int, j: int| 0 <= i < j < d.len() implies (#[trigger] d[i]).0 >= (
            #[trigger] d[j]).0 by {
                assert(refs[i].0 >= refs[j].0);
            }
        }
        lemma_split(d, n);
        if last.0 >= n {
            assert forall|i: int| 0 <= i < d.len() implies (#[trigger] d[i]).0 >= n by {
                assert(refs[i].0 >= refs[refs.len() - 1].0);
            }
            lemma_none_until(d, n);
        }
        assert(refs =~= d.push(last));
        assert(refs =~= index::since(refs, n) + until(refs, n));
    }
}

proof fn lemma_none_until(refs: Seq<TableRef>, n: u64)
    requires
        forall|i: int| 0 <= i < refs.len() ==> (#[trigger] refs[i]).0 >= n,
    ensures
        until(refs, n).len() == 0,
    decreases refs.len(),
{
    if refs.len() > 0 {
        let d = refs.drop_last();
        assert forall|i: int| 0 <= i < d.len() implies (#[trigger] d[i]).0 >= n by {
            assert(refs[i].0 >= n);
        }
        assert(refs[refs.len() - 1].0 >= n);
        lemma_none_until(d, n);
    }
}

/// If all tables are older, none is newer.
proof fn lemma_none_since(refs: Seq<TableRef>, n: u64)
    requires
        forall|i: int| 0 <= i < refs.len() ==> (#[trigger] refs[i]).0 < n,
    ensures
        index::since(refs, n).len() == 0,
        until(refs, n) == refs,
    decreases refs.len(),
{
    if refs.len() > 0 {
        let d = refs.drop_last();
        assert forall|i: int| 0 <= i < d.len() implies (#[trigger] d[i]).0 < n by {
            assert(refs[i].0 < n);
        }
        assert(refs[refs.len() - 1].0 < n);
        lemma_none_since(d, n);
        assert(refs =~= d.push(refs.last()));
    }
}

/// One more table in front that is newer.
proof fn lemma_front_since(p: TableRef, refs: Seq<TableRef>, n: u64)
    requires
        p.0 >= n,
    ensures
        index::since(seq![p] + refs, n) == seq![p] + index::since(refs, n),
        until(seq![p] + refs, n) == until(refs, n),
    decreases refs.len(),
{
    let all = seq![p] + refs;
    if refs.len() == 0 {
        assert(all.drop_last() =~= Seq::empty());
        assert(index::since(all.drop_last(), n) =~= Seq::empty());
        assert(until(all.drop_last(), n) =~= Seq::empty());
        assert(all.last() == p);
        assert(index::since(all, n) =~= seq![p] + index::since(refs, n));
        assert(until(all, n) =~= until(refs, n));
    } else {
        let d = refs.drop_last();
        lemma_front_since(p, d, n);
        assert(all.drop_last() =~= seq![p] + d);
        assert(all.last() == refs.last());
        assert(index::since(all, n) =~= seq![p] + index::since(refs, n));
    }
}

proof fn lemma_tables_concat(files: io::Files, a: Seq<TableRef>, b: Seq<TableRef>)
    ensures
        state::tables_in(files, state::names_of(a + b)) == state::tables_in(
            files,
            state::names_of(a),
        ) + state::tables_in(files, state::names_of(b)),
{
    assert(state::tables_in(files, state::names_of(a + b)) =~= state::tables_in(
        files,
        state::names_of(a),
    ) + state::tables_in(files, state::names_of(b)));
}

/// What a key holds, by age: the memtable, the tables since a number, the
/// tables before.
proof fn lemma_entry_by_age(e: EngineInner, files: io::Files, n: u64, k: Seq<u8>)
    requires
        newest_first(e.refs()),
    ensures
        ({
            let newer = state::tables_in(files, state::names_of(index::since(e.refs(), n)));
            let older = state::tables_in(files, state::names_of(until(e.refs(), n)));
            e.entry(files, k) == (match assoc::find(e.mem(), k) {
                Some(x) => Some(x),
                None => match state::newest(newer, k) {
                    Some(x) => Some(x),
                    None => state::newest(older, k),
                },
            })
        }),
{
    lemma_split(e.refs(), n);
    let s = index::since(e.refs(), n);
    let u = until(e.refs(), n);
    lemma_tables_concat(files, s, u);
    state::lemma_newest_concat(
        state::tables_in(files, state::names_of(s)),
        state::tables_in(files, state::names_of(u)),
        k,
    );
}

/// An index that was built from memtable and tables holds the embeddings that
/// the keys hold.
pub proof fn lemma_rebuilt_fits<M: VectorMath>(
    e: EngineInner,
    files: io::Files,
    math: &M,
    params: HnswParams,
    index: VectorIndex,
)
    requires
        e.index_rebuilt(files, math, params, index),
    ensures
        forall|k: Seq<u8>| #[trigger]
            fits(math, params.metric, index.indexed(k), e.value(files, k)),
{
    assert forall|k: Seq<u8>| #[trigger]
        fits(math, params.metric, index.indexed(k), e.value(files, k)) by {
        assert(index.indexed(k) == index::embedding(math, params.metric, e.entry(files, k)));
    }
}

/// An index that was loaded from a snapshot that is right, with the newer
/// entries taken in, holds the embeddings that the keys hold.
pub proof fn lemma_loaded_fits<M: VectorMath>(
    e: EngineInner,
    files: io::Files,
    math: &M,
    v: SnapshotView,
    index: VectorIndex,
)
    requires
        newest_first(e.refs()),
        e.index_loaded(files, math, v, index),
        snapshot_fits(math, files, e.mem(), e.refs(), v),
    ensures
        forall|k: Seq<u8>| #[trigger]
            fits(math, v.params.metric, index.indexed(k), e.value(files, k)),
{
    let n = v.next_sstable_id;
    let newer = state::tables_in(files, state::names_of(index::since(e.refs(), n)));
    assert forall|k: Seq<u8>| #[trigger]
        fits(math, v.params.metric, index.indexed(k), e.value(files, k)) by {
        lemma_entry_by_age(e, files, n, k);
        state::lemma_newest_front(e.mem(), newer, k);
        assert(e.sources_since(files, n) =~= seq![e.mem()] + newer);
        let _ = snapshots::vector_in(v, k);
    }
}

/// A snapshot of an index reads back as it was written, and holds for each key
/// the vector that the index holds.
pub proof fn lemma_snapshot_of_index(index: VectorIndex, n: u64)
    requires
        index.wf(),
        index.is_storable(),
    ensures
        ({
            let v = index.graph().snapshot(n, index.keys());
            &&& snapshot::snapshot_of(snapshot::snapshot_bytes(v)) == Some(v)
            &&& snapshots::is_regular(v)
            &&& snapshot::keys_match(index.keys(), v.nodes, v.keys)
            &&& forall|k: Seq<u8>| #[trigger] snapshots::vector_in(v, k) == index.indexed(k)
        }),
{
    let g = index.graph();
    let v = g.snapshot(n, index.keys());
    let pairs = index.keys();
    assert forall|id: int| graph::is_live(v.nodes, id) implies {
        &&& #[trigger] v.keys[id] == index.reverse()[id as u32]@
        &&& assoc::find(pairs, v.keys[id]) == Some(id as u32)
    } by {
        assert(id as u32 == id);
        assert(index.reverse().contains_key(id as u32));
        let k = index.reverse()[id as u32]@;
        assert(index.node_of(k) == Some(id as u32));
        lemma_node_key(index, id as u32, k);
    }
    assert(snapshot::keys_match(pairs, v.nodes, v.keys)) by {
        assert forall|k: Seq<u8>|
            #![trigger assoc::find(pairs, k)]
            assoc::find(pairs, k) matches Some(id) implies {
            let id = assoc::find(pairs, k)->0;
            id < v.nodes.len() && !v.nodes[id as int].deleted && v.keys[id as int] == k
        } by {
            let id = assoc::find(pairs, k)->0;
            assert(index.node_of(k) == Some(id));
            assert(index.reverse().contains_key(id));
            assert(graph::is_live(v.nodes, id as int));
            assert(v.keys[id as int] == index.reverse()[id]@);
        }
        assert forall|id: int|
            0 <= id < v.nodes.len() && !(#[trigger] v.nodes[id]).deleted implies assoc::find(
            pairs,
            v.keys[id],
        ) == Some(id as u32) by {
            assert(graph::is_live(v.nodes, id));
            let _ = v.keys[id];
        }
    }
    snapshots::lemma_restored(index, v);
    assert(snapshot_laws::storable(v)) by {
        assert forall|i: int| 0 <= i < v.nodes.len() implies snapshot_laws::node_storable(
            #[trigger] v.nodes[i],
            v.keys[i],
            v.params.dim as int,
            v.nodes.len() as int,
        ) by {
            let node = v.nodes[i];
            assert forall|l: int| 0 <= l < node.layers.len() implies snapshot_laws::list_storable(
                #[trigger] node.layers[l],
                v.nodes.len() as int,
            ) by {
                let list = node.layers[l];
                assert(graph::has_layer(v.nodes, i, l));
                assert(v.nodes[i].layers[l].len() <= graph::degree_cap(g.spec_params(), l));
                assert forall|j: int| 0 <= j < list.len() implies #[trigger] list[j]
                    < v.nodes.len() by {
                    assert(graph::has_layer(v.nodes, v.nodes[i].layers[l][j] as int, l));
                }
            }
            if node.deleted {
                if v.keys[i].len() > 0 {
                    lemma_node_key_in(pairs, i);
                    assert(index.node_of(v.keys[i]) is Some);
                }
            } else {
                assert(graph::is_live(v.nodes, i));
                assert(index.node_of(v.keys[i]) is Some);
            }
        }
        assert forall|i: int, j: int|
            0 <= i < j < v.nodes.len() && !(#[trigger] v.nodes[i]).deleted && !(
            #[trigger] v.nodes[j]).deleted implies v.keys[i] != v.keys[j] by {
            assert(graph::is_live(v.nodes, i));
            assert(graph::is_live(v.nodes, j));
            assert(assoc::find(pairs, v.keys[i]) == Some(i as u32));
            assert(assoc::find(pairs, v.keys[j]) == Some(j as u32));
        }
    }
    assert(graph::within_caps(v.nodes, v.params)) by {
        assert forall|id: int, layer: int| graph::has_layer(v.nodes, id, layer) implies (
        #[trigger] v.nodes[id].layers[layer]).len() <= graph::degree_cap(v.params, layer) by {
            assert(v.nodes[id].layers[layer].len() <= graph::degree_cap(g.spec_params(), layer));
        }
    }
    snapshot_laws::lemma_snapshot_read_back(v);
}

/// While the files hold what the engine holds, and the latest snapshot is
/// right, it is right for whoever opens the files.
pub proof fn lemma_index_stands<M: VectorMath>(e: EngineInner, files: io::Files, math: &M)
    requires
        e.in_step(files),
        e.snapshots_in_step(files, math),
    ensures
        index_stands(math, files),
{
    let recs = state::log_records(files);
    let p = (e.next_id(), names::sst_name(0, e.next_id()));
    assert forall|l0: Seq<TableRef>, l1: Seq<TableRef>, next: int, mem: Pairs, n: Seq<u8>, id: u64, v:
        SnapshotView|
        #![trigger
            state::discovered(files, l0, l1, next),
            state::replays_to(recs, mem),
            snapshots::is_latest(files, n, id),
            snapshots::is_usable(files, n, v)]
        state::discovered(files, l0, l1, next) && state::replays_to(recs, mem)
            && snapshots::is_latest(files, n, id) && snapshots::is_usable(
            files,
            n,
            v,
        ) implies snapshot_fits(math, files, mem, l0 + l1, v) && snapshots::is_regular(v) by {
        laws::lemma_found(e, files, l0, l1, next);
        assert(snapshots::is_snapshot(files, n, id));
        let x = v.next_sstable_id;
        let refs = e.refs();
        let all = l0 + l1;
        let newer = state::tables_in(files, state::names_of(index::since(all, x)));
        let known = state::tables_in(files, state::names_of(index::since(refs, x)));
        if l0 != e.levels().refs0() {
            assert(all =~= seq![p] + refs);
            lemma_front_since(p, refs, x);
            lemma_tables_concat(files, seq![p], index::since(refs, x));
        }
        assert forall|k: Seq<u8>|
            #![trigger snapshots::vector_in(v, k)]
            assoc::find(mem, k) is None && state::newest(newer, k) is None implies fits(
            math,
            v.params.metric,
            snapshots::vector_in(v, k),
            state::unmasked(
                state::newest(state::tables_in(files, state::names_of(until(all, x))), k),
            ),
        ) by {
            assert(assoc::find(e.mem(), k) == state::replayed(recs, k));
            assert(assoc::find(mem, k) == state::replayed(recs, k));
            if l0 != e.levels().refs0() {
                let front = state::tables_in(files, state::names_of(seq![p]));
                state::lemma_newest_concat(front, known, k);
            }
            assert(state::newest(known, k) is None);
        }
    }
}

proof fn lemma_until_subset(refs: Seq<TableRef>, n: u64)
    ensures
        forall|i: int| 0 <= i < until(refs, n).len() ==> refs.contains(#[trigger] until(refs, n)[i]),
    decreases refs.len(),
{
    if refs.len() > 0 {
        let d = refs.drop_last();
        lemma_until_subset(d, n);
        let s = until(refs, n);
        assert forall|i: int| 0 <= i < s.len() implies refs.contains(#[trigger] s[i]) by {
            if i < until(d, n).len() {
                assert(d.contains(until(d, n)[i]));
                let j = choose|j: int| 0 <= j < d.len() && d[j] == until(d, n)[i];
                assert(refs[j] == s[i]);
            } else {
                assert(refs[refs.len() - 1] == s[i]);
            }
        }
    }
}

/// While the tables stay as they are, and the memtable holds no fewer keys, a
/// snapshot that is right stays right.
proof fn lemma_snapshot_stays<M: VectorMath>(
    math: &M,
    before: io::Files,
    after: io::Files,
    mem: Pairs,
    mem_after: Pairs,
    refs: Seq<TableRef>,
    v: SnapshotView,
)
    requires
        snapshot_fits(math, before, mem, refs, v),
        forall|i: int|
            0 <= i < refs.len() ==> after[(#[trigger] refs[i]).1] == before[refs[i].1],
        forall|k: Seq<u8>| #[trigger]
            assoc::find(mem_after, k) is None ==> assoc::find(mem, k) is None,
    ensures
        snapshot_fits(math, after, mem_after, refs, v),
{
    let n = v.next_sstable_id;
    let s = index::since(refs, n);
    let u = until(refs, n);
    snapshots::lemma_since_subset(refs, n);
    lemma_until_subset(refs, n);
    assert(state::tables_in(after, state::names_of(s)) =~= state::tables_in(
        before,
        state::names_of(s),
    )) by {
        assert forall|i: int| 0 <= i < s.len() implies after[(#[trigger] s[i]).1] == before[s[i].1] by {
            assert(refs.contains(s[i]));
            let j = choose|j: int| 0 <= j < refs.len() && refs[j] == s[i];
            assert(after[refs[j].1] == before[refs[j].1]);
        }
    }
    assert(state::tables_in(after, state::names_of(u)) =~= state::tables_in(
        before,
        state::names_of(u),
    )) by {
        assert forall|i: int| 0 <= i < u.len() implies after[(#[trigger] u[i]).1] == before[u[i].1] by {
            assert(refs.contains(u[i]));
            let j = choose|j: int| 0 <= j < refs.len() && refs[j] == u[i];
            assert(after[refs[j].1] == before[refs[j].1]);
        }
    }
}

/// Whoever opens files whose snapshots are right gets an index that holds the
/// embeddings that the keys hold, and that can be written to a snapshot.
pub proof fn lemma_opened_index<M: VectorMath>(
    e: EngineInner,
    before: io::Files,
    files: io::Files,
    math: &M,
    params: HnswParams,
    index: VectorIndex,
)
    requires
        index_stands(math, before),
        e.recovered_from(before),
        recover::opens_to(before, files, e.refs()),
        e.wf(files),
        e.index_recovered(files, math, params, index),
    ensures
        forall|k: Seq<u8>| #[trigger]
            fits(math, index.graph().spec_params().metric, index.indexed(k), e.value(files, k)),
        snapshots::params_fit(params) && e.entry(files, Seq::empty()) is None
            ==> index.is_storable(),
        snapshots_settled(before, e.next_id()) ==> e.snapshots_in_step(files, math),
{
    let refs = e.refs();
    let r0 = e.levels().refs0();
    let r1 = e.levels().refs1();
    lemma_opened_latest(e, before, files);
    assert(newest_first(refs)) by {
        assert forall|i: int, j: int| 0 <= i < j < refs.len() implies (#[trigger] refs[i]).0 >= (
        #[trigger] refs[j]).0 by {
            if j < r0.len() {
                assert(r0[i].0 >= r0[j].0);
            } else {
                assert(refs[j] == r1[j - r0.len()]);
                assert(refs[i] == r0[i]);
                assert(state::above(r1, r0[i].0));
            }
        }
    }
    e.levels().lemma_files(files);
    assert forall|i: int| 0 <= i < refs.len() implies files[(#[trigger] refs[i]).1]
        == before[refs[i].1] by {
        assert(e.table_named(i));
        assert(files.contains_key(refs[i].1));
        snapshots::lemma_table_letter(refs[i].1);
        assert(names::wal_name()[0] == 119u8);
    }
    assert forall|n: Seq<u8>, id: u64, v: SnapshotView|
        #![trigger snapshots::is_latest(files, n, id), snapshots::is_usable(files, n, v)]
        snapshots::is_latest(files, n, id) && snapshots::is_usable(files, n, v) implies {
        &&& snapshots::is_latest(before, n, id)
        &&& snapshots::is_usable(before, n, v)
        &&& snapshot_fits(math, files, e.mem(), refs, v)
        &&& snapshots::is_regular(v)
    } by {
        assert(snapshots::is_latest(before, n, id));
        snapshots::lemma_snapshot_is_other(n);
        assert(snapshots::is_usable(before, n, v));
        assert(state::discovered(before, r0, r1, e.next_id() as int));
        assert(state::replays_to(state::log_records(before), e.mem()));
        assert(snapshot_fits(math, before, e.mem(), r0 + r1, v));
        assert(r0 + r1 =~= refs);
        lemma_snapshot_stays(math, before, files, e.mem(), e.mem(), refs, v);
    }
    if e.index_rebuilt(files, math, params, index) {
        lemma_rebuilt_fits(e, files, math, params, index);
    } else {
        let (n, id, v) = choose|n: Seq<u8>, id: u64, v: SnapshotView|
            #[trigger] snapshots::is_latest(files, n, id) && #[trigger] snapshots::is_usable(
                files,
                n,
                v,
            ) && e.index_loaded(files, math, v, index);
        lemma_loaded_fits(e, files, math, v, index);
    }
}

/// Opening keeps the snapshots.
proof fn lemma_opened_latest(e: EngineInner, before: io::Files, files: io::Files)
    requires
        snapshots_tidy(before),
        recover::opens_to(before, files, e.refs()),
    ensures
        forall|n: Seq<u8>, id: u64| #[trigger]
            snapshots::is_latest(files, n, id) ==> snapshots::is_latest(before, n, id),
        snapshots_settled(before, e.next_id()) ==> snapshots_settled(files, e.next_id()),
        snapshots_tidy(files),
{
    assert forall|n: Seq<u8>, id: u64| #[trigger]
        snapshots::is_snapshot(before, n, id) implies snapshots::is_snapshot(files, n, id) by {
        names::lemma_snapshot_name(id);
        assert(names::snapshot_ext()[0] == 105u8);
        assert(names::tmp_ext()[0] == 116u8);
        assert(names::sst_ext()[0] == 115u8);
        snapshots::lemma_snapshot_is_other(n);
        if !files.contains_key(n) {
            assert(before.contains_key(n) && !files.contains_key(n));
        }
    }
    assert forall|n: Seq<u8>, id: u64| #[trigger]
        snapshots::is_snapshot(files, n, id) implies snapshots::is_snapshot(before, n, id) by {
        snapshots::lemma_snapshot_is_other(n);
    }
    assert forall|n: Seq<u8>, id: u64| #[trigger] snapshots::is_latest(
        files,
        n,
        id,
    ) implies snapshots::is_latest(before, n, id) by {
        assert(snapshots::is_snapshot(files, n, id));
        assert forall|m: Seq<u8>, x: u64| #[trigger] snapshots::is_snapshot(
            before,
            m,
            x,
        ) implies x <= id by {
            assert(snapshots::is_snapshot(files, m, x));
        }
    }
    if snapshots_settled(before, e.next_id()) {
        assert forall|n: Seq<u8>, id: u64, v: SnapshotView|
            #![trigger snapshots::is_snapshot(files, n, id), snapshots::is_usable(files, n, v)]
            snapshots::is_snapshot(files, n, id) && snapshots::is_usable(
                files,
                n,
                v,
            ) implies v.next_sstable_id <= e.next_id() by {
            snapshots::lemma_snapshot_is_other(n);
            assert(snapshots::is_snapshot(before, n, id));
            assert(snapshots::is_usable(before, n, v));
        }
        assert forall|id: u64| !files.contains_key(
            #[trigger] names::tmp_name(names::snapshot_name(id)),
        ) by {
            let t = names::tmp_name(names::snapshot_name(id));
            names::lemma_snapshot_name(id);
            assert(t[0] == names::snapshot_prefix()[0]);
            assert(names::wal_name()[0] == 119u8);
            assert(!before.contains_key(t));
        }
    }
}

/// A snapshot of an index that holds what the keys hold is right.
pub proof fn lemma_fresh_snapshot<M: VectorMath>(
    e: EngineInner,
    before: io::Files,
    files: io::Files,
    math: &M,
    index: VectorIndex,
)
    requires
        e.wf(files),
        index.wf(),
        index.is_storable(),
        forall|k: Seq<u8>| #[trigger]
            fits(math, index.graph().spec_params().metric, index.indexed(k), e.value(files, k)),
        snapshots_settled(before, e.next_id()),
        ({
            let n = names::snapshot_name(e.next_id());
            &&& files.contains_key(n)
            &&& files[n] == snapshot::snapshot_bytes(
                index.graph().snapshot(e.next_id(), index.keys()),
            )
            &&& forall|o: Seq<u8>| #[trigger]
                files.contains_key(o) && o != n ==> before.contains_key(o) && files[o] == before[o]
        }),
    ensures
        e.snapshots_in_step(files, math),
{
    let next = e.next_id();
    let n = names::snapshot_name(next);
    let s = index.graph().snapshot(next, index.keys());
    names::lemma_snapshot_name(next);
    lemma_snapshot_of_index(index, next);
    assert forall|m: Seq<u8>, id: u64| #[trigger]
        snapshots::is_snapshot(files, m, id) implies m == names::snapshot_name(id) && id
        <= next by {
        if m != n {
            assert(snapshots::is_snapshot(before, m, id));
        }
    }
    assert forall|id: u64| !files.contains_key(
        #[trigger] names::tmp_name(names::snapshot_name(id)),
    ) by {
        let t = names::tmp_name(names::snapshot_name(id));
        names::lemma_snapshot_name(id);
        names::lemma_tmp_name(names::snapshot_name(id));
        assert(names::snapshot_ext()[0] == 105u8);
        assert(names::tmp_ext()[0] == 116u8);
        assert(t != n);
        assert(!before.contains_key(t));
    }
    assert forall|m: Seq<u8>, id: u64, v: SnapshotView|
        #![trigger snapshots::is_snapshot(files, m, id), snapshots::is_usable(files, m, v)]
        snapshots::is_snapshot(files, m, id) && snapshots::is_usable(
            files,
            m,
            v,
        ) implies v.next_sstable_id <= next by {
        if m != n {
            assert(snapshots::is_snapshot(before, m, id));
            assert(snapshots::is_usable(before, m, v));
        }
    }
    let refs = e.refs();
    assert forall|i: int| 0 <= i < refs.len() implies (#[trigger] refs[i]).0 < next by {
        assert(e.table_named(i));
    }
    lemma_none_since(refs, next);
    assert forall|m: Seq<u8>, id: u64, v: SnapshotView|
        #![trigger snapshots::is_latest(files, m, id), snapshots::is_usable(files, m, v)]
        snapshots::is_latest(files, m, id) && snapshots::is_usable(files, m, v) implies {
        &&& snapshots::is_regular(v)
        &&& snapshot_fits(math, files, e.mem(), refs, v)
    } by {
        assert(snapshots::is_snapshot(files, n, next));
        assert(snapshots::is_snapshot(files, m, id));
        assert(id == next);
        assert(m == n);
        assert(v == s);
        assert forall|k: Seq<u8>|
            #![trigger snapshots::vector_in(v, k)]
            assoc::find(e.mem(), k) is None implies fits(
            math,
            v.params.metric,
            snapshots::vector_in(v, k),
            state::unmasked(state::newest(state::tables_in(files, state::names_of(refs)), k)),
        ) by {
            assert(fits(
                math,
                index.graph().spec_params().metric,
                index.indexed(k),
                e.value(files, k),
            ));
        }
    }
}

/// A change that leaves the snapshots alone leaves them settled.
pub proof fn lemma_settled_stays(before: io::Files, n: u64, files: io::Files, m: u64)
    requires
        snapshots_settled(before, n),
        n <= m,
        forall|o: Seq<u8>| o.len() > 0 && o[0] == 104u8 ==> #[trigger] lsm::agree(before, files, o),
    ensures
        snapshots_settled(files, m),
{
    assert forall|o: Seq<u8>, id: u64| #[trigger]
        snapshots::is_snapshot(files, o, id) implies snapshots::is_snapshot(before, o, id) by {
        snapshots::lemma_snapshot_is_other(o);
        assert(lsm::agree(before, files, o));
    }
    assert forall|o: Seq<u8>, id: u64, v: SnapshotView|
        #![trigger snapshots::is_snapshot(files, o, id), snapshots::is_usable(files, o, v)]
        snapshots::is_snapshot(files, o, id) && snapshots::is_usable(
            files,
            o,
            v,
        ) implies v.next_sstable_id <= m by {
        snapshots::lemma_snapshot_is_other(o);
        assert(lsm::agree(before, files, o));
        assert(snapshots::is_snapshot(before, o, id));
        assert(snapshots::is_usable(before, o, v));
    }
    assert forall|id: u64| !files.contains_key(
        #[trigger] names::tmp_name(names::snapshot_name(id)),
    ) by {
        let t = names::tmp_name(names::snapshot_name(id));
        names::lemma_snapshot_name(id);
        assert(t[0] == names::snapshot_prefix()[0]);
        assert(lsm::agree(before, files, t));
    }
}

/// A write that adds to log and memtable only leaves the snapshots right.
pub proof fn lemma_snapshots_stay<M: VectorMath>(
    e: EngineInner,
    before: io::Files,
    after: EngineInner,
    files: io::Files,
    math: &M,
)
    requires
        e.snapshots_in_step(before, math),
        after.levels() == e.levels(),
        after.next_id() == e.next_id(),
        e.tables_kept(before, files),
        forall|k: Seq<u8>| #[trigger]
            assoc::find(after.mem(), k) is None ==> assoc::find(e.mem(), k) is None,
        forall|n: Seq<u8>| n.len() > 0 && n[0] == 104u8 ==> #[trigger] lsm::agree(before, files, n),
    ensures
        after.snapshots_in_step(files, math),
{
    lemma_settled_stays(before, e.next_id(), files, e.next_id());
    assert forall|n: Seq<u8>, id: u64| #[trigger]
        snapshots::is_snapshot(files, n, id) == snapshots::is_snapshot(before, n, id) by {
        if names::parse_snapshot(n) is Some {
            snapshots::lemma_snapshot_is_other(n);
            assert(lsm::agree(before, files, n));
        }
    }
    assert forall|n: Seq<u8>, id: u64, v: SnapshotView|
        #![trigger snapshots::is_latest(files, n, id), snapshots::is_usable(files, n, v)]
        snapshots::is_latest(files, n, id) && snapshots::is_usable(files, n, v) implies {
        &&& snapshots::is_regular(v)
        &&& snapshot_fits(math, files, after.mem(), after.refs(), v)
    } by {
        assert(snapshots::is_snapshot(files, n, id));
        assert(snapshots::is_latest(before, n, id)) by {
            assert forall|m: Seq<u8>, x: u64| #[trigger] snapshots::is_snapshot(
                before,
                m,
                x,
            ) implies x <= id by {
                assert(snapshots::is_snapshot(files, m, x));
            }
        }
        snapshots::lemma_snapshot_is_other(n);
        assert(lsm::agree(before, files, n));
        assert(snapshots::is_usable(before, n, v));
        lemma_snapshot_stays(math, before, files, e.mem(), after.mem(), e.refs(), v);
    }
}

/// Dropping all snapshots but the latest leaves it right.
pub proof fn lemma_snapshots_dropped<M: VectorMath>(
    e: EngineInner,
    before: io::Files,
    files: io::Files,
    kept: Seq<u8>,
    math: &M,
)
    requires
        e.wf(before),
        e.snapshots_in_step(before, math),
        snapshots::drops_snapshots(before, files, kept),
        snapshots::keeps_latest(before, kept),
    ensures
        e.snapshots_in_step(files, math),
{
    e.lemma_snapshots_dropped(before, files, kept);
    assert forall|n: Seq<u8>, id: u64| #[trigger]
        snapshots::is_snapshot(files, n, id) implies snapshots::is_snapshot(before, n, id) by {}
    assert forall|n: Seq<u8>, id: u64, v: SnapshotView|
        #![trigger snapshots::is_snapshot(files, n, id), snapshots::is_usable(files, n, v)]
        snapshots::is_snapshot(files, n, id) && snapshots::is_usable(
            files,
            n,
            v,
        ) implies v.next_sstable_id <= e.next_id() by {
        assert(snapshots::is_snapshot(before, n, id));
        assert(snapshots::is_usable(before, n, v));
    }
    assert forall|n: Seq<u8>, id: u64, v: SnapshotView|
        #![trigger snapshots::is_latest(files, n, id), snapshots::is_usable(files, n, v)]
        snapshots::is_latest(files, n, id) && snapshots::is_usable(files, n, v) implies {
        &&& snapshots::is_regular(v)
        &&& snapshot_fits(math, files, e.mem(), e.refs(), v)
    } by {
        assert(snapshots::is_snapshot(files, n, id));
        assert(snapshots::is_snapshot(before, n, id));
        let x = choose|x: u64| #[trigger] snapshots::is_latest(before, kept, x);
        assert(files.contains_key(kept));
        assert(snapshots::is_snapshot(files, kept, x));
        assert(id == x);
        assert(n == kept);
        assert(snapshots::is_usable(before, n, v));
        lemma_snapshot_stays(math, before, files, e.mem(), e.mem(), e.refs(), v);
    }
}

/// The key that a snapshot gives to a node is one of the keys.
proof fn lemma_node_key_in(pairs: Seq<(Seq<u8>, u32)>, id: int)
    ensures
        snapshot::node_key(pairs, id).len() > 0 ==> exists|i: int|
            0 <= i < pairs.len() && (#[trigger] pairs[i]).1 == id && pairs[i].0
                == snapshot::node_key(pairs, id),
    decreases pairs.len(),
{
    if pairs.len() > 0 {
        let d = pairs.drop_last();
        if pairs.last().1 == id {
            assert(pairs[pairs.len() - 1].1 == id);
        } else {
            lemma_node_key_in(d, id);
            if snapshot::node_key(d, id).len() > 0 {
                let i = choose|i: int|
                    0 <= i < d.len() && (#[trigger] d[i]).1 == id && d[i].0 == snapshot::node_key(
                        d,
                        id,
                    );
                assert(pairs[i] == d[i]);
            }
        }
    }
}

/// The key that a snapshot gives to the node of `k` is `k`.
proof fn lemma_node_key(index: VectorIndex, id: u32, k: Seq<u8>)
    requires
        index.wf(),
        index.is_storable(),
        index.node_of(k) == Some(id),
    ensures
        snapshot::node_key(index.keys(), id as int) == k,
{
    let pairs = index.keys();
    assert forall|i: int| 0 <= i < pairs.len() implies (#[trigger] pairs[i]).0.len() > 0 by {
        assoc::lemma_find_at(pairs, i);
        assert(index.node_of(pairs[i].0) is Some);
    }
    lemma_node_key_held(pairs, id, k);
    lemma_node_key_in(pairs, id as int);
    let i = choose|i: int|
        0 <= i < pairs.len() && (#[trigger] pairs[i]).1 == id && pairs[i].0 == snapshot::node_key(
            pairs,
            id as int,
        );
    assoc::lemma_find_at(pairs, i);
    assert(index.node_of(pairs[i].0) == Some(id));
}

/// A node that some key leads to gets a key.
proof fn lemma_node_key_held(pairs: Seq<(Seq<u8>, u32)>, id: u32, k: Seq<u8>)
    requires
        assoc::sorted_pairs(pairs),
        assoc::find(pairs, k) == Some(id),
        forall|i: int| 0 <= i < pairs.len() ==> (#[trigger] pairs[i]).0.len() > 0,
    ensures
        snapshot::node_key(pairs, id as int).len() > 0,
    decreases pairs.len(),
{
    if pairs.len() > 0 {
        let d = pairs.drop_last();
        assert(pairs[pairs.len() - 1].0.len() > 0);
        if pairs.last().1 != id {
            assoc::lemma_find_drop_last(pairs, k);
            assoc::lemma_find_at(pairs, pairs.len() - 1);
            assert forall|i: int| 0 <= i < d.len() implies (#[trigger] d[i]).0.len() > 0 by {
                assert(pairs[i].0.len() > 0);
            }
            lemma_node_key_held(d, id, k);
        }
    }
}

} // verus!
