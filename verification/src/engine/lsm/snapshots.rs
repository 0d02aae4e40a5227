//! Snapshots of the vector index on disk, and recovery from them.
//!
//! A snapshot is a cache: memtable and tables are what counts. One that is
//! missing or damaged never keeps an engine from opening.

use crate::assoc;
use crate::codec::{copy_bytes, same_bytes};
use crate::engine::lsm::index;
use crate::engine::lsm::EngineInner;
use crate::engine::names;
use crate::engine::names::parse_snapshot_filename;
use crate::engine::state;
use crate::engine::vector;
use crate::engine::vector::VectorIndex;
use crate::error::{corruption, Error, Result};
use crate::hnsw::graph;
use crate::hnsw::insert;
use crate::hnsw::math::VectorMath;
use crate::hnsw::snapshot;
use crate::hnsw::snapshot::SnapshotView;
use crate::hnsw::snapshot_laws;
use crate::hnsw::{DistanceMetric, HnswIndex, HnswParams};
use crate::io;
use crate::io::Io;
use crate::memtable::EntryView;
use vstd::prelude::*;

verus! {

/// `n` is the snapshot `id`.
pub open spec fn is_snapshot(files: io::Files, n: Seq<u8>, id: u64) -> bool {
    files.contains_key(n) && names::parse_snapshot(n) == Some(id)
}

/// `n` is a snapshot, and none has a higher number.
pub open spec fn is_latest(files: io::Files, n: Seq<u8>, id: u64) -> bool {
    &&& is_snapshot(files, n, id)
    &&& forall|m: Seq<u8>, x: u64| #[trigger] is_snapshot(files, m, x) ==> x <= id
}

/// `after` is `before` without some snapshots, none of which is `kept`.
pub open spec fn drops_snapshots(before: io::Files, after: io::Files, kept: Seq<u8>) -> bool {
    &&& forall|n: Seq<u8>| #[trigger]
        after.contains_key(n) ==> before.contains_key(n) && after[n] == before[n]
    &&& forall|n: Seq<u8>| #[trigger]
        before.contains_key(n) && !after.contains_key(n) ==> n != kept && names::parse_snapshot(
            n,
        ) is Some
}

/// `n` is a snapshot other than `kept`, and its number is not `spared`.
pub open spec fn is_stale(n: Seq<u8>, kept: Seq<u8>, spared: Option<u64>) -> bool {
    n != kept && names::parse_snapshot(n) is Some && names::parse_snapshot(n) != spared
}

/// No snapshot is left but `kept` and those with the number `spared`.
pub open spec fn none_stale(files: io::Files, kept: Seq<u8>, spared: Option<u64>) -> bool {
    forall|n: Seq<u8>| #[trigger] is_stale(n, kept, spared) ==> !files.contains_key(n)
}

/// If there is a snapshot, `kept` is the latest.
pub open spec fn keeps_latest(files: io::Files, kept: Seq<u8>) -> bool {
    forall|n: Seq<u8>, id: u64| #[trigger]
        is_snapshot(files, n, id) ==> exists|x: u64| #[trigger] is_latest(files, kept, x)
}

proof fn lemma_dot_within(s: Seq<u8>, c: u8)
    ensures
        names::last_index_of(s, c) < s.len(),
    decreases s.len(),
{
    if s.len() > 0 {
        lemma_dot_within(s.drop_last(), c);
    }
}

/// A snapshot is neither a table nor the log.
pub proof fn lemma_snapshot_is_other(n: Seq<u8>)
    requires
        names::parse_snapshot(n) is Some,
    ensures
        names::parse_sst(n) is None,
        n != names::wal_name(),
        n.len() > 0,
        n[0] == 104u8,
{
    let s = names::stem(n);
    lemma_dot_within(n, 46);
    assert(names::snapshot_prefix() == s.subrange(0, 5));
    assert(s[0] == s.subrange(0, 5)[0]);
    assert(n[0] == s[0]);
    if names::sst_prefix().is_prefix_of(s) {
        assert(names::sst_prefix() == s.subrange(0, 5));
        assert(names::sst_prefix()[0] == 115u8);
    }
}

/// A table starts with the letter of tables.
pub proof fn lemma_table_letter(n: Seq<u8>)
    requires
        names::parse_sst(n) is Some,
    ensures
        n.len() > 0,
        n[0] == 115u8,
{
    let s = names::stem(n);
    lemma_dot_within(n, 46);
    assert(names::sst_prefix() == s.subrange(0, 5));
    assert(s[0] == s.subrange(0, 5)[0]);
    assert(n[0] == s[0]);
}

/// Removes the snapshots among `listed` other than `kept`, as far as that
/// works, but none with the number `spared`. A reliable backend removes all of
/// them.
pub(crate) fn remove_snapshots<I: Io>(
    io: &mut I,
    listed: &Vec<Vec<u8>>,
    kept: &[u8],
    spared: Option<u64>,
)
    ensures
        drops_snapshots(old(io).files(), final(io).files(), kept@),
        forall|n: Seq<u8>| #[trigger]
            old(io).files().contains_key(n) && !final(io).files().contains_key(n) ==> is_stale(
                n,
                kept@,
                spared,
            ) && exists|j: int| 0 <= j < listed@.len() && (#[trigger] listed@[j])@ == n,
        old(io).is_reliable() ==> forall|j: int|
            0 <= j < listed@.len() && is_stale(#[trigger] listed@[j]@, kept@, spared)
                ==> !final(io).files().contains_key(listed@[j]@),
        final(io).is_reliable() == old(io).is_reliable(),
        forall|o: Seq<u8>|
            names::parse_snapshot(o) is None && old(io).is_synced(o) ==>
                #[trigger] final(io).is_synced(o),
        forall|o: Seq<u8>|
            names::parse_snapshot(o) is None && old(io).is_linked(o) ==>
                #[trigger] final(io).is_linked(o),
        old(io).is_synced(kept@) ==> final(io).is_synced(kept@),
        old(io).is_linked(kept@) ==> final(io).is_linked(kept@),
{
    let mut i: usize = 0;
    while i < listed.len()
        invariant
            i <= listed@.len(),
            drops_snapshots(old(io).files(), io.files(), kept@),
            forall|n: Seq<u8>| #[trigger]
                old(io).files().contains_key(n) && !io.files().contains_key(n) ==> is_stale(
                    n,
                    kept@,
                    spared,
                ) && exists|j: int| 0 <= j < listed@.len() && (#[trigger] listed@[j])@ == n,
            old(io).is_reliable() ==> forall|j: int|
                0 <= j < i && is_stale(#[trigger] listed@[j]@, kept@, spared)
                    ==> !io.files().contains_key(listed@[j]@),
            io.is_reliable() == old(io).is_reliable(),
            forall|o: Seq<u8>|
                names::parse_snapshot(o) is None && old(io).is_synced(o) ==>
                    #[trigger] io.is_synced(o),
            forall|o: Seq<u8>|
                names::parse_snapshot(o) is None && old(io).is_linked(o) ==>
                    #[trigger] io.is_linked(o),
            old(io).is_synced(kept@) ==> io.is_synced(kept@),
            old(io).is_linked(kept@) ==> io.is_linked(kept@),
        decreases listed@.len() - i,
    {
        let name = &listed[i];
        if !same_bytes(name.as_slice(), kept) {
            match parse_snapshot_filename(name.as_slice()) {
                Some(id) => {
                    let sparing = match spared {
                        Some(s) => s == id,
                        None => false,
                    };
                    if !sparing {
                        let _ignored = io.remove_file(name.as_slice());
                    }
                },
                None => {},
            }
        }
        i = i + 1;
    }
}

/// Finds the snapshot with the highest number; removes the others.
fn discover_latest_snapshot<I: Io>(io: &mut I, dir: &str) -> (r: Result<Option<Vec<u8>>>)
    ensures
        match r {
            Ok(Some(n)) => {
                &&& exists|id: u64| #[trigger] is_latest(old(io).files(), n@, id)
                &&& drops_snapshots(old(io).files(), final(io).files(), n@)
                &&& old(io).is_reliable() ==> none_stale(final(io).files(), n@, None)
            },
            Ok(None) => {
                &&& forall|n: Seq<u8>, id: u64| !(#[trigger] is_snapshot(old(io).files(), n, id))
                &&& final(io).files() == old(io).files()
            },
            Err(e) => {
                &&& e is Io
                &&& !old(io).is_reliable()
                &&& final(io).files() == old(io).files()
            },
        },
        final(io).is_reliable() == old(io).is_reliable(),
        forall|o: Seq<u8>|
            names::parse_snapshot(o) is None && old(io).is_synced(o) ==>
                #[trigger] final(io).is_synced(o),
        forall|o: Seq<u8>|
            names::parse_snapshot(o) is None && old(io).is_linked(o) ==>
                #[trigger] final(io).is_linked(o),
{
    let ghost files = io.files();
    let listed = match io.list_dir(dir) {
        Ok(l) => l,
        Err(e) => {
            return Err(e);
        },
    };
    let mut best: Option<(u64, usize)> = None;
    let mut i: usize = 0;
    while i < listed.len()
        invariant
            i <= listed@.len(),
            io::lists(listed@, files),
            match best {
                Some((id, at)) => {
                    &&& at < i
                    &&& is_snapshot(files, listed@[at as int]@, id)
                    &&& forall|j: int, x: u64|
                        0 <= j < i && #[trigger] is_snapshot(files, listed@[j]@, x) ==> x <= id
                },
                None => forall|j: int, x: u64|
                    0 <= j < i ==> !(#[trigger] is_snapshot(files, listed@[j]@, x)),
            },
        decreases listed@.len() - i,
    {
        assert(files.contains_key(listed@[i as int]@));
        match parse_snapshot_filename(listed[i].as_slice()) {
            Some(id) => {
                let better = match best {
                    Some((top, _)) => id >= top,
                    None => true,
                };
                if better {
                    best = Some((id, i));
                }
            },
            None => {},
        }
        i = i + 1;
    }
    match best {
        None => {
            proof {
                assert forall|n: Seq<u8>, id: u64| !(#[trigger] is_snapshot(files, n, id)) by {
                    if is_snapshot(files, n, id) {
                        let j = choose|j: int|
                            0 <= j < listed@.len() && (#[trigger] listed@[j])@ == n;
                        assert(is_snapshot(files, listed@[j]@, id));
                    }
                }
            }
            Ok(None)
        },
        Some((id, at)) => {
            let name = copy_bytes(listed[at].as_slice());
            proof {
                assert(is_latest(files, name@, id)) by {
                    assert forall|m: Seq<u8>, x: u64| #[trigger] is_snapshot(
                        files,
                        m,
                        x,
                    ) implies x <= id by {
                        let j = choose|j: int|
                            0 <= j < listed@.len() && (#[trigger] listed@[j])@ == m;
                        assert(is_snapshot(files, listed@[j]@, x));
                    }
                }
            }
            remove_snapshots(io, &listed, name.as_slice(), None);
            proof {
                assert forall|n: Seq<u8>| io.is_reliable() && #[trigger] is_stale(
                    n,
                    name@,
                    None,
                ) implies !io.files().contains_key(n) by {
                    if io.files().contains_key(n) {
                        let j = choose|j: int|
                            0 <= j < listed@.len() && (#[trigger] listed@[j])@ == n;
                    }
                }
            }
            Ok(Some(name))
        },
    }
}

/// Reads the whole file `name`.
fn read_file_fully<I: Io>(io: &I, name: &[u8]) -> (r: Result<Vec<u8>>)
    ensures
        match r {
            Ok(b) => io.files().contains_key(name@) && b@ == io.files()[name@],
            Err(Error::Corruption(_)) => io.files().contains_key(name@) && io.files()[name@].len()
                > usize::MAX,
            Err(e) => e is Io && (io.is_reliable() ==> !io.files().contains_key(name@)),
        },
{
    match io.open_read(name) {
        Ok(_) => {},
        Err(e) => {
            return Err(e);
        },
    }
    let len = match io.len(name) {
        Ok(n) => n,
        Err(e) => {
            return Err(e);
        },
    };
    if len > usize::MAX as u64 {
        return Err(corruption("file larger than memory"));
    }
    let r = io.read_at(name, 0, len as usize);
    proof {
        if r is Ok {
            assert(r->Ok_0@ =~= io.files()[name@]);
        }
    }
    r
}

/// The node of `k` in the snapshot `v`.
pub open spec fn is_node_of(v: SnapshotView, k: Seq<u8>, id: int) -> bool {
    graph::is_live(v.nodes, id) && v.keys[id] == k
}

/// The vector of `k` in the snapshot `v`.
pub open spec fn vector_in(v: SnapshotView, k: Seq<u8>) -> Option<Seq<u32>> {
    if exists|id: int| is_node_of(v, k, id) {
        Some(v.nodes[choose|id: int| is_node_of(v, k, id)].vector)
    } else {
        None
    }
}

/// The file `n` holds the snapshot `v` of a graph that can be walked.
pub open spec fn is_usable(files: io::Files, n: Seq<u8>, v: SnapshotView) -> bool {
    &&& files.contains_key(n)
    &&& snapshot::snapshot_of(files[n]) == Some(v)
    &&& graph::graph_ok(v.nodes, v.entry)
}

/// The parameters can be written to a snapshot.
pub open spec fn params_fit(p: HnswParams) -> bool {
    &&& p.m <= u32::MAX
    &&& p.m_max_0 <= u32::MAX
    &&& p.ef_construction <= u32::MAX
    &&& p.ef_search <= u32::MAX
    &&& p.dim <= u32::MAX
}

/// `v` is a snapshot as an engine writes it: it can be written down again, no
/// list of neighbours is over its cap, and without a dimension there are no
/// nodes.
pub open spec fn is_regular(v: SnapshotView) -> bool {
    &&& snapshot_laws::storable(v)
    &&& graph::within_caps(v.nodes, v.params)
    &&& v.params.dim == 0 ==> v.nodes.len() == 0
}

/// The index of a snapshot holds the vectors of the snapshot.
pub(crate) proof fn lemma_restored(index: VectorIndex, v: SnapshotView)
    requires
        index.wf(),
        index.graph().nodes() == v.nodes,
        snapshot::keys_match(index.keys(), v.nodes, v.keys),
    ensures
        forall|k: Seq<u8>| #[trigger] index.indexed(k) == vector_in(v, k),
{
    assert forall|k: Seq<u8>| #[trigger] index.indexed(k) == vector_in(v, k) by {
        let found = assoc::find(index.keys(), k);
        if found is Some {
            assert(is_node_of(v, k, found->0 as int));
        }
        if exists|id: int| is_node_of(v, k, id) {
            let id = choose|id: int| is_node_of(v, k, id);
            assert(!v.nodes[id].deleted);
            assert(assoc::find(index.keys(), v.keys[id]) == Some(id as u32));
            assert(id as u32 == id);
        }
    }
}

/// `v` is a new index with the parameters `params`.
pub open spec fn is_fresh(v: VectorIndex, params: HnswParams) -> bool {
    &&& v.graph().spec_params() == params
    &&& v.graph().spec_dim() == params.dim
    &&& v.graph().spec_draws() == 0
    &&& v.graph().nodes().len() == 0
    &&& v.graph().entry() is None
    &&& forall|k: Seq<u8>| #[trigger] v.node_of(k) is None
}

/// `index` has the graph and the keys of the snapshot `v`.
pub open spec fn is_restored(index: VectorIndex, v: SnapshotView) -> bool {
    &&& index.graph().spec_params() == v.params
    &&& index.graph().spec_dim() == v.params.dim
    &&& index.graph().spec_draws() == 0
    &&& index.graph().nodes() == v.nodes
    &&& index.graph().entry() == v.entry
    &&& snapshot::keys_match(index.keys(), v.nodes, v.keys)
}

impl EngineInner {
    /// `index` holds the embedding of each key whose newest entry is one, and
    /// nothing else: it is a new index into which the entries of memtable and
    /// tables were taken, newest first.
    pub open spec fn index_rebuilt<M: VectorMath>(
        &self,
        files: io::Files,
        math: &M,
        params: HnswParams,
        index: VectorIndex,
    ) -> bool {
        &&& index.graph().spec_params() == params
        &&& forall|k: Seq<u8>| #[trigger]
            index.indexed(k) == index::embedding(math, params.metric, self.entry(files, k))
        &&& params_fit(params) && self.entry(files, Seq::empty()) is None ==> index.is_storable()
        &&& exists|start: VectorIndex| #[trigger]
            is_fresh(start, params) && index::built(
                math,
                start,
                index::all_entries(self.sources_since(files, 0)),
                index,
            )
    }

    /// `index` holds what the snapshot `v` holds, except for the keys that the
    /// memtable and the tables since the snapshot hold: these decide.
    pub open spec fn index_loaded<M: VectorMath>(
        &self,
        files: io::Files,
        math: &M,
        v: SnapshotView,
        index: VectorIndex,
    ) -> bool {
        &&& index.graph().spec_params() == v.params
        &&& forall|k: Seq<u8>| #[trigger]
            index.indexed(k) == match state::newest(
                self.sources_since(files, v.next_sstable_id),
                k,
            ) {
                Some(e) => index::embedding(math, v.params.metric, Some(e)),
                None => vector_in(v, k),
            }
        &&& is_regular(v) && self.entry(files, Seq::empty()) is None ==> index.is_storable()
        &&& exists|start: VectorIndex| #[trigger]
            is_restored(start, v) && index::built(
                math,
                start,
                index::all_entries(self.sources_since(files, v.next_sstable_id)),
                index,
            )
    }

    /// Builds the index from memtable and tables.
    fn full_rebuild_index_from_lsm<I: Io, M: VectorMath>(
        &self,
        io: &I,
        math: &M,
        params: HnswParams,
    ) -> (r: Result<VectorIndex>)
        requires
            self.wf(io.files()),
            math.ready(),
        ensures
            match r {
                Ok(index) => index.wf() && self.index_rebuilt(io.files(), math, params, index),
                Err(e) => {
                    &&& e is Io || e is Corruption || e is InvalidArgument
                    &&& e is Io ==> !io.is_reliable() || self.has_lost(io.files())
                    &&& !(e is Io) ==> !self.is_sound(io.files()) || !self.embeddings_fit(
                        io.files(),
                        math,
                        params,
                    )
                },
            },
    {
        let ghost files = io.files();
        let start = VectorIndex::new(params);
        let r = self.apply_since(io, math, start, 0);
        proof {
            self.lemma_all_sources(files);
            match r {
                Ok(ref index) => {
                    assert forall|k: Seq<u8>| #[trigger] index.indexed(k) == index::embedding(
                        math,
                        params.metric,
                        self.entry(files, k),
                    ) by {
                        assert(state::newest(self.sources_since(files, 0), k) == self.entry(
                            files,
                            k,
                        ));
                        assert(start.node_of(k) is None);
                    }
                    assert(is_fresh(start, params));
                },
                Err(_) => {
                    if self.embeddings_fit(files, math, params) {
                        let d = choose|d: int|
                            0 < d <= usize::MAX && (params.dim == 0 || params.dim == d)
                                && #[trigger] self.embeddings_have(files, math, params.metric, d);
                        assert(index::takes(start, d));
                        assert(index::uniform(
                            math,
                            params.metric,
                            self.sources_since(files, 0),
                            d,
                        )) by {
                            assert forall|k: Seq<u8>| #[trigger]
                                state::newest(self.sources_since(files, 0), k) matches Some(
                                    EntryView::Vector(b),
                                ) implies {
                                let b = state::newest(
                                    self.sources_since(files, 0),
                                    k,
                                )->0->Vector_0;
                                b.len() == 4 * d && insert::prepared(
                                    math,
                                    params.metric,
                                    vector::components(b),
                                ) is Some
                            } by {
                                assert(self.entry(files, k) == state::newest(
                                    self.sources_since(files, 0),
                                    k,
                                ));
                            }
                        }
                    }
                },
            }
        }
        r
    }

    /// All embeddings have `d` components, and can be stored in a graph.
    pub open spec fn embeddings_have<M: VectorMath>(
        &self,
        files: io::Files,
        math: &M,
        metric: DistanceMetric,
        d: int,
    ) -> bool {
        forall|k: Seq<u8>| #[trigger]
            self.entry(files, k) matches Some(EntryView::Vector(b)) ==> b.len() == 4 * d
                && insert::prepared(math, metric, vector::components(b)) is Some
    }

    /// A graph can be built of the embeddings: they have one dimension, that
    /// of `params` if it has one, and there are not too many entries.
    pub open spec fn embeddings_fit<M: VectorMath>(
        &self,
        files: io::Files,
        math: &M,
        params: HnswParams,
    ) -> bool {
        &&& exists|d: int|
            0 < d <= usize::MAX && (params.dim == 0 || params.dim == d)
                && #[trigger] self.embeddings_have(files, math, params.metric, d)
        &&& index::entry_total(self.sources_since(files, 0)) <= u32::MAX
    }

    /// Memtable and tables give what a key holds.
    proof fn lemma_all_sources(&self, files: io::Files)
        ensures
            forall|k: Seq<u8>| #[trigger]
                state::newest(self.sources_since(files, 0), k) == self.entry(files, k),
    {
        lemma_since_zero(self.refs());
        assert forall|k: Seq<u8>| #[trigger] state::newest(self.sources_since(files, 0), k)
            == self.entry(files, k) by {
            state::lemma_newest_front(self.mem(), self.levels().tables(files), k);
        }
    }

    /// The file `n` holds a snapshot that can be used, and the entries since
    /// can be taken in.
    pub open spec fn snapshot_loads<M: VectorMath>(
        &self,
        files: io::Files,
        math: &M,
        n: Seq<u8>,
    ) -> bool {
        &&& files[n].len() <= usize::MAX
        &&& exists|v: SnapshotView| #[trigger]
            is_usable(files, n, v) && self.delta_fits(files, math, v)
    }

    /// The embeddings since the snapshot `v` can be put into its graph: they
    /// have one dimension, that of the graph if it has one, and there is room.
    pub open spec fn delta_fits<M: VectorMath>(
        &self,
        files: io::Files,
        math: &M,
        v: SnapshotView,
    ) -> bool {
        let newer = self.sources_since(files, v.next_sstable_id);
        &&& exists|d: int|
            (v.params.dim == 0 || v.params.dim == d) && #[trigger] index::uniform(
                math,
                v.params.metric,
                newer,
                d,
            )
        &&& v.nodes.len() + index::entry_total(newer) <= u32::MAX
    }

    /// Loads a snapshot and takes in the newer entries.
    fn load_snapshot_and_apply_delta<I: Io, M: VectorMath>(
        &self,
        io: &I,
        math: &M,
        name: &[u8],
    ) -> (r: Result<VectorIndex>)
        requires
            self.wf(io.files()),
            math.ready(),
        ensures
            match r {
                Ok(index) => index.wf() && exists|v: SnapshotView| #[trigger]
                    is_usable(io.files(), name@, v) && self.index_loaded(
                        io.files(),
                        math,
                        v,
                        index,
                    ),
                Err(_) => {
                    ||| !io.is_reliable()
                    ||| !self.is_sound(io.files())
                    ||| !self.snapshot_loads(io.files(), math, name@)
                },
            },
    {
        let bytes = match read_file_fully(io, name) {
            Ok(b) => b,
            Err(e) => {
                return Err(e);
            },
        };
        let (hnsw, key_to_node, next) = match HnswIndex::decode_snapshot(bytes.as_slice()) {
            Ok(t) => t,
            Err(e) => {
                return Err(e);
            },
        };
        let ghost v = snapshot::snapshot_of(bytes@)->0;
        if !hnsw.check() {
            return Err(corruption("snapshot graph cannot be walked"));
        }
        let start = VectorIndex::restore(hnsw, key_to_node);
        let r = self.apply_since(io, math, start, next);
        proof {
            lemma_restored(start, v);
            if is_regular(v) {
                assert(start.is_storable()) by {
                    assert forall|k: Seq<u8>| #[trigger] start.node_of(k) is Some implies 0 < k.len()
                        <= u32::MAX by {
                        let id = start.node_of(k)->0 as int;
                        assert(v.keys[id] == k && !v.nodes[id].deleted);
                        assert(snapshot_laws::node_storable(
                            v.nodes[id],
                            v.keys[id],
                            v.params.dim as int,
                            v.nodes.len() as int,
                        ));
                    }
                }
            }
            if self.entry(io.files(), Seq::empty()) is None {
                self.lemma_fewer_sources(io.files(), next, Seq::empty());
            }
            if r is Ok {
                assert(is_restored(start, v));
                assert(is_usable(io.files(), name@, v));
                assert(self.index_loaded(io.files(), math, v, r->Ok_0));
            } else if self.snapshot_loads(io.files(), math, name@) {
                let newer = self.sources_since(io.files(), next);
                let d = choose|d: int|
                    (v.params.dim == 0 || v.params.dim == d) && #[trigger] index::uniform(
                        math,
                        v.params.metric,
                        newer,
                        d,
                    );
                assert(index::takes(start, d));
            }
        }
        r
    }

    /// `index` was recovered from `files`: from the latest snapshot, if there
    /// is one that can be used, or else from memtable and tables.
    pub open spec fn index_recovered<M: VectorMath>(
        &self,
        files: io::Files,
        math: &M,
        params: HnswParams,
        index: VectorIndex,
    ) -> bool {
        ||| self.index_rebuilt(files, math, params, index)
        ||| self.latest_is_loaded(files, math, index)
    }

    /// There is a snapshot, and the latest one can be loaded.
    pub open spec fn latest_loads<M: VectorMath>(&self, files: io::Files, math: &M) -> bool {
        &&& exists|n: Seq<u8>, id: u64| #[trigger] is_snapshot(files, n, id)
        &&& forall|n: Seq<u8>, id: u64| #[trigger]
            is_latest(files, n, id) ==> self.snapshot_loads(files, math, n)
    }

    /// `index` holds what the latest snapshot and the entries since give.
    pub open spec fn latest_is_loaded<M: VectorMath>(
        &self,
        files: io::Files,
        math: &M,
        index: VectorIndex,
    ) -> bool {
        exists|n: Seq<u8>, id: u64, v: SnapshotView|
            #[trigger] is_latest(files, n, id) && #[trigger] is_usable(files, n, v)
                && self.index_loaded(files, math, v, index)
    }

    /// Recovers the vector index.
    pub(crate) fn recover_vector_index<I: Io, M: VectorMath>(
        &self,
        io: &mut I,
        dir: &str,
        math: &M,
        params: HnswParams,
    ) -> (r: Result<VectorIndex>)
        requires
            self.wf(old(io).files()),
            math.ready(),
        ensures
            self.wf(final(io).files()),
            exists|kept: Seq<u8>| #[trigger]
                drops_snapshots(old(io).files(), final(io).files(), kept) && (r is Ok
                    ==> keeps_latest(old(io).files(), kept) && (old(io).is_reliable()
                    ==> none_stale(final(io).files(), kept, None))),
            forall|k: Seq<u8>| #[trigger]
                self.entry(final(io).files(), k) == self.entry(old(io).files(), k),
            match r {
                Ok(index) => {
                    &&& index.wf()
                    &&& self.index_recovered(old(io).files(), math, params, index)
                    &&& old(io).is_reliable() && self.is_sound(old(io).files())
                        && self.latest_loads(old(io).files(), math) ==> self.latest_is_loaded(
                        old(io).files(),
                        math,
                        index,
                    )
                },
                Err(e) => {
                    &&& e is Io || e is Corruption || e is InvalidArgument
                    &&& e is Io ==> !old(io).is_reliable() || self.has_lost(old(io).files())
                    &&& !(e is Io) ==> !self.is_sound(old(io).files()) || !self.embeddings_fit(
                        old(io).files(),
                        math,
                        params,
                    )
                },
            },
            final(io).is_reliable() == old(io).is_reliable(),
            forall|o: Seq<u8>|
                names::parse_snapshot(o) is None && old(io).is_synced(o) ==>
                    #[trigger] final(io).is_synced(o),
            forall|o: Seq<u8>|
                names::parse_snapshot(o) is None && old(io).is_linked(o) ==>
                    #[trigger] final(io).is_linked(o),
    {
        let ghost files = io.files();
        let latest = discover_latest_snapshot(io, dir);
        let ghost kept = match latest {
            Ok(Some(ref n)) => n@,
            _ => Seq::empty(),
        };
        proof {
            assert(drops_snapshots(files, io.files(), kept));
            if latest matches Ok(None) {
                assert forall|n: Seq<u8>| #[trigger] is_stale(n, kept, None) implies !io.files().contains_key(
                    n,
                ) by {
                    if files.contains_key(n) {
                        assert(is_snapshot(files, n, names::parse_snapshot(n)->0));
                    }
                }
            }
            self.lemma_snapshots_dropped(files, io.files(), kept);
            self.lemma_same_sources(files, io.files(), 0);
            if self.embeddings_fit(files, math, params) {
                let d = choose|d: int|
                    0 < d <= usize::MAX && (params.dim == 0 || params.dim == d)
                        && #[trigger] self.embeddings_have(files, math, params.metric, d);
                assert(self.embeddings_have(io.files(), math, params.metric, d)) by {
                    assert forall|k: Seq<u8>| #[trigger]
                        self.entry(io.files(), k) == self.entry(files, k) by {}
                }
            }
        }
        match latest {
            Err(e) => Err(e),
            Ok(None) => self.full_rebuild_index_from_lsm(io, math, params),
            Ok(Some(name)) => {
                match self.load_snapshot_and_apply_delta(io, math, name.as_slice()) {
                    Ok(index) => {
                        proof {
                            let id = choose|id: u64| #[trigger] is_latest(files, name@, id);
                            let v = choose|v: SnapshotView| #[trigger]
                                is_usable(io.files(), name@, v) && self.index_loaded(
                                    io.files(),
                                    math,
                                    v,
                                    index,
                                );
                            assert(is_latest(files, name@, id));
                            assert(is_usable(files, name@, v));
                            self.lemma_same_sources(files, io.files(), v.next_sstable_id);
                            assert(self.index_loaded(files, math, v, index));
                        }
                        Ok(index)
                    },
                    Err(_) => {
                        proof {
                            if self.latest_loads(files, math) {
                                let id = choose|id: u64| #[trigger] is_latest(files, name@, id);
                                assert(is_latest(files, name@, id));
                                let v = choose|v: SnapshotView| #[trigger]
                                    is_usable(files, name@, v) && self.delta_fits(files, math, v);
                                assert(is_usable(io.files(), name@, v));
                                self.lemma_same_sources(files, io.files(), v.next_sstable_id);
                                assert(self.snapshot_loads(io.files(), math, name@));
                            }
                        }
                        self.full_rebuild_index_from_lsm(io, math, params)
                    },
                }
            },
        }
    }

    /// Without some snapshots nothing is lost.
    pub(crate) proof fn lemma_snapshots_dropped(
        &self,
        before: io::Files,
        after: io::Files,
        kept: Seq<u8>,
    )
        requires
            self.wf(before),
            drops_snapshots(before, after, kept),
        ensures
            self.tables_kept(before, after),
            self.wf(after),
            self.levels().tables(after) == self.levels().tables(before),
            forall|k: Seq<u8>| #[trigger] self.entry(after, k) == self.entry(before, k),
            self.is_sound(before) ==> self.is_sound(after),
            self.is_sound(after) ==> self.is_sound(before),
            self.has_lost(after) ==> self.has_lost(before),
    {
        self.levels().lemma_files(before);
        assert forall|i: int| 0 <= i < self.refs().len() implies after.contains_key(
            (#[trigger] self.refs()[i]).1,
        ) && after[self.refs()[i].1] == before[self.refs()[i].1] by {
            assert(self.table_named(i));
            let n = self.refs()[i].1;
            if names::parse_snapshot(n) is Some {
                lemma_snapshot_is_other(n);
            }
        }
        self.lemma_kept(before, after);
        if self.is_sound(after) {
            assert forall|i: int| 0 <= i < self.refs().len() implies state::is_sound(
                before[(#[trigger] self.refs()[i]).1],
            ) by {
                assert(state::is_sound(after[self.refs()[i].1]));
            }
        }
    }

    /// What memtable and tables do not hold, some of the tables do not hold.
    proof fn lemma_fewer_sources(&self, files: io::Files, n: u64, k: Seq<u8>)
        requires
            self.entry(files, k) is None,
        ensures
            state::newest(self.sources_since(files, n), k) is None,
    {
        let all = self.levels().tables(files);
        let s = index::since(self.refs(), n);
        let some = state::tables_in(files, state::names_of(s));
        state::lemma_newest_front(self.mem(), some, k);
        state::lemma_newest_at(all, k);
        state::lemma_newest_at(some, k);
        lemma_since_subset(self.refs(), n);
        if state::newest(some, k) is Some {
            let i = choose|i: int|
                0 <= i < some.len() && assoc::find(#[trigger] some[i], k) == state::newest(some, k);
            assert(self.refs().contains(s[i]));
            let j = choose|j: int| 0 <= j < self.refs().len() && self.refs()[j] == s[i];
            assert(all[j] == some[i]);
        }
    }

    /// The sources are those of the same tables.
    proof fn lemma_same_sources(&self, before: io::Files, after: io::Files, n: u64)
        requires
            self.tables_kept(before, after),
        ensures
            self.sources_since(after, n) == self.sources_since(before, n),
    {
        let s = index::since(self.refs(), n);
        lemma_since_subset(self.refs(), n);
        let a = state::tables_in(after, state::names_of(s));
        let b = state::tables_in(before, state::names_of(s));
        assert(a =~= b) by {
            assert forall|i: int| 0 <= i < a.len() implies a[i] == b[i] by {
                assert(self.refs().contains(s[i]));
                let j = choose|j: int| 0 <= j < self.refs().len() && self.refs()[j] == s[i];
                assert(after[self.refs()[j].1] == before[self.refs()[j].1]);
            }
        }
    }
}

proof fn lemma_since_zero(refs: Seq<state::TableRef>)
    ensures
        index::since(refs, 0) == refs,
    decreases refs.len(),
{
    if refs.len() > 0 {
        lemma_since_zero(refs.drop_last());
        assert(refs =~= refs.drop_last().push(refs.last()));
    }
}

pub(crate) proof fn lemma_since_subset(refs: Seq<state::TableRef>, n: u64)
    ensures
        forall|i: int|
            0 <= i < index::since(refs, n).len() ==> refs.contains(
                #[trigger] index::since(refs, n)[i],
            ),
    decreases refs.len(),
{
    if refs.len() > 0 {
        let d = refs.drop_last();
        lemma_since_subset(d, n);
        let s = index::since(refs, n);
        assert forall|i: int| 0 <= i < s.len() implies refs.contains(#[trigger] s[i]) by {
            if i < index::since(d, n).len() {
                assert(d.contains(index::since(d, n)[i]));
                let j = choose|j: int| 0 <= j < d.len() && d[j] == index::since(d, n)[i];
                assert(refs[j] == s[i]);
            } else {
                assert(refs[refs.len() - 1] == s[i]);
            }
        }
    }
}

} // verus!
