//! Snapshots of an index.
//!
//! All integers are little-endian.
//!
//! ```text
//! header   magic `SASTHNS1` (8), version (4), flags (4), reserved (8)
//! params   metric (1), m, m_max_0, ef_construction, ef_search, dim (4 each),
//!          seed (8), next table id (8)
//! entry    present (1), node (4), level (1)
//! nodes    count (4), then for each node
//!          deleted (1), vector length (4), components (4 each),
//!          key length (4), key, layer count (1), then for each layer
//!          neighbour count (4), neighbours (4 each)
//! trailer  CRC32 of all that (4)
//! ```
//!
//! A snapshot holds the whole graph, deleted nodes included, and the key of
//! each live node. It does not hold the state of the level generator, which
//! starts anew after decoding.

use crate::assoc;
use crate::checksum;
use crate::checksum::crc32_hash;
use crate::codec;
use crate::codec::{
    copy_bytes, copy_range, get_u32, get_u64, push_bytes, push_numbers, push_u32, push_u64,
    read_numbers, same_bytes,
};
use crate::error::{corruption, Result};
use crate::hnsw::graph;
use crate::hnsw::graph::{NodeView, Nodes};
use crate::hnsw::{DistanceMetric, EntryPoint, HnswIndex, HnswParams, Node, NodeId};
use crate::keymap::KeyMap;
use vstd::prelude::*;
use vstd::slice::slice_subrange;

verus! {

/// Format version.
pub const VERSION: u32 = 3;

/// Bytes up to the nodes: header, parameters, entry and node count.
pub const PREFIX_LEN: usize = 71;

/// The first bytes of a snapshot: `SASTHNS1`.
pub open spec fn magic() -> Seq<u8> {
    seq![83u8, 65u8, 83u8, 84u8, 72u8, 78u8, 83u8, 49u8]
}

/// The byte that stands for a metric.
pub open spec fn metric_tag(m: DistanceMetric) -> u8 {
    match m {
        DistanceMetric::Cosine => 0x01,
        DistanceMetric::EuclideanSquared => 0x02,
        DistanceMetric::InnerProduct => 0x03,
    }
}

/// The metric that a byte stands for.
pub open spec fn tag_metric(b: u8) -> Option<DistanceMetric> {
    if b == 0x01 {
        Some(DistanceMetric::Cosine)
    } else if b == 0x02 {
        Some(DistanceMetric::EuclideanSquared)
    } else if b == 0x03 {
        Some(DistanceMetric::InnerProduct)
    } else {
        None
    }
}

impl DistanceMetric {
    fn to_tag(self) -> (b: u8)
        ensures
            b == metric_tag(self),
    {
        match self {
            DistanceMetric::Cosine => 0x01,
            DistanceMetric::EuclideanSquared => 0x02,
            DistanceMetric::InnerProduct => 0x03,
        }
    }

    fn from_tag(b: u8) -> (m: Option<DistanceMetric>)
        ensures
            m == tag_metric(b),
    {
        if b == 0x01 {
            Some(DistanceMetric::Cosine)
        } else if b == 0x02 {
            Some(DistanceMetric::EuclideanSquared)
        } else if b == 0x03 {
            Some(DistanceMetric::InnerProduct)
        } else {
            None
        }
    }
}

/// What a snapshot holds.
#[verifier::ext_equal]
pub struct SnapshotView {
    /// The parameters; their dimension is that of the index.
    pub params: HnswParams,
    /// The tables with smaller ids are reflected in the index.
    pub next_sstable_id: u64,
    pub entry: Option<EntryPoint>,
    pub nodes: Nodes,
    /// The key of each node; empty if it has none.
    pub keys: Seq<Seq<u8>>,
}

/// The bytes of the neighbour lists `ls`.
pub open spec fn layers_bytes(ls: Seq<Seq<u32>>) -> Seq<u8>
    decreases ls.len(),
{
    if ls.len() == 0 {
        Seq::empty()
    } else {
        layers_bytes(ls.drop_last()) + (codec::le32(ls.last().len() as u32) + codec::u32s_bytes(ls.last()))
    }
}

/// 1 for true, 0 for false.
pub open spec fn flag(b: bool) -> u8 {
    if b {
        1
    } else {
        0
    }
}

/// The bytes of a node with its key.
pub open spec fn node_bytes(n: NodeView, key: Seq<u8>) -> Seq<u8> {
    seq![flag(n.deleted)] + codec::le32(n.vector.len() as u32) + codec::u32s_bytes(n.vector) + codec::le32(
        key.len() as u32,
    ) + key + seq![n.layers.len() as u8] + layers_bytes(n.layers)
}

/// The bytes of the nodes with their keys.
pub open spec fn nodes_bytes(nodes: Nodes, keys: Seq<Seq<u8>>) -> Seq<u8>
    decreases nodes.len(),
{
    if nodes.len() == 0 {
        Seq::empty()
    } else {
        nodes_bytes(nodes.drop_last(), keys) + node_bytes(nodes.last(), keys[nodes.len() - 1])
    }
}

/// The bytes of the entry point.
pub open spec fn entry_bytes(e: Option<EntryPoint>) -> Seq<u8> {
    match e {
        Some(e) => seq![1u8] + codec::le32(e.node) + seq![e.level],
        None => seq![0u8] + codec::le32(0) + seq![0u8],
    }
}

/// The bytes of header and parameters.
pub open spec fn head_bytes(p: HnswParams, next_sstable_id: u64) -> Seq<u8> {
    magic() + codec::le32(VERSION) + codec::le32(0) + codec::le64(0) + seq![metric_tag(p.metric)]
        + codec::le32(p.m as u32) + codec::le32(p.m_max_0 as u32) + codec::le32(
        p.ef_construction as u32,
    ) + codec::le32(p.ef_search as u32) + codec::le32(p.dim as u32) + codec::le64(p.seed)
        + codec::le64(next_sstable_id)
}

/// The bytes of a snapshot without its checksum.
pub open spec fn snapshot_body(v: SnapshotView) -> Seq<u8> {
    head_bytes(v.params, v.next_sstable_id) + entry_bytes(v.entry) + codec::le32(
        v.nodes.len() as u32,
    ) + nodes_bytes(v.nodes, v.keys)
}

/// The bytes of a snapshot.
pub open spec fn snapshot_bytes(v: SnapshotView) -> Seq<u8> {
    checksum::with_crc(snapshot_body(v))
}

/// A neighbour list at the start of `b`, all below `count`, and what follows.
pub open spec fn parse_list(b: Seq<u8>, count: int) -> Option<(Seq<u32>, Seq<u8>)> {
    if b.len() < 4 {
        None
    } else {
        let n = codec::u32_at(b, 0) as int;
        if 4 + 4 * n > b.len() {
            None
        } else {
            let list = codec::numbers(b.skip(4), n);
            if forall|i: int| 0 <= i < n ==> #[trigger] list[i] < count {
                Some((list, b.skip(4 + 4 * n)))
            } else {
                None
            }
        }
    }
}

/// `k` neighbour lists at the start of `b`, and what follows.
pub open spec fn parse_layers(b: Seq<u8>, k: int, count: int) -> Option<(Seq<Seq<u32>>, Seq<u8>)>
    decreases k,
{
    if k <= 0 {
        Some((Seq::empty(), b))
    } else {
        match parse_list(b, count) {
            None => None,
            Some((list, rest)) => match parse_layers(rest, k - 1, count) {
                None => None,
                Some((more, end)) => Some((seq![list] + more, end)),
            },
        }
    }
}

/// A node with its key at the start of `b`, and what follows. The vector must
/// have `dim` components, and a live node a key.
pub open spec fn parse_node(b: Seq<u8>, dim: int, count: int) -> Option<
    (NodeView, Seq<u8>, Seq<u8>),
> {
    if b.len() < 5 || codec::u32_at(b, 1) != dim || 9 + 4 * dim > b.len() {
        None
    } else {
        let deleted = b[0] != 0;
        let vector = codec::numbers(b.skip(5), dim);
        let kl = codec::u32_at(b, 5 + 4 * dim) as int;
        let at = 9 + 4 * dim;
        if at + kl + 1 > b.len() || (kl == 0 && !deleted) {
            None
        } else {
            let key = b.subrange(at, at + kl);
            match parse_layers(b.skip(at + kl + 1), b[at + kl] as int, count) {
                None => None,
                Some((layers, rest)) => Some((NodeView { vector, layers, deleted }, key, rest)),
            }
        }
    }
}

/// `k` nodes with their keys at the start of `b`, and what follows.
pub open spec fn parse_nodes(b: Seq<u8>, k: int, dim: int, count: int) -> Option<
    (Seq<(NodeView, Seq<u8>)>, Seq<u8>),
>
    decreases k,
{
    if k <= 0 {
        Some((Seq::empty(), b))
    } else {
        match parse_node(b, dim, count) {
            None => None,
            Some((node, key, rest)) => match parse_nodes(rest, k - 1, dim, count) {
                None => None,
                Some((more, end)) => Some((seq![(node, key)] + more, end)),
            },
        }
    }
}

/// No two live nodes have the same key.
pub open spec fn keys_distinct(s: Seq<(NodeView, Seq<u8>)>) -> bool {
    forall|i: int, j: int|
        0 <= i < j < s.len() && !s[i].0.deleted && !s[j].0.deleted ==> (#[trigger] s[i]).1 != (
        #[trigger] s[j]).1
}

/// The entry point of `body`.
pub open spec fn parsed_entry(body: Seq<u8>) -> Option<EntryPoint> {
    if body[61] == 1 {
        Some(EntryPoint { node: codec::u32_at(body, 62), level: body[66] })
    } else {
        None
    }
}

/// The parameters of `body`, with the given metric.
pub open spec fn parsed_params(body: Seq<u8>, metric: DistanceMetric) -> HnswParams {
    HnswParams {
        metric,
        m: codec::u32_at(body, 25) as usize,
        m_max_0: codec::u32_at(body, 29) as usize,
        ef_construction: codec::u32_at(body, 33) as usize,
        ef_search: codec::u32_at(body, 37) as usize,
        dim: codec::u32_at(body, 41) as usize,
        seed: codec::u64_at(body, 45),
    }
}

/// The snapshot that `b` holds, if it is one: the checksum, magic and version
/// are right, every node can be read, neighbours exist, live nodes have
/// distinct keys, nothing follows, and the entry point appears at its layer.
pub open spec fn snapshot_of(b: Seq<u8>) -> Option<SnapshotView> {
    let body = b.take(b.len() - 4);
    if b.len() < PREFIX_LEN + 4 || !checksum::crc_holds(b) || body.take(8) != magic()
        || codec::u32_at(body, 8) != VERSION {
        None
    } else {
        match tag_metric(body[24]) {
            None => None,
            Some(metric) => {
                let dim = codec::u32_at(body, 41) as int;
                let count = codec::u32_at(body, 67) as int;
                match parse_nodes(body.skip(71), count, dim, count) {
                    None => None,
                    Some((list, rest)) => {
                        let nodes = list.map_values(|p: (NodeView, Seq<u8>)| p.0);
                        let keys = list.map_values(|p: (NodeView, Seq<u8>)| p.1);
                        if rest.len() == 0 && keys_distinct(list) && graph::entry_ok(
                            nodes,
                            parsed_entry(body),
                        ) {
                            Some(
                                SnapshotView {
                                    params: parsed_params(body, metric),
                                    next_sstable_id: codec::u64_at(body, 53),
                                    entry: parsed_entry(body),
                                    nodes,
                                    keys,
                                },
                            )
                        } else {
                            None
                        }
                    },
                }
            },
        }
    }
}

/// The key that `pairs` maps to `id`: the last one, in order.
pub open spec fn node_key(pairs: Seq<(Seq<u8>, u32)>, id: int) -> Seq<u8>
    decreases pairs.len(),
{
    if pairs.len() == 0 {
        Seq::empty()
    } else if pairs.last().1 == id {
        pairs.last().0
    } else {
        node_key(pairs.drop_last(), id)
    }
}

/// The keys that `pairs` maps to the nodes below `n`.
pub open spec fn node_keys(pairs: Seq<(Seq<u8>, u32)>, n: nat) -> Seq<Seq<u8>> {
    Seq::new(n, |i: int| node_key(pairs, i))
}

/// `pairs` maps exactly the keys of live nodes, each to its node.
pub open spec fn keys_match(
    pairs: Seq<(Seq<u8>, u32)>,
    nodes: Nodes,
    keys: Seq<Seq<u8>>,
) -> bool {
    &&& forall|k: Seq<u8>|
        #![trigger assoc::find(pairs, k)]
        assoc::find(pairs, k) matches Some(id) ==> id < nodes.len() && !nodes[id as int].deleted
            && keys[id as int] == k
    &&& forall|id: int|
        0 <= id < nodes.len() && !(#[trigger] nodes[id]).deleted ==> assoc::find(pairs, keys[id])
            == Some(id as u32)
}

impl HnswIndex {
    /// What a snapshot of the index holds.
    pub open spec fn snapshot(
        &self,
        next_sstable_id: u64,
        keys: Seq<(Seq<u8>, u32)>,
    ) -> SnapshotView {
        SnapshotView {
            params: HnswParams { dim: self.spec_dim(), ..self.spec_params() },
            next_sstable_id,
            entry: self.entry(),
            nodes: self.nodes(),
            keys: node_keys(keys, self.nodes().len()),
        }
    }

    /// Encodes the index as a snapshot. `next_sstable_id` says which tables
    /// it reflects: those with smaller ids. `keys_by_node` maps the key of
    /// each live node to it.
    pub fn encode_snapshot(&self, next_sstable_id: u64, keys_by_node: &KeyMap<NodeId>) -> (b: Vec<
        u8,
    >)
        ensures
            b@ == snapshot_bytes(self.snapshot(next_sstable_id, keys_by_node.pairs())),
    {
        let ghost v = self.snapshot(next_sstable_id, keys_by_node.pairs());
        let n = self.nodes.len();
        let keys_by_id = keys_of_nodes(keys_by_node, n);
        let mut out: Vec<u8> = Vec::new();
        // Header.
        let magic_bytes = snapshot_magic();
        push_bytes(&mut out, magic_bytes.as_slice());
        push_u32(&mut out, VERSION);
        push_u32(&mut out, 0);
        push_u64(&mut out, 0);
        // Parameters.
        out.push(self.params.metric.to_tag());
        push_u32(
            &mut out,
            #[verifier::truncate]
            (self.params.m as u32),
        );
        push_u32(
            &mut out,
            #[verifier::truncate]
            (self.params.m_max_0 as u32),
        );
        push_u32(
            &mut out,
            #[verifier::truncate]
            (self.params.ef_construction as u32),
        );
        push_u32(
            &mut out,
            #[verifier::truncate]
            (self.params.ef_search as u32),
        );
        push_u32(
            &mut out,
            #[verifier::truncate]
            (self.dim as u32),
        );
        push_u64(&mut out, self.params.seed);
        push_u64(&mut out, next_sstable_id);
        assert(out@ =~= head_bytes(v.params, next_sstable_id));
        // Entry.
        match self.entry {
            Some(e) => {
                out.push(1);
                push_u32(&mut out, e.node);
                out.push(e.level);
            },
            None => {
                out.push(0);
                push_u32(&mut out, 0);
                out.push(0);
            },
        }
        assert(out@ =~= head_bytes(v.params, next_sstable_id) + entry_bytes(v.entry));
        push_u32(
            &mut out,
            #[verifier::truncate]
            (n as u32),
        );
        let ghost prefix = out@;
        assert(prefix + Seq::<u8>::empty() =~= prefix);
        // Nodes.
        for i in 0..n
            invariant
                n == self.nodes@.len(),
                v == self.snapshot(next_sstable_id, keys_by_node.pairs()),
                keys_by_id@.len() == n,
                forall|j: int| 0 <= j < n ==> (#[trigger] keys_by_id@[j])@ == v.keys[j],
                out@ == prefix + nodes_bytes(v.nodes.take(i as int), v.keys),
        {
            let ghost before = out@;
            encode_node(&self.nodes[i], keys_by_id[i].as_slice(), &mut out);
            proof {
                let some = v.nodes.take(i + 1);
                assert(some.drop_last() =~= v.nodes.take(i as int));
                assert(some.last() == self.nodes@[i as int]@);
                assert(keys_by_id@[i as int]@ == v.keys[i as int]);
                assert(out@ =~= prefix + nodes_bytes(some, v.keys));
            }
        }
        assert(v.nodes.take(n as int) =~= v.nodes);
        assert(out@ =~= snapshot_body(v));
        let crc = crc32_hash(out.as_slice());
        push_u32(&mut out, crc);
        out
    }

    /// Decodes a snapshot: the index, the map from keys to live nodes, and
    /// the id before which all tables are reflected.
    pub fn decode_snapshot(bytes: &[u8]) -> (r: Result<(HnswIndex, KeyMap<NodeId>, u64)>)
        ensures
            match r {
                Ok((index, keys, next)) => {
                    &&& snapshot_of(bytes@) matches Some(v)
                    &&& index.nodes() == v.nodes
                    &&& index.entry() == v.entry
                    &&& index.spec_params() == v.params
                    &&& index.spec_dim() == v.params.dim
                    &&& index.spec_draws() == 0
                    &&& keys.wf()
                    &&& keys_match(keys.pairs(), v.nodes, v.keys)
                    &&& next == v.next_sstable_id
                },
                Err(e) => e is Corruption && snapshot_of(bytes@) is None,
            },
    {
        if bytes.len() < PREFIX_LEN + 4 {
            return Err(corruption("snapshot shorter than minimum"));
        }
        let split: usize = bytes.len() - 4;
        let stored_crc = get_u32(bytes, split);
        let body = slice_subrange(bytes, 0, split);
        assert(body@ =~= bytes@.take(split as int));
        let computed_crc = crc32_hash(body);
        if stored_crc != computed_crc {
            return Err(corruption("snapshot checksum mismatch"));
        }
        let magic_bytes = snapshot_magic();
        let first = slice_subrange(body, 0, 8);
        assert(first@ =~= body@.take(8));
        if !same_bytes(first, magic_bytes.as_slice()) {
            return Err(corruption("snapshot magic mismatch"));
        }
        if get_u32(body, 8) != VERSION {
            return Err(corruption("unsupported snapshot version"));
        }
        let metric = match DistanceMetric::from_tag(body[24]) {
            Some(m) => m,
            None => {
                return Err(corruption("unknown distance metric tag"));
            },
        };
        let params = HnswParams {
            metric,
            m: get_u32(body, 25) as usize,
            m_max_0: get_u32(body, 29) as usize,
            ef_construction: get_u32(body, 33) as usize,
            ef_search: get_u32(body, 37) as usize,
            dim: get_u32(body, 41) as usize,
            seed: get_u64(body, 45),
        };
        let next_sstable_id = get_u64(body, 53);
        let entry = if body[61] == 1 {
            Some(EntryPoint { node: get_u32(body, 62), level: body[66] })
        } else {
            None
        };
        let dim = get_u32(body, 41);
        let node_count = get_u32(body, 67);
        let (nodes, keys) = match read_nodes(body, dim, node_count) {
            Some(r) => r,
            None => {
                return Err(corruption("damaged node, duplicate key or trailing garbage"));
            },
        };
        let ghost parsed = parse_nodes(
            body@.skip(71),
            node_count as int,
            dim as int,
            node_count as int,
        );
        let ghost list = (parsed->0).0;
        let index = HnswIndex { params, dim: params.dim, nodes, entry, draws: 0 };
        proof {
            assert(index.nodes() =~= list.map_values(|p: (NodeView, Seq<u8>)| p.0));
        }
        if let Some(e) = entry {
            if e.node >= node_count || e.level as usize >= index.nodes[e.node as usize].neighbors.len() {
                return Err(corruption("entry point out of range"));
            }
        }
        Ok((index, keys, next_sstable_id))
    }
}

/// The bytes of the magic.
fn snapshot_magic() -> (m: Vec<u8>)
    ensures
        m@ == magic(),
{
    let m: Vec<u8> = vec![83u8, 65u8, 83u8, 84u8, 72u8, 78u8, 83u8, 49u8];
    assert(m@ =~= magic());
    m
}

/// The key of each node below `n`.
fn keys_of_nodes(keys_by_node: &KeyMap<NodeId>, n: usize) -> (r: Vec<Vec<u8>>)
    ensures
        r@.len() == n,
        forall|j: int|
            0 <= j < n ==> (#[trigger] r@[j])@ == node_keys(keys_by_node.pairs(), n as nat)[j],
{
    let ghost pairs = keys_by_node.pairs();
    let mut out: Vec<Vec<u8>> = Vec::new();
    let mut i: usize = 0;
    while i < n
        invariant
            i <= n,
            out@.len() == i,
            forall|j: int| 0 <= j < i ==> (#[trigger] out@[j])@ == Seq::<u8>::empty(),
        decreases n - i,
    {
        out.push(Vec::new());
        i = i + 1;
    }
    let count = keys_by_node.len();
    for p in 0..count
        invariant
            count == pairs.len(),
            pairs == keys_by_node.pairs(),
            out@.len() == n,
            forall|j: int|
                0 <= j < n ==> (#[trigger] out@[j])@ == node_key(pairs.take(p as int), j),
    {
        let id = *keys_by_node.value_at(p);
        proof {
            assert(pairs.take(p + 1).drop_last() =~= pairs.take(p as int));
            assert(pairs.take(p + 1).last() == pairs[p as int]);
        }
        if (id as usize) < n {
            let ghost before = out@;
            out[id as usize] = copy_bytes(keys_by_node.key_at(p).as_slice());
            assert forall|j: int| 0 <= j < n implies (#[trigger] out@[j])@ == node_key(
                pairs.take(p + 1),
                j,
            ) by {
                if j != id {
                    assert(out@[j] == before[j]);
                }
            }
        }
    }
    assert(pairs.take(count as int) =~= pairs);
    out
}

/// Appends a node with its key.
fn encode_node(node: &Node, key: &[u8], out: &mut Vec<u8>)
    ensures
        final(out)@ == old(out)@ + node_bytes(node@, key@),
{
    let ghost before = out@;
    let ghost v = node@;
    if node.deleted {
        out.push(1);
    } else {
        out.push(0);
    }
    push_u32(
        out,
        #[verifier::truncate]
        (node.vector.len() as u32),
    );
    push_numbers(&node.vector, out);
    push_u32(
        out,
        #[verifier::truncate]
        (key.len() as u32),
    );
    push_bytes(out, key);
    out.push(
        #[verifier::truncate]
        (node.neighbors.len() as u8),
    );
    let ghost prefix = out@;
    assert(prefix + layers_bytes(v.layers.take(0)) =~= prefix);
    let n = node.neighbors.len();
    for i in 0..n
        invariant
            n == node.neighbors@.len(),
            v == node@,
            out@ == prefix + layers_bytes(v.layers.take(i as int)),
    {
        let layer = &node.neighbors[i];
        assert(layer@ == v.layers[i as int]);
        push_u32(
            out,
            #[verifier::truncate]
            (layer.len() as u32),
        );
        push_numbers(layer, out);
        proof {
            assert(v.layers.take(i + 1).drop_last() =~= v.layers.take(i as int));
            assert(out@ =~= prefix + layers_bytes(v.layers.take(i + 1)));
        }
    }
    assert(v.layers.take(n as int) =~= v.layers);
    assert(out@ =~= before + node_bytes(v, key@));
}

/// Reads a neighbour list at byte `p`; returns it with its end.
fn read_list(body: &[u8], p: usize, count: u32) -> (r: Option<(Vec<u32>, usize)>)
    requires
        p <= body@.len(),
    ensures
        match r {
            Some((list, end)) => p <= end <= body@.len() && parse_list(
                body@.skip(p as int),
                count as int,
            ) == Some((list@, body@.skip(end as int))),
            None => parse_list(body@.skip(p as int), count as int) is None,
        },
{
    let ghost rest = body@.skip(p as int);
    if body.len() - p < 4 {
        return None;
    }
    assert(rest.subrange(0, 4) =~= body@.subrange(p as int, p + 4));
    let n = get_u32(body, p);
    if n as u64 * 4 > (body.len() - p - 4) as u64 {
        return None;
    }
    let list = read_numbers(body, p + 4, n);
    let end: usize = p + 4 + n as usize * 4;
    proof {
        assert(rest.skip(4) =~= body@.skip(p + 4));
        assert(rest.skip(4 + 4 * n as int) =~= body@.skip(end as int));
    }
    let len = list.len();
    for i in 0..len
        invariant
            len == list@.len(),
            n == list@.len(),
            rest == body@.skip(p as int),
            rest.len() >= 4,
            n == codec::u32_at(rest, 0),
            4 + 4 * n <= rest.len(),
            list@ == codec::numbers(rest.skip(4), n as int),
            forall|j: int| 0 <= j < i ==> list@[j] < count,
    {
        if list[i] >= count {
            proof {
                assert(list@[i as int] >= count);
                assert(!(forall|j: int| 0 <= j < n ==> #[trigger] list@[j] < count));
            }
            return None;
        }
    }
    Some((list, end))
}

/// `head` in front of what `tail` gives.
pub open spec fn glue<T>(head: Seq<T>, tail: Option<(Seq<T>, Seq<u8>)>) -> Option<
    (Seq<T>, Seq<u8>),
> {
    match tail {
        None => None,
        Some((more, rest)) => Some((head + more, rest)),
    }
}

proof fn lemma_glue_empty<T>(tail: Option<(Seq<T>, Seq<u8>)>)
    ensures
        glue(Seq::empty(), tail) == tail,
{
    if tail is Some {
        assert(Seq::<T>::empty() + (tail->0).0 =~= (tail->0).0);
    }
}

proof fn lemma_glue_one<T>(head: Seq<T>, x: T, tail: Option<(Seq<T>, Seq<u8>)>)
    ensures
        glue(head, glue(seq![x], tail)) == glue(head.push(x), tail),
{
    if tail is Some {
        assert(head + (seq![x] + (tail->0).0) =~= head.push(x) + (tail->0).0);
    }
}

/// The lists `ls`.
spec fn lists_view(ls: Seq<Vec<u32>>) -> Seq<Seq<u32>> {
    ls.map_values(|l: Vec<u32>| l@)
}

/// Reads `k` neighbour lists from byte `p` on; returns them with their end.
fn read_layers(body: &[u8], p: usize, k: u8, count: u32) -> (r: Option<(Vec<Vec<u32>>, usize)>)
    requires
        p <= body@.len(),
    ensures
        match r {
            Some((layers, end)) => p <= end <= body@.len() && parse_layers(
                body@.skip(p as int),
                k as int,
                count as int,
            ) == Some((lists_view(layers@), body@.skip(end as int))),
            None => parse_layers(body@.skip(p as int), k as int, count as int) is None,
        },
{
    let ghost all = parse_layers(body@.skip(p as int), k as int, count as int);
    let mut out: Vec<Vec<u32>> = Vec::new();
    let mut at: usize = p;
    let mut i: u8 = 0;
    proof {
        assert(lists_view(out@) =~= Seq::empty());
        lemma_glue_empty(all);
    }
    while i < k
        invariant
            i <= k,
            p <= at <= body@.len(),
            all == glue(
                lists_view(out@),
                parse_layers(body@.skip(at as int), k - i, count as int),
            ),
            all == parse_layers(body@.skip(p as int), k as int, count as int),
        decreases k - i,
    {
        let ghost before = out@;
        match read_list(body, at, count) {
            None => {
                return None;
            },
            Some((list, end)) => {
                let ghost l = list@;
                out.push(list);
                proof {
                    assert(lists_view(out@) =~= lists_view(before).push(l));
                    let rest = parse_layers(body@.skip(end as int), k - i - 1, count as int);
                    assert(parse_layers(body@.skip(at as int), k - i, count as int) == glue(
                        seq![l],
                        rest,
                    ));
                    lemma_glue_one(lists_view(before), l, rest);
                }
                at = end;
            },
        }
        i = i + 1;
    }
    proof {
        assert(lists_view(out@) + Seq::<Seq<u32>>::empty() =~= lists_view(out@));
    }
    Some((out, at))
}

/// Reads a node with its key at byte `p`; returns them with their end.
fn read_node(body: &[u8], p: usize, dim: u32, count: u32) -> (r: Option<(Node, Vec<u8>, usize)>)
    requires
        p <= body@.len(),
    ensures
        match r {
            Some((node, key, end)) => p <= end <= body@.len() && parse_node(
                body@.skip(p as int),
                dim as int,
                count as int,
            ) == Some((node@, key@, body@.skip(end as int))),
            None => parse_node(body@.skip(p as int), dim as int, count as int) is None,
        },
{
    let ghost rest = body@.skip(p as int);
    let room: usize = body.len() - p;
    if room < 5 {
        return None;
    }
    proof {
        assert(rest.subrange(1, 5) =~= body@.subrange(p + 1, p + 5));
    }
    if get_u32(body, p + 1) != dim || 9 + dim as u64 * 4 > room as u64 {
        return None;
    }
    let deleted = body[p] != 0;
    let vector = read_numbers(body, p + 5, dim);
    let key_len_at: usize = p + 5 + dim as usize * 4;
    proof {
        assert(rest.skip(5) =~= body@.skip(p + 5));
        let a = 5 + 4 * dim as int;
        assert(rest.subrange(a, a + 4) =~= body@.subrange(key_len_at as int, key_len_at + 4));
    }
    let key_len = get_u32(body, key_len_at);
    let key_at: usize = key_len_at + 4;
    if key_len as u64 + 1 > (body.len() - key_at) as u64 {
        return None;
    }
    if key_len == 0 && !deleted {
        return None;
    }
    let key_end: usize = key_at + key_len as usize;
    let key = copy_range(body, key_at, key_end);
    let layer_count = body[key_end];
    proof {
        let a = 9 + 4 * dim as int;
        let kl = key_len as int;
        assert(rest.subrange(a, a + kl) =~= body@.subrange(key_at as int, key_end as int));
        assert(rest.skip(a + kl + 1) =~= body@.skip(key_end + 1));
    }
    match read_layers(body, key_end + 1, layer_count, count) {
        None => None,
        Some((neighbors, end)) => {
            let node = Node { vector, neighbors, deleted };
            assert(node@.layers == lists_view(neighbors@));
            Some((node, key, end))
        },
    }
}

/// The nodes with their keys that were read.
spec fn node_pairs(nodes: Seq<Node>, keys: Seq<Seq<u8>>) -> Seq<(NodeView, Seq<u8>)> {
    Seq::new(nodes.len(), |i: int| (nodes[i]@, keys[i]))
}

/// Reads all nodes; returns them with the map of the keys of the live ones.
fn read_nodes(body: &[u8], dim: u32, count: u32) -> (r: Option<(Vec<Node>, KeyMap<NodeId>)>)
    requires
        body@.len() >= PREFIX_LEN,
    ensures
        ({
            let parsed = parse_nodes(body@.skip(71), count as int, dim as int, count as int);
            match r {
                Some((nodes, map)) => {
                    &&& parsed matches Some((list, rest))
                    &&& rest.len() == 0
                    &&& keys_distinct(list)
                    &&& list.len() == nodes@.len() == count
                    &&& forall|i: int| 0 <= i < nodes@.len() ==> (#[trigger] nodes@[i])@ == list[i].0
                    &&& map.wf()
                    &&& keys_match(
                        map.pairs(),
                        list.map_values(|p: (NodeView, Seq<u8>)| p.0),
                        list.map_values(|p: (NodeView, Seq<u8>)| p.1),
                    )
                },
                None => parsed matches Some((list, rest)) ==> rest.len() > 0 || !keys_distinct(list),
            }
        }),
{
    let ghost parsed = parse_nodes(body@.skip(71), count as int, dim as int, count as int);
    let mut nodes: Vec<Node> = Vec::new();
    let ghost mut keys: Seq<Seq<u8>> = Seq::empty();
    let mut map: KeyMap<NodeId> = KeyMap::new();
    let mut at: usize = PREFIX_LEN;
    let mut i: u32 = 0;
    proof {
        assert(node_pairs(nodes@, keys) =~= Seq::empty());
        lemma_glue_empty(parsed);
    }
    while i < count
        invariant
            i <= count,
            PREFIX_LEN <= at <= body@.len(),
            nodes@.len() == i,
            keys.len() == i,
            map.wf(),
            parsed == parse_nodes(body@.skip(71), count as int, dim as int, count as int),
            parsed == glue(
                node_pairs(nodes@, keys),
                parse_nodes(body@.skip(at as int), count - i, dim as int, count as int),
            ),
            keys_distinct(node_pairs(nodes@, keys)),
            keys_match(map.pairs(), nodes_view(nodes@), keys),
        decreases count - i,
    {
        let ghost nodes0 = nodes@;
        let ghost keys0 = keys;
        let ghost pairs0 = map.pairs();
        match read_node(body, at, dim, count) {
            None => {
                return None;
            },
            Some((node, key, end)) => {
                let ghost v = node@;
                let ghost k = key@;
                let deleted = node.deleted;
                nodes.push(node);
                proof {
                    keys = keys.push(k);
                    let rest = parse_nodes(
                        body@.skip(end as int),
                        count - i - 1,
                        dim as int,
                        count as int,
                    );
                    assert(node_pairs(nodes@, keys) =~= node_pairs(nodes0, keys0).push((v, k)));
                    assert(parse_nodes(body@.skip(at as int), count - i, dim as int, count as int)
                        == glue(seq![(v, k)], rest));
                    lemma_glue_one(node_pairs(nodes0, keys0), (v, k), rest);
                }
                if !deleted {
                    if map.contains(key.as_slice()) {
                        proof {
                            lemma_duplicate(nodes0, keys0, pairs0, v, k, parsed);
                        }
                        return None;
                    }
                    let _none = map.insert(key, i);
                }
                proof {
                    lemma_keys_grow(
                        nodes_view(nodes0),
                        keys0,
                        pairs0,
                        v,
                        k,
                        map.pairs(),
                        i,
                    );
                    assert(nodes_view(nodes@) =~= nodes_view(nodes0).push(v));
                    assert(nodes@.drop_last() =~= nodes0);
                    assert(keys.drop_last() =~= keys0);
                    lemma_distinct_grow(nodes0, keys0, pairs0, nodes@, keys);
                }
                at = end;
            },
        }
        i = i + 1;
    }
    proof {
        let list = node_pairs(nodes@, keys);
        assert(list + Seq::<(NodeView, Seq<u8>)>::empty() =~= list);
        assert(list.map_values(|p: (NodeView, Seq<u8>)| p.0) =~= nodes_view(nodes@));
        assert(list.map_values(|p: (NodeView, Seq<u8>)| p.1) =~= keys);
    }
    if at != body.len() {
        return None;
    }
    Some((nodes, map))
}

/// The nodes `ns`.
spec fn nodes_view(ns: Seq<Node>) -> Nodes {
    ns.map_values(|n: Node| n@)
}

/// A key that is mapped already belongs to a live node.
proof fn lemma_duplicate(
    nodes: Seq<Node>,
    keys: Seq<Seq<u8>>,
    pairs: Seq<(Seq<u8>, u32)>,
    v: NodeView,
    k: Seq<u8>,
    parsed: Option<(Seq<(NodeView, Seq<u8>)>, Seq<u8>)>,
)
    requires
        nodes.len() == keys.len(),
        keys_match(pairs, nodes_view(nodes), keys),
        assoc::has_key(pairs, k),
        !v.deleted,
        parsed matches Some((list, _)) ==> node_pairs(nodes, keys).push((v, k)).is_prefix_of(list),
    ensures
        parsed matches Some((list, _)) ==> !keys_distinct(list),
{
    if parsed is Some {
        let list = (parsed->0).0;
        let head = node_pairs(nodes, keys).push((v, k));
        let id = assoc::find(pairs, k)->0;
        assert(assoc::find(pairs, k) == Some(id));
        let n = nodes.len() as int;
        assert(head[id as int] == list[id as int]);
        assert(head[n] == list[n]);
        assert(nodes_view(nodes)[id as int] == nodes[id as int]@);
        assert(list[id as int].1 == k);
        assert(list[n].1 == k);
    }
}

/// One more node, and its key if it is live.
proof fn lemma_keys_grow(
    nodes: Nodes,
    keys: Seq<Seq<u8>>,
    pairs: Seq<(Seq<u8>, u32)>,
    v: NodeView,
    k: Seq<u8>,
    after: Seq<(Seq<u8>, u32)>,
    i: u32,
)
    requires
        nodes.len() == keys.len() == i,
        keys_match(pairs, nodes, keys),
        v.deleted ==> after == pairs,
        !v.deleted ==> !assoc::has_key(pairs, k) && forall|o: Seq<u8>| #[trigger]
            assoc::find(after, o) == (if o == k {
                Some(i)
            } else {
                assoc::find(pairs, o)
            }),
    ensures
        keys_match(after, nodes.push(v), keys.push(k)),
{
    let ns = nodes.push(v);
    let ks = keys.push(k);
    assert forall|o: Seq<u8>| #![trigger assoc::find(after, o)] (assoc::find(
        after,
        o,
    ) matches Some(id) ==> id < ns.len() && !ns[id as int].deleted && ks[id as int] == o) by {
        if assoc::find(after, o) is Some && (v.deleted || o != k) {
            let id = assoc::find(pairs, o)->0;
            assert(assoc::find(pairs, o) == Some(id));
        }
    }
    assert forall|id: int| 0 <= id < ns.len() && !(#[trigger] ns[id]).deleted implies assoc::find(
        after,
        ks[id],
    ) == Some(id as u32) by {
        if id < nodes.len() {
            assert(ns[id] == nodes[id]);
            assert(assoc::find(pairs, keys[id]) == Some(id as u32));
            assert(assoc::has_key(pairs, keys[id]));
        }
    }
}

/// A new key keeps the keys distinct.
proof fn lemma_distinct_grow(
    nodes: Seq<Node>,
    keys: Seq<Seq<u8>>,
    pairs: Seq<(Seq<u8>, u32)>,
    nodes1: Seq<Node>,
    keys1: Seq<Seq<u8>>,
)
    requires
        nodes.len() == keys.len(),
        keys1.len() == keys.len() + 1,
        nodes1.len() == keys1.len(),
        nodes1.drop_last() == nodes,
        keys1.drop_last() == keys,
        keys_distinct(node_pairs(nodes, keys)),
        keys_match(pairs, nodes_view(nodes), keys),
        !nodes1.last()@.deleted ==> !assoc::has_key(pairs, keys1.last()),
    ensures
        keys_distinct(node_pairs(nodes1, keys1)),
{
    let s = node_pairs(nodes, keys);
    let t = node_pairs(nodes1, keys1);
    assert forall|i: int, j: int|
        0 <= i < j < t.len() && !t[i].0.deleted && !t[j].0.deleted implies (#[trigger] t[i]).1 != (
    #[trigger] t[j]).1 by {
        assert(nodes1.drop_last()[i] == nodes1[i]);
        assert(keys1.drop_last()[i] == keys1[i]);
        assert(t[i] == s[i]);
        if j < s.len() {
            assert(nodes1.drop_last()[j] == nodes1[j]);
            assert(keys1.drop_last()[j] == keys1[j]);
            assert(t[j] == s[j]);
        } else {
            assert(!nodes_view(nodes)[i].deleted);
            assert(assoc::find(pairs, keys[i]) == Some(i as u32));
            assert(assoc::has_key(pairs, keys[i]));
        }
    }
}

} // verus!
