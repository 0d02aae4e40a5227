//! Decoding a snapshot gives back what was encoded, and refuses damage.

use crate::checksum;
use crate::codec;
use crate::hnsw::graph;
use crate::hnsw::graph::{NodeView, Nodes};
use crate::hnsw::snapshot;
use crate::hnsw::snapshot::SnapshotView;
use crate::hnsw::EntryPoint;
use vstd::prelude::*;

verus! {

/// A node that can be written down: its vector has `dim` components, its
/// neighbours exist, all lengths fit, and it has a key if it is live.
pub open spec fn node_storable(n: NodeView, key: Seq<u8>, dim: int, count: int) -> bool {
    &&& n.vector.len() == dim
    &&& n.layers.len() <= 255
    &&& forall|l: int|
        0 <= l < n.layers.len() ==> list_storable(#[trigger] n.layers[l], count)
    &&& key.len() <= u32::MAX
    &&& !n.deleted ==> key.len() > 0
}

/// A neighbour list that can be written down.
pub open spec fn list_storable(list: Seq<u32>, count: int) -> bool {
    list.len() <= u32::MAX && forall|i: int| 0 <= i < list.len() ==> #[trigger] list[i] < count
}

/// A snapshot that can be written down.
pub open spec fn storable(v: SnapshotView) -> bool {
    &&& v.params.m <= u32::MAX
    &&& v.params.m_max_0 <= u32::MAX
    &&& v.params.ef_construction <= u32::MAX
    &&& v.params.ef_search <= u32::MAX
    &&& v.params.dim <= u32::MAX
    &&& v.nodes.len() <= u32::MAX
    &&& v.keys.len() == v.nodes.len()
    &&& forall|i: int|
        0 <= i < v.nodes.len() ==> node_storable(
            #[trigger] v.nodes[i],
            v.keys[i],
            v.params.dim as int,
            v.nodes.len() as int,
        )
    &&& forall|i: int, j: int|
        0 <= i < j < v.nodes.len() && !(#[trigger] v.nodes[i]).deleted && !(
        #[trigger] v.nodes[j]).deleted ==> v.keys[i] != v.keys[j]
    &&& graph::entry_ok(v.nodes, v.entry)
}

proof fn lemma_list(list: Seq<u32>, rest: Seq<u8>, count: int)
    requires
        list_storable(list, count),
    ensures
        snapshot::parse_list(
            codec::le32(list.len() as u32) + codec::u32s_bytes(list) + rest,
            count,
        ) == Some((list, rest)),
{
    let n = list.len() as u32;
    let b = codec::le32(n) + codec::u32s_bytes(list) + rest;
    codec::lemma_le32(n);
    codec::lemma_numbers(list, rest);
    assert(b.subrange(0, 4) =~= codec::le32(n));
    assert(b.skip(4) =~= codec::u32s_bytes(list) + rest);
    assert(b.skip(4 + 4 * n as int) =~= rest);
}

proof fn lemma_layers_first(ls: Seq<Seq<u32>>)
    requires
        ls.len() > 0,
    ensures
        snapshot::layers_bytes(ls) == codec::le32(ls[0].len() as u32) + codec::u32s_bytes(ls[0])
            + snapshot::layers_bytes(ls.skip(1)),
    decreases ls.len(),
{
    let first = codec::le32(ls[0].len() as u32) + codec::u32s_bytes(ls[0]);
    if ls.len() == 1 {
        reveal_with_fuel(snapshot::layers_bytes, 2);
        assert(ls.drop_last() =~= Seq::empty());
        assert(ls.skip(1) =~= Seq::empty());
        assert(snapshot::layers_bytes(ls) =~= first + snapshot::layers_bytes(ls.skip(1)));
    } else {
        lemma_layers_first(ls.drop_last());
        assert(ls.drop_last().skip(1) =~= ls.skip(1).drop_last());
        assert(snapshot::layers_bytes(ls) =~= first + snapshot::layers_bytes(ls.skip(1)));
    }
}

proof fn lemma_layers(ls: Seq<Seq<u32>>, rest: Seq<u8>, count: int)
    requires
        forall|l: int| 0 <= l < ls.len() ==> list_storable(#[trigger] ls[l], count),
    ensures
        snapshot::parse_layers(snapshot::layers_bytes(ls) + rest, ls.len() as int, count) == Some(
            (ls, rest),
        ),
    decreases ls.len(),
{
    let b = snapshot::layers_bytes(ls) + rest;
    if ls.len() == 0 {
        assert(b =~= rest);
        assert(ls =~= Seq::empty());
    } else {
        let tail = ls.skip(1);
        let after = snapshot::layers_bytes(tail) + rest;
        lemma_layers_first(ls);
        assert(b =~= codec::le32(ls[0].len() as u32) + codec::u32s_bytes(ls[0]) + after);
        lemma_list(ls[0], after, count);
        assert forall|l: int| 0 <= l < tail.len() implies list_storable(
            #[trigger] tail[l],
            count,
        ) by {
            assert(tail[l] == ls[l + 1]);
        }
        lemma_layers(tail, rest, count);
        assert(ls =~= seq![ls[0]] + tail);
    }
}

proof fn lemma_node(n: NodeView, key: Seq<u8>, rest: Seq<u8>, dim: int, count: int)
    requires
        node_storable(n, key, dim, count),
        0 <= dim <= u32::MAX,
    ensures
        snapshot::parse_node(snapshot::node_bytes(n, key) + rest, dim, count) == Some(
            (n, key, rest),
        ),
{
    let b = snapshot::node_bytes(n, key) + rest;
    let vl = n.vector.len() as u32;
    let kl = key.len() as u32;
    let vec_bytes = codec::u32s_bytes(n.vector);
    let at = 9 + 4 * dim;
    codec::lemma_le32(vl);
    codec::lemma_le32(kl);
    let after_vec = codec::le32(kl) + key + seq![n.layers.len() as u8] + snapshot::layers_bytes(
        n.layers,
    ) + rest;
    codec::lemma_numbers(n.vector, after_vec);
    assert(b.subrange(1, 5) =~= codec::le32(vl));
    assert(b.skip(5) =~= vec_bytes + after_vec);
    assert(b.subrange(5 + 4 * dim, at) =~= codec::le32(kl));
    assert(b.subrange(at, at + kl as int) =~= key);
    assert(b[at + kl as int] == n.layers.len() as u8);
    assert(b.skip(at + kl as int + 1) =~= snapshot::layers_bytes(n.layers) + rest);
    lemma_layers(n.layers, rest, count);
}

proof fn lemma_nodes_first(nodes: Nodes, keys: Seq<Seq<u8>>)
    requires
        nodes.len() > 0,
        keys.len() == nodes.len(),
    ensures
        snapshot::nodes_bytes(nodes, keys) == snapshot::node_bytes(nodes[0], keys[0])
            + snapshot::nodes_bytes(nodes.skip(1), keys.skip(1)),
    decreases nodes.len(),
{
    let first = snapshot::node_bytes(nodes[0], keys[0]);
    if nodes.len() == 1 {
        reveal_with_fuel(snapshot::nodes_bytes, 2);
        assert(nodes.drop_last() =~= Seq::empty());
        assert(nodes.skip(1) =~= Seq::empty());
        assert(snapshot::nodes_bytes(nodes, keys) =~= first + snapshot::nodes_bytes(
            nodes.skip(1),
            keys.skip(1),
        ));
    } else {
        let ni = nodes.drop_last();
        let ki = keys.drop_last();
        lemma_nodes_first(ni, ki);
        lemma_nodes_keys(ni, ki, keys);
        assert(ni.skip(1) =~= nodes.skip(1).drop_last());
        assert(ki.skip(1) =~= keys.skip(1).drop_last());
        lemma_nodes_keys(nodes.skip(1).drop_last(), keys.skip(1).drop_last(), keys.skip(1));
        assert(nodes.skip(1).last() == nodes.last());
        assert(keys.skip(1)[nodes.skip(1).len() - 1] == keys[nodes.len() - 1]);
        assert(snapshot::nodes_bytes(nodes, keys) =~= first + snapshot::nodes_bytes(
            nodes.skip(1),
            keys.skip(1),
        ));
    }
}

/// Only the keys of the nodes matter.
proof fn lemma_nodes_keys(nodes: Nodes, a: Seq<Seq<u8>>, b: Seq<Seq<u8>>)
    requires
        forall|i: int| 0 <= i < nodes.len() ==> #[trigger] a[i] == b[i],
    ensures
        snapshot::nodes_bytes(nodes, a) == snapshot::nodes_bytes(nodes, b),
    decreases nodes.len(),
{
    if nodes.len() > 0 {
        lemma_nodes_keys(nodes.drop_last(), a, b);
        assert(a[nodes.len() - 1] == b[nodes.len() - 1]);
    }
}

/// The nodes with their keys.
pub open spec fn zip(nodes: Nodes, keys: Seq<Seq<u8>>) -> Seq<(NodeView, Seq<u8>)> {
    Seq::new(nodes.len(), |i: int| (nodes[i], keys[i]))
}

proof fn lemma_nodes(nodes: Nodes, keys: Seq<Seq<u8>>, dim: int, count: int)
    requires
        keys.len() == nodes.len(),
        0 <= dim <= u32::MAX,
        forall|i: int|
            0 <= i < nodes.len() ==> node_storable(#[trigger] nodes[i], keys[i], dim, count),
    ensures
        snapshot::parse_nodes(
            snapshot::nodes_bytes(nodes, keys),
            nodes.len() as int,
            dim,
            count,
        ) == Some((zip(nodes, keys), Seq::<u8>::empty())),
    decreases nodes.len(),
{
    if nodes.len() == 0 {
        assert(zip(nodes, keys) =~= Seq::empty());
    } else {
        let nt = nodes.skip(1);
        let kt = keys.skip(1);
        let rest = snapshot::nodes_bytes(nt, kt);
        lemma_nodes_first(nodes, keys);
        lemma_node(nodes[0], keys[0], rest, dim, count);
        assert forall|i: int| 0 <= i < nt.len() implies node_storable(
            #[trigger] nt[i],
            kt[i],
            dim,
            count,
        ) by {
            assert(nt[i] == nodes[i + 1]);
            assert(kt[i] == keys[i + 1]);
        }
        lemma_nodes(nt, kt, dim, count);
        assert(zip(nodes, keys) =~= seq![(nodes[0], keys[0])] + zip(nt, kt));
    }
}

proof fn lemma_head(v: SnapshotView)
    requires
        storable(v),
    ensures
        ({
            let b = snapshot::snapshot_body(v);
            &&& b.len() >= 71
            &&& b.take(8) == snapshot::magic()
            &&& codec::u32_at(b, 8) == snapshot::VERSION
            &&& b[24] == snapshot::metric_tag(v.params.metric)
            &&& snapshot::parsed_params(b, v.params.metric) == v.params
            &&& codec::u32_at(b, 41) == v.params.dim
            &&& codec::u64_at(b, 53) == v.next_sstable_id
            &&& snapshot::parsed_entry(b) == v.entry
            &&& codec::u32_at(b, 67) == v.nodes.len()
            &&& b.skip(71) == snapshot::nodes_bytes(v.nodes, v.keys)
        }),
{
    let b = snapshot::snapshot_body(v);
    let p = v.params;
    codec::lemma_le32(snapshot::VERSION);
    codec::lemma_le32(0);
    codec::lemma_le64(0);
    codec::lemma_le32(p.m as u32);
    codec::lemma_le32(p.m_max_0 as u32);
    codec::lemma_le32(p.ef_construction as u32);
    codec::lemma_le32(p.ef_search as u32);
    codec::lemma_le32(p.dim as u32);
    codec::lemma_le64(p.seed);
    codec::lemma_le64(v.next_sstable_id);
    codec::lemma_le32(v.nodes.len() as u32);
    let e = if v.entry is Some {
        v.entry->0
    } else {
        EntryPoint { node: 0, level: 0 }
    };
    codec::lemma_le32(e.node);
    let head = snapshot::head_bytes(p, v.next_sstable_id);
    assert(head.len() == 61);
    assert(snapshot::entry_bytes(v.entry).len() == 6);
    assert(b.take(8) =~= snapshot::magic());
    assert(b.subrange(8, 12) =~= codec::le32(snapshot::VERSION));
    assert(b.subrange(25, 29) =~= codec::le32(p.m as u32));
    assert(b.subrange(29, 33) =~= codec::le32(p.m_max_0 as u32));
    assert(b.subrange(33, 37) =~= codec::le32(p.ef_construction as u32));
    assert(b.subrange(37, 41) =~= codec::le32(p.ef_search as u32));
    assert(b.subrange(41, 45) =~= codec::le32(p.dim as u32));
    assert(b.subrange(45, 53) =~= codec::le64(p.seed));
    assert(b.subrange(53, 61) =~= codec::le64(v.next_sstable_id));
    assert(b.subrange(62, 66) =~= codec::le32(e.node));
    assert(b.subrange(67, 71) =~= codec::le32(v.nodes.len() as u32));
    assert(b.skip(71) =~= snapshot::nodes_bytes(v.nodes, v.keys));
}

/// A snapshot reads back as it was written.
pub proof fn lemma_snapshot_read_back(v: SnapshotView)
    requires
        storable(v),
    ensures
        snapshot::snapshot_of(snapshot::snapshot_bytes(v)) == Some(v),
{
    let body = snapshot::snapshot_body(v);
    let b = snapshot::snapshot_bytes(v);
    checksum::lemma_with_crc(body);
    lemma_head(v);
    assert(b.take(b.len() - 4) =~= body);
    let list = zip(v.nodes, v.keys);
    lemma_nodes(v.nodes, v.keys, v.params.dim as int, v.nodes.len() as int);
    assert(list.map_values(|p: (NodeView, Seq<u8>)| p.0) =~= v.nodes);
    assert(list.map_values(|p: (NodeView, Seq<u8>)| p.1) =~= v.keys);
    assert(snapshot::keys_distinct(list)) by {
        assert forall|i: int, j: int|
            0 <= i < j < list.len() && !list[i].0.deleted && !list[j].0.deleted implies (
        #[trigger] list[i]).1 != (#[trigger] list[j]).1 by {
            assert(!v.nodes[i].deleted && !v.nodes[j].deleted);
        }
    }
}

/// A list that was read holds nodes below `count` alone.
proof fn lemma_layers_checked(b: Seq<u8>, k: int, count: int)
    ensures
        snapshot::parse_layers(b, k, count) matches Some((ls, rest)) ==> forall|l: int, j: int|
            0 <= l < ls.len() && 0 <= j < ls[l].len() ==> #[trigger] ls[l][j] < count,
    decreases k,
{
    if k > 0 {
        match snapshot::parse_list(b, count) {
            None => {},
            Some((list, rest)) => {
                lemma_layers_checked(rest, k - 1, count);
                match snapshot::parse_layers(rest, k - 1, count) {
                    None => {},
                    Some((more, end)) => {
                        let ls = seq![list] + more;
                        assert forall|l: int, j: int|
                            0 <= l < ls.len() && 0 <= j < ls[l].len() implies #[trigger] ls[l][j]
                            < count by {
                            if l > 0 {
                                assert(ls[l] == more[l - 1]);
                                assert(more[l - 1][j] < count);
                            } else {
                                assert(ls[0] == list);
                            }
                        }
                    },
                }
            },
        }
    }
}

/// A node that was read: `dim` components, neighbours below `count`, and a key
/// if it is live.
spec fn node_checked(p: (NodeView, Seq<u8>), dim: int, count: int) -> bool {
    &&& p.0.vector.len() == dim
    &&& !p.0.deleted ==> p.1.len() > 0
    &&& forall|l: int, j: int|
        0 <= l < p.0.layers.len() && 0 <= j < p.0.layers[l].len()
            ==> #[trigger] p.0.layers[l][j] < count
}

proof fn lemma_nodes_checked(b: Seq<u8>, k: int, dim: int, count: int)
    requires
        dim >= 0,
    ensures
        snapshot::parse_nodes(b, k, dim, count) matches Some((s, rest)) ==> {
            &&& s.len() == if k > 0 {
                k
            } else {
                0
            }
            &&& forall|i: int| 0 <= i < s.len() ==> node_checked(#[trigger] s[i], dim, count)
        },
    decreases k,
{
    if k > 0 {
        match snapshot::parse_node(b, dim, count) {
            None => {},
            Some((node, key, rest)) => {
                let at = 9 + 4 * dim;
                let kl = codec::u32_at(b, 5 + 4 * dim) as int;
                lemma_layers_checked(b.skip(at + kl + 1), b[at + kl] as int, count);
                assert(node_checked((node, key), dim, count));
                lemma_nodes_checked(rest, k - 1, dim, count);
                match snapshot::parse_nodes(rest, k - 1, dim, count) {
                    None => {},
                    Some((more, end)) => {
                        let s = seq![(node, key)] + more;
                        assert forall|i: int| 0 <= i < s.len() implies node_checked(
                            #[trigger] s[i],
                            dim,
                            count,
                        ) by {
                            if i > 0 {
                                assert(s[i] == more[i - 1]);
                            }
                        }
                    },
                }
            },
        }
    }
}

/// Only a whole snapshot is read: it starts with the magic and the version, and
/// its last four bytes are the checksum of all the others. Its nodes have
/// vectors of one length, link to nodes that exist, and have distinct keys while
/// they are live, none of them empty; and the entry point appears at its layer.
pub proof fn lemma_snapshot_is_checked(b: Seq<u8>)
    requires
        snapshot::snapshot_of(b) is Some,
    ensures
        ({
            let v = snapshot::snapshot_of(b)->0;
            &&& b.len() >= 75
            &&& codec::u32_at(b, b.len() - 4) == checksum::crc32(b.take(b.len() - 4))
            &&& b.take(8) == seq![83u8, 65u8, 83u8, 84u8, 72u8, 78u8, 83u8, 49u8]
            &&& codec::u32_at(b, 8) == 3
            &&& 1 <= b[24] <= 3
            &&& v.nodes.len() == codec::u32_at(b, 67)
            &&& v.keys.len() == v.nodes.len()
            &&& v.params.dim == codec::u32_at(b, 41)
            &&& v.next_sstable_id == codec::u64_at(b, 53)
            &&& v.entry is Some <==> b[61] == 1
            &&& v.entry is Some ==> v.entry->0.node < v.nodes.len() && v.entry->0.level
                < v.nodes[v.entry->0.node as int].layers.len()
            &&& forall|i: int|
                0 <= i < v.nodes.len() ==> (#[trigger] v.nodes[i]).vector.len() == v.params.dim && (
                !v.nodes[i].deleted ==> v.keys[i].len() > 0)
            &&& forall|i: int, l: int, j: int|
                0 <= i < v.nodes.len() && 0 <= l < v.nodes[i].layers.len() && 0 <= j
                    < v.nodes[i].layers[l].len() ==> #[trigger] v.nodes[i].layers[l][j]
                    < v.nodes.len()
            &&& forall|i: int, j: int|
                0 <= i < j < v.nodes.len() && !(#[trigger] v.nodes[i]).deleted && !(
                #[trigger] v.nodes[j]).deleted ==> v.keys[i] != v.keys[j]
        }),
{
    let v = snapshot::snapshot_of(b)->0;
    let body = b.take(b.len() - 4);
    let dim = codec::u32_at(body, 41) as int;
    let count = codec::u32_at(body, 67) as int;
    assert(body.take(8) =~= b.take(8));
    assert(body.subrange(8, 12) =~= b.subrange(8, 12));
    assert(body.subrange(41, 45) =~= b.subrange(41, 45));
    assert(body.subrange(53, 61) =~= b.subrange(53, 61));
    assert(body.subrange(67, 71) =~= b.subrange(67, 71));
    lemma_nodes_checked(body.skip(71), count, dim, count);
    let list = (snapshot::parse_nodes(body.skip(71), count, dim, count)->0).0;
    assert forall|i: int| 0 <= i < v.nodes.len() implies #[trigger] v.nodes[i] == list[i].0
        && v.keys[i] == list[i].1 && node_checked(list[i], dim, count) by {}
    assert forall|i: int, l: int, j: int|
        0 <= i < v.nodes.len() && 0 <= l < v.nodes[i].layers.len() && 0 <= j
            < v.nodes[i].layers[l].len() implies #[trigger] v.nodes[i].layers[l][j]
        < v.nodes.len() by {
        assert(v.nodes[i] == list[i].0);
        assert(node_checked(list[i], dim, count));
        assert(list[i].0.layers[l][j] < count);
    }
}

} // verus!
