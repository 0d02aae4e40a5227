//! The graph as mathematics.

use crate::hnsw::{EntryPoint, HnswParams};
use vstd::prelude::*;

verus! {

/// A node: its vector, its neighbours at each of its layers, and whether it
/// was deleted.
#[verifier::ext_equal]
pub struct NodeView {
    pub vector: Seq<u32>,
    pub layers: Seq<Seq<u32>>,
    pub deleted: bool,
}

/// The nodes by id.
pub type Nodes = Seq<NodeView>;

/// Node `id` exists and appears at `layer`.
pub open spec fn has_layer(nodes: Nodes, id: int, layer: int) -> bool {
    0 <= id < nodes.len() && 0 <= layer < nodes[id].layers.len()
}

/// Node `id` exists and was not deleted.
pub open spec fn is_live(nodes: Nodes, id: int) -> bool {
    0 <= id < nodes.len() && !nodes[id].deleted
}

/// Every node appears at layer 0 and at no more than 255 layers, and its id
/// can be written down.
pub open spec fn shape_ok(nodes: Nodes) -> bool {
    &&& nodes.len() <= u32::MAX
    &&& forall|id: int| 0 <= id < nodes.len() ==> 1 <= (#[trigger] nodes[id]).layers.len() <= 255
}

/// Every neighbour at a layer exists and appears at that layer.
pub open spec fn links_ok(nodes: Nodes) -> bool {
    forall|id: int, layer: int, j: int|
        #![trigger nodes[id].layers[layer][j]]
        has_layer(nodes, id, layer) && 0 <= j < nodes[id].layers[layer].len() ==> has_layer(
            nodes,
            nodes[id].layers[layer][j] as int,
            layer,
        )
}

/// The entry point exists and appears at its layer.
pub open spec fn entry_ok(nodes: Nodes, entry: Option<EntryPoint>) -> bool {
    entry matches Some(e) ==> has_layer(nodes, e.node as int, e.level as int)
}

/// The graph can be walked.
pub open spec fn graph_ok(nodes: Nodes, entry: Option<EntryPoint>) -> bool {
    shape_ok(nodes) && links_ok(nodes) && entry_ok(nodes, entry)
}

/// There is an entry point if a node is live; it is live, and no live node
/// appears at a higher layer.
pub open spec fn entry_leads(nodes: Nodes, entry: Option<EntryPoint>) -> bool {
    match entry {
        None => forall|id: int| 0 <= id < nodes.len() ==> (#[trigger] nodes[id]).deleted,
        Some(e) => {
            &&& is_live(nodes, e.node as int)
            &&& nodes[e.node as int].layers.len() == e.level + 1
            &&& forall|id: int|
                is_live(nodes, id) ==> (#[trigger] nodes[id]).layers.len() <= e.level + 1
        },
    }
}

/// The live nodes behind the entry point are at lower layers.
pub open spec fn entry_is_last(nodes: Nodes, entry: Option<EntryPoint>) -> bool {
    entry matches Some(e) ==> forall|id: int|
        e.node < id && is_live(nodes, id) ==> (#[trigger] nodes[id]).layers.len() <= e.level
}

/// Most neighbours that a list at `layer` is trimmed to.
pub open spec fn trim_cap(params: HnswParams, layer: int) -> int {
    if layer == 0 {
        params.m_max_0 as int
    } else {
        params.m as int
    }
}

/// Most neighbours that a node has at `layer`.
pub open spec fn degree_cap(params: HnswParams, layer: int) -> int {
    if trim_cap(params, layer) < params.m {
        params.m as int
    } else {
        trim_cap(params, layer)
    }
}

/// No node has more neighbours than its cap.
pub open spec fn within_caps(nodes: Nodes, params: HnswParams) -> bool {
    forall|id: int, layer: int|
        has_layer(nodes, id, layer) ==> (#[trigger] nodes[id].layers[layer]).len() <= degree_cap(
            params,
            layer,
        )
}

/// Number of live nodes.
pub open spec fn live_count(nodes: Nodes) -> nat
    decreases nodes.len(),
{
    if nodes.len() == 0 {
        0
    } else {
        live_count(nodes.drop_last()) + (if nodes.last().deleted {
            0nat
        } else {
            1nat
        })
    }
}

/// `n` is a neighbour of `id` at `layer`.
pub open spec fn is_neighbor(nodes: Nodes, layer: int, id: u32, n: u32) -> bool {
    has_layer(nodes, id as int, layer) && nodes[id as int].layers[layer].contains(n)
}

/// `path` leads from `a` to `b` along neighbours at `layer`.
pub open spec fn is_path(nodes: Nodes, layer: int, a: u32, b: u32, path: Seq<u32>) -> bool {
    &&& path.len() > 0
    &&& path[0] == a
    &&& path.last() == b
    &&& forall|i: int|
        0 <= i < path.len() - 1 ==> is_neighbor(
            nodes,
            layer,
            #[trigger] path[i],
            path[i + 1],
        )
}

/// `b` can be reached from `a` at `layer`.
pub open spec fn reachable(nodes: Nodes, layer: int, a: u32, b: u32) -> bool {
    exists|path: Seq<u32>| is_path(nodes, layer, a, b, path)
}

/// A node can be reached from itself.
pub proof fn lemma_reach_self(nodes: Nodes, layer: int, a: u32)
    ensures
        reachable(nodes, layer, a, a),
{
    assert(is_path(nodes, layer, a, a, seq![a]));
}

/// A neighbour of what can be reached can be reached.
pub proof fn lemma_reach_step(nodes: Nodes, layer: int, a: u32, b: u32, c: u32)
    requires
        reachable(nodes, layer, a, b),
        is_neighbor(nodes, layer, b, c),
    ensures
        reachable(nodes, layer, a, c),
{
    let path = choose|path: Seq<u32>| is_path(nodes, layer, a, b, path);
    let longer = path.push(c);
    assert forall|i: int| 0 <= i < longer.len() - 1 implies is_neighbor(
        nodes,
        layer,
        #[trigger] longer[i],
        longer[i + 1],
    ) by {
        if i < path.len() - 1 {
            assert(is_neighbor(nodes, layer, path[i], path[i + 1]));
        }
    }
    assert(is_path(nodes, layer, a, c, longer));
}

/// The live nodes are those that are not deleted, each counted once.
pub proof fn lemma_live_count(nodes: Nodes)
    ensures
        live_count(nodes) == nodes.filter(|n: NodeView| !n.deleted).len(),
    decreases nodes.len(),
{
    reveal(Seq::filter);
    if nodes.len() > 0 {
        lemma_live_count(nodes.drop_last());
    }
}

/// A neighbour at a layer appears at that layer.
pub proof fn lemma_neighbor_has_layer(nodes: Nodes, layer: int, a: u32, b: u32)
    requires
        links_ok(nodes),
        is_neighbor(nodes, layer, a, b),
    ensures
        has_layer(nodes, b as int, layer),
{
    let list = nodes[a as int].layers[layer];
    let j = choose|j: int| 0 <= j < list.len() && list[j] == b;
    assert(has_layer(nodes, nodes[a as int].layers[layer][j] as int, layer));
}

} // verus!
