//! Insertion of nodes.

use crate::error::{invalid_argument, Result};
use crate::hnsw::float;
use crate::hnsw::float::check_finite;
use crate::hnsw::graph;
use crate::hnsw::graph::{NodeView, Nodes};
use crate::hnsw::math::VectorMath;
use crate::hnsw::search;
use crate::hnsw::search::Candidate;
use crate::hnsw::select;
use crate::hnsw::select::candidate_ids;
use crate::hnsw::{DistanceMetric, EntryPoint, HnswIndex, HnswParams, Node, NodeId};
use vstd::prelude::*;
use vstd::slice::slice_to_vec;

verus! {

/// Highest level of a node.
pub const MAX_LEVEL: u8 = 30;

/// What is stored for `v`, and what a query `v` is compared with: its unit
/// vector for the cosine metric, `v` itself if it is finite for the others.
pub open spec fn prepared<M: VectorMath>(
    math: &M,
    metric: DistanceMetric,
    v: Seq<u32>,
) -> Option<Seq<u32>> {
    match metric {
        DistanceMetric::Cosine => math.normalized(v),
        _ => if float::all_finite(v) {
            Some(v)
        } else {
            None
        },
    }
}

/// The level of the next node, after `draws` samples.
pub open spec fn next_level<M: VectorMath>(math: &M, params: HnswParams, draws: u64) -> u8 {
    let level = math.level_of(params.seed, params.m, draws);
    if level > MAX_LEVEL {
        MAX_LEVEL
    } else {
        level
    }
}

/// Greedy walks lead from `start` down the layers `from` to `to + 1` to `end`.
pub open spec fn descends<M: VectorMath>(
    math: &M,
    metric: DistanceMetric,
    nodes: Nodes,
    query: Seq<u32>,
    start: u32,
    from: int,
    to: int,
    end: u32,
) -> bool
    decreases from - to,
{
    if from <= to {
        end == start
    } else {
        exists|mid: u32|
            #[trigger] search::is_greedy_end(math, metric, nodes, query, start, from, mid)
                && descends(math, metric, nodes, query, mid, from - 1, to, end)
    }
}

/// A node without neighbours at the layers up to `level`.
pub open spec fn new_node(vector: Seq<u32>, level: int) -> NodeView {
    NodeView {
        vector,
        layers: Seq::new((level + 1) as nat, |i: int| Seq::<u32>::empty()),
        deleted: false,
    }
}

/// The nodes with `id` put at the end of the list of `x` at `layer`.
pub open spec fn push_layer(nodes: Nodes, x: int, layer: int, id: u32) -> Nodes {
    select::set_layer(nodes, x, layer, nodes[x].layers[layer].push(id))
}

/// The nodes with the list of `x` at `layer` cut to its cap.
pub open spec fn trim_layer<M: VectorMath>(
    math: &M,
    params: HnswParams,
    nodes: Nodes,
    x: int,
    layer: int,
) -> Nodes {
    select::set_layer(
        nodes,
        x,
        layer,
        select::trimmed(
            math,
            params.metric,
            nodes,
            nodes[x].vector,
            nodes[x].layers[layer],
            graph::trim_cap(params, layer),
        ),
    )
}

/// The nodes with a link to `id` added to each of `list`, whose lists are cut
/// to their caps.
pub open spec fn link_back<M: VectorMath>(
    math: &M,
    params: HnswParams,
    nodes: Nodes,
    list: Seq<u32>,
    layer: int,
    id: u32,
) -> Nodes
    decreases list.len(),
{
    if list.len() == 0 {
        nodes
    } else {
        let before = link_back(math, params, nodes, list.drop_last(), layer, id);
        let x = list.last() as int;
        trim_layer(math, params, push_layer(before, x, layer, id), x, layer)
    }
}

/// The ids chosen from the beam `s`.
pub open spec fn chosen<M: VectorMath>(
    math: &M,
    params: HnswParams,
    nodes: Nodes,
    s: Seq<Candidate>,
) -> Seq<u32> {
    select::ids(
        select::select(math, params.metric, nodes, select::stable_sort(s), params.m as int),
    )
}

/// The nodes with node `id` linked at `layer` to neighbours chosen from the
/// beam `s`, and back.
pub open spec fn linked<M: VectorMath>(
    math: &M,
    params: HnswParams,
    nodes: Nodes,
    layer: int,
    id: u32,
    s: Seq<Candidate>,
) -> Nodes {
    let list = chosen(math, params, nodes, s);
    link_back(math, params, select::set_layer(nodes, id as int, layer, list), list, layer, id)
}

/// `after` is `nodes` with node `id` linked at the layers below `count`, from
/// the highest down: at each layer a beam search gives the candidates, and
/// its closest is where the search at the next layer starts.
pub open spec fn grown<M: VectorMath>(
    math: &M,
    params: HnswParams,
    query: Seq<u32>,
    id: u32,
    nodes: Nodes,
    start: u32,
    count: int,
    after: Nodes,
) -> bool
    decreases count,
{
    if count <= 0 {
        after == nodes
    } else {
        exists|s: Seq<Candidate>|
            #[trigger] search::is_beam(
                math,
                params.metric,
                nodes,
                query,
                start,
                count - 1,
                params.ef_construction as int,
                s,
            ) && grown(
                math,
                params,
                query,
                id,
                linked(math, params, nodes, count - 1, id, s),
                s[0].id,
                count - 1,
                after,
            )
    }
}

/// `a` and `b`, the smaller.
pub open spec fn smaller(a: int, b: int) -> int {
    if a < b {
        a
    } else {
        b
    }
}

/// `after`, `entry_after` is the graph `nodes`, `entry` with a node for
/// `vector` at `level`.
pub open spec fn inserted<M: VectorMath>(
    math: &M,
    params: HnswParams,
    nodes: Nodes,
    entry: Option<EntryPoint>,
    vector: Seq<u32>,
    level: u8,
    after: Nodes,
    entry_after: Option<EntryPoint>,
) -> bool {
    let id = nodes.len() as u32;
    let base = nodes.push(new_node(vector, level as int));
    match entry {
        None => after == base && entry_after == Some(EntryPoint { node: id, level }),
        Some(e) => {
            &&& exists|start: u32|
                #[trigger] descends(
                    math,
                    params.metric,
                    base,
                    vector,
                    e.node,
                    e.level as int,
                    level as int,
                    start,
                ) && grown(
                    math,
                    params,
                    vector,
                    id,
                    base,
                    start,
                    smaller(level as int, e.level as int) + 1,
                    after,
                )
            &&& entry_after == (if level > e.level {
                Some(EntryPoint { node: id, level })
            } else {
                entry
            })
        },
    }
}

/// `a` and `b` differ in neighbour lists at most.
pub open spec fn same_but_links(a: Nodes, b: Nodes) -> bool {
    &&& a.len() == b.len()
    &&& forall|i: int|
        0 <= i < a.len() ==> {
            &&& (#[trigger] b[i]).vector == a[i].vector
            &&& b[i].deleted == a[i].deleted
            &&& b[i].layers.len() == a[i].layers.len()
        }
}

pub proof fn lemma_same_links_transitive(a: Nodes, b: Nodes, c: Nodes)
    requires
        same_but_links(a, b),
        same_but_links(b, c),
    ensures
        same_but_links(a, c),
{
    assert forall|i: int| 0 <= i < a.len() implies {
        &&& (#[trigger] c[i]).vector == a[i].vector
        &&& c[i].deleted == a[i].deleted
        &&& c[i].layers.len() == a[i].layers.len()
    } by {
        assert(b[i].vector == a[i].vector);
    }
}

/// All of `list` appear at `layer`.
pub open spec fn all_have_layer(nodes: Nodes, list: Seq<u32>, layer: int) -> bool {
    forall|i: int| 0 <= i < list.len() ==> graph::has_layer(nodes, #[trigger] list[i] as int, layer)
}

/// A list of nodes that appear at the layer may replace another.
pub proof fn lemma_set_layer(nodes: Nodes, params: HnswParams, id: int, layer: int, list: Seq<u32>)
    requires
        graph::shape_ok(nodes),
        graph::links_ok(nodes),
        graph::has_layer(nodes, id, layer),
        all_have_layer(nodes, list, layer),
    ensures
        graph::shape_ok(select::set_layer(nodes, id, layer, list)),
        graph::links_ok(select::set_layer(nodes, id, layer, list)),
        same_but_links(nodes, select::set_layer(nodes, id, layer, list)),
        graph::within_caps(nodes, params) && list.len() <= graph::degree_cap(params, layer)
            ==> graph::within_caps(select::set_layer(nodes, id, layer, list), params),
{
    let t = select::set_layer(nodes, id, layer, list);
    assert forall|i: int, l: int, j: int|
        #![trigger t[i].layers[l][j]]
        graph::has_layer(t, i, l) && 0 <= j < t[i].layers[l].len() implies graph::has_layer(
        t,
        t[i].layers[l][j] as int,
        l,
    ) by {
        if i == id && l == layer {
            assert(t[i].layers[l][j] == list[j]);
            assert(graph::has_layer(nodes, list[j] as int, layer));
        } else {
            assert(t[i].layers[l] == nodes[i].layers[l]);
            assert(graph::has_layer(nodes, nodes[i].layers[l][j] as int, l));
        }
    }
    if graph::within_caps(nodes, params) && list.len() <= graph::degree_cap(params, layer) {
        assert forall|i: int, l: int| graph::has_layer(t, i, l) implies (
        #[trigger] t[i].layers[l]).len() <= graph::degree_cap(params, l) by {
            if !(i == id && l == layer) {
                assert(t[i].layers[l] == nodes[i].layers[l]);
            }
        }
    }
}

/// Lists are the same elsewhere.
pub open spec fn same_lists_but(a: Nodes, b: Nodes, layer: int) -> bool {
    forall|i: int, l: int|
        graph::has_layer(a, i, l) && l != layer ==> #[trigger] b[i].layers[l] == a[i].layers[l]
}

/// Adding a link to `id` to the list of `x` and cutting it keeps the graph.
pub proof fn lemma_push_trim<M: VectorMath>(
    math: &M,
    params: HnswParams,
    nodes: Nodes,
    x: int,
    layer: int,
    id: u32,
)
    requires
        graph::shape_ok(nodes),
        graph::links_ok(nodes),
        graph::has_layer(nodes, x, layer),
        graph::has_layer(nodes, id as int, layer),
    ensures
        ({
            let p = push_layer(nodes, x, layer, id);
            let t = trim_layer(math, params, p, x, layer);
            &&& graph::shape_ok(p)
            &&& graph::links_ok(p)
            &&& same_but_links(nodes, p)
            &&& graph::shape_ok(t)
            &&& graph::links_ok(t)
            &&& same_but_links(nodes, t)
            &&& graph::within_caps(nodes, params) ==> graph::within_caps(t, params)
            &&& same_lists_but(nodes, t, layer)
            &&& forall|i: int|
                0 <= i < nodes.len() && i != x ==> (#[trigger] t[i]).layers == nodes[i].layers
        }),
{
    let list = nodes[x].layers[layer];
    let more = list.push(id);
    assert(all_have_layer(nodes, more, layer)) by {
        assert forall|i: int| 0 <= i < more.len() implies graph::has_layer(
            nodes,
            #[trigger] more[i] as int,
            layer,
        ) by {
            if i < list.len() {
                assert(graph::has_layer(nodes, nodes[x].layers[layer][i] as int, layer));
            }
        }
    }
    lemma_set_layer(nodes, params, x, layer, more);
    let p = push_layer(nodes, x, layer, id);
    let cap = graph::trim_cap(params, layer);
    let cut = select::trimmed(math, params.metric, p, p[x].vector, p[x].layers[layer], cap);
    select::lemma_trimmed_members(math, params.metric, p, p[x].vector, p[x].layers[layer], cap);
    assert(all_have_layer(nodes, cut, layer)) by {
        assert forall|i: int| 0 <= i < cut.len() implies graph::has_layer(
            nodes,
            #[trigger] cut[i] as int,
            layer,
        ) by {
            assert(more.contains(cut[i]));
            let k = choose|k: int| 0 <= k < more.len() && more[k] == cut[i];
            assert(graph::has_layer(nodes, more[k] as int, layer));
        }
    }
    let t = trim_layer(math, params, p, x, layer);
    assert(t[x].layers =~= select::set_layer(nodes, x, layer, cut)[x].layers);
    assert(t =~= select::set_layer(nodes, x, layer, cut));
    lemma_set_layer(nodes, params, x, layer, cut);
}

/// Linking back keeps the graph.
pub proof fn lemma_link_back<M: VectorMath>(
    math: &M,
    params: HnswParams,
    nodes: Nodes,
    list: Seq<u32>,
    layer: int,
    id: u32,
)
    requires
        graph::shape_ok(nodes),
        graph::links_ok(nodes),
        graph::has_layer(nodes, id as int, layer),
        all_have_layer(nodes, list, layer),
    ensures
        ({
            let t = link_back(math, params, nodes, list, layer, id);
            &&& graph::shape_ok(t)
            &&& graph::links_ok(t)
            &&& same_but_links(nodes, t)
            &&& graph::within_caps(nodes, params) ==> graph::within_caps(t, params)
            &&& same_lists_but(nodes, t, layer)
        }),
    decreases list.len(),
{
    if list.len() > 0 {
        let init = list.drop_last();
        assert(all_have_layer(nodes, init, layer)) by {
            assert forall|i: int| 0 <= i < init.len() implies graph::has_layer(
                nodes,
                #[trigger] init[i] as int,
                layer,
            ) by {
                assert(init[i] == list[i]);
            }
        }
        lemma_link_back(math, params, nodes, init, layer, id);
        let before = link_back(math, params, nodes, init, layer, id);
        assert(graph::has_layer(nodes, list[list.len() - 1] as int, layer));
        lemma_push_trim(math, params, before, list.last() as int, layer, id);
    }
}

/// Linking a node at a layer to neighbours chosen from a beam keeps the
/// graph.
pub proof fn lemma_linked<M: VectorMath>(
    math: &M,
    params: HnswParams,
    nodes: Nodes,
    layer: int,
    id: u32,
    s: Seq<Candidate>,
)
    requires
        graph::shape_ok(nodes),
        graph::links_ok(nodes),
        graph::has_layer(nodes, id as int, layer),
        forall|i: int|
            0 <= i < s.len() ==> graph::has_layer(nodes, (#[trigger] s[i]).id as int, layer),
    ensures
        ({
            let list = chosen(math, params, nodes, s);
            let t = linked(math, params, nodes, layer, id, s);
            &&& all_have_layer(nodes, list, layer)
            &&& list.len() <= params.m
            &&& graph::shape_ok(select::set_layer(nodes, id as int, layer, list))
            &&& graph::links_ok(select::set_layer(nodes, id as int, layer, list))
            &&& same_but_links(nodes, select::set_layer(nodes, id as int, layer, list))
            &&& graph::shape_ok(t)
            &&& graph::links_ok(t)
            &&& same_but_links(nodes, t)
            &&& graph::within_caps(nodes, params) ==> graph::within_caps(t, params)
        }),
{
    let list = chosen(math, params, nodes, s);
    let sorted = select::stable_sort(s);
    let picked = select::select(math, params.metric, nodes, sorted, params.m as int);
    select::lemma_sort_members(s);
    select::lemma_select_members(math, params.metric, nodes, sorted, params.m as int);
    assert forall|i: int| 0 <= i < list.len() implies graph::has_layer(
        nodes,
        #[trigger] list[i] as int,
        layer,
    ) by {
        assert(sorted.contains(picked[i]));
        let j = choose|j: int| 0 <= j < sorted.len() && sorted[j] == picked[i];
        assert(s.contains(sorted[j]));
        let k = choose|k: int| 0 <= k < s.len() && s[k] == sorted[j];
        assert(graph::has_layer(nodes, s[k].id as int, layer));
    }
    lemma_set_layer(nodes, params, id as int, layer, list);
    let base = select::set_layer(nodes, id as int, layer, list);
    assert(all_have_layer(base, list, layer)) by {
        assert forall|i: int| 0 <= i < list.len() implies graph::has_layer(
            base,
            #[trigger] list[i] as int,
            layer,
        ) by {
            assert(graph::has_layer(nodes, list[i] as int, layer));
        }
    }
    lemma_link_back(math, params, base, list, layer, id);
}

/// A node without neighbours may be added.
proof fn lemma_new_node(nodes: Nodes, params: HnswParams, vector: Seq<u32>, level: int)
    requires
        graph::shape_ok(nodes),
        graph::links_ok(nodes),
        nodes.len() < u32::MAX,
        0 <= level <= 254,
    ensures
        graph::shape_ok(nodes.push(new_node(vector, level))),
        graph::links_ok(nodes.push(new_node(vector, level))),
        graph::within_caps(nodes, params) ==> graph::within_caps(
            nodes.push(new_node(vector, level)),
            params,
        ),
{
    let t = nodes.push(new_node(vector, level));
    assert forall|i: int, l: int, j: int|
        #![trigger t[i].layers[l][j]]
        graph::has_layer(t, i, l) && 0 <= j < t[i].layers[l].len() implies graph::has_layer(
        t,
        t[i].layers[l][j] as int,
        l,
    ) by {
        if i < nodes.len() {
            assert(t[i] == nodes[i]);
            assert(graph::has_layer(nodes, nodes[i].layers[l][j] as int, l));
        }
    }
    if graph::within_caps(nodes, params) {
        assert forall|i: int, l: int| graph::has_layer(t, i, l) implies (
        #[trigger] t[i].layers[l]).len() <= graph::degree_cap(params, l) by {
            if i < nodes.len() {
                assert(t[i] == nodes[i]);
            }
        }
    }
}

/// Links do not matter to how many nodes are live.
pub proof fn lemma_live_same(a: Nodes, b: Nodes)
    requires
        same_but_links(a, b),
    ensures
        graph::live_count(a) == graph::live_count(b),
    decreases a.len(),
{
    if a.len() > 0 {
        let x = a.drop_last();
        let y = b.drop_last();
        assert(same_but_links(x, y)) by {
            assert forall|i: int| 0 <= i < x.len() implies {
                &&& (#[trigger] y[i]).vector == x[i].vector
                &&& y[i].deleted == x[i].deleted
                &&& y[i].layers.len() == x[i].layers.len()
            } by {
                assert(y[i] == b[i]);
                assert(x[i] == a[i]);
            }
        }
        lemma_live_same(x, y);
        assert(b[b.len() - 1].deleted == a[a.len() - 1].deleted);
    }
}

/// What links do not matter to stays: the entry point leads as before.
pub proof fn lemma_entry_same(a: Nodes, b: Nodes, entry: Option<EntryPoint>)
    requires
        same_but_links(a, b),
    ensures
        graph::entry_ok(a, entry) ==> graph::entry_ok(b, entry),
        graph::entry_leads(a, entry) ==> graph::entry_leads(b, entry),
{
    if graph::entry_leads(a, entry) {
        match entry {
            None => {
                assert forall|id: int| 0 <= id < b.len() implies (#[trigger] b[id]).deleted by {
                    assert(a[id].deleted);
                }
            },
            Some(e) => {
                assert(b[e.node as int].deleted == a[e.node as int].deleted);
                assert forall|id: int| graph::is_live(b, id) implies (
                #[trigger] b[id]).layers.len() <= e.level + 1 by {
                    assert(graph::is_live(a, id));
                    assert(a[id].layers.len() <= e.level + 1);
                }
            },
        }
    }
}

/// Inserting `vector` into `before` gives `after`, with its node at the end.
pub open spec fn inserts<M: VectorMath>(
    math: &M,
    before: HnswIndex,
    vector: Seq<u32>,
    after: HnswIndex,
) -> bool {
    let params = before.spec_params();
    &&& !before.refuses_vector(math, vector)
    &&& after.spec_params() == params
    &&& after.spec_dim() == vector.len()
    &&& after.spec_draws() == before.spec_draws().wrapping_add(1)
    &&& inserted(
        math,
        params,
        before.nodes(),
        before.entry(),
        prepared(math, params.metric, vector)->0,
        next_level(math, params, before.spec_draws()),
        after.nodes(),
        after.entry(),
    )
}

impl HnswIndex {
    /// What is stored for `v`.
    pub(crate) fn prepare<M: VectorMath>(&self, math: &M, v: &[u32]) -> (r: Option<Vec<u32>>)
        requires
            math.ready(),
        ensures
            match r {
                Some(p) => prepared(math, self.spec_params().metric, v@) == Some(p@) && p@.len()
                    == v@.len(),
                None => prepared(math, self.spec_params().metric, v@) is None,
            },
    {
        match self.params.metric {
            DistanceMetric::Cosine => math.normalize(v),
            _ => if check_finite(v) {
                Some(slice_to_vec(v))
            } else {
                None
            },
        }
    }

    /// The level of the next node.
    fn assign_level<M: VectorMath>(&mut self, math: &M) -> (level: u8)
        requires
            math.ready(),
        ensures
            level <= MAX_LEVEL,
            level == next_level(math, old(self).spec_params(), old(self).spec_draws()),
            final(self).nodes() == old(self).nodes(),
            final(self).entry() == old(self).entry(),
            final(self).spec_params() == old(self).spec_params(),
            final(self).spec_dim() == old(self).spec_dim(),
            final(self).spec_draws() == old(self).spec_draws().wrapping_add(1),
    {
        let level = math.level(self.params.seed, self.params.m, self.draws);
        self.draws = self.draws.wrapping_add(1);
        if level > MAX_LEVEL {
            MAX_LEVEL
        } else {
            level
        }
    }

    /// Why `insert` refuses `vector`: its dimension is wrong, it cannot be
    /// compared, or there are no more ids.
    pub open spec fn refuses_vector<M: VectorMath>(&self, math: &M, vector: Seq<u32>) -> bool {
        ||| self.spec_dim() == 0 && vector.len() == 0
        ||| self.spec_dim() != 0 && vector.len() != self.spec_dim()
        ||| prepared(math, self.spec_params().metric, vector) is None
        ||| self.nodes().len() == u32::MAX
    }

    /// True if `vector` can be inserted.
    pub(crate) fn accepts_vector<M: VectorMath>(&self, math: &M, vector: &[u32]) -> (r: bool)
        requires
            self.wf(),
            math.ready(),
        ensures
            r == !self.refuses_vector(math, vector@),
    {
        if self.dim == 0 {
            if vector.len() == 0 {
                return false;
            }
        } else if vector.len() != self.dim {
            return false;
        }
        if self.nodes.len() as u64 >= u32::MAX as u64 {
            return false;
        }
        self.prepare(math, vector).is_some()
    }

    /// Inserts a vector and returns the id of its node. The first vector sets
    /// the dimension.
    pub fn insert<M: VectorMath>(&mut self, math: &M, vector: &[u32]) -> (r: Result<NodeId>)
        requires
            old(self).wf(),
            math.ready(),
        ensures
            final(self).wf(),
            final(self).spec_params() == old(self).spec_params(),
            old(self).spec_dim() != 0 ==> final(self).spec_dim() == old(self).spec_dim(),
            old(self).spec_dim() == 0 ==> final(self).spec_dim() == vector@.len(),
            match r {
                Ok(id) => {
                    let metric = old(self).spec_params().metric;
                    &&& inserts(math, *old(self), vector@, *final(self))
                    &&& id == old(self).nodes().len()
                    &&& final(self).nodes().len() == old(self).nodes().len() + 1
                    &&& final(self).nodes()[id as int].vector == prepared(math, metric, vector@)->0
                    &&& final(self).nodes()[id as int].vector.len() == vector@.len()
                    &&& !final(self).nodes()[id as int].deleted
                    &&& forall|i: int|
                        0 <= i < old(self).nodes().len() ==> {
                            &&& (#[trigger] final(self).nodes()[i]).vector == old(
                                self,
                            ).nodes()[i].vector
                            &&& final(self).nodes()[i].deleted == old(self).nodes()[i].deleted
                            &&& final(self).nodes()[i].layers.len() == old(
                                self,
                            ).nodes()[i].layers.len()
                        }
                    &&& graph::live_count(final(self).nodes()) == graph::live_count(
                        old(self).nodes(),
                    ) + 1
                },
                Err(e) => {
                    &&& e is InvalidArgument
                    &&& old(self).refuses_vector(math, vector@)
                    &&& final(self).nodes() == old(self).nodes()
                    &&& final(self).entry() == old(self).entry()
                    &&& final(self).spec_draws() == old(self).spec_draws()
                },
            },
            graph::within_caps(old(self).nodes(), old(self).spec_params()) ==> graph::within_caps(
                final(self).nodes(),
                old(self).spec_params(),
            ),
            graph::entry_leads(old(self).nodes(), old(self).entry()) ==> graph::entry_leads(
                final(self).nodes(),
                final(self).entry(),
            ),
    {
        if self.dim == 0 {
            if vector.len() == 0 {
                return Err(invalid_argument("cannot insert zero-dimension vector"));
            }
            self.dim = vector.len();
        } else if vector.len() != self.dim {
            return Err(invalid_argument("vector dimension mismatch"));
        }
        let ghost nodes0 = self.nodes();
        let processed = match self.prepare(math, vector) {
            Some(v) => v,
            None => {
                return Err(
                    invalid_argument(
                        "cannot insert invalid vector (zero-norm for cosine, or contains non-finite values)",
                    ),
                );
            },
        };
        if self.nodes.len() as u64 >= u32::MAX as u64 {
            return Err(invalid_argument("no more node ids"));
        }
        let level = self.assign_level(math);
        let ghost query = processed@;
        let id = self.add_node(math, processed, level);
        proof {
            let base = nodes0.push(new_node(query, level as int));
            let after = self.nodes();
            let stored = prepared(math, old(self).spec_params().metric, vector@)->0;
            assert(query == stored);
            assert(inserted(
                math,
                old(self).spec_params(),
                old(self).nodes(),
                old(self).entry(),
                stored,
                level,
                after,
                self.entry(),
            ));
            lemma_live_same(base, after);
            assert(base.drop_last() =~= nodes0);
            assert(after[id as int].vector == base[id as int].vector);
            assert(after[id as int].deleted == base[id as int].deleted);
            assert forall|i: int| 0 <= i < nodes0.len() implies {
                &&& (#[trigger] after[i]).vector == nodes0[i].vector
                &&& after[i].deleted == nodes0[i].deleted
                &&& after[i].layers.len() == nodes0[i].layers.len()
            } by {
                assert(base[i] == nodes0[i]);
            }
        }
        Ok(id)
    }

    /// Adds a node for `processed` at `level` and links it.
    fn add_node<M: VectorMath>(&mut self, math: &M, processed: Vec<u32>, level: u8) -> (id: NodeId)
        requires
            old(self).wf(),
            math.ready(),
            level <= MAX_LEVEL,
            old(self).nodes().len() < u32::MAX,
        ensures
            final(self).wf(),
            final(self).spec_params() == old(self).spec_params(),
            final(self).spec_dim() == old(self).spec_dim(),
            final(self).spec_draws() == old(self).spec_draws(),
            id == old(self).nodes().len(),
            inserted(
                math,
                old(self).spec_params(),
                old(self).nodes(),
                old(self).entry(),
                processed@,
                level,
                final(self).nodes(),
                final(self).entry(),
            ),
            same_but_links(
                old(self).nodes().push(new_node(processed@, level as int)),
                final(self).nodes(),
            ),
            graph::within_caps(old(self).nodes(), old(self).spec_params()) ==> graph::within_caps(
                final(self).nodes(),
                old(self).spec_params(),
            ),
            graph::entry_leads(old(self).nodes(), old(self).entry()) ==> graph::entry_leads(
                final(self).nodes(),
                final(self).entry(),
            ),
    {
        let ghost params = self.params;
        let ghost nodes0 = self.nodes();
        let ghost entry0 = self.entry;
        let ghost query = processed@;
        let id: NodeId = self.nodes.len() as u32;
        self.push_node(slice_to_vec(processed.as_slice()), level);
        let ghost base = self.nodes();
        proof {
            assert(base == nodes0.push(new_node(query, level as int)));
            lemma_new_node(nodes0, params, query, level as int);
        }
        let entry = match self.entry {
            Some(e) => e,
            None => {
                self.entry = Some(EntryPoint { node: id, level });
                proof {
                    assert(self.nodes() == base);
                    if graph::entry_leads(nodes0, entry0) {
                        lemma_first_leads(nodes0, query, level);
                    }
                }
                return id;
            },
        };
        proof {
            assert(graph::has_layer(nodes0, entry.node as int, entry.level as int));
            assert(base[entry.node as int] == nodes0[entry.node as int]);
        }
        let start = self.descend(math, processed.as_slice(), entry, level);
        let count: u8 = if level < entry.level {
            level + 1
        } else {
            entry.level + 1
        };
        self.grow(math, id, processed.as_slice(), start, count);
        let ghost after = self.nodes();
        if level > entry.level {
            self.entry = Some(EntryPoint { node: id, level });
        }
        proof {
            assert(self.nodes() == after);
            assert(after[id as int].layers.len() == base[id as int].layers.len());
            if graph::entry_leads(nodes0, entry0) {
                lemma_insert_leads(nodes0, entry, query, level);
                lemma_entry_same(base, after, self.entry());
            }
        }
        id
    }

    /// Links node `id` at the layers below `count`, from the highest down.
    fn grow<M: VectorMath>(
        &mut self,
        math: &M,
        id: NodeId,
        query: &[u32],
        start: NodeId,
        count: u8,
    )
        requires
            old(self).wf(),
            math.ready(),
            count > 0,
            graph::has_layer(old(self).nodes(), start as int, count - 1),
            graph::has_layer(old(self).nodes(), id as int, count - 1),
        ensures
            final(self).wf(),
            final(self).spec_params() == old(self).spec_params(),
            final(self).spec_dim() == old(self).spec_dim(),
            final(self).spec_draws() == old(self).spec_draws(),
            final(self).entry() == old(self).entry(),
            same_but_links(old(self).nodes(), final(self).nodes()),
            graph::within_caps(old(self).nodes(), old(self).spec_params()) ==> graph::within_caps(
                final(self).nodes(),
                old(self).spec_params(),
            ),
            grown(
                math,
                old(self).spec_params(),
                query@,
                id,
                old(self).nodes(),
                start,
                count as int,
                final(self).nodes(),
            ),
    {
        let ghost params = self.params;
        let ghost base = self.nodes();
        let ghost total = count as int;
        let mut left: u8 = count;
        let mut ep = start;
        while left > 0
            invariant
                math.ready(),
                self.wf(),
                self.spec_params() == params,
                params == old(self).spec_params(),
                self.spec_dim() == old(self).spec_dim(),
                self.spec_draws() == old(self).spec_draws(),
                self.entry() == old(self).entry(),
                left <= total,
                graph::has_layer(base, id as int, total - 1),
                same_but_links(base, self.nodes()),
                graph::within_caps(base, params) ==> graph::within_caps(self.nodes(), params),
                left > 0 ==> graph::has_layer(self.nodes(), ep as int, left - 1),
                forall|after: Nodes|
                    grown(math, params, query@, id, self.nodes(), ep, left as int, after)
                        ==> #[trigger] grown(
                        math,
                        params,
                        query@,
                        id,
                        base,
                        start,
                        total,
                        after,
                    ),
            decreases left,
        {
            let layer: u8 = left - 1;
            let ghost now = self.nodes();
            let ghost at = ep;
            let ghost entry = self.entry();
            proof {
                assert(now[id as int].layers.len() == base[id as int].layers.len());
            }
            let candidates = self.search_layer(
                math,
                query,
                ep,
                layer,
                self.params.ef_construction,
            );
            let ghost s = candidates@;
            self.link_layer(math, id, layer, &candidates);
            proof {
                lemma_linked(math, params, now, layer as int, id, s);
                lemma_entry_same(now, self.nodes(), entry);
                lemma_same_links_transitive(base, now, self.nodes());
                assert(search::is_beam(
                    math,
                    params.metric,
                    now,
                    query@,
                    at,
                    left - 1,
                    params.ef_construction as int,
                    s,
                ));
                assert forall|after: Nodes|
                    grown(
                        math,
                        params,
                        query@,
                        id,
                        self.nodes(),
                        s[0].id,
                        layer as int,
                        after,
                    ) implies #[trigger] grown(
                    math,
                    params,
                    query@,
                    id,
                    base,
                    start,
                    total,
                    after,
                ) by {
                    assert(grown(math, params, query@, id, now, at, left as int, after));
                }
                assert(graph::has_layer(now, s[0].id as int, layer as int));
            }
            ep = candidates[0].id;
            left = layer;
        }
        proof {
            let after = self.nodes();
            assert(grown(math, params, query@, id, after, ep, 0, after));
        }
    }

    /// Adds a node without neighbours.
    fn push_node(&mut self, vector: Vec<u32>, level: u8)
        requires
            level <= MAX_LEVEL,
        ensures
            final(self).nodes() == old(self).nodes().push(new_node(vector@, level as int)),
            final(self).entry() == old(self).entry(),
            final(self).spec_params() == old(self).spec_params(),
            final(self).spec_dim() == old(self).spec_dim(),
            final(self).spec_draws() == old(self).spec_draws(),
            final(self).spec_draws() == old(self).spec_draws(),
    {
        let mut neighbors: Vec<Vec<NodeId>> = Vec::new();
        let mut i: u8 = 0;
        while i <= level
            invariant
                i <= level + 1,
                level <= MAX_LEVEL,
                neighbors@.len() == i,
                forall|j: int| 0 <= j < i ==> (#[trigger] neighbors@[j])@ == Seq::<u32>::empty(),
            decreases level + 1 - i,
        {
            neighbors.push(Vec::new());
            i = i + 1;
        }
        let ghost v = vector@;
        let node = Node { vector, neighbors, deleted: false };
        assert(node@.layers =~= new_node(v, level as int).layers);
        self.nodes.push(node);
        assert(self.nodes() =~= old(self).nodes().push(new_node(v, level as int)));
    }

    /// Descends greedily from the entry point to the layer above `level`.
    pub(crate) fn descend<M: VectorMath>(
        &self,
        math: &M,
        query: &[u32],
        entry: EntryPoint,
        level: u8,
    ) -> (r: NodeId)
        requires
            self.wf(),
            math.ready(),
            graph::has_layer(self.nodes(), entry.node as int, entry.level as int),
        ensures
            descends(
                math,
                self.spec_params().metric,
                self.nodes(),
                query@,
                entry.node,
                entry.level as int,
                level as int,
                r,
            ),
            graph::has_layer(
                self.nodes(),
                r as int,
                smaller(level as int, entry.level as int),
            ),
    {
        let ghost nodes = self.nodes();
        let ghost metric = self.spec_params().metric;
        let ghost top = entry.level as int;
        let mut current = entry.node;
        let mut layer: u8 = entry.level;
        while layer > level
            invariant
                self.wf(),
                math.ready(),
                nodes == self.nodes(),
                metric == self.spec_params().metric,
                top == entry.level,
                layer <= top,
                layer >= smaller(level as int, top),
                graph::has_layer(nodes, current as int, layer as int),
                forall|end: u32|
                    descends(
                        math,
                        metric,
                        nodes,
                        query@,
                        current,
                        layer as int,
                        level as int,
                        end,
                    ) ==> #[trigger] descends(
                        math,
                        metric,
                        nodes,
                        query@,
                        entry.node,
                        top,
                        level as int,
                        end,
                    ),
            decreases layer,
        {
            let next = self.greedy_search_layer(math, query, current, layer);
            proof {
                assert forall|end: u32|
                    descends(
                        math,
                        metric,
                        nodes,
                        query@,
                        next,
                        layer - 1,
                        level as int,
                        end,
                    ) implies #[trigger] descends(
                    math,
                    metric,
                    nodes,
                    query@,
                    entry.node,
                    top,
                    level as int,
                    end,
                ) by {
                    assert(descends(
                        math,
                        metric,
                        nodes,
                        query@,
                        current,
                        layer as int,
                        level as int,
                        end,
                    ));
                }
            }
            current = next;
            layer = layer - 1;
        }
        assert(descends(
            math,
            metric,
            nodes,
            query@,
            current,
            layer as int,
            level as int,
            current,
        ));
        current
    }

    /// Links node `id` at `layer` to neighbours chosen from `candidates`.
    fn link_layer<M: VectorMath>(
        &mut self,
        math: &M,
        id: NodeId,
        layer: u8,
        candidates: &Vec<Candidate>,
    )
        requires
            old(self).wf(),
            math.ready(),
            graph::has_layer(old(self).nodes(), id as int, layer as int),
            forall|i: int|
                0 <= i < candidates@.len() ==> graph::has_layer(
                    old(self).nodes(),
                    (#[trigger] candidates@[i]).id as int,
                    layer as int,
                ),
        ensures
            final(self).nodes() == linked(
                math,
                old(self).spec_params(),
                old(self).nodes(),
                layer as int,
                id,
                candidates@,
            ),
            final(self).entry() == old(self).entry(),
            final(self).spec_params() == old(self).spec_params(),
            final(self).spec_dim() == old(self).spec_dim(),
            final(self).spec_draws() == old(self).spec_draws(),
            final(self).spec_draws() == old(self).spec_draws(),
    {
        let ghost nodes = self.nodes();
        let ghost params = self.params;
        let m_max = if layer == 0 {
            self.params.m_max_0
        } else {
            self.params.m
        };
        let neighbors = self.select_neighbors_heuristic(math, candidates, self.params.m);
        let list = candidate_ids(&neighbors);
        let ghost picked = list@;
        proof {
            lemma_linked(math, params, nodes, layer as int, id, candidates@);
        }
        self.set_list(id, layer, slice_to_vec(list.as_slice()));
        let ghost base = self.nodes();
        proof {
            assert(base == select::set_layer(nodes, id as int, layer as int, picked));
        }
        let n = list.len();
        for i in 0..n
            invariant
                n == list@.len(),
                math.ready(),
                list@ == picked,
                params == self.spec_params(),
                m_max == graph::trim_cap(params, layer as int),
                self.entry() == old(self).entry(),
                self.spec_params() == old(self).spec_params(),
                self.spec_dim() == old(self).spec_dim(),
                self.spec_draws() == old(self).spec_draws(),
                self.spec_draws() == old(self).spec_draws(),
                graph::shape_ok(base),
                graph::links_ok(base),
                graph::has_layer(base, id as int, layer as int),
                all_have_layer(base, picked, layer as int),
                self.nodes() == link_back(
                    math,
                    params,
                    base,
                    picked.take(i as int),
                    layer as int,
                    id,
                ),
        {
            let x = list[i];
            let ghost now = self.nodes();
            proof {
                let some = picked.take(i as int);
                assert(all_have_layer(base, some, layer as int)) by {
                    assert forall|j: int| 0 <= j < some.len() implies graph::has_layer(
                        base,
                        #[trigger] some[j] as int,
                        layer as int,
                    ) by {
                        assert(some[j] == picked[j]);
                    }
                }
                lemma_link_back(math, params, base, some, layer as int, id);
                assert(graph::has_layer(base, picked[i as int] as int, layer as int));
                lemma_push_trim(math, params, now, x as int, layer as int, id);
                assert(picked.take(i + 1).drop_last() =~= some);
            }
            self.link_one(math, x, layer, id, m_max);
        }
        assert(picked.take(n as int) =~= picked);
    }

    /// Adds a link to `id` to the list of `x` at `layer`, and cuts the list to
    /// `m_max`.
    pub(crate) fn link_one<M: VectorMath>(
        &mut self,
        math: &M,
        x: NodeId,
        layer: u8,
        id: NodeId,
        m_max: usize,
    )
        requires
            math.ready(),
            graph::shape_ok(old(self).nodes()),
            graph::links_ok(old(self).nodes()),
            graph::has_layer(old(self).nodes(), x as int, layer as int),
            graph::has_layer(old(self).nodes(), id as int, layer as int),
            m_max == graph::trim_cap(old(self).spec_params(), layer as int),
        ensures
            final(self).nodes() == trim_layer(
                math,
                old(self).spec_params(),
                push_layer(old(self).nodes(), x as int, layer as int, id),
                x as int,
                layer as int,
            ),
            final(self).entry() == old(self).entry(),
            final(self).spec_params() == old(self).spec_params(),
            final(self).spec_dim() == old(self).spec_dim(),
            final(self).spec_draws() == old(self).spec_draws(),
            final(self).spec_draws() == old(self).spec_draws(),
    {
        let ghost now = self.nodes();
        let ghost params = self.params;
        proof {
            lemma_push_trim(math, params, now, x as int, layer as int, id);
        }
        let mut grown = self.copy_list(x, layer);
        grown.push(id);
        self.set_list(x, layer, grown);
        proof {
            let p = self.nodes();
            assert(p == push_layer(now, x as int, layer as int, id));
            assert forall|j: int| 0 <= j < p[x as int].layers[layer as int].len() implies (
            #[trigger] p[x as int].layers[layer as int][j]) < p.len() by {
                assert(graph::has_layer(
                    p,
                    p[x as int].layers[layer as int][j] as int,
                    layer as int,
                ));
            }
        }
        self.trim_neighbors(math, x, layer, m_max);
    }
}

/// The first live node leads.
proof fn lemma_first_leads(nodes: Nodes, vector: Seq<u32>, level: u8)
    requires
        graph::entry_leads(nodes, None),
        nodes.len() < u32::MAX,
    ensures
        graph::entry_leads(
            nodes.push(new_node(vector, level as int)),
            Some(EntryPoint { node: nodes.len() as u32, level }),
        ),
{
    let base = nodes.push(new_node(vector, level as int));
    assert forall|id: int| graph::is_live(base, id) implies (#[trigger] base[id]).layers.len()
        <= level + 1 by {
        if id < nodes.len() {
            assert(base[id] == nodes[id]);
            assert(nodes[id].deleted);
        }
    }
}

/// A new node at a higher level becomes the entry point, so that it leads.
proof fn lemma_insert_leads(nodes: Nodes, entry: EntryPoint, vector: Seq<u32>, level: u8)
    requires
        graph::entry_leads(nodes, Some(entry)),
        nodes.len() < u32::MAX,
    ensures
        graph::entry_leads(
            nodes.push(new_node(vector, level as int)),
            Some(
                if level > entry.level {
                    EntryPoint { node: nodes.len() as u32, level }
                } else {
                    entry
                },
            ),
        ),
{
    let base = nodes.push(new_node(vector, level as int));
    assert forall|id: int| graph::is_live(base, id) && id < nodes.len() implies (
    #[trigger] base[id]).layers.len() <= entry.level + 1 by {
        assert(base[id] == nodes[id]);
        assert(graph::is_live(nodes, id));
    }
    assert(base[entry.node as int] == nodes[entry.node as int]);
}

} // verus!
