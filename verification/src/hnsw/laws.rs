//! What inserts and searches promise together: how a new node is linked, and
//! what a search finds.

use crate::hnsw::float;
use crate::hnsw::graph;
use crate::hnsw::graph::Nodes;
use crate::hnsw::insert;
use crate::hnsw::math::VectorMath;
use crate::hnsw::query;
use crate::hnsw::search;
use crate::hnsw::search::Candidate;
use crate::hnsw::select;
use crate::hnsw::{DistanceMetric, HnswIndex, HnswParams};
use vstd::prelude::*;

verus! {

/// The cap of a neighbour list at `layer`.
pub open spec fn cap(params: HnswParams, layer: int) -> int {
    if layer == 0 {
        params.m_max_0 as int
    } else {
        params.m as int
    }
}

/// `to` is a good choice from `from` of at most `max` neighbours for a node with
/// the vector `v`: closest first, and none closer to one before it than to `v`.
/// What was left out is closer to a chosen one than to `v`, or the choice is
/// full.
pub open spec fn well_chosen<M: VectorMath>(
    math: &M,
    metric: DistanceMetric,
    nodes: Nodes,
    v: Seq<u32>,
    from: Seq<u32>,
    to: Seq<u32>,
    max: int,
) -> bool {
    &&& to.len() <= max
    &&& max > 0 && from.len() > 0 ==> to.len() > 0
    &&& forall|i: int| 0 <= i < to.len() ==> from.contains(#[trigger] to[i])
    &&& forall|i: int, j: int|
        0 <= i < j < to.len() ==> {
            let near = math.distance_of(metric, v, nodes[(#[trigger] to[i]) as int].vector);
            let far = math.distance_of(metric, v, nodes[(#[trigger] to[j]) as int].vector);
            let between = math.distance_of(
                metric,
                nodes[to[j] as int].vector,
                nodes[to[i] as int].vector,
            );
            float::rank(near) <= float::rank(far) && !float::below(between, far)
        }
    &&& forall|x: u32| #[trigger]
        from.contains(x) && !to.contains(x) ==> to.len() >= max || exists|i: int|
            0 <= i < to.len() && float::below(
                math.distance_of(
                    metric,
                    nodes[x as int].vector,
                    nodes[(#[trigger] to[i]) as int].vector,
                ),
                math.distance_of(metric, v, nodes[x as int].vector),
            )
}

/// `found` are nodes close to `v` at `layer`: each neighbour of one of them is
/// one of them too, or there are `ef`, none of which is farther.
pub open spec fn well_found<M: VectorMath>(
    math: &M,
    metric: DistanceMetric,
    nodes: Nodes,
    v: Seq<u32>,
    layer: int,
    ef: int,
    found: Seq<u32>,
) -> bool {
    &&& found.len() > 0
    &&& forall|i: int, y: u32|
        0 <= i < found.len() && #[trigger] graph::is_neighbor(nodes, layer, found[i], y)
            && !found.contains(y) ==> found.len() >= ef && forall|j: int|
            0 <= j < found.len() && !float::is_nan(
                math.distance_of(metric, v, nodes[found.last() as int].vector),
            ) ==> !float::below(
                math.distance_of(metric, v, nodes[y as int].vector),
                math.distance_of(metric, v, nodes[(#[trigger] found[j]) as int].vector),
            )
}

/// Node `id` is new in `b` at `layer`: it has at most `m` links, none twice and
/// none to itself, and one at least if `m` allows; they are a good choice from
/// nodes close to it. Each node that it links to links back, at the end of its
/// list; of a list that was full, a good choice is kept. The lists of the others
/// are as they were in `a`.
pub open spec fn joins<M: VectorMath>(
    math: &M,
    params: HnswParams,
    a: Nodes,
    b: Nodes,
    layer: int,
    id: u32,
    v: Seq<u32>,
) -> bool {
    let list = b[id as int].layers[layer];
    &&& exists|found: Seq<u32>|
        #[trigger] well_found(
            math,
            params.metric,
            a,
            v,
            layer,
            params.ef_construction as int,
            found,
        ) && well_chosen(math, params.metric, a, v, found, list, params.m as int) && all_have(
            a,
            found,
            layer,
        ) && !found.contains(id)
    &&& list.no_duplicates()
    &&& list.len() <= params.m
    &&& params.m > 0 ==> list.len() > 0
    &&& forall|i: int|
        0 <= i < list.len() ==> #[trigger] list[i] != id && graph::has_layer(
            a,
            list[i] as int,
            layer,
        )
    &&& forall|x: u32|
        #![trigger b[x as int].layers[layer]]
        x != id && graph::has_layer(a, x as int, layer) ==> if list.contains(x) {
            if a[x as int].layers[layer].len() < cap(params, layer) {
                b[x as int].layers[layer] == a[x as int].layers[layer].push(id)
            } else {
                well_chosen(
                    math,
                    params.metric,
                    b,
                    a[x as int].vector,
                    a[x as int].layers[layer].push(id),
                    b[x as int].layers[layer],
                    cap(params, layer),
                )
            }
        } else {
            b[x as int].layers[layer] == a[x as int].layers[layer]
        }
}

/// All of `list` appear at `layer`.
pub open spec fn all_have(nodes: Nodes, list: Seq<u32>, layer: int) -> bool {
    forall|i: int|
        0 <= i < list.len() ==> graph::has_layer(nodes, (#[trigger] list[i]) as int, layer)
}

/// A choice depends on vectors alone.
pub(crate) proof fn lemma_chosen_same<M: VectorMath>(
    math: &M,
    metric: DistanceMetric,
    a: Nodes,
    b: Nodes,
    v: Seq<u32>,
    from: Seq<u32>,
    to: Seq<u32>,
    max: int,
)
    requires
        well_chosen(math, metric, a, v, from, to, max),
        forall|x: u32| #[trigger] from.contains(x) ==> b[x as int].vector == a[x as int].vector,
    ensures
        well_chosen(math, metric, b, v, from, to, max),
{
    assert forall|i: int| 0 <= i < to.len() implies b[(#[trigger] to[i]) as int].vector
        == a[to[i] as int].vector by {
        assert(from.contains(to[i]));
    }
    assert forall|x: u32| #[trigger]
        from.contains(x) && !to.contains(x) implies to.len() >= max || exists|i: int|
        0 <= i < to.len() && float::below(
            math.distance_of(
                metric,
                b[x as int].vector,
                b[(#[trigger] to[i]) as int].vector,
            ),
            math.distance_of(metric, v, b[x as int].vector),
        ) by {
        if to.len() < max {
            let i = choose|i: int|
                0 <= i < to.len() && float::below(
                    math.distance_of(
                        metric,
                        a[x as int].vector,
                        a[(#[trigger] to[i]) as int].vector,
                    ),
                    math.distance_of(metric, v, a[x as int].vector),
                );
            assert(b[to[i] as int].vector == a[to[i] as int].vector);
        }
    }
}

/// What is found depends on vectors and on the links at the layer.
proof fn lemma_found_same<M: VectorMath>(
    math: &M,
    metric: DistanceMetric,
    a: Nodes,
    b: Nodes,
    v: Seq<u32>,
    layer: int,
    ef: int,
    found: Seq<u32>,
)
    requires
        well_found(math, metric, b, v, layer, ef, found),
        forall|i: int| 0 <= i < found.len() ==> b[(#[trigger] found[i]) as int].vector
            == a[found[i] as int].vector,
        forall|i: int, y: u32| 0 <= i < found.len() && #[trigger] graph::is_neighbor(
            a,
            layer,
            found[i],
            y,
        ) ==> graph::is_neighbor(b, layer, found[i], y) && b[y as int].vector
            == a[y as int].vector,
    ensures
        well_found(math, metric, a, v, layer, ef, found),
{
    assert(b[found[found.len() - 1] as int].vector == a[found[found.len() - 1] as int].vector);
    assert forall|i: int, y: u32|
        0 <= i < found.len() && #[trigger] graph::is_neighbor(a, layer, found[i], y)
            && !found.contains(y) implies found.len() >= ef && forall|j: int|
        0 <= j < found.len() && !float::is_nan(
            math.distance_of(metric, v, a[found.last() as int].vector),
        ) ==> !float::below(
            math.distance_of(metric, v, a[y as int].vector),
            math.distance_of(metric, v, a[(#[trigger] found[j]) as int].vector),
        ) by {
        assert(graph::is_neighbor(b, layer, found[i], y));
    }
}

/// `a` and `b` have the same lists at `layer`, but for that of `id`.
pub open spec fn same_at(a: Nodes, b: Nodes, layer: int) -> bool {
    forall|x: int|
        #![trigger b[x].layers[layer]]
        graph::has_layer(a, x, layer) ==> b[x].layers[layer] == a[x].layers[layer]
}

/// Nothing links to `id` at `layer`.
pub open spec fn unlinked(nodes: Nodes, layer: int, id: u32) -> bool {
    forall|x: u32| !(#[trigger] graph::is_neighbor(nodes, layer, x, id))
}

/// What nothing links to is reached from nowhere else.
proof fn lemma_not_reached(nodes: Nodes, layer: int, start: u32, id: u32)
    requires
        unlinked(nodes, layer, id),
        graph::reachable(nodes, layer, start, id),
    ensures
        start == id,
{
    let path = choose|path: Seq<u32>| graph::is_path(nodes, layer, start, id, path);
    if path.len() > 1 {
        assert(graph::is_neighbor(nodes, layer, path[path.len() - 2], path[path.len() - 1]));
    }
}

/// What the heuristic selects is a good choice.
proof fn lemma_select_well<M: VectorMath>(
    math: &M,
    metric: DistanceMetric,
    nodes: Nodes,
    v: Seq<u32>,
    sorted: Seq<Candidate>,
    m: int,
)
    requires
        m >= 0,
        search::ascending(sorted),
        forall|i: int|
            0 <= i < sorted.len() ==> (#[trigger] sorted[i]).dist == math.distance_of(
                metric,
                v,
                nodes[sorted[i].id as int].vector,
            ),
    ensures
        well_chosen(
            math,
            metric,
            nodes,
            v,
            select::ids(sorted),
            select::ids(select::select(math, metric, nodes, sorted, m)),
            m,
        ),
        select::all_in(select::select(math, metric, nodes, sorted, m), sorted),
    decreases sorted.len(),
{
    let r = select::select(math, metric, nodes, sorted, m);
    let from = select::ids(sorted);
    let to = select::ids(r);
    select::lemma_select_members(math, metric, nodes, sorted, m);
    assert forall|i: int| 0 <= i < r.len() implies (#[trigger] r[i]).dist == math.distance_of(
        metric,
        v,
        nodes[r[i].id as int].vector,
    ) && from.contains(to[i]) by {
        assert(sorted.contains(r[i]));
        let j = choose|j: int| 0 <= j < sorted.len() && sorted[j] == r[i];
        assert(from[j] == to[i]);
    }
    if sorted.len() > 0 {
        let d = sorted.drop_last();
        let c = sorted.last();
        let before = select::select(math, metric, nodes, d, m);
        assert(search::ascending(d)) by {
            assert forall|i: int, j: int| 0 <= i < j < d.len() implies float::rank(
                (#[trigger] d[i]).dist,
            ) <= float::rank((#[trigger] d[j]).dist) by {
                assert(d[i] == sorted[i] && d[j] == sorted[j]);
            }
        }
        assert forall|i: int| 0 <= i < d.len() implies (#[trigger] d[i]).dist == math.distance_of(
            metric,
            v,
            nodes[d[i].id as int].vector,
        ) by {
            assert(d[i] == sorted[i]);
        }
        lemma_select_well(math, metric, nodes, v, d, m);
        let bt = select::ids(before);
        assert forall|i: int| 0 <= i < before.len() implies to[i] == bt[i] && r[i]
            == before[i] by {}
        assert(sorted[sorted.len() - 1] == c);
        assert forall|i: int, j: int| 0 <= i < j < to.len() implies {
            let near = math.distance_of(metric, v, nodes[(#[trigger] to[i]) as int].vector);
            let far = math.distance_of(metric, v, nodes[(#[trigger] to[j]) as int].vector);
            let between = math.distance_of(
                metric,
                nodes[to[j] as int].vector,
                nodes[to[i] as int].vector,
            );
            float::rank(near) <= float::rank(far) && !float::below(between, far)
        } by {
            assert(to[i] == bt[i]);
            if j < before.len() {
                assert(to[j] == bt[j]);
            } else {
                assert(r[j] == c);
                assert(d.contains(before[i]));
                let a = choose|a: int| 0 <= a < d.len() && d[a] == before[i];
                assert(sorted[a] == before[i]);
                assert(float::rank(sorted[a].dist) <= float::rank(sorted[sorted.len() - 1].dist));
                assert(select::admits(math, metric, nodes, before, c));
            }
        }
        assert forall|x: u32| #[trigger]
            from.contains(x) && !to.contains(x) implies to.len() >= m || exists|i: int|
            0 <= i < to.len() && float::below(
                math.distance_of(
                    metric,
                    nodes[x as int].vector,
                    nodes[(#[trigger] to[i]) as int].vector,
                ),
                math.distance_of(metric, v, nodes[x as int].vector),
            ) by {
            let a = choose|a: int| 0 <= a < from.len() && from[a] == x;
            let df = select::ids(d);
            if a < d.len() {
                assert(df[a] == x);
                assert(df.contains(x));
                assert(!bt.contains(x)) by {
                    if bt.contains(x) {
                        let i = choose|i: int| 0 <= i < bt.len() && bt[i] == x;
                        assert(to[i] == x);
                    }
                }
                if bt.len() < m {
                    let i = choose|i: int|
                        0 <= i < bt.len() && float::below(
                            math.distance_of(
                                metric,
                                nodes[x as int].vector,
                                nodes[(#[trigger] bt[i]) as int].vector,
                            ),
                            math.distance_of(metric, v, nodes[x as int].vector),
                        );
                    assert(to[i] == bt[i]);
                }
            } else {
                assert(c.id == x);
                if before.len() < m {
                    if select::admits(math, metric, nodes, before, c) {
                        assert(to[before.len() as int] == x);
                    } else {
                        let i = choose|i: int|
                            0 <= i < before.len() && float::below(
                                math.distance_of(
                                    metric,
                                    nodes[c.id as int].vector,
                                    nodes[(#[trigger] before[i]).id as int].vector,
                                ),
                                c.dist,
                            );
                        assert(to[i] == before[i].id);
                    }
                }
            }
        }
    }
}

/// Sorted, candidates are the same.
proof fn lemma_sorted_ids(s: Seq<Candidate>, x: u32)
    ensures
        select::ids(s).contains(x) <==> select::ids(select::stable_sort(s)).contains(x),
{
    let t = select::stable_sort(s);
    select::lemma_sort_members(s);
    let a = select::ids(s);
    let b = select::ids(t);
    if a.contains(x) {
        let i = choose|i: int| 0 <= i < a.len() && a[i] == x;
        assert(t.contains(s[i]));
        let j = choose|j: int| 0 <= j < t.len() && t[j] == s[i];
        assert(b[j] == x);
    }
    if b.contains(x) {
        let i = choose|i: int| 0 <= i < b.len() && b[i] == x;
        assert(s.contains(t[i]));
        let j = choose|j: int| 0 <= j < s.len() && s[j] == t[i];
        assert(a[j] == x);
    }
}

/// What is selected from candidates in any order is a good choice.
pub(crate) proof fn lemma_sorted_well<M: VectorMath>(
    math: &M,
    metric: DistanceMetric,
    nodes: Nodes,
    v: Seq<u32>,
    s: Seq<Candidate>,
    m: int,
)
    requires
        m >= 0,
        forall|i: int|
            0 <= i < s.len() ==> (#[trigger] s[i]).dist == math.distance_of(
                metric,
                v,
                nodes[s[i].id as int].vector,
            ),
    ensures
        well_chosen(
            math,
            metric,
            nodes,
            v,
            select::ids(s),
            select::ids(select::select(math, metric, nodes, select::stable_sort(s), m)),
            m,
        ),
{
    let t = select::stable_sort(s);
    let to = select::ids(select::select(math, metric, nodes, t, m));
    select::lemma_sort_members(s);
    select::lemma_sort_ascending(s);
    assert forall|i: int| 0 <= i < t.len() implies (#[trigger] t[i]).dist == math.distance_of(
        metric,
        v,
        nodes[t[i].id as int].vector,
    ) by {
        assert(s.contains(t[i]));
        let j = choose|j: int| 0 <= j < s.len() && s[j] == t[i];
        assert(s[j].dist == t[i].dist);
    }
    lemma_select_well(math, metric, nodes, v, t, m);
    let a = select::ids(s);
    let b = select::ids(t);
    assert forall|x: u32| a.contains(x) == b.contains(x) by {
        lemma_sorted_ids(s, x);
    }
    assert forall|i: int| 0 <= i < to.len() implies a.contains(#[trigger] to[i]) by {
        assert(b.contains(to[i]));
    }
    assert forall|x: u32| #[trigger]
        a.contains(x) && !to.contains(x) implies to.len() >= m || exists|i: int|
        0 <= i < to.len() && float::below(
            math.distance_of(
                metric,
                nodes[x as int].vector,
                nodes[(#[trigger] to[i]) as int].vector,
            ),
            math.distance_of(metric, v, nodes[x as int].vector),
        ) by {
        assert(b.contains(x));
    }
}

/// A list that is cut is a good choice from what it was.
pub(crate) proof fn lemma_trimmed_well<M: VectorMath>(
    math: &M,
    metric: DistanceMetric,
    nodes: Nodes,
    v: Seq<u32>,
    list: Seq<u32>,
    max: int,
)
    requires
        max >= 0,
        list.len() > max,
    ensures
        well_chosen(
            math,
            metric,
            nodes,
            v,
            list,
            select::trimmed(math, metric, nodes, v, list, max),
            max,
        ),
{
    let cands = select::measure(math, metric, nodes, v, list);
    lemma_sorted_well(math, metric, nodes, v, cands, max);
    assert(select::ids(cands) =~= list);
}

/// What linking back does to the lists: those of `list` get `id` at their ends,
/// as far as they are not full; others stay.
proof fn lemma_link_back_lists<M: VectorMath>(
    math: &M,
    params: HnswParams,
    nodes: Nodes,
    list: Seq<u32>,
    layer: int,
    id: u32,
)
    requires
        graph::links_ok(nodes),
        id < nodes.len(),
        list.no_duplicates(),
        forall|i: int| 0 <= i < list.len() ==> graph::has_layer(
            nodes,
            #[trigger] list[i] as int,
            layer,
        ),
    ensures
        ({
            let t = insert::link_back(math, params, nodes, list, layer, id);
            &&& insert::same_but_links(nodes, t)
            &&& forall|x: int|
                0 <= x < nodes.len() && !list.contains(x as u32) && x <= u32::MAX
                    ==> #[trigger] t[x] == nodes[x]
            &&& forall|x: u32, l: int|
                #![trigger t[x as int].layers[l]]
                graph::has_layer(nodes, x as int, l) && l != layer ==> t[x as int].layers[l]
                    == nodes[x as int].layers[l]
            &&& forall|x: u32|
                #![trigger t[x as int].layers[layer]]
                list.contains(x) && nodes[x as int].layers[layer].len() < cap(params, layer)
                    ==> t[x as int].layers[layer] == nodes[x as int].layers[layer].push(id)
            &&& forall|x: u32|
                #![trigger t[x as int].layers[layer]]
                list.contains(x) && nodes[x as int].layers[layer].len() >= cap(params, layer)
                    ==> well_chosen(
                    math,
                    params.metric,
                    nodes,
                    nodes[x as int].vector,
                    nodes[x as int].layers[layer].push(id),
                    t[x as int].layers[layer],
                    cap(params, layer),
                )
        }),
    decreases list.len(),
{
    if list.len() > 0 {
        let d = list.drop_last();
        let x = list.last();
        assert(d.no_duplicates());
        assert forall|i: int| 0 <= i < d.len() implies graph::has_layer(
            nodes,
            #[trigger] d[i] as int,
            layer,
        ) by {
            assert(d[i] == list[i]);
        }
        lemma_link_back_lists(math, params, nodes, d, layer, id);
        let before = insert::link_back(math, params, nodes, d, layer, id);
        assert(!d.contains(x)) by {
            if d.contains(x) {
                let i = choose|i: int| 0 <= i < d.len() && d[i] == x;
                assert(list[i] == list[list.len() - 1]);
            }
        }
        assert(graph::has_layer(nodes, list[list.len() - 1] as int, layer));
        assert(before[x as int] == nodes[x as int]);
        let pushed = insert::push_layer(before, x as int, layer, id);
        let t = insert::trim_layer(math, params, pushed, x as int, layer);
        assert(t == insert::link_back(math, params, nodes, list, layer, id));
        assert(pushed[x as int].layers[layer] == nodes[x as int].layers[layer].push(id));
        assert forall|y: int| 0 <= y < nodes.len() && !list.contains(y as u32) && y
            <= u32::MAX implies #[trigger] t[y] == nodes[y] by {
            assert(!d.contains(y as u32)) by {
                if d.contains(y as u32) {
                    let i = choose|i: int| 0 <= i < d.len() && d[i] == y as u32;
                    assert(list[i] == y as u32);
                }
            }
            assert(list[list.len() - 1] == x);
            assert(y != x);
            assert(before[y] == nodes[y]);
        }
        assert forall|y: u32|
            #![trigger t[y as int].layers[layer]]
            list.contains(y) && nodes[y as int].layers[layer].len() < cap(
                params,
                layer,
            ) implies t[y as int].layers[layer] == nodes[y as int].layers[layer].push(id) by {
            if y != x {
                let i = choose|i: int| 0 <= i < list.len() && list[i] == y;
                assert(d[i] == y);
                assert(t[y as int] == before[y as int]);
            }
        }
        assert forall|y: u32|
            #![trigger t[y as int].layers[layer]]
            list.contains(y) && nodes[y as int].layers[layer].len() >= cap(
                params,
                layer,
            ) implies well_chosen(
            math,
            params.metric,
            nodes,
            nodes[y as int].vector,
            nodes[y as int].layers[layer].push(id),
            t[y as int].layers[layer],
            cap(params, layer),
        ) by {
            if y != x {
                let i = choose|i: int| 0 <= i < list.len() && list[i] == y;
                assert(d[i] == y);
                assert(t[y as int] == before[y as int]);
            } else {
                let from = nodes[x as int].layers[layer].push(id);
                lemma_trimmed_well(
                    math,
                    params.metric,
                    pushed,
                    nodes[x as int].vector,
                    from,
                    cap(params, layer),
                );
                assert forall|z: u32| #[trigger] from.contains(z) implies nodes[z as int].vector
                    == pushed[z as int].vector by {
                    let i = choose|i: int| 0 <= i < from.len() && from[i] == z;
                    if i < nodes[x as int].layers[layer].len() {
                        assert(graph::has_layer(
                            nodes,
                            nodes[x as int].layers[layer][i] as int,
                            layer,
                        ));
                    }
                    assert(before[z as int].vector == nodes[z as int].vector);
                }
                lemma_chosen_same(
                    math,
                    params.metric,
                    pushed,
                    nodes,
                    nodes[x as int].vector,
                    from,
                    t[x as int].layers[layer],
                    cap(params, layer),
                );
            }
        }
        assert forall|y: u32, l: int|
            #![trigger t[y as int].layers[l]]
            graph::has_layer(nodes, y as int, l) && l != layer implies t[y as int].layers[l]
            == nodes[y as int].layers[l] by {
            assert(before[y as int].layers[l] == nodes[y as int].layers[l]);
        }
        assert(insert::same_but_links(nodes, t)) by {
            assert forall|i: int| 0 <= i < nodes.len() implies {
                &&& (#[trigger] t[i]).vector == nodes[i].vector
                &&& t[i].deleted == nodes[i].deleted
                &&& t[i].layers.len() == nodes[i].layers.len()
            } by {
                assert(before[i].vector == nodes[i].vector);
            }
        }
    }
}

/// Linking a node at a layer makes it join there, and leaves other layers.
proof fn lemma_linked_joins<M: VectorMath>(
    math: &M,
    params: HnswParams,
    nodes: Nodes,
    query: Seq<u32>,
    start: u32,
    layer: int,
    id: u32,
    s: Seq<Candidate>,
)
    requires
        graph::shape_ok(nodes),
        graph::links_ok(nodes),
        graph::has_layer(nodes, id as int, layer),
        graph::has_layer(nodes, start as int, layer),
        start != id,
        unlinked(nodes, layer, id),
        search::is_beam(
            math,
            params.metric,
            nodes,
            query,
            start,
            layer,
            params.ef_construction as int,
            s,
        ),
    ensures
        ({
            let t = insert::linked(math, params, nodes, layer, id, s);
            &&& joins(math, params, nodes, t, layer, id, query)
            &&& insert::same_but_links(nodes, t)
            &&& forall|l: int| l != layer ==> #[trigger] same_at(nodes, t, l)
            &&& graph::shape_ok(t)
            &&& graph::links_ok(t)
        }),
        s[0].id != id,
        graph::has_layer(nodes, s[0].id as int, layer),
{
    let list = insert::chosen(math, params, nodes, s);
    let sorted = select::stable_sort(s);
    let picked = select::select(math, params.metric, nodes, sorted, params.m as int);
    let base = select::set_layer(nodes, id as int, layer, list);
    let t = insert::linked(math, params, nodes, layer, id, s);
    assert forall|i: int| 0 <= i < s.len() implies (#[trigger] s[i]).id != id && graph::has_layer(
        nodes,
        s[i].id as int,
        layer,
    ) by {
        assert(graph::reachable(nodes, layer, start, s[i].id));
        if s[i].id == id {
            lemma_not_reached(nodes, layer, start, id);
        }
        lemma_reached_has_layer(nodes, layer, start, s[i].id);
    }
    select::lemma_sort_members(s);
    select::lemma_select_members(math, params.metric, nodes, sorted, params.m as int);
    insert::lemma_linked(math, params, nodes, layer, id, s);
    assert forall|i: int| 0 <= i < list.len() implies #[trigger] list[i] != id && graph::has_layer(
        nodes,
        list[i] as int,
        layer,
    ) by {
        assert(list[i] == picked[i].id);
        assert(sorted.contains(picked[i]));
        let j = choose|j: int| 0 <= j < sorted.len() && sorted[j] == picked[i];
        assert(s.contains(sorted[j]));
        let k = choose|k: int| 0 <= k < s.len() && s[k] == sorted[j];
        assert(s[k].id != id);
    }
    assert(list.no_duplicates()) by {
        assert forall|i: int, j: int|
            0 <= i < list.len() && 0 <= j < list.len() && i != j implies list[i] != list[j] by {
            assert(list[i] == picked[i].id && list[j] == picked[j].id);
            if i < j {
                assert(picked[i].id != picked[j].id);
            } else {
                assert(picked[j].id != picked[i].id);
            }
        }
    }
    assert(!list.contains(id));
    assert forall|i: int| 0 <= i < list.len() implies graph::has_layer(
        base,
        #[trigger] list[i] as int,
        layer,
    ) by {
        assert(graph::has_layer(nodes, list[i] as int, layer));
    }
    lemma_link_back_lists(math, params, base, list, layer, id);
    assert(t[id as int] == base[id as int]);
    assert(t[id as int].layers[layer] == list);
    let found = select::ids(s);
    lemma_sorted_well(math, params.metric, nodes, query, s, params.m as int);
    lemma_beam_well(math, params.metric, nodes, query, start, layer, params.ef_construction as int, s);
    assert(all_have(nodes, found, layer)) by {
        assert forall|i: int| 0 <= i < found.len() implies graph::has_layer(
            nodes,
            #[trigger] found[i] as int,
            layer,
        ) by {
            assert(found[i] == s[i].id);
        }
    }
    assert(!found.contains(id)) by {
        if found.contains(id) {
            let i = choose|i: int| 0 <= i < found.len() && found[i] == id;
            assert(s[i].id != id);
        }
    }
    assert forall|l: int| l != layer implies #[trigger] same_at(nodes, t, l) by {
        assert forall|x: int|
            #![trigger t[x].layers[l]]
            graph::has_layer(nodes, x, l) implies t[x].layers[l] == nodes[x].layers[l] by {
            assert(graph::has_layer(base, (x as u32) as int, l));
            assert(t[(x as u32) as int].layers[l] == base[(x as u32) as int].layers[l]);
        }
    }
    assert forall|x: u32|
        #![trigger t[x as int].layers[layer]]
        x != id && graph::has_layer(nodes, x as int, layer) implies if list.contains(x) {
        if nodes[x as int].layers[layer].len() < cap(params, layer) {
            t[x as int].layers[layer] == nodes[x as int].layers[layer].push(id)
        } else {
            well_chosen(
                math,
                params.metric,
                t,
                nodes[x as int].vector,
                nodes[x as int].layers[layer].push(id),
                t[x as int].layers[layer],
                cap(params, layer),
            )
        }
    } else {
        t[x as int].layers[layer] == nodes[x as int].layers[layer]
    } by {
        assert(base[x as int] == nodes[x as int]);
        if !list.contains(x) {
            assert(t[x as int] == base[x as int]);
        } else if nodes[x as int].layers[layer].len() >= cap(params, layer) {
            let from = nodes[x as int].layers[layer].push(id);
            assert forall|z: u32| #[trigger] from.contains(z) implies t[z as int].vector
                == base[z as int].vector by {
                let i = choose|i: int| 0 <= i < from.len() && from[i] == z;
                if i < nodes[x as int].layers[layer].len() {
                    assert(graph::has_layer(nodes, nodes[x as int].layers[layer][i] as int, layer));
                }
                assert(t[z as int].vector == base[z as int].vector);
            }
            lemma_chosen_same(
                math,
                params.metric,
                base,
                t,
                nodes[x as int].vector,
                from,
                t[x as int].layers[layer],
                cap(params, layer),
            );
        }
    }
}

/// A beam finds well.
pub(crate) proof fn lemma_beam_well<M: VectorMath>(
    math: &M,
    metric: DistanceMetric,
    nodes: Nodes,
    query: Seq<u32>,
    start: u32,
    layer: int,
    ef: int,
    s: Seq<Candidate>,
)
    requires
        search::is_beam(math, metric, nodes, query, start, layer, ef, s),
    ensures
        well_found(math, metric, nodes, query, layer, ef, select::ids(s)),
{
    let found = select::ids(s);
    assert forall|i: int, y: u32|
        0 <= i < found.len() && #[trigger] graph::is_neighbor(nodes, layer, found[i], y)
            && !found.contains(y) implies found.len() >= ef && forall|j: int|
        0 <= j < found.len() && !float::is_nan(
            math.distance_of(metric, query, nodes[found.last() as int].vector),
        ) ==> !float::below(
            math.distance_of(metric, query, nodes[y as int].vector),
            math.distance_of(metric, query, nodes[(#[trigger] found[j]) as int].vector),
        ) by {
        assert(graph::is_neighbor(nodes, layer, s[i].id, y));
        assert(search::settled(math, metric, nodes, query, ef, s, y));
        if search::holds(s, y) {
            let c = choose|c: int| 0 <= c < s.len() && (#[trigger] s[c]).id == y;
            assert(found[c] == y);
        }
        let t = s.len() - 1;
        assert(found.last() == s[t].id);
        assert(s[t].dist == math.distance_of(metric, query, nodes[s[t].id as int].vector));
        assert forall|j: int|
            0 <= j < found.len() && !float::is_nan(
                math.distance_of(metric, query, nodes[found.last() as int].vector),
            ) implies !float::below(
            math.distance_of(metric, query, nodes[y as int].vector),
            math.distance_of(metric, query, nodes[(#[trigger] found[j]) as int].vector),
        ) by {
            assert(found[j] == s[j].id);
            assert(s[j].dist == math.distance_of(metric, query, nodes[s[j].id as int].vector));
            if j < t {
                assert(float::rank(s[j].dist) <= float::rank(s[t].dist));
            }
        }
    }
}

/// What is reached at a layer appears there.
pub(crate) proof fn lemma_reached_has_layer(nodes: Nodes, layer: int, start: u32, x: u32)
    requires
        graph::links_ok(nodes),
        graph::has_layer(nodes, start as int, layer),
        graph::reachable(nodes, layer, start, x),
    ensures
        graph::has_layer(nodes, x as int, layer),
{
    let path = choose|path: Seq<u32>| graph::is_path(nodes, layer, start, x, path);
    if path.len() > 1 {
        let a = path[path.len() - 2];
        assert(graph::is_neighbor(nodes, layer, a, path[path.len() - 1]));
        graph::lemma_neighbor_has_layer(nodes, layer, a, x);
    }
}

/// Growing links makes the node join at each of the layers.
proof fn lemma_grown_joins<M: VectorMath>(
    math: &M,
    params: HnswParams,
    query: Seq<u32>,
    id: u32,
    nodes: Nodes,
    start: u32,
    count: int,
    after: Nodes,
)
    requires
        graph::shape_ok(nodes),
        graph::links_ok(nodes),
        count <= nodes[id as int].layers.len(),
        id < nodes.len(),
        start != id,
        graph::has_layer(nodes, start as int, count - 1),
        forall|l: int| 0 <= l < count ==> #[trigger] unlinked(nodes, l, id),
        insert::grown(math, params, query, id, nodes, start, count, after),
    ensures
        insert::same_but_links(nodes, after),
        forall|l: int| 0 <= l < count ==> #[trigger] joins(
            math,
            params,
            nodes,
            after,
            l,
            id,
            query,
        ),
        forall|l: int| count <= l ==> #[trigger] same_at(nodes, after, l),
    decreases count,
{
    if count > 0 {
        let top = count - 1;
        let s = choose|s: Seq<Candidate>|
            #[trigger] search::is_beam(
                math,
                params.metric,
                nodes,
                query,
                start,
                top,
                params.ef_construction as int,
                s,
            ) && insert::grown(
                math,
                params,
                query,
                id,
                insert::linked(math, params, nodes, top, id, s),
                s[0].id,
                top,
                after,
            );
        let mid = insert::linked(math, params, nodes, top, id, s);
        assert(unlinked(nodes, top, id));
        lemma_linked_joins(math, params, nodes, query, start, top, id, s);
        assert forall|l: int| 0 <= l < top implies #[trigger] unlinked(mid, l, id) by {
            assert(unlinked(nodes, l, id));
            assert(same_at(nodes, mid, l));
            assert forall|x: u32| !(#[trigger] graph::is_neighbor(mid, l, x, id)) by {
                assert(!graph::is_neighbor(nodes, l, x, id));
                if graph::is_neighbor(mid, l, x, id) {
                    assert(mid[x as int].layers[l] == nodes[x as int].layers[l]);
                }
            }
        }
        if top > 0 {
            assert(nodes[s[0].id as int].layers.len() == mid[s[0].id as int].layers.len());
            lemma_grown_joins(math, params, query, id, mid, s[0].id, top, after);
        } else {
            assert(after == mid);
        }
        insert::lemma_same_links_transitive(nodes, mid, after);
        assert forall|l: int| 0 <= l < count implies #[trigger] joins(
            math,
            params,
            nodes,
            after,
            l,
            id,
            query,
        ) by {
            if l < top {
                assert(joins(math, params, mid, after, l, id, query));
                assert(same_at(nodes, mid, l));
                lemma_joins_from(math, params, nodes, mid, after, l, id, query);
            } else {
                assert(same_at(mid, after, top));
                lemma_joins_to(math, params, nodes, mid, after, top, id, query);
            }
        }
        assert forall|l: int| count <= l implies #[trigger] same_at(nodes, after, l) by {
            assert(same_at(nodes, mid, l));
            assert(same_at(mid, after, l));
            assert forall|x: int|
                #![trigger after[x].layers[l]]
                graph::has_layer(nodes, x, l) implies after[x].layers[l] == nodes[x].layers[l] by {
                assert(mid[x].layers.len() == nodes[x].layers.len());
                assert(mid[x].layers[l] == nodes[x].layers[l]);
            }
        }
    }
}

proof fn lemma_joins_from<M: VectorMath>(
    math: &M,
    params: HnswParams,
    a: Nodes,
    mid: Nodes,
    b: Nodes,
    layer: int,
    id: u32,
    v: Seq<u32>,
)
    requires
        graph::links_ok(a),
        insert::same_but_links(a, mid),
        same_at(a, mid, layer),
        joins(math, params, mid, b, layer, id, v),
    ensures
        joins(math, params, a, b, layer, id, v),
{
    let list = b[id as int].layers[layer];
    assert forall|x: u32| graph::has_layer(a, x as int, layer) == graph::has_layer(
        mid,
        x as int,
        layer,
    ) && (graph::has_layer(a, x as int, layer) ==> mid[x as int].layers[layer]
        == a[x as int].layers[layer] && mid[x as int].vector == a[x as int].vector) by {
        if 0 <= x < a.len() {
            assert(mid[x as int].layers.len() == a[x as int].layers.len());
        }
    }
    assert forall|i: int| 0 <= i < list.len() implies #[trigger] list[i] != id && graph::has_layer(
        a,
        list[i] as int,
        layer,
    ) by {
        assert(graph::has_layer(mid, list[i] as int, layer));
        assert(mid[list[i] as int].layers.len() == a[list[i] as int].layers.len());
    }
    let metric = params.metric;
    let ef = params.ef_construction as int;
    let found = choose|found: Seq<u32>| #[trigger]
        well_found(math, metric, mid, v, layer, ef, found) && well_chosen(
            math,
            metric,
            mid,
            v,
            found,
            list,
            params.m as int,
        ) && all_have(mid, found, layer) && !found.contains(id);
    assert forall|i: int| 0 <= i < found.len() implies mid[(#[trigger] found[i]) as int].vector
        == a[found[i] as int].vector by {
        assert(graph::has_layer(mid, found[i] as int, layer));
    }
    assert forall|i: int, y: u32| 0 <= i < found.len() && #[trigger] graph::is_neighbor(
        a,
        layer,
        found[i],
        y,
    ) implies graph::is_neighbor(mid, layer, found[i], y) && mid[y as int].vector
        == a[y as int].vector by {
        assert(graph::has_layer(mid, found[i] as int, layer));
        assert(mid[found[i] as int].layers[layer] == a[found[i] as int].layers[layer]);
        graph::lemma_neighbor_has_layer(a, layer, found[i], y);
    }
    lemma_found_same(math, metric, a, mid, v, layer, ef, found);
    assert forall|x: u32| #[trigger] found.contains(x) implies a[x as int].vector
        == mid[x as int].vector by {
        let i = choose|i: int| 0 <= i < found.len() && found[i] == x;
        assert(graph::has_layer(mid, found[i] as int, layer));
    }
    lemma_chosen_same(math, metric, mid, a, v, found, list, params.m as int);
    assert(all_have(a, found, layer)) by {
        assert forall|i: int| 0 <= i < found.len() implies graph::has_layer(
            a,
            #[trigger] found[i] as int,
            layer,
        ) by {
            assert(graph::has_layer(mid, found[i] as int, layer));
            assert(mid[found[i] as int].layers.len() == a[found[i] as int].layers.len());
        }
    }
}

proof fn lemma_joins_to<M: VectorMath>(
    math: &M,
    params: HnswParams,
    a: Nodes,
    mid: Nodes,
    b: Nodes,
    layer: int,
    id: u32,
    v: Seq<u32>,
)
    requires
        graph::links_ok(a),
        insert::same_but_links(a, mid),
        insert::same_but_links(mid, b),
        same_at(mid, b, layer),
        graph::has_layer(a, id as int, layer),
        joins(math, params, a, mid, layer, id, v),
    ensures
        joins(math, params, a, b, layer, id, v),
{
    assert(mid[id as int].layers.len() == a[id as int].layers.len());
    assert(b[id as int].layers[layer] == mid[id as int].layers[layer]);
    let list = b[id as int].layers[layer];
    assert forall|x: u32| graph::has_layer(a, x as int, layer) implies
        #[trigger] b[x as int].layers[layer] == mid[x as int].layers[layer] by {
        assert(mid[x as int].layers.len() == a[x as int].layers.len());
    }
    assert forall|x: u32|
        #![trigger b[x as int].layers[layer]]
        x != id && graph::has_layer(a, x as int, layer) && list.contains(x)
            && a[x as int].layers[layer].len() >= cap(params, layer) implies well_chosen(
        math,
        params.metric,
        b,
        a[x as int].vector,
        a[x as int].layers[layer].push(id),
        b[x as int].layers[layer],
        cap(params, layer),
    ) by {
        let from = a[x as int].layers[layer].push(id);
        assert(mid[x as int].layers[layer] == b[x as int].layers[layer]);
        assert forall|y: u32| #[trigger] from.contains(y) implies b[y as int].vector
            == mid[y as int].vector by {
            let i = choose|i: int| 0 <= i < from.len() && from[i] == y;
            if i < a[x as int].layers[layer].len() {
                assert(graph::has_layer(a, a[x as int].layers[layer][i] as int, layer));
            }
            assert(mid[y as int].vector == a[y as int].vector);
            assert(b[y as int].vector == mid[y as int].vector);
        }
        lemma_chosen_same(
            math,
            params.metric,
            mid,
            b,
            a[x as int].vector,
            from,
            b[x as int].layers[layer],
            cap(params, layer),
        );
    }
}

/// Nothing links to a node that is new.
proof fn lemma_new_is_unlinked(nodes: Nodes, vector: Seq<u32>, level: int)
    requires
        graph::links_ok(nodes),
        nodes.len() <= u32::MAX,
    ensures
        forall|l: int| #[trigger]
            unlinked(nodes.push(insert::new_node(vector, level)), l, nodes.len() as u32),
{
    let base = nodes.push(insert::new_node(vector, level));
    let id = nodes.len() as u32;
    assert forall|l: int| #[trigger] unlinked(base, l, id) by {
        assert forall|x: u32| !(#[trigger] graph::is_neighbor(base, l, x, id)) by {
            if graph::is_neighbor(base, l, x, id) {
                let list = base[x as int].layers[l];
                let j = choose|j: int| 0 <= j < list.len() && list[j] == id;
                if x < nodes.len() {
                    assert(base[x as int] == nodes[x as int]);
                    assert(graph::has_layer(nodes, nodes[x as int].layers[l][j] as int, l));
                }
            }
        }
    }
}

/// Greedy walks lead to a node that appears where they end, and not to one that
/// nothing links to.
proof fn lemma_descent<M: VectorMath>(
    math: &M,
    metric: DistanceMetric,
    nodes: Nodes,
    query: Seq<u32>,
    start: u32,
    from: int,
    to: int,
    end: u32,
    id: u32,
)
    requires
        graph::links_ok(nodes),
        graph::has_layer(nodes, start as int, from),
        0 <= from,
        0 <= to,
        forall|l: int| #[trigger] unlinked(nodes, l, id),
        start != id,
        insert::descends(math, metric, nodes, query, start, from, to, end),
    ensures
        end != id,
        graph::has_layer(nodes, end as int, insert::smaller(from, to)),
    decreases from - to,
{
    if from > to {
        let mid = choose|mid: u32|
            #[trigger] search::is_greedy_end(math, metric, nodes, query, start, from, mid)
                && insert::descends(math, metric, nodes, query, mid, from - 1, to, end);
        lemma_reached_has_layer(nodes, from, start, mid);
        if mid == id {
            assert(unlinked(nodes, from, id));
            lemma_not_reached(nodes, from, start, id);
        }
        lemma_descent(math, metric, nodes, query, mid, from - 1, to, end, id);
    }
}

/// A vector is refused if it has another dimension than the index, or none at
/// all, if it has a component that is infinite or not a number, or no unit
/// vector where the metric asks for one, or if there are no more ids; and only
/// then.
pub proof fn lemma_refused_vector<M: VectorMath>(math: &M, index: HnswIndex, v: Seq<u32>)
    ensures
        index.refuses_vector(math, v) <==> {
            ||| v.len() == 0 && index.spec_dim() == 0
            ||| index.spec_dim() != 0 && v.len() != index.spec_dim()
            ||| index.spec_params().metric is Cosine && math.normalized(v) is None
            ||| !(index.spec_params().metric is Cosine) && exists|i: int|
                0 <= i < v.len() && (#[trigger] v[i]) % 0x8000_0000 >= 0x7f80_0000
            ||| index.nodes().len() == u32::MAX
        },
{
    float::lemma_finite(v);
}

/// What an insert of `v` makes of an index: a live node with the next id for
/// the vector, as it is compared, at the level that was drawn. Other nodes keep
/// their vectors, and stay live or deleted. At each layer that it shares with
/// the entry point the node joins; above there are no links to it. It becomes
/// the entry point if there was none, or if it reaches higher.
pub proof fn lemma_insert<M: VectorMath>(
    math: &M,
    before: HnswIndex,
    v: Seq<u32>,
    after: HnswIndex,
)
    requires
        before.wf(),
        insert::inserts(math, before, v, after),
    ensures
        ({
            let params = before.spec_params();
            let a = before.nodes();
            let b = after.nodes();
            let id = a.len() as u32;
            let drawn = math.level_of(params.seed, params.m, before.spec_draws());
            let level: u8 = if drawn > 30 {
                30
            } else {
                drawn
            };
            &&& b.len() == a.len() + 1
            &&& !b[id as int].deleted
            &&& b[id as int].layers.len() == level + 1
            &&& match params.metric {
                DistanceMetric::Cosine => math.normalized(v) == Some(b[id as int].vector),
                _ => b[id as int].vector == v,
            }
            &&& forall|x: int|
                0 <= x < a.len() ==> (#[trigger] b[x]).vector == a[x].vector && b[x].deleted
                    == a[x].deleted && b[x].layers.len() == a[x].layers.len()
            &&& after.spec_params() == params
            &&& match before.entry() {
                None => {
                    &&& after.entry() is Some
                    &&& after.entry()->0.node == id
                    &&& after.entry()->0.level == level
                    &&& forall|l: int| 0 <= l <= level ==> (#[trigger] b[id as int].layers[l]).len()
                        == 0
                    &&& forall|l: int| #[trigger] same_at(a, b, l)
                },
                Some(e) => {
                    &&& forall|l: int|
                        0 <= l <= level && l <= e.level ==> #[trigger] joins(
                            math,
                            params,
                            a,
                            b,
                            l,
                            id,
                            b[id as int].vector,
                        )
                    &&& forall|l: int| l > level || l > e.level ==> #[trigger] same_at(a, b, l)
                    &&& forall|l: int|
                        e.level < l <= level ==> (#[trigger] b[id as int].layers[l]).len() == 0
                    &&& if level > e.level {
                        after.entry() is Some && after.entry()->0.node == id
                            && after.entry()->0.level == level
                    } else {
                        after.entry() == before.entry()
                    }
                },
            }
        }),
{
    let params = before.spec_params();
    let a = before.nodes();
    let b = after.nodes();
    let id = a.len() as u32;
    let level = insert::next_level(math, params, before.spec_draws());
    let vector = insert::prepared(math, params.metric, v)->0;
    let base = a.push(insert::new_node(vector, level as int));
    assert forall|x: int| 0 <= x < a.len() implies base[x] == a[x] by {}
    assert(base[id as int] == insert::new_node(vector, level as int));
    match before.entry() {
        None => {},
        Some(e) => {
            let start = choose|start: u32|
                #[trigger] insert::descends(
                    math,
                    params.metric,
                    base,
                    vector,
                    e.node,
                    e.level as int,
                    level as int,
                    start,
                ) && insert::grown(
                    math,
                    params,
                    vector,
                    id,
                    base,
                    start,
                    insert::smaller(level as int, e.level as int) + 1,
                    b,
                );
            let count = insert::smaller(level as int, e.level as int) + 1;
            lemma_new_is_unlinked(a, vector, level as int);
            lemma_new_shape(a, vector, level as int);
            lemma_descent(
                math,
                params.metric,
                base,
                vector,
                e.node,
                e.level as int,
                level as int,
                start,
                id,
            );
            lemma_grown_joins(math, params, vector, id, base, start, count, b);
            assert(b[id as int].vector == vector);
            assert(base.drop_last() =~= a);
            assert forall|l: int| 0 <= l <= level && l <= e.level implies #[trigger] joins(
                math,
                params,
                a,
                b,
                l,
                id,
                b[id as int].vector,
            ) by {
                assert(joins(math, params, base, b, l, id, vector));
                lemma_joins_without(math, params, a, base, b, l, id, vector);
            }
            assert forall|l: int| l > level || l > e.level implies #[trigger] same_at(a, b, l) by {
                assert(same_at(base, b, l));
            }
            assert forall|l: int| e.level < l <= level implies (
            #[trigger] b[id as int].layers[l]).len() == 0 by {
                assert(same_at(base, b, l));
                assert(base[id as int].layers[l].len() == 0);
            }
        },
    }
}

/// The new node is none of those that were there.
proof fn lemma_joins_without<M: VectorMath>(
    math: &M,
    params: HnswParams,
    a: Nodes,
    base: Nodes,
    b: Nodes,
    layer: int,
    id: u32,
    v: Seq<u32>,
)
    requires
        graph::links_ok(a),
        id == a.len(),
        base.len() == a.len() + 1,
        base.drop_last() == a,
        base[id as int].layers.len() > layer ==> base[id as int].layers[layer].len() == 0,
        joins(math, params, base, b, layer, id, v),
    ensures
        joins(math, params, a, b, layer, id, v),
{
    let metric = params.metric;
    let ef = params.ef_construction as int;
    let list = b[id as int].layers[layer];
    assert forall|x: int| 0 <= x < a.len() implies base[x] == a[x] by {
        assert(base.drop_last()[x] == base[x]);
    }
    assert forall|i: int| 0 <= i < list.len() implies #[trigger] list[i] != id && graph::has_layer(
        a,
        list[i] as int,
        layer,
    ) by {
        assert(graph::has_layer(base, list[i] as int, layer));
    }
    let found = choose|found: Seq<u32>| #[trigger]
        well_found(math, metric, base, v, layer, ef, found) && well_chosen(
            math,
            metric,
            base,
            v,
            found,
            list,
            params.m as int,
        ) && all_have(base, found, layer) && !found.contains(id);
    assert forall|i: int| 0 <= i < found.len() implies base[(#[trigger] found[i]) as int]
        == a[found[i] as int] && found[i] < a.len() by {
        assert(graph::has_layer(base, found[i] as int, layer));
        assert(found[i] != id);
    }
    assert forall|i: int, y: u32| 0 <= i < found.len() && #[trigger] graph::is_neighbor(
        a,
        layer,
        found[i],
        y,
    ) implies graph::is_neighbor(base, layer, found[i], y) && base[y as int].vector
        == a[y as int].vector by {
        assert(base[found[i] as int] == a[found[i] as int]);
        graph::lemma_neighbor_has_layer(a, layer, found[i], y);
    }
    lemma_found_same(math, metric, a, base, v, layer, ef, found);
    assert forall|x: u32| #[trigger] found.contains(x) implies a[x as int].vector
        == base[x as int].vector by {
        let i = choose|i: int| 0 <= i < found.len() && found[i] == x;
        assert(base[found[i] as int] == a[found[i] as int]);
    }
    lemma_chosen_same(math, metric, base, a, v, found, list, params.m as int);
    assert(all_have(a, found, layer)) by {
        assert forall|i: int| 0 <= i < found.len() implies graph::has_layer(
            a,
            #[trigger] found[i] as int,
            layer,
        ) by {
            assert(graph::has_layer(base, found[i] as int, layer));
            assert(base[found[i] as int] == a[found[i] as int]);
        }
    }
    assert forall|x: u32| x != id && graph::has_layer(a, x as int, layer) implies graph::has_layer(
        base,
        x as int,
        layer,
    ) && base[x as int] == a[x as int] by {}
}

/// A graph with a new node is still a graph.
proof fn lemma_new_shape(nodes: Nodes, vector: Seq<u32>, level: int)
    requires
        graph::shape_ok(nodes),
        graph::links_ok(nodes),
        nodes.len() < u32::MAX,
        0 <= level <= 254,
    ensures
        graph::shape_ok(nodes.push(insert::new_node(vector, level))),
        graph::links_ok(nodes.push(insert::new_node(vector, level))),
{
    let t = nodes.push(insert::new_node(vector, level));
    assert forall|i: int, l: int, j: int|
        #![trigger t[i].layers[l][j]]
        graph::has_layer(t, i, l) && 0 <= j < t[i].layers[l].len() implies graph::has_layer(
        t,
        t[i].layers[l][j] as int,
        l,
    ) by {
        if i < nodes.len() {
            assert(t[i] == nodes[i]);
            assert(graph::has_layer(nodes, nodes[i].layers[l][j] as int, l));
        }
    }
}

/// Links at layer 0 go both ways, none twice and none from a node to itself.
pub open spec fn is_mutual(nodes: Nodes) -> bool {
    &&& forall|x: int|
        0 <= x < nodes.len() ==> (#[trigger] nodes[x]).layers.len() > 0
            && nodes[x].layers[0].no_duplicates()
    &&& forall|x: u32, y: u32| #[trigger]
        graph::is_neighbor(nodes, 0, x, y) ==> x != y && y < nodes.len() && graph::is_neighbor(
            nodes,
            0,
            y,
            x,
        )
}

/// Every node can be reached from `from` at layer 0.
pub open spec fn all_reached(nodes: Nodes, from: u32) -> bool {
    forall|x: u32| x < nodes.len() ==> #[trigger] graph::reachable(nodes, 0, from, x)
}

/// Where links go both ways, so do paths.
proof fn lemma_reach_back(nodes: Nodes, a: u32, b: u32)
    requires
        is_mutual(nodes),
        graph::reachable(nodes, 0, a, b),
    ensures
        graph::reachable(nodes, 0, b, a),
{
    let path = choose|path: Seq<u32>| graph::is_path(nodes, 0, a, b, path);
    let back = path.reverse();
    assert forall|i: int| 0 <= i < back.len() - 1 implies graph::is_neighbor(
        nodes,
        0,
        #[trigger] back[i],
        back[i + 1],
    ) by {
        let j = path.len() - 2 - i;
        assert(graph::is_neighbor(nodes, 0, path[j], path[j + 1]));
        assert(back[i] == path[j + 1]);
        assert(back[i + 1] == path[j]);
    }
    assert(graph::is_path(nodes, 0, b, a, back));
}

/// Paths can be put together.
proof fn lemma_reach_through(nodes: Nodes, layer: int, a: u32, b: u32, c: u32)
    requires
        graph::reachable(nodes, layer, a, b),
        graph::reachable(nodes, layer, b, c),
    ensures
        graph::reachable(nodes, layer, a, c),
{
    let p = choose|p: Seq<u32>| graph::is_path(nodes, layer, a, b, p);
    let q = choose|q: Seq<u32>| graph::is_path(nodes, layer, b, c, q);
    let all = p + q.skip(1);
    assert forall|i: int| 0 <= i < all.len() - 1 implies graph::is_neighbor(
        nodes,
        layer,
        #[trigger] all[i],
        all[i + 1],
    ) by {
        if i + 1 < p.len() {
            assert(graph::is_neighbor(nodes, layer, p[i], p[i + 1]));
        } else {
            let j = i + 1 - p.len();
            assert(graph::is_neighbor(nodes, layer, q[j], q[j + 1]));
            assert(all[i] == q[j]);
            assert(all[i + 1] == q[j + 1]);
        }
    }
    assert(all.last() == c) by {
        if q.len() == 1 {
            assert(all =~= p);
        } else {
            assert(all.last() == q.last());
        }
    }
    assert(graph::is_path(nodes, layer, a, c, all));
}

/// Links that are there stay: what can be reached can be reached with more.
proof fn lemma_reach_more(a: Nodes, b: Nodes, layer: int, x: u32, y: u32)
    requires
        forall|s: u32, t: u32| #[trigger]
            graph::is_neighbor(a, layer, s, t) ==> graph::is_neighbor(b, layer, s, t),
        graph::reachable(a, layer, x, y),
    ensures
        graph::reachable(b, layer, x, y),
{
    let p = choose|p: Seq<u32>| graph::is_path(a, layer, x, y, p);
    assert forall|i: int| 0 <= i < p.len() - 1 implies graph::is_neighbor(
        b,
        layer,
        #[trigger] p[i],
        p[i + 1],
    ) by {
        assert(graph::is_neighbor(a, layer, p[i], p[i + 1]));
    }
    assert(graph::is_path(b, layer, x, y, p));
}

/// An insert keeps the index in one piece: if links at layer 0 go both ways and
/// every node can be reached from the entry point, and no list at layer 0 is
/// full, then that holds with the new node too.
pub proof fn lemma_insert_connects<M: VectorMath>(
    math: &M,
    before: HnswIndex,
    v: Seq<u32>,
    after: HnswIndex,
)
    requires
        before.wf(),
        before.spec_params().m > 0,
        insert::inserts(math, before, v, after),
        is_mutual(before.nodes()),
        before.entry() matches Some(e) ==> all_reached(before.nodes(), e.node),
        before.entry() is None ==> before.nodes().len() == 0,
        forall|x: int|
            0 <= x < before.nodes().len() ==> (#[trigger] before.nodes()[x]).layers[0].len()
                < before.spec_params().m_max_0,
    ensures
        is_mutual(after.nodes()),
        after.entry() is Some,
        all_reached(after.nodes(), after.entry()->0.node),
{
    let params = before.spec_params();
    let a = before.nodes();
    let b = after.nodes();
    let id = a.len() as u32;
    lemma_insert(math, before, v, after);
    if before.entry() is None {
        assert forall|x: u32, y: u32| !(#[trigger] graph::is_neighbor(b, 0, x, y)) by {
            assert(b[id as int].layers[0].len() == 0);
        }
        assert(b[id as int].layers[0].no_duplicates());
        graph::lemma_reach_self(b, 0, id);
    } else {
        let e = before.entry()->0;
        let list = b[id as int].layers[0];
        assert(joins(math, params, a, b, 0, id, b[id as int].vector));
        assert forall|x: u32| x < a.len() implies #[trigger] b[x as int].layers[0] == (
        if list.contains(x) {
            a[x as int].layers[0].push(id)
        } else {
            a[x as int].layers[0]
        }) by {
            assert(graph::has_layer(a, x as int, 0)) by {
                assert(a[x as int].layers.len() > 0);
            }
        }
        assert forall|x: u32, y: u32| #[trigger] graph::is_neighbor(b, 0, x, y) == {
            ||| graph::is_neighbor(a, 0, x, y)
            ||| x == id && list.contains(y)
            ||| y == id && list.contains(x) && x != id
        } by {
            lemma_neighbors_after(a, b, list, id, x, y);
        }
        assert(is_mutual(b)) by {
            assert forall|x: u32, y: u32| #[trigger] graph::is_neighbor(b, 0, x, y) implies x != y
                && y < b.len() && graph::is_neighbor(b, 0, y, x) by {
                if graph::is_neighbor(a, 0, x, y) {
                    assert(graph::is_neighbor(a, 0, y, x));
                } else if x == id {
                    let i = choose|i: int| 0 <= i < list.len() && list[i] == y;
                    assert(list[i] != id && graph::has_layer(a, list[i] as int, 0));
                } else {
                    assert(list.contains(x));
                }
            }
            assert forall|x: int| 0 <= x < b.len() implies (#[trigger] b[x]).layers.len() > 0
                && b[x].layers[0].no_duplicates() by {
                if x < a.len() {
                    let old_list = a[x].layers[0];
                    assert(a[x].layers.len() > 0);
                    assert(b[(x as u32) as int].layers[0] == (if list.contains(x as u32) {
                        old_list.push(id)
                    } else {
                        old_list
                    }));
                    assert(!old_list.contains(id)) by {
                        if old_list.contains(id) {
                            assert(graph::is_neighbor(a, 0, x as u32, id));
                        }
                    }
                }
            }
        }
        let near = list[0];
        assert(near != id && graph::has_layer(a, near as int, 0));
        assert(list.contains(near));
        graph::lemma_reach_self(b, 0, id);
        assert(graph::is_neighbor(b, 0, id, near));
        assert(graph::is_neighbor(b, 0, near, id));
        let top = after.entry()->0.node;
        assert forall|x: u32| x < b.len() implies #[trigger] graph::reachable(b, 0, top, x) by {
            graph::lemma_reach_step(b, 0, id, id, near);
            // From the old entry point to the new node and back.
            assert(graph::reachable(a, 0, e.node, near));
            lemma_reach_more(a, b, 0, e.node, near);
            graph::lemma_reach_step(b, 0, e.node, near, id);
            lemma_reach_back(b, e.node, id);
            if x < a.len() {
                assert(graph::reachable(a, 0, e.node, x));
                lemma_reach_more(a, b, 0, e.node, x);
                lemma_reach_through(b, 0, id, e.node, x);
            }
        }
    }
}

proof fn lemma_neighbors_after(a: Nodes, b: Nodes, list: Seq<u32>, id: u32, x: u32, y: u32)
    requires
        id == a.len(),
        b.len() == a.len() + 1,
        b[id as int].layers.len() > 0,
        b[id as int].layers[0] == list,
        forall|x: int|
            0 <= x < a.len() ==> (#[trigger] b[x]).layers.len() == a[x].layers.len()
                && a[x].layers.len() > 0,
        forall|x: u32|
            x < a.len() ==> #[trigger] b[x as int].layers[0] == (if list.contains(x) {
                a[x as int].layers[0].push(id)
            } else {
                a[x as int].layers[0]
            }),
        forall|i: int| 0 <= i < list.len() ==> #[trigger] list[i] < a.len(),
    ensures
        graph::is_neighbor(b, 0, x, y) == {
            ||| graph::is_neighbor(a, 0, x, y)
            ||| x == id && list.contains(y)
            ||| y == id && list.contains(x) && x != id
        },
{
    if x < a.len() {
        let old_list = a[x as int].layers[0];
        let new_list = b[x as int].layers[0];
        assert(b[x as int].layers.len() == a[x as int].layers.len());
        if list.contains(x) {
            assert(new_list == old_list.push(id));
            if new_list.contains(y) {
                let i = choose|i: int| 0 <= i < new_list.len() && new_list[i] == y;
                if i < old_list.len() {
                    assert(old_list[i] == y);
                }
            }
            if old_list.contains(y) {
                let i = choose|i: int| 0 <= i < old_list.len() && old_list[i] == y;
                assert(new_list[i] == y);
            }
            assert(new_list[old_list.len() as int] == id);
        }
    } else if list.contains(x) {
        let i = choose|i: int| 0 <= i < list.len() && list[i] == x;
        assert(list[i] < a.len());
    }
}

/// A beam that has room left has found everything that can be reached.
pub proof fn lemma_beam_is_complete<M: VectorMath>(
    math: &M,
    metric: DistanceMetric,
    nodes: Nodes,
    query: Seq<u32>,
    start: u32,
    layer: int,
    ef: int,
    s: Seq<Candidate>,
    x: u32,
)
    requires
        search::is_beam(math, metric, nodes, query, start, layer, ef, s),
        s.len() < ef,
        graph::reachable(nodes, layer, start, x),
    ensures
        exists|i: int| 0 <= i < s.len() && (#[trigger] s[i]).id == x,
{
    let path = choose|path: Seq<u32>| graph::is_path(nodes, layer, start, x, path);
    lemma_beam_holds_path(math, metric, nodes, query, start, layer, ef, s, path, path.len() - 1);
}

proof fn lemma_beam_holds_path<M: VectorMath>(
    math: &M,
    metric: DistanceMetric,
    nodes: Nodes,
    query: Seq<u32>,
    start: u32,
    layer: int,
    ef: int,
    s: Seq<Candidate>,
    path: Seq<u32>,
    n: int,
)
    requires
        search::is_beam(math, metric, nodes, query, start, layer, ef, s),
        s.len() < ef,
        0 <= n < path.len(),
        path[0] == start,
        forall|i: int|
            0 <= i < path.len() - 1 ==> graph::is_neighbor(
                nodes,
                layer,
                #[trigger] path[i],
                path[i + 1],
            ),
    ensures
        exists|i: int| 0 <= i < s.len() && (#[trigger] s[i]).id == path[n],
    decreases n,
{
    if n == 0 {
        assert(search::settled(math, metric, nodes, query, ef, s, start));
    } else {
        lemma_beam_holds_path(math, metric, nodes, query, start, layer, ef, s, path, n - 1);
        let i = choose|i: int| 0 <= i < s.len() && (#[trigger] s[i]).id == path[n - 1];
        assert(graph::is_neighbor(nodes, layer, path[n - 1], path[n]));
        assert(graph::is_neighbor(nodes, layer, s[i].id, path[n]));
        assert(search::settled(math, metric, nodes, query, ef, s, path[n]));
    }
}

/// A live candidate of a beam is a hit, or there are `k` hits and none is
/// farther.
proof fn lemma_hit_or_farther(nodes: Nodes, s: Seq<Candidate>, k: int, i: int)
    requires
        k > 0,
        0 <= i < s.len(),
        !nodes[s[i].id as int].deleted,
    ensures
        ({
            let h = query::hits(nodes, s, k);
            ||| h.contains(s[i])
            ||| h.len() == k && float::rank(h.last().dist) <= float::rank(s[i].dist)
        }),
{
    let live = query::live_only(nodes, s);
    let sorted = select::stable_sort(live);
    let h = query::hits(nodes, s, k);
    query::lemma_live_only(nodes, s);
    select::lemma_sort_members(live);
    select::lemma_sort_ascending(live);
    assert(live.contains(s[i]));
    let a = choose|a: int| 0 <= a < live.len() && live[a] == s[i];
    assert(sorted.contains(live[a]));
    let b = choose|b: int| 0 <= b < sorted.len() && sorted[b] == s[i];
    if b < h.len() {
        assert(h[b] == s[i]);
    } else {
        assert(h.last() == sorted[k - 1]);
        if b > k - 1 {
            assert(float::rank(sorted[k - 1].dist) <= float::rank(sorted[b].dist));
        }
    }
}

/// The deleted candidates of `s`.
spec fn dead_only(nodes: Nodes, s: Seq<Candidate>) -> Seq<u32>
    decreases s.len(),
{
    if s.len() == 0 {
        Seq::empty()
    } else {
        let before = dead_only(nodes, s.drop_last());
        if nodes[s.last().id as int].deleted {
            before.push(s.last().id)
        } else {
            before
        }
    }
}

proof fn lemma_dead_only(nodes: Nodes, s: Seq<Candidate>)
    requires
        search::distinct(s),
    ensures
        query::live_only(nodes, s).len() + dead_only(nodes, s).len() == s.len(),
        dead_only(nodes, s).no_duplicates(),
        forall|i: int|
            0 <= i < dead_only(nodes, s).len() ==> nodes[(#[trigger] dead_only(
                nodes,
                s,
            )[i]) as int].deleted && exists|j: int|
                0 <= j < s.len() && (#[trigger] s[j]).id == dead_only(nodes, s)[i],
    decreases s.len(),
{
    if s.len() > 0 {
        let d = s.drop_last();
        let before = dead_only(nodes, d);
        let t = dead_only(nodes, s);
        assert(search::distinct(d)) by {
            assert forall|i: int, j: int| 0 <= i < j < d.len() implies (#[trigger] d[i]).id != (
            #[trigger] d[j]).id by {
                assert(s[i].id != s[j].id);
            }
        }
        lemma_dead_only(nodes, d);
        assert forall|i: int| 0 <= i < t.len() implies nodes[(#[trigger] t[i]) as int].deleted
            && exists|j: int| 0 <= j < s.len() && (#[trigger] s[j]).id == t[i] by {
            if i < before.len() {
                assert(t[i] == before[i]);
                let j = choose|j: int| 0 <= j < d.len() && (#[trigger] d[j]).id == before[i];
                assert(s[j].id == t[i]);
            } else {
                assert(s[s.len() - 1].id == t[i]);
            }
        }
        if nodes[s.last().id as int].deleted {
            assert(!before.contains(s.last().id)) by {
                if before.contains(s.last().id) {
                    let i = choose|i: int| 0 <= i < before.len() && before[i] == s.last().id;
                    let j = choose|j: int| 0 <= j < d.len() && (#[trigger] d[j]).id == before[i];
                    assert(s[j].id != s[s.len() - 1].id);
                }
            }
        }
    }
}

/// Deleted nodes, none twice, are no more than there are.
proof fn lemma_dead_bound(nodes: Nodes, dead: Seq<u32>)
    requires
        dead.no_duplicates(),
        forall|i: int|
            0 <= i < dead.len() ==> (#[trigger] dead[i]) < nodes.len()
                && nodes[dead[i] as int].deleted,
    ensures
        dead.len() + graph::live_count(nodes) <= nodes.len(),
    decreases nodes.len(),
{
    if nodes.len() == 0 {
        if dead.len() > 0 {
            assert(dead[0] < nodes.len());
        }
    } else {
        let d = nodes.drop_last();
        let last = (nodes.len() - 1) as u32;
        if nodes.len() - 1 <= u32::MAX && dead.contains(last) {
            let at = choose|at: int| 0 <= at < dead.len() && dead[at] == last;
            let rest = dead.remove(at);
            assert(rest.no_duplicates());
            assert forall|i: int| 0 <= i < rest.len() implies (#[trigger] rest[i]) < d.len()
                && d[rest[i] as int].deleted by {
                let j = if i < at {
                    i
                } else {
                    i + 1
                };
                assert(rest[i] == dead[j]);
                assert(dead[j] != dead[at]);
            }
            lemma_dead_bound(d, rest);
            assert(nodes[dead[at] as int].deleted);
        } else {
            assert forall|i: int| 0 <= i < dead.len() implies (#[trigger] dead[i]) < d.len()
                && d[dead[i] as int].deleted by {
                if dead[i] == nodes.len() - 1 {
                    assert(dead[i] == last);
                    assert(dead.contains(last));
                }
            }
            lemma_dead_bound(d, dead);
        }
    }
}

/// Node `x` is among the hits `out`.
pub open spec fn is_hit(out: Seq<(u32, u32)>, x: u32) -> bool {
    exists|i: int| 0 <= i < out.len() && (#[trigger] out[i]).0 == x
}

/// Where greedy walks end: no farther than where they start, and, if they
/// walked at layer 1, with no closer neighbour there.
pub proof fn lemma_descent_comes_close<M: VectorMath>(
    math: &M,
    metric: DistanceMetric,
    nodes: Nodes,
    query: Seq<u32>,
    start: u32,
    from: int,
    end: u32,
)
    requires
        0 <= from,
        insert::descends(math, metric, nodes, query, start, from, 0, end),
    ensures
        float::rank(math.distance_of(metric, query, nodes[end as int].vector)) <= float::rank(
            math.distance_of(metric, query, nodes[start as int].vector),
        ),
        from == 0 ==> end == start,
        from >= 1 ==> forall|y: u32| #[trigger]
            graph::is_neighbor(nodes, 1, end, y) ==> !float::below(
                math.distance_of(metric, query, nodes[y as int].vector),
                math.distance_of(metric, query, nodes[end as int].vector),
            ),
    decreases from,
{
    if from > 0 {
        let mid = choose|mid: u32|
            #[trigger] search::is_greedy_end(math, metric, nodes, query, start, from, mid)
                && insert::descends(math, metric, nodes, query, mid, from - 1, 0, end);
        lemma_descent_comes_close(math, metric, nodes, query, mid, from - 1, end);
        if from == 1 {
            assert(end == mid);
        }
    }
}

impl HnswIndex {
    /// The distance of node `x` from `p`.
    pub open spec fn distance_from<M: VectorMath>(&self, math: &M, p: Seq<u32>, x: u32) -> u32 {
        math.distance_of(self.spec_params().metric, p, self.nodes()[x as int].vector)
    }

    /// What a search for the `k` neighbours of `p` finds, from where its beam
    /// starts. There are `k` hits; or every live node that can be reached is
    /// one; or so many nodes were deleted that they may have taken the places of
    /// twice `k`. Hits have their distances, closest first. A live neighbour of
    /// a hit that is none itself is not closer than the last hit.
    pub open spec fn finds<M: VectorMath>(
        &self,
        math: &M,
        p: Seq<u32>,
        k: int,
        start: u32,
        out: Seq<(u32, u32)>,
    ) -> bool {
        let nodes = self.nodes();
        let dead = nodes.len() - graph::live_count(nodes);
        &&& out.len() <= k
        &&& {
            ||| out.len() == k
            ||| forall|x: u32| #[trigger]
                graph::reachable(nodes, 0, start, x) && !nodes[x as int].deleted ==> is_hit(out, x)
            ||| out.len() + dead >= 2 * k && dead > 0
            ||| out.len() + dead >= usize::MAX && dead > 0
        }
        &&& forall|i: int|
            0 <= i < out.len() ==> (#[trigger] out[i]).0 < nodes.len()
                && !nodes[out[i].0 as int].deleted && graph::reachable(nodes, 0, start, out[i].0)
                && out[i].1 == self.distance_from(math, p, out[i].0)
        &&& forall|i: int, j: int|
            0 <= i < j < out.len() ==> (#[trigger] out[i]).0 != (#[trigger] out[j]).0
                && !float::below(out[j].1, out[i].1)
        &&& (forall|x: u32|
            x < nodes.len() ==> !float::is_nan(#[trigger] self.distance_from(math, p, x)))
            ==> forall|i: int, y: u32|
            0 <= i < out.len() && #[trigger] graph::is_neighbor(nodes, 0, out[i].0, y)
                && !nodes[y as int].deleted ==> is_hit(out, y) || !float::below(
                self.distance_from(math, p, y),
                out.last().1,
            )
    }

    /// A search finds what it should, from a node that is no farther than the
    /// entry point and has no closer neighbour at the layer above the lowest.
    pub proof fn lemma_search<M: VectorMath>(
        &self,
        math: &M,
        p: Seq<u32>,
        k: usize,
        out: Seq<(u32, u32)>,
    )
        requires
            self.wf(),
            self.entry() is Some,
            k > 0,
            self.is_result(math, p, k, out),
        ensures
            exists|start: u32|
                {
                    let e = self.entry()->0;
                    &&& #[trigger] self.finds(math, p, k as int, start, out)
                    &&& start < self.nodes().len()
                    &&& float::rank(self.distance_from(math, p, start)) <= float::rank(
                        self.distance_from(math, p, e.node),
                    )
                    &&& e.level == 0 ==> start == e.node
                    &&& e.level > 0 ==> forall|y: u32| #[trigger]
                        graph::is_neighbor(self.nodes(), 1, start, y) ==> !float::below(
                            self.distance_from(math, p, y),
                            self.distance_from(math, p, start),
                        )
                },
    {
        let params = self.spec_params();
        let nodes = self.nodes();
        let e = self.entry()->0;
        let ef = query::search_width(params.ef_search as int, k as int);
        let (start, s) = choose|start: u32, s: Seq<Candidate>|
            insert::descends(
                math,
                params.metric,
                nodes,
                p,
                e.node,
                e.level as int,
                0,
                start,
            ) && #[trigger] search::is_beam(math, params.metric, nodes, p, start, 0, ef, s) && out
                == query::id_dists(query::hits(nodes, s, k as int));
        lemma_descent_comes_close(math, params.metric, nodes, p, e.node, e.level as int, start);
        lemma_descent_has_layer(math, params.metric, nodes, p, e.node, e.level as int, start);
        self.lemma_beam_finds(math, p, k, start, s, out);
    }

    proof fn lemma_beam_finds<M: VectorMath>(
        &self,
        math: &M,
        p: Seq<u32>,
        k: usize,
        start: u32,
        s: Seq<Candidate>,
        out: Seq<(u32, u32)>,
    )
        requires
            self.wf(),
            k > 0,
            graph::has_layer(self.nodes(), start as int, 0),
            search::is_beam(
                math,
                self.spec_params().metric,
                self.nodes(),
                p,
                start,
                0,
                query::search_width(self.spec_params().ef_search as int, k as int),
                s,
            ),
            out == query::id_dists(query::hits(self.nodes(), s, k as int)),
        ensures
            self.finds(math, p, k as int, start, out),
    {
        let params = self.spec_params();
        let nodes = self.nodes();
        let ef = query::search_width(params.ef_search as int, k as int);
        let h = query::hits(nodes, s, k as int);
        let live = query::live_only(nodes, s);
        let dead = nodes.len() - graph::live_count(nodes);
        query::lemma_hits(nodes, s, k as int);
        query::lemma_live_only(nodes, s);
        select::lemma_sort_members(live);
        lemma_dead_only(nodes, s);
        let gone = dead_only(nodes, s);
        assert forall|i: int| 0 <= i < s.len() implies (#[trigger] s[i]).id < nodes.len() by {
            lemma_reached_has_layer(nodes, 0, start, s[i].id);
        }
        assert forall|i: int| 0 <= i < gone.len() implies (#[trigger] gone[i]) < nodes.len()
            && nodes[gone[i] as int].deleted by {
            let j = choose|j: int| 0 <= j < s.len() && (#[trigger] s[j]).id == gone[i];
            assert(s[j].id < nodes.len());
        }
        lemma_dead_bound(nodes, gone);
        assert forall|i: int| 0 <= i < out.len() implies (#[trigger] out[i]) == (h[i].id, h[i].dist)
            && s.contains(h[i]) by {}
        assert forall|i: int| 0 <= i < s.len() && !nodes[(#[trigger] s[i]).id as int].deleted implies
            is_hit(out, s[i].id) || out.len() == k && float::rank(out.last().1) <= float::rank(
            s[i].dist,
        ) by {
            lemma_hit_or_farther(nodes, s, k as int, i);
            if h.contains(s[i]) {
                let j = choose|j: int| 0 <= j < h.len() && h[j] == s[i];
                assert(out[j].0 == s[i].id);
            }
        }
        if out.len() < k {
            assert(out.len() == live.len());
            if s.len() < ef {
                assert forall|x: u32| #[trigger]
                    graph::reachable(nodes, 0, start, x) && !nodes[x as int].deleted implies is_hit(
                    out,
                    x,
                ) by {
                    lemma_beam_is_complete(
                        math,
                        params.metric,
                        nodes,
                        p,
                        start,
                        0,
                        ef,
                        s,
                        x,
                    );
                    let i = choose|i: int| 0 <= i < s.len() && (#[trigger] s[i]).id == x;
                    assert(!nodes[s[i].id as int].deleted);
                }
            } else {
                assert(s.len() >= ef);
                assert(gone.len() >= ef - out.len());
            }
        }
        assert forall|i: int| 0 <= i < out.len() implies (#[trigger] out[i]).0 < nodes.len()
            && !nodes[out[i].0 as int].deleted && graph::reachable(nodes, 0, start, out[i].0)
            && out[i].1 == self.distance_from(math, p, out[i].0) by {
            assert(out[i] == (h[i].id, h[i].dist));
            let j = choose|j: int| 0 <= j < s.len() && s[j] == h[i];
            assert(s[j].id < nodes.len());
            assert(graph::reachable(nodes, 0, start, s[j].id));
        }
        assert forall|i: int, j: int| 0 <= i < j < out.len() implies (#[trigger] out[i]).0 != (
        #[trigger] out[j]).0 && !float::below(out[j].1, out[i].1) by {
            assert(out[i] == (h[i].id, h[i].dist) && out[j] == (h[j].id, h[j].dist));
            assert(float::rank(h[i].dist) <= float::rank(h[j].dist));
        }
        if forall|x: u32|
            x < nodes.len() ==> !float::is_nan(#[trigger] self.distance_from(math, p, x)) {
            assert forall|i: int, y: u32|
                0 <= i < out.len() && #[trigger] graph::is_neighbor(nodes, 0, out[i].0, y)
                    && !nodes[y as int].deleted implies is_hit(out, y) || !float::below(
                self.distance_from(math, p, y),
                out.last().1,
            ) by {
                assert(out[i] == (h[i].id, h[i].dist));
                let j = choose|j: int| 0 <= j < s.len() && s[j] == h[i];
                assert(graph::is_neighbor(nodes, 0, s[j].id, y));
                assert(search::settled(math, params.metric, nodes, p, ef, s, y));
                if search::holds(s, y) {
                    let c = choose|c: int| 0 <= c < s.len() && (#[trigger] s[c]).id == y;
                    assert(s[c].dist == self.distance_from(math, p, y));
                } else {
                    let last = out.len() - 1;
                    assert(out[last] == (h[last].id, h[last].dist));
                    let b = choose|b: int| 0 <= b < s.len() && s[b] == h[last];
                    let t = s.len() - 1;
                    assert(s[t] == s.last());
                    assert(s[t].id < nodes.len());
                    assert(!float::is_nan(self.distance_from(math, p, s[t].id)));
                    assert(s[t].dist == self.distance_from(math, p, s[t].id));
                    if b < t {
                        assert(float::rank(s[b].dist) <= float::rank(s[t].dist));
                    }
                }
            }
        }
    }
}

/// Greedy walks end at a node.
proof fn lemma_descent_has_layer<M: VectorMath>(
    math: &M,
    metric: DistanceMetric,
    nodes: Nodes,
    query: Seq<u32>,
    start: u32,
    from: int,
    end: u32,
)
    requires
        graph::links_ok(nodes),
        graph::has_layer(nodes, start as int, from),
        0 <= from,
        insert::descends(math, metric, nodes, query, start, from, 0, end),
    ensures
        graph::has_layer(nodes, end as int, 0),
    decreases from,
{
    if from > 0 {
        let mid = choose|mid: u32|
            #[trigger] search::is_greedy_end(math, metric, nodes, query, start, from, mid)
                && insert::descends(math, metric, nodes, query, mid, from - 1, 0, end);
        lemma_reached_has_layer(nodes, from, start, mid);
        lemma_descent_has_layer(math, metric, nodes, query, mid, from - 1, end);
    }
}

/// Numbers below `n`, none twice, are no more than `n`; they are `n` if all are
/// among them.
proof fn lemma_count(s: Seq<u32>, n: nat)
    requires
        s.no_duplicates(),
        forall|i: int| 0 <= i < s.len() ==> (#[trigger] s[i]) < n,
        n <= u32::MAX,
    ensures
        s.len() <= n,
        (forall|x: u32| x < n ==> #[trigger] s.contains(x)) ==> s.len() == n,
    decreases n,
{
    if n == 0 {
        if s.len() > 0 {
            assert(s[0] < n);
        }
    } else {
        let last = (n - 1) as u32;
        if s.contains(last) {
            let at = choose|at: int| 0 <= at < s.len() && s[at] == last;
            let rest = s.remove(at);
            assert(rest.no_duplicates());
            assert forall|i: int| 0 <= i < rest.len() implies (#[trigger] rest[i]) < n - 1 by {
                let j = if i < at {
                    i
                } else {
                    i + 1
                };
                assert(rest[i] == s[j]);
                assert(s[j] != s[at]);
            }
            lemma_count(rest, (n - 1) as nat);
            if forall|x: u32| x < n ==> #[trigger] s.contains(x) {
                assert forall|x: u32| x < n - 1 implies #[trigger] rest.contains(x) by {
                    assert(s.contains(x));
                    let j = choose|j: int| 0 <= j < s.len() && s[j] == x;
                    let i = if j < at {
                        j
                    } else {
                        j - 1
                    };
                    assert(rest[i] == x);
                }
            }
        } else {
            assert forall|i: int| 0 <= i < s.len() implies (#[trigger] s[i]) < n - 1 by {
                if s[i] == last {
                    assert(s.contains(last));
                }
            }
            lemma_count(s, (n - 1) as nat);
        }
    }
}

/// As many numbers below `n`, none twice, are all of them.
pub(crate) proof fn lemma_all_there(s: Seq<u32>, n: nat, x: u32)
    requires
        s.no_duplicates(),
        forall|i: int| 0 <= i < s.len() ==> (#[trigger] s[i]) < n,
        n <= u32::MAX,
        s.len() == n,
        x < n,
    ensures
        s.contains(x),
{
    if !s.contains(x) {
        let t = s.push(x);
        assert(t.no_duplicates());
        assert forall|i: int| 0 <= i < t.len() implies (#[trigger] t[i]) < n by {
            if i < s.len() {
                assert(t[i] == s[i]);
            }
        }
        lemma_count(t, n);
    }
}

/// Where no node is deleted, all are live.
pub(crate) proof fn lemma_all_live(nodes: Nodes)
    requires
        forall|x: int| 0 <= x < nodes.len() ==> !(#[trigger] nodes[x]).deleted,
    ensures
        graph::live_count(nodes) == nodes.len(),
    decreases nodes.len(),
{
    if nodes.len() > 0 {
        let d = nodes.drop_last();
        assert forall|x: int| 0 <= x < d.len() implies !(#[trigger] d[x]).deleted by {
            assert(d[x] == nodes[x]);
        }
        lemma_all_live(d);
        assert(!nodes[nodes.len() - 1].deleted);
    }
}

/// The nodes of hits.
pub open spec fn hit_ids(out: Seq<(u32, u32)>) -> Seq<u32> {
    out.map_values(|h: (u32, u32)| h.0)
}

impl HnswIndex {
    /// The index is in one piece, and no node was deleted.
    pub open spec fn is_whole(&self) -> bool {
        &&& is_mutual(self.nodes())
        &&& self.entry() matches Some(e) ==> all_reached(self.nodes(), e.node)
        &&& self.entry() is None ==> self.nodes().len() == 0
        &&& forall|x: int| 0 <= x < self.nodes().len() ==> !(#[trigger] self.nodes()[x]).deleted
    }

    /// In an index in one piece a search finds as many as it is asked for, or
    /// all.
    pub proof fn lemma_search_count<M: VectorMath>(
        &self,
        math: &M,
        p: Seq<u32>,
        k: usize,
        out: Seq<(u32, u32)>,
    )
        requires
            self.wf(),
            self.is_whole(),
            self.entry() is Some,
            k > 0,
            self.is_result(math, p, k, out),
        ensures
            k <= self.nodes().len() ==> out.len() == k,
            k > self.nodes().len() ==> out.len() == self.nodes().len(),
    {
        let nodes = self.nodes();
        let n = nodes.len();
        let e = self.entry()->0;
        self.lemma_search(math, p, k, out);
        lemma_all_live(nodes);
        let start = choose|start: u32| #[trigger]
            self.finds(math, p, k as int, start, out) && start < n;
        let got = hit_ids(out);
        assert(got.no_duplicates()) by {
            assert forall|i: int, j: int|
                0 <= i < got.len() && 0 <= j < got.len() && i != j implies got[i] != got[j] by {
                if i < j {
                    assert(out[i].0 != out[j].0);
                } else {
                    assert(out[j].0 != out[i].0);
                }
            }
        }
        assert forall|i: int| 0 <= i < got.len() implies (#[trigger] got[i]) < n by {
            assert(got[i] == out[i].0);
        }
        lemma_count(got, n);
        if out.len() < k {
            assert forall|x: u32| x < n implies #[trigger] got.contains(x) by {
                assert(graph::reachable(nodes, 0, e.node, start));
                lemma_reach_back(nodes, e.node, start);
                assert(graph::reachable(nodes, 0, e.node, x));
                lemma_reach_through(nodes, 0, start, e.node, x);
                assert(is_hit(out, x));
                let i = choose|i: int| 0 <= i < out.len() && (#[trigger] out[i]).0 == x;
                assert(got[i] == x);
            }
        }
    }

    /// In an index in one piece that has fewer nodes than the search is wide,
    /// the hits are the nearest of all: what is not among them is no closer than
    /// the last.
    pub proof fn lemma_search_is_exact<M: VectorMath>(
        &self,
        math: &M,
        p: Seq<u32>,
        k: usize,
        out: Seq<(u32, u32)>,
        x: u32,
    )
        requires
            self.wf(),
            self.is_whole(),
            self.entry() is Some,
            k > 0,
            self.is_result(math, p, k, out),
            self.nodes().len() < 2 * k && 2 * k <= usize::MAX || self.nodes().len()
                < self.spec_params().ef_search,
            x < self.nodes().len(),
        ensures
            is_hit(out, x) || out.len() == k && float::rank(out.last().1) <= float::rank(
                self.distance_from(math, p, x),
            ) && !float::below(self.distance_from(math, p, x), out.last().1),
    {
        let params = self.spec_params();
        let nodes = self.nodes();
        let n = nodes.len();
        let e = self.entry()->0;
        let ef = query::search_width(params.ef_search as int, k as int);
        let (start, s) = choose|start: u32, s: Seq<Candidate>|
            insert::descends(
                math,
                params.metric,
                nodes,
                p,
                e.node,
                e.level as int,
                0,
                start,
            ) && #[trigger] search::is_beam(math, params.metric, nodes, p, start, 0, ef, s) && out
                == query::id_dists(query::hits(nodes, s, k as int));
        lemma_descent_has_layer(math, params.metric, nodes, p, e.node, e.level as int, start);
        let got = s.map_values(|c: Candidate| c.id);
        assert(got.no_duplicates()) by {
            assert forall|i: int, j: int|
                0 <= i < got.len() && 0 <= j < got.len() && i != j implies got[i] != got[j] by {
                if i < j {
                    assert(s[i].id != s[j].id);
                } else {
                    assert(s[j].id != s[i].id);
                }
            }
        }
        assert forall|i: int| 0 <= i < got.len() implies (#[trigger] got[i]) < n by {
            assert(got[i] == s[i].id);
            lemma_reached_has_layer(nodes, 0, start, s[i].id);
        }
        lemma_count(got, n);
        assert(graph::reachable(nodes, 0, e.node, start));
        lemma_reach_back(nodes, e.node, start);
        assert(graph::reachable(nodes, 0, e.node, x));
        lemma_reach_through(nodes, 0, start, e.node, x);
        lemma_beam_is_complete(math, params.metric, nodes, p, start, 0, ef, s, x);
        let i = choose|i: int| 0 <= i < s.len() && (#[trigger] s[i]).id == x;
        lemma_hit_or_farther(nodes, s, k as int, i);
        let h = query::hits(nodes, s, k as int);
        assert(s[i].dist == self.distance_from(math, p, x));
        if h.contains(s[i]) {
            let j = choose|j: int| 0 <= j < h.len() && h[j] == s[i];
            assert(out[j].0 == x);
        } else {
            assert(out.last() == (h.last().id, h.last().dist));
        }
    }

    /// The hits of a search are ranked by their distances.
    pub proof fn lemma_result_ascends<M: VectorMath>(
        &self,
        math: &M,
        p: Seq<u32>,
        k: usize,
        out: Seq<(u32, u32)>,
        i: int,
        j: int,
    )
        requires
            self.wf(),
            self.entry() is Some,
            k > 0,
            self.is_result(math, p, k, out),
            0 <= i < j < out.len(),
        ensures
            float::rank(out[i].1) <= float::rank(out[j].1),
            out[j].1 == self.distance_from(math, p, out[j].0),
    {
        let params = self.spec_params();
        let e = self.entry()->0;
        let ef = query::search_width(params.ef_search as int, k as int);
        let (start, s) = choose|start: u32, s: Seq<Candidate>|
            insert::descends(
                math,
                params.metric,
                self.nodes(),
                p,
                e.node,
                e.level as int,
                0,
                start,
            ) && #[trigger] search::is_beam(math, params.metric, self.nodes(), p, start, 0, ef, s)
                && out == query::id_dists(query::hits(self.nodes(), s, k as int));
        let h = query::hits(self.nodes(), s, k as int);
        query::lemma_hits(self.nodes(), s, k as int);
        assert(out[i] == (h[i].id, h[i].dist) && out[j] == (h[j].id, h[j].dist));
        assert(float::rank(h[i].dist) <= float::rank(h[j].dist));
        assert(s.contains(h[j]));
        let c = choose|c: int| 0 <= c < s.len() && s[c] == h[j];
        assert(s[c].dist == h[j].dist);
    }

    /// `states` are an index without nodes, and what it becomes as `vectors`
    /// are inserted, one after the other.
    pub open spec fn is_built<M: VectorMath>(
        math: &M,
        states: Seq<HnswIndex>,
        vectors: Seq<Seq<u32>>,
    ) -> bool {
        &&& states.len() == vectors.len() + 1
        &&& states[0].nodes().len() == 0
        &&& states[0].entry() is None
        &&& forall|i: int| 0 <= i < states.len() ==> (#[trigger] states[i]).wf()
        &&& forall|i: int|
            0 <= i < vectors.len() ==> insert::inserts(
                math,
                states[i],
                #[trigger] vectors[i],
                states[i + 1],
            )
    }

    /// What was inserted is found: an index of no more vectors than a list at
    /// layer 0 may have, and one, is in one piece, with a node for each vector
    /// in turn.
    pub proof fn lemma_built_is_whole<M: VectorMath>(
        math: &M,
        states: Seq<HnswIndex>,
        vectors: Seq<Seq<u32>>,
    )
        requires
            Self::is_built(math, states, vectors),
            states[0].spec_params().m > 0,
            vectors.len() <= states[0].spec_params().m_max_0 + 1,
        ensures
            states.last().is_whole(),
            states.last().nodes().len() == vectors.len(),
            states.last().spec_params() == states[0].spec_params(),
            vectors.len() > 0 ==> states.last().entry() is Some,
            forall|i: int|
                0 <= i < vectors.len() ==> match states[0].spec_params().metric {
                    DistanceMetric::Cosine => math.normalized(#[trigger] vectors[i]) == Some(
                        states.last().nodes()[i].vector,
                    ),
                    _ => states.last().nodes()[i].vector == vectors[i],
                },
        decreases vectors.len(),
    {
        let n = vectors.len() as int;
        let params = states[0].spec_params();
        if n > 0 {
            let d = vectors.drop_last();
            let st = states.drop_last();
            assert(Self::is_built(math, st, d)) by {
                assert forall|i: int| 0 <= i < st.len() implies (#[trigger] st[i]).wf() by {
                    assert(st[i] == states[i]);
                }
                assert forall|i: int| 0 <= i < d.len() implies insert::inserts(
                    math,
                    st[i],
                    #[trigger] d[i],
                    st[i + 1],
                ) by {
                    assert(d[i] == vectors[i]);
                    assert(st[i] == states[i] && st[i + 1] == states[i + 1]);
                }
            }
            assert(st[0] == states[0]);
            assert(st.last() == states[n - 1]);
            Self::lemma_built_is_whole(math, st, d);
            let before = states[n - 1];
            let after = states[n];
            assert(insert::inserts(math, before, vectors[n - 1], after));
            let nodes = before.nodes();
            assert forall|x: int| 0 <= x < nodes.len() implies (#[trigger] nodes[x]).layers[0].len()
                < params.m_max_0 by {
                let list = nodes[x].layers[0];
                let more = list.push(x as u32);
                assert forall|i: int| 0 <= i < list.len() implies #[trigger] list[i] != x as u32
                    && list[i] < nodes.len() by {
                    assert(graph::is_neighbor(nodes, 0, x as u32, list[i]));
                }
                assert(more.no_duplicates());
                assert forall|i: int| 0 <= i < more.len() implies (#[trigger] more[i])
                    < nodes.len() by {
                    if i < list.len() {
                        assert(more[i] == list[i]);
                    }
                }
                lemma_count(more, nodes.len());
            }
            lemma_insert(math, before, vectors[n - 1], after);
            lemma_insert_connects(math, before, vectors[n - 1], after);
            assert forall|x: int| 0 <= x < after.nodes().len() implies !(
            #[trigger] after.nodes()[x]).deleted by {
                if x < nodes.len() {
                    assert(!nodes[x].deleted);
                }
            }
            assert forall|i: int| 0 <= i < vectors.len() implies match params.metric {
                DistanceMetric::Cosine => math.normalized(#[trigger] vectors[i]) == Some(
                    after.nodes()[i].vector,
                ),
                _ => after.nodes()[i].vector == vectors[i],
            } by {
                if i < n - 1 {
                    assert(d[i] == vectors[i]);
                    assert(after.nodes()[i].vector == nodes[i].vector);
                }
            }
            assert(states.last() == after);
        }
    }
}

} // verus!
