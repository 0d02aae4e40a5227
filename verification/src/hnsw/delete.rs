//! Deletion of nodes.
//!
//! A deleted node stays in the graph, so that walks may lead through it, but
//! is left out of results. Its live neighbours lose their link to it and get
//! new ones in its place.

use crate::error::{invalid_argument, Result};
use crate::hnsw::graph;
use crate::hnsw::graph::{NodeView, Nodes};
use crate::hnsw::insert;
use crate::hnsw::math::VectorMath;
use crate::hnsw::search;
use crate::hnsw::search::Candidate;
use crate::hnsw::select;
use crate::hnsw::{EntryPoint, HnswIndex, HnswParams, NodeId};
use vstd::prelude::*;

verus! {

/// `list` without `id`.
pub open spec fn drop_id(list: Seq<u32>, id: u32) -> Seq<u32>
    decreases list.len(),
{
    if list.len() == 0 {
        list
    } else {
        let before = drop_id(list.drop_last(), id);
        if list.last() == id {
            before
        } else {
            before.push(list.last())
        }
    }
}

/// The live nodes of `list`.
pub open spec fn live_ids(nodes: Nodes, list: Seq<u32>) -> Seq<u32>
    decreases list.len(),
{
    if list.len() == 0 {
        list
    } else {
        let before = live_ids(nodes, list.drop_last());
        if nodes[list.last() as int].deleted {
            before
        } else {
            before.push(list.last())
        }
    }
}

/// The live candidates of `s` that `n` could be linked to: others than `n`
/// that are not in `list`.
pub open spec fn novel(nodes: Nodes, s: Seq<Candidate>, n: u32, list: Seq<u32>) -> Seq<Candidate>
    decreases s.len(),
{
    if s.len() == 0 {
        s
    } else {
        let before = novel(nodes, s.drop_last(), n, list);
        let c = s.last();
        if nodes[c.id as int].deleted || c.id == n || list.contains(c.id) {
            before
        } else {
            before.push(c)
        }
    }
}

/// The nodes with `n` linked to each of `list` at `layer`, and back; the
/// lists of the others are cut to their caps.
pub open spec fn wired<M: VectorMath>(
    math: &M,
    params: HnswParams,
    nodes: Nodes,
    n: u32,
    layer: int,
    list: Seq<u32>,
) -> Nodes
    decreases list.len(),
{
    if list.len() == 0 {
        nodes
    } else {
        let before = wired(math, params, nodes, n, layer, list.drop_last());
        let c = list.last();
        let there = insert::push_layer(before, n as int, layer, c);
        insert::trim_layer(
            math,
            params,
            insert::push_layer(there, c as int, layer, n),
            c as int,
            layer,
        )
    }
}

/// The nodes without the link from `n` to `id` at `layer`.
pub open spec fn unlinked(nodes: Nodes, n: u32, layer: int, id: u32) -> Nodes {
    select::set_layer(nodes, n as int, layer, drop_id(nodes[n as int].layers[layer], id))
}

/// The nodes `base` with `n` linked at `layer` to new neighbours chosen from
/// the beam `s`.
pub open spec fn relinked<M: VectorMath>(
    math: &M,
    params: HnswParams,
    base: Nodes,
    n: u32,
    layer: int,
    s: Seq<Candidate>,
) -> Nodes {
    let fresh = novel(base, s, n, base[n as int].layers[layer]);
    let list = insert::chosen(math, params, base, fresh);
    insert::trim_layer(math, params, wired(math, params, base, n, layer, list), n as int, layer)
}

/// `after` is `nodes` with the links of `n` at `layer` repaired after the
/// deletion of `id`: the link to `id` is gone, and new ones to nodes that a
/// beam search from `n` finds are in its place.
pub open spec fn repaired_node<M: VectorMath>(
    math: &M,
    params: HnswParams,
    nodes: Nodes,
    n: u32,
    layer: int,
    id: u32,
    after: Nodes,
) -> bool {
    let base = unlinked(nodes, n, layer, id);
    exists|s: Seq<Candidate>|
        #[trigger] search::is_beam(
            math,
            params.metric,
            base,
            base[n as int].vector,
            n,
            layer,
            params.ef_construction as int,
            s,
        ) && after == relinked(math, params, base, n, layer, s)
}

/// `after` is `nodes` with the links of each of `affected` repaired in turn.
pub open spec fn repaired_all<M: VectorMath>(
    math: &M,
    params: HnswParams,
    nodes: Nodes,
    affected: Seq<u32>,
    layer: int,
    id: u32,
    after: Nodes,
) -> bool
    decreases affected.len(),
{
    if affected.len() == 0 {
        after == nodes
    } else {
        exists|mid: Nodes|
            repaired_all(
                math,
                params,
                nodes,
                affected.drop_last(),
                layer,
                id,
                mid,
            ) && #[trigger] repaired_node(math, params, mid, affected.last(), layer, id, after)
    }
}

/// `after` is `nodes` with the links of the live neighbours of `id` at `layer`
/// repaired.
pub open spec fn repaired_layer<M: VectorMath>(
    math: &M,
    params: HnswParams,
    nodes: Nodes,
    id: u32,
    layer: int,
    after: Nodes,
) -> bool {
    repaired_all(
        math,
        params,
        nodes,
        live_ids(nodes, nodes[id as int].layers[layer]),
        layer,
        id,
        after,
    )
}

/// `after` is `nodes` with the links of the live neighbours of `id` repaired
/// at the layers below `count`, from 0 up.
pub open spec fn repaired_layers<M: VectorMath>(
    math: &M,
    params: HnswParams,
    nodes: Nodes,
    id: u32,
    count: int,
    after: Nodes,
) -> bool
    decreases count,
{
    if count <= 0 {
        after == nodes
    } else {
        exists|mid: Nodes|
            repaired_layers(math, params, nodes, id, count - 1, mid) && #[trigger] repaired_layer(
                math,
                params,
                mid,
                id,
                count - 1,
                after,
            )
    }
}

/// The nodes with `id` marked as deleted.
pub open spec fn marked(nodes: Nodes, id: int) -> Nodes {
    nodes.update(
        id,
        NodeView { vector: nodes[id].vector, layers: nodes[id].layers, deleted: true },
    )
}

/// What every step of a repair keeps: only links change, none to `id` is
/// added, and the lists of deleted nodes stay.
pub open spec fn kept(a: Nodes, b: Nodes, id: u32) -> bool {
    &&& insert::same_but_links(a, b)
    &&& graph::shape_ok(b)
    &&& graph::links_ok(b)
    &&& forall|x: int, l: int|
        graph::has_layer(a, x, l) ==> {
            &&& a[x].deleted ==> #[trigger] b[x].layers[l] == a[x].layers[l]
            &&& !a[x].layers[l].contains(id) ==> !b[x].layers[l].contains(id)
        }
}

pub(crate) proof fn lemma_kept_self(a: Nodes, id: u32)
    requires
        graph::shape_ok(a),
        graph::links_ok(a),
    ensures
        kept(a, a, id),
{
}

pub(crate) proof fn lemma_kept_transitive(a: Nodes, b: Nodes, c: Nodes, id: u32)
    requires
        kept(a, b, id),
        kept(b, c, id),
    ensures
        kept(a, c, id),
{
    insert::lemma_same_links_transitive(a, b, c);
    assert forall|x: int, l: int| graph::has_layer(a, x, l) implies {
        &&& a[x].deleted ==> #[trigger] c[x].layers[l] == a[x].layers[l]
        &&& !a[x].layers[l].contains(id) ==> !c[x].layers[l].contains(id)
    } by {
        assert(b[x].deleted == a[x].deleted);
        assert(b[x].layers.len() == a[x].layers.len());
        assert(graph::has_layer(b, x, l));
        assert(b[x].layers[l] == b[x].layers[l]);
    }
}

/// Replacing a list of a live node, without a new link to `id`.
proof fn lemma_kept_set(nodes: Nodes, x: int, layer: int, list: Seq<u32>, id: u32)
    requires
        graph::shape_ok(nodes),
        graph::links_ok(nodes),
        graph::has_layer(nodes, x, layer),
        !nodes[x].deleted,
        insert::all_have_layer(nodes, list, layer),
        list.contains(id) ==> nodes[x].layers[layer].contains(id),
    ensures
        kept(nodes, select::set_layer(nodes, x, layer, list), id),
{
    let t = select::set_layer(nodes, x, layer, list);
    insert::lemma_set_layer(nodes, arbitrary(), x, layer, list);
    assert forall|i: int, l: int| graph::has_layer(nodes, i, l) implies {
        &&& nodes[i].deleted ==> #[trigger] t[i].layers[l] == nodes[i].layers[l]
        &&& !nodes[i].layers[l].contains(id) ==> !t[i].layers[l].contains(id)
    } by {
        if !(i == x && l == layer) {
            assert(t[i].layers[l] == nodes[i].layers[l]);
        }
    }
}

proof fn lemma_kept_push(nodes: Nodes, x: int, layer: int, c: u32, id: u32)
    requires
        graph::shape_ok(nodes),
        graph::links_ok(nodes),
        graph::has_layer(nodes, x, layer),
        graph::has_layer(nodes, c as int, layer),
        !nodes[x].deleted,
        c != id,
    ensures
        kept(nodes, insert::push_layer(nodes, x, layer, c), id),
{
    let list = nodes[x].layers[layer];
    let more = list.push(c);
    assert(insert::all_have_layer(nodes, more, layer)) by {
        assert forall|i: int| 0 <= i < more.len() implies graph::has_layer(
            nodes,
            #[trigger] more[i] as int,
            layer,
        ) by {
            if i < list.len() {
                assert(graph::has_layer(nodes, nodes[x].layers[layer][i] as int, layer));
            }
        }
    }
    if more.contains(id) {
        let i = choose|i: int| 0 <= i < more.len() && more[i] == id;
        assert(list[i] == id);
    }
    lemma_kept_set(nodes, x, layer, more, id);
}

proof fn lemma_kept_trim<M: VectorMath>(
    math: &M,
    params: HnswParams,
    nodes: Nodes,
    x: int,
    layer: int,
    id: u32,
)
    requires
        graph::shape_ok(nodes),
        graph::links_ok(nodes),
        graph::has_layer(nodes, x, layer),
        !nodes[x].deleted,
    ensures
        kept(nodes, insert::trim_layer(math, params, nodes, x, layer), id),
        insert::trim_layer(math, params, nodes, x, layer)[x].layers[layer].len()
            <= graph::trim_cap(params, layer),
{
    let list = nodes[x].layers[layer];
    let cap = graph::trim_cap(params, layer);
    let cut = select::trimmed(math, params.metric, nodes, nodes[x].vector, list, cap);
    select::lemma_trimmed_members(math, params.metric, nodes, nodes[x].vector, list, cap);
    assert(insert::all_have_layer(nodes, cut, layer)) by {
        assert forall|i: int| 0 <= i < cut.len() implies graph::has_layer(
            nodes,
            #[trigger] cut[i] as int,
            layer,
        ) by {
            assert(list.contains(cut[i]));
            let k = choose|k: int| 0 <= k < list.len() && list[k] == cut[i];
            assert(graph::has_layer(nodes, nodes[x].layers[layer][k] as int, layer));
        }
    }
    if cut.contains(id) {
        let i = choose|i: int| 0 <= i < cut.len() && cut[i] == id;
        assert(list.contains(cut[i]));
    }
    lemma_kept_set(nodes, x, layer, cut, id);
}

/// No list is over its cap, but for that of `n` at `layer`.
pub open spec fn caps_but(nodes: Nodes, params: HnswParams, n: int, layer: int) -> bool {
    forall|x: int, l: int|
        graph::has_layer(nodes, x, l) && !(x == n && l == layer) ==> (
        #[trigger] nodes[x].layers[l]).len() <= graph::degree_cap(params, l)
}

proof fn lemma_caps_set(
    nodes: Nodes,
    params: HnswParams,
    n: int,
    layer: int,
    x: int,
    list: Seq<u32>,
)
    requires
        caps_but(nodes, params, n, layer),
        graph::has_layer(nodes, x, layer),
        x == n || list.len() <= graph::degree_cap(params, layer),
    ensures
        caps_but(select::set_layer(nodes, x, layer, list), params, n, layer),
        x == n && list.len() <= graph::degree_cap(params, layer) ==> graph::within_caps(
            select::set_layer(nodes, x, layer, list),
            params,
        ),
{
    let t = select::set_layer(nodes, x, layer, list);
    assert forall|i: int, l: int|
        graph::has_layer(t, i, l) && !(i == n && l == layer) implies (
    #[trigger] t[i].layers[l]).len() <= graph::degree_cap(params, l) by {
        if !(i == x && l == layer) {
            assert(t[i].layers[l] == nodes[i].layers[l]);
        }
    }
    if x == n && list.len() <= graph::degree_cap(params, layer) {
        assert forall|i: int, l: int| graph::has_layer(t, i, l) implies (
        #[trigger] t[i].layers[l]).len() <= graph::degree_cap(params, l) by {
            if i == x && l == layer {
                assert(t[i].layers[l] == list);
            }
        }
    }
}

/// All of `list` are live, appear at `layer`, and are not `n`.
pub open spec fn linkable(nodes: Nodes, list: Seq<u32>, layer: int, n: u32) -> bool {
    forall|i: int|
        0 <= i < list.len() ==> {
            &&& graph::has_layer(nodes, #[trigger] list[i] as int, layer)
            &&& !nodes[list[i] as int].deleted
            &&& list[i] != n
        }
}

proof fn lemma_linkable_same(a: Nodes, b: Nodes, list: Seq<u32>, layer: int, n: u32)
    requires
        linkable(a, list, layer, n),
        insert::same_but_links(a, b),
    ensures
        linkable(b, list, layer, n),
{
    assert forall|i: int| 0 <= i < list.len() implies {
        &&& graph::has_layer(b, #[trigger] list[i] as int, layer)
        &&& !b[list[i] as int].deleted
        &&& list[i] != n
    } by {
        let x = list[i] as int;
        assert(b[x].deleted == a[x].deleted);
        assert(b[x].layers.len() == a[x].layers.len());
    }
}

/// One link of `wired`.
proof fn lemma_wire_one<M: VectorMath>(
    math: &M,
    params: HnswParams,
    nodes: Nodes,
    n: u32,
    layer: int,
    c: u32,
    id: u32,
)
    requires
        graph::shape_ok(nodes),
        graph::links_ok(nodes),
        graph::has_layer(nodes, n as int, layer),
        graph::has_layer(nodes, c as int, layer),
        !nodes[n as int].deleted,
        !nodes[c as int].deleted,
        c != n,
        0 <= id < nodes.len(),
        nodes[id as int].deleted,
    ensures
        ({
            let there = insert::push_layer(nodes, n as int, layer, c);
            let back = insert::push_layer(there, c as int, layer, n);
            let t = insert::trim_layer(math, params, back, c as int, layer);
            &&& kept(nodes, there, id)
            &&& kept(nodes, back, id)
            &&& kept(nodes, t, id)
            &&& caps_but(nodes, params, n as int, layer) ==> caps_but(t, params, n as int, layer)
        }),
{
    let there = insert::push_layer(nodes, n as int, layer, c);
    let back = insert::push_layer(there, c as int, layer, n);
    let t = insert::trim_layer(math, params, back, c as int, layer);
    lemma_kept_push(nodes, n as int, layer, c, id);
    lemma_kept_push(there, c as int, layer, n, id);
    lemma_kept_transitive(nodes, there, back, id);
    lemma_kept_trim(math, params, back, c as int, layer, id);
    lemma_kept_transitive(nodes, back, t, id);
    if caps_but(nodes, params, n as int, layer) {
        let more = nodes[n as int].layers[layer].push(c);
        lemma_caps_set(nodes, params, n as int, layer, n as int, more);
        let cap = graph::trim_cap(params, layer);
        let cut = select::trimmed(
            math,
            params.metric,
            back,
            back[c as int].vector,
            back[c as int].layers[layer],
            cap,
        );
        select::lemma_trimmed_members(
            math,
            params.metric,
            back,
            back[c as int].vector,
            back[c as int].layers[layer],
            cap,
        );
        lemma_caps_set(there, params, n as int, layer, c as int, cut);
        assert(t[c as int].layers =~= select::set_layer(there, c as int, layer, cut)[c as int].layers);
        assert(t =~= select::set_layer(there, c as int, layer, cut));
    }
}

pub(crate) proof fn lemma_wired<M: VectorMath>(
    math: &M,
    params: HnswParams,
    nodes: Nodes,
    n: u32,
    layer: int,
    list: Seq<u32>,
    id: u32,
)
    requires
        graph::shape_ok(nodes),
        graph::links_ok(nodes),
        graph::has_layer(nodes, n as int, layer),
        !nodes[n as int].deleted,
        linkable(nodes, list, layer, n),
        0 <= id < nodes.len(),
        nodes[id as int].deleted,
    ensures
        kept(nodes, wired(math, params, nodes, n, layer, list), id),
        caps_but(nodes, params, n as int, layer) ==> caps_but(
            wired(math, params, nodes, n, layer, list),
            params,
            n as int,
            layer,
        ),
    decreases list.len(),
{
    if list.len() == 0 {
        lemma_kept_self(nodes, id);
    } else {
        let init = list.drop_last();
        let c = list.last();
        assert(linkable(nodes, init, layer, n)) by {
            assert forall|i: int| 0 <= i < init.len() implies {
                &&& graph::has_layer(nodes, #[trigger] init[i] as int, layer)
                &&& !nodes[init[i] as int].deleted
                &&& init[i] != n
            } by {
                assert(init[i] == list[i]);
            }
        }
        lemma_wired(math, params, nodes, n, layer, init, id);
        let before = wired(math, params, nodes, n, layer, init);
        lemma_linkable_same(nodes, before, list, layer, n);
        assert(list[list.len() - 1] == c);
        assert(before[n as int].deleted == nodes[n as int].deleted);
        assert(before[n as int].layers.len() == nodes[n as int].layers.len());
        assert(before[id as int].deleted == nodes[id as int].deleted);
        lemma_wire_one(math, params, before, n, layer, c, id);
        let t = wired(math, params, nodes, n, layer, list);
        lemma_kept_transitive(nodes, before, t, id);
    }
}

/// What may be linked anew is live, other than `n` and not linked yet.
pub(crate) proof fn lemma_novel(nodes: Nodes, s: Seq<Candidate>, n: u32, list: Seq<u32>)
    ensures
        select::all_in(novel(nodes, s, n, list), s),
        forall|i: int|
            0 <= i < novel(nodes, s, n, list).len() ==> {
                let c = #[trigger] novel(nodes, s, n, list)[i];
                !nodes[c.id as int].deleted && c.id != n && !list.contains(c.id)
            },
    decreases s.len(),
{
    if s.len() > 0 {
        let d = s.drop_last();
        lemma_novel(nodes, d, n, list);
        let before = novel(nodes, d, n, list);
        let t = novel(nodes, s, n, list);
        assert forall|i: int| 0 <= i < t.len() implies s.contains(#[trigger] t[i]) && {
            let c = t[i];
            !nodes[c.id as int].deleted && c.id != n && !list.contains(c.id)
        } by {
            if i < before.len() {
                assert(t[i] == before[i]);
                assert(d.contains(before[i]));
                let j = choose|j: int| 0 <= j < d.len() && d[j] == before[i];
                assert(s[j] == before[i]);
            } else {
                assert(s[s.len() - 1] == t[i]);
            }
        }
    }
}

/// What is chosen of the novel candidates of a beam can be linked.
pub(crate) proof fn lemma_novel_linkable<M: VectorMath>(
    math: &M,
    params: HnswParams,
    base: Nodes,
    n: u32,
    layer: int,
    s: Seq<Candidate>,
)
    requires
        forall|i: int|
            0 <= i < s.len() ==> graph::has_layer(base, (#[trigger] s[i]).id as int, layer),
    ensures
        linkable(
            base,
            insert::chosen(math, params, base, novel(base, s, n, base[n as int].layers[layer])),
            layer,
            n,
        ),
        forall|i: int|
            0 <= i < novel(base, s, n, base[n as int].layers[layer]).len() ==> (#[trigger] novel(
                base,
                s,
                n,
                base[n as int].layers[layer],
            )[i]).id < base.len(),
{
    let old_list = base[n as int].layers[layer];
    let fresh = novel(base, s, n, old_list);
    let sorted = select::stable_sort(fresh);
    let picked = select::select(math, params.metric, base, sorted, params.m as int);
    let list = insert::chosen(math, params, base, fresh);
    lemma_novel(base, s, n, old_list);
    select::lemma_sort_members(fresh);
    select::lemma_select_members(math, params.metric, base, sorted, params.m as int);
    assert forall|i: int| 0 <= i < fresh.len() implies graph::has_layer(
        base,
        (#[trigger] fresh[i]).id as int,
        layer,
    ) by {
        assert(s.contains(fresh[i]));
        let k = choose|k: int| 0 <= k < s.len() && s[k] == fresh[i];
        assert(graph::has_layer(base, s[k].id as int, layer));
    }
    assert forall|i: int| 0 <= i < list.len() implies {
        &&& graph::has_layer(base, #[trigger] list[i] as int, layer)
        &&& !base[list[i] as int].deleted
        &&& list[i] != n
    } by {
        assert(sorted.contains(picked[i]));
        let j = choose|j: int| 0 <= j < sorted.len() && sorted[j] == picked[i];
        assert(fresh.contains(sorted[j]));
        let k = choose|k: int| 0 <= k < fresh.len() && fresh[k] == sorted[j];
        assert(graph::has_layer(base, fresh[k].id as int, layer));
        assert(list[i] == fresh[k].id);
    }
}

/// `drop_id` removes `id` and adds nothing.
pub(crate) proof fn lemma_drop_id(list: Seq<u32>, id: u32)
    ensures
        !drop_id(list, id).contains(id),
        drop_id(list, id).len() <= list.len(),
        forall|i: int|
            0 <= i < drop_id(list, id).len() ==> list.contains(#[trigger] drop_id(list, id)[i]),
    decreases list.len(),
{
    if list.len() > 0 {
        let init = list.drop_last();
        lemma_drop_id(init, id);
        let before = drop_id(init, id);
        let t = drop_id(list, id);
        assert forall|i: int| 0 <= i < t.len() implies list.contains(#[trigger] t[i]) && t[i]
            != id by {
            if i < before.len() {
                assert(t[i] == before[i]);
                assert(init.contains(before[i]));
                let j = choose|j: int| 0 <= j < init.len() && init[j] == before[i];
                assert(list[j] == before[i]);
                if before[i] == id {
                    assert(before.contains(id));
                }
            } else {
                assert(list[list.len() - 1] == t[i]);
            }
        }
    }
}

/// Removing a link keeps the graph, and the link is gone.
pub(crate) proof fn lemma_unlinked(nodes: Nodes, params: HnswParams, n: u32, layer: int, id: u32)
    requires
        graph::shape_ok(nodes),
        graph::links_ok(nodes),
        graph::has_layer(nodes, n as int, layer),
        !nodes[n as int].deleted,
    ensures
        kept(nodes, unlinked(nodes, n, layer, id), id),
        !unlinked(nodes, n, layer, id)[n as int].layers[layer].contains(id),
        graph::within_caps(nodes, params) ==> graph::within_caps(
            unlinked(nodes, n, layer, id),
            params,
        ),
{
    let list = nodes[n as int].layers[layer];
    let cut = drop_id(list, id);
    lemma_drop_id(list, id);
    assert(insert::all_have_layer(nodes, cut, layer)) by {
        assert forall|i: int| 0 <= i < cut.len() implies graph::has_layer(
            nodes,
            #[trigger] cut[i] as int,
            layer,
        ) by {
            assert(list.contains(cut[i]));
            let k = choose|k: int| 0 <= k < list.len() && list[k] == cut[i];
            assert(graph::has_layer(nodes, nodes[n as int].layers[layer][k] as int, layer));
        }
    }
    lemma_kept_set(nodes, n as int, layer, cut, id);
    insert::lemma_set_layer(nodes, params, n as int, layer, cut);
    if graph::within_caps(nodes, params) {
        assert(nodes[n as int].layers[layer].len() <= graph::degree_cap(params, layer));
    }
}

/// A repaired node no longer links to `id`, and everything else is kept.
pub(crate) proof fn lemma_relinked<M: VectorMath>(
    math: &M,
    params: HnswParams,
    base: Nodes,
    n: u32,
    layer: int,
    s: Seq<Candidate>,
    id: u32,
)
    requires
        graph::shape_ok(base),
        graph::links_ok(base),
        graph::has_layer(base, n as int, layer),
        !base[n as int].deleted,
        0 <= id < base.len(),
        base[id as int].deleted,
        forall|i: int|
            0 <= i < s.len() ==> graph::has_layer(base, (#[trigger] s[i]).id as int, layer),
    ensures
        kept(base, relinked(math, params, base, n, layer, s), id),
        graph::within_caps(base, params) ==> graph::within_caps(
            relinked(math, params, base, n, layer, s),
            params,
        ),
{
    let fresh = novel(base, s, n, base[n as int].layers[layer]);
    let list = insert::chosen(math, params, base, fresh);
    let w = wired(math, params, base, n, layer, list);
    let t = relinked(math, params, base, n, layer, s);
    lemma_novel_linkable(math, params, base, n, layer, s);
    lemma_wired(math, params, base, n, layer, list, id);
    assert(w[n as int].deleted == base[n as int].deleted);
    assert(w[n as int].layers.len() == base[n as int].layers.len());
    lemma_kept_trim(math, params, w, n as int, layer, id);
    lemma_kept_transitive(base, w, t, id);
    if graph::within_caps(base, params) {
        assert(caps_but(base, params, n as int, layer));
        let cut = t[n as int].layers[layer];
        let cap = graph::trim_cap(params, layer);
        let trimmed = select::trimmed(
            math,
            params.metric,
            w,
            w[n as int].vector,
            w[n as int].layers[layer],
            cap,
        );
        assert(cut == trimmed);
        lemma_caps_set(w, params, n as int, layer, n as int, trimmed);
    }
}

/// The live nodes of a list are in the list and live.
pub(crate) proof fn lemma_live_ids(nodes: Nodes, list: Seq<u32>)
    ensures
        forall|i: int|
            0 <= i < live_ids(nodes, list).len() ==> {
                &&& list.contains(#[trigger] live_ids(nodes, list)[i])
                &&& !nodes[live_ids(nodes, list)[i] as int].deleted
            },
        forall|x: u32|
            list.contains(x) && !nodes[x as int].deleted ==> #[trigger] live_ids(
                nodes,
                list,
            ).contains(x),
    decreases list.len(),
{
    if list.len() > 0 {
        let init = list.drop_last();
        lemma_live_ids(nodes, init);
        let before = live_ids(nodes, init);
        let t = live_ids(nodes, list);
        assert forall|i: int| 0 <= i < t.len() implies {
            &&& list.contains(#[trigger] t[i])
            &&& !nodes[t[i] as int].deleted
        } by {
            if i < before.len() {
                assert(t[i] == before[i]);
                assert(init.contains(before[i]));
                let j = choose|j: int| 0 <= j < init.len() && init[j] == before[i];
                assert(list[j] == before[i]);
            } else {
                assert(list[list.len() - 1] == t[i]);
            }
        }
        assert forall|x: u32| list.contains(x) && !nodes[x as int].deleted implies #[trigger] live_ids(
            nodes,
            list,
        ).contains(x) by {
            let j = choose|j: int| 0 <= j < list.len() && list[j] == x;
            if j < init.len() {
                assert(init[j] == x);
                assert(before.contains(x));
                let k = choose|k: int| 0 <= k < before.len() && before[k] == x;
                assert(t[k] == x);
            } else {
                assert(t[before.len() as int] == x);
            }
        }
    }
}

/// One live node less.
proof fn lemma_marked_count(nodes: Nodes, id: int)
    requires
        graph::is_live(nodes, id),
    ensures
        graph::live_count(marked(nodes, id)) + 1 == graph::live_count(nodes),
    decreases nodes.len(),
{
    let t = marked(nodes, id);
    if id == nodes.len() - 1 {
        assert(t.drop_last() =~= nodes.drop_last());
    } else {
        assert(t.drop_last() =~= marked(nodes.drop_last(), id));
        lemma_marked_count(nodes.drop_last(), id);
    }
}

/// No live neighbour of `id` at the layers below `count` links to it.
pub open spec fn cut_off(before: Nodes, after: Nodes, id: u32, count: int) -> bool {
    forall|l: int, n: u32|
        0 <= l < count && #[trigger] graph::is_neighbor(before, l, id, n)
            && !before[n as int].deleted ==> !after[n as int].layers[l].contains(id)
}

/// Deleting the live node `id` of `before` gives `after`: the links of its
/// neighbours are repaired at each of its layers, and if it was the entry
/// point, the last live node at the highest layer takes its place.
pub open spec fn deletes<M: VectorMath>(
    math: &M,
    before: HnswIndex,
    id: NodeId,
    after: HnswIndex,
) -> bool {
    let nodes = before.nodes();
    &&& graph::is_live(nodes, id as int)
    &&& after.spec_params() == before.spec_params()
    &&& after.spec_dim() == before.spec_dim()
    &&& after.spec_draws() == before.spec_draws()
    &&& repaired_layers(
        math,
        before.spec_params(),
        marked(nodes, id as int),
        id,
        nodes[id as int].layers.len() as int,
        after.nodes(),
    )
    &&& if before.entry() matches Some(e) && e.node == id {
        &&& graph::entry_leads(after.nodes(), after.entry())
        &&& graph::entry_is_last(after.nodes(), after.entry())
    } else {
        after.entry() == before.entry()
    }
}

impl HnswIndex {
    /// Repairs the links of `n` at `layer` after the deletion of `id`.
    fn repair_node<M: VectorMath>(&mut self, math: &M, n: NodeId, layer: u8, id: NodeId)
        requires
            old(self).wf(),
            math.ready(),
            graph::has_layer(old(self).nodes(), n as int, layer as int),
            !old(self).nodes()[n as int].deleted,
            id < old(self).nodes().len(),
            old(self).nodes()[id as int].deleted,
        ensures
            repaired_node(
                math,
                old(self).spec_params(),
                old(self).nodes(),
                n,
                layer as int,
                id,
                final(self).nodes(),
            ),
            kept(old(self).nodes(), final(self).nodes(), id),
            !final(self).nodes()[n as int].layers[layer as int].contains(id),
            graph::within_caps(old(self).nodes(), old(self).spec_params()) ==> graph::within_caps(
                final(self).nodes(),
                old(self).spec_params(),
            ),
            final(self).entry() == old(self).entry(),
            final(self).spec_params() == old(self).spec_params(),
            final(self).spec_dim() == old(self).spec_dim(),
            final(self).spec_draws() == old(self).spec_draws(),
    {
        let ghost nodes0 = self.nodes();
        let ghost params = self.spec_params();
        let ghost entry = self.entry();
        let ghost lay = layer as int;
        let m_max = if layer == 0 {
            self.params.m_max_0
        } else {
            self.params.m
        };
        // The link to the deleted node goes.
        let rest = self.list_without(n, layer, id);
        self.set_list(n, layer, rest);
        let ghost base = self.nodes();
        proof {
            lemma_unlinked(nodes0, params, n, lay, id);
            insert::lemma_entry_same(nodes0, base, entry);
            assert(base == unlinked(nodes0, n, lay, id));
            assert(base[n as int].deleted == nodes0[n as int].deleted);
            assert(base[id as int].deleted == nodes0[id as int].deleted);
        }
        // New neighbours come from a beam search.
        let vector = self.copy_vector(n);
        let beam = self.search_layer(
            math,
            vector.as_slice(),
            n,
            layer,
            self.params.ef_construction,
        );
        let ghost s = beam@;
        let fresh = self.keep_novel(&beam, n, layer);
        proof {
            lemma_novel_linkable(math, params, base, n, lay, s);
        }
        let chosen = self.select_neighbors_heuristic(math, &fresh, self.params.m);
        let list = select::candidate_ids(&chosen);
        let ghost picked = list@;
        proof {
            assert(picked == insert::chosen(
                math,
                params,
                base,
                novel(base, s, n, base[n as int].layers[lay]),
            ));
            lemma_kept_self(base, id);
        }
        let count = list.len();
        for i in 0..count
            invariant
                count == list@.len(),
                list@ == picked,
                math.ready(),
                lay == layer as int,
                params == self.spec_params(),
                params == old(self).spec_params(),
                m_max == graph::trim_cap(params, lay),
                self.entry() == entry,
                self.spec_dim() == old(self).spec_dim(),
                self.spec_draws() == old(self).spec_draws(),
                graph::shape_ok(base),
                graph::links_ok(base),
                graph::has_layer(base, n as int, lay),
                !base[n as int].deleted,
                linkable(base, picked, lay, n),
                id < base.len(),
                base[id as int].deleted,
                kept(base, self.nodes(), id),
                self.nodes() == wired(math, params, base, n, lay, picked.take(i as int)),
        {
            let c = list[i];
            let ghost now = self.nodes();
            proof {
                lemma_linkable_same(base, now, picked, lay, n);
                assert(picked[i as int] == c);
                assert(now[n as int].deleted == base[n as int].deleted);
                assert(now[n as int].layers.len() == base[n as int].layers.len());
                assert(now[id as int].deleted == base[id as int].deleted);
                lemma_wire_one(math, params, now, n, lay, c, id);
                let there = insert::push_layer(now, n as int, lay, c);
                assert(there[n as int].layers.len() == now[n as int].layers.len());
                assert(there[c as int].layers.len() == now[c as int].layers.len());
                assert(picked.take(i + 1).drop_last() =~= picked.take(i as int));
            }
            let mut grown = self.copy_list(n, layer);
            grown.push(c);
            self.set_list(n, layer, grown);
            self.link_one(math, c, layer, n, m_max);
            proof {
                lemma_kept_transitive(base, now, self.nodes(), id);
            }
        }
        let ghost w = self.nodes();
        proof {
            assert(picked.take(count as int) =~= picked);
            assert(w[n as int].layers.len() == base[n as int].layers.len());
            assert forall|j: int| 0 <= j < w[n as int].layers[lay].len() implies (
            #[trigger] w[n as int].layers[lay][j]) < w.len() by {
                assert(graph::has_layer(w, w[n as int].layers[lay][j] as int, lay));
            }
        }
        self.trim_neighbors(math, n, layer, m_max);
        proof {
            let after = self.nodes();
            assert(after == relinked(math, params, base, n, lay, s));
            lemma_relinked(math, params, base, n, lay, s, id);
            lemma_kept_transitive(nodes0, base, after, id);
            assert(graph::has_layer(base, n as int, lay));
            assert(after[n as int].layers[lay] == after[n as int].layers[lay]);
            assert(repaired_node(math, params, nodes0, n, lay, id, after));
        }
    }

    /// The list of `n` at `layer` without `id`.
    fn list_without(&self, n: NodeId, layer: u8, id: NodeId) -> (r: Vec<NodeId>)
        requires
            graph::has_layer(self.nodes(), n as int, layer as int),
        ensures
            r@ == drop_id(self.nodes()[n as int].layers[layer as int], id),
    {
        let list = &self.nodes[n as usize].neighbors[layer as usize];
        let ghost all = self.nodes()[n as int].layers[layer as int];
        assert(list@ == all);
        let mut out: Vec<NodeId> = Vec::new();
        let count = list.len();
        for i in 0..count
            invariant
                count == list@.len(),
                list@ == all,
                out@ == drop_id(all.take(i as int), id),
        {
            proof {
                assert(all.take(i + 1).drop_last() =~= all.take(i as int));
                assert(all.take(i + 1).last() == all[i as int]);
            }
            if list[i] != id {
                out.push(list[i]);
            }
        }
        assert(all.take(count as int) =~= all);
        out
    }

    /// The candidates that `n` could be linked to at `layer`.
    fn keep_novel(&self, s: &Vec<Candidate>, n: NodeId, layer: u8) -> (r: Vec<Candidate>)
        requires
            graph::has_layer(self.nodes(), n as int, layer as int),
            forall|i: int|
                0 <= i < s@.len() ==> graph::has_layer(
                    self.nodes(),
                    (#[trigger] s@[i]).id as int,
                    layer as int,
                ),
        ensures
            r@ == novel(self.nodes(), s@, n, self.nodes()[n as int].layers[layer as int]),
    {
        let list = self.copy_list(n, layer);
        let mut out: Vec<Candidate> = Vec::new();
        let count = s.len();
        for i in 0..count
            invariant
                count == s@.len(),
                list@ == self.nodes()[n as int].layers[layer as int],
                forall|j: int|
                    0 <= j < s@.len() ==> graph::has_layer(
                        self.nodes(),
                        (#[trigger] s@[j]).id as int,
                        layer as int,
                    ),
                out@ == novel(self.nodes(), s@.take(i as int), n, list@),
        {
            let c = s[i];
            proof {
                assert(graph::has_layer(self.nodes(), s@[i as int].id as int, layer as int));
                assert(s@.take(i + 1).drop_last() =~= s@.take(i as int));
                assert(s@.take(i + 1).last() == c);
            }
            if !self.nodes[c.id as usize].deleted && c.id != n && !list_holds(&list, c.id) {
                out.push(c);
            }
        }
        assert(s@.take(count as int) =~= s@);
        out
    }

    /// The live neighbours of `id` at `layer`.
    fn live_neighbors(&self, id: NodeId, layer: u8) -> (r: Vec<NodeId>)
        requires
            graph::links_ok(self.nodes()),
            graph::has_layer(self.nodes(), id as int, layer as int),
        ensures
            r@ == live_ids(self.nodes(), self.nodes()[id as int].layers[layer as int]),
    {
        let list = self.copy_list(id, layer);
        let ghost nodes = self.nodes();
        let mut out: Vec<NodeId> = Vec::new();
        let count = list.len();
        for i in 0..count
            invariant
                count == list@.len(),
                nodes == self.nodes(),
                graph::links_ok(nodes),
                graph::has_layer(nodes, id as int, layer as int),
                list@ == nodes[id as int].layers[layer as int],
                out@ == live_ids(nodes, list@.take(i as int)),
        {
            proof {
                assert(graph::has_layer(
                    nodes,
                    nodes[id as int].layers[layer as int][i as int] as int,
                    layer as int,
                ));
                assert(list@.take(i + 1).drop_last() =~= list@.take(i as int));
                assert(list@.take(i + 1).last() == list@[i as int]);
            }
            if !self.nodes[list[i] as usize].deleted {
                out.push(list[i]);
            }
        }
        assert(list@.take(count as int) =~= list@);
        out
    }

    /// Repairs the links of the live neighbours of `id` at `layer`.
    fn repair_layer_after_delete<M: VectorMath>(&mut self, math: &M, id: NodeId, layer: u8)
        requires
            old(self).wf(),
            math.ready(),
            graph::has_layer(old(self).nodes(), id as int, layer as int),
            old(self).nodes()[id as int].deleted,
        ensures
            repaired_layer(
                math,
                old(self).spec_params(),
                old(self).nodes(),
                id,
                layer as int,
                final(self).nodes(),
            ),
            kept(old(self).nodes(), final(self).nodes(), id),
            forall|n: u32|
                #[trigger] graph::is_neighbor(old(self).nodes(), layer as int, id, n) && !old(
                    self,
                ).nodes()[n as int].deleted ==> !final(
                    self).nodes()[n as int].layers[layer as int].contains(id),
            graph::within_caps(old(self).nodes(), old(self).spec_params()) ==> graph::within_caps(
                final(self).nodes(),
                old(self).spec_params(),
            ),
            final(self).entry() == old(self).entry(),
            final(self).spec_params() == old(self).spec_params(),
            final(self).spec_dim() == old(self).spec_dim(),
            final(self).spec_draws() == old(self).spec_draws(),
    {
        let ghost nodes0 = self.nodes();
        let ghost params = self.spec_params();
        let ghost entry = self.entry();
        let ghost lay = layer as int;
        let affected = self.live_neighbors(id, layer);
        let ghost all = affected@;
        proof {
            lemma_live_ids(nodes0, nodes0[id as int].layers[lay]);
            lemma_kept_self(nodes0, id);
        }
        let count = affected.len();
        for i in 0..count
            invariant
                count == affected@.len(),
                affected@ == all,
                all == live_ids(nodes0, nodes0[id as int].layers[lay]),
                lay == layer as int,
                math.ready(),
                graph::shape_ok(nodes0),
                graph::links_ok(nodes0),
                graph::entry_ok(nodes0, entry),
                graph::has_layer(nodes0, id as int, lay),
                nodes0[id as int].deleted,
                params == self.spec_params(),
                params == old(self).spec_params(),
                self.entry() == entry,
                self.spec_dim() == old(self).spec_dim(),
                self.spec_draws() == old(self).spec_draws(),
                kept(nodes0, self.nodes(), id),
                graph::entry_ok(self.nodes(), entry),
                graph::within_caps(nodes0, params) ==> graph::within_caps(self.nodes(), params),
                repaired_all(
                    math,
                    params,
                    nodes0,
                    all.take(i as int),
                    lay,
                    id,
                    self.nodes(),
                ),
                forall|j: int|
                    0 <= j < i ==> !self.nodes()[(#[trigger] all[j]) as int].layers[lay].contains(
                        id,
                    ),
        {
            let n = affected[i];
            let ghost now = self.nodes();
            proof {
                lemma_affected(nodes0, id, lay, n, i as int);
                assert(now[n as int].deleted == nodes0[n as int].deleted);
                assert(now[n as int].layers.len() == nodes0[n as int].layers.len());
                assert(now[id as int].deleted == nodes0[id as int].deleted);
            }
            self.repair_node(math, n, layer, id);
            proof {
                let after = self.nodes();
                lemma_kept_transitive(nodes0, now, after, id);
                insert::lemma_entry_same(nodes0, after, entry);
                lemma_repaired_step(
                    math,
                    params,
                    nodes0,
                    all,
                    i as int,
                    lay,
                    id,
                    now,
                    after,
                );
                lemma_stays_cut(nodes0, id, lay, now, after, i as int);
            }
        }
        proof {
            assert(all.take(count as int) =~= all);
            let after = self.nodes();
            assert forall|n: u32|
                #[trigger] graph::is_neighbor(nodes0, lay, id, n)
                    && !nodes0[n as int].deleted implies !after[n as int].layers[lay].contains(
                id,
            ) by {
                assert(all.contains(n));
                let j = choose|j: int| 0 <= j < all.len() && all[j] == n;
                assert(!after[all[j] as int].layers[lay].contains(id));
            }
        }
    }

    /// The last live node at the highest layer; none if no node is live.
    fn pick_new_entry(&self) -> (r: Option<EntryPoint>)
        requires
            graph::shape_ok(self.nodes()),
        ensures
            graph::entry_leads(self.nodes(), r),
            graph::entry_is_last(self.nodes(), r),
            graph::entry_ok(self.nodes(), r),
    {
        let ghost nodes = self.nodes();
        let mut best: Option<EntryPoint> = None;
        let n = self.nodes.len();
        for i in 0..n
            invariant
                n == self.nodes@.len(),
                nodes == self.nodes(),
                graph::shape_ok(nodes),
                match best {
                    None => forall|id: int| 0 <= id < i ==> (#[trigger] nodes[id]).deleted,
                    Some(e) => {
                        &&& e.node < i
                        &&& graph::is_live(nodes, e.node as int)
                        &&& nodes[e.node as int].layers.len() == e.level + 1
                        &&& forall|id: int|
                            0 <= id < i && !nodes[id].deleted ==> (
                            #[trigger] nodes[id]).layers.len() <= e.level + 1
                        &&& forall|id: int|
                            e.node < id < i && !nodes[id].deleted ==> (
                            #[trigger] nodes[id]).layers.len() <= e.level
                    },
                },
        {
            assert(self.nodes@[i as int]@ == nodes[i as int]);
            if !self.nodes[i].deleted {
                assert(1 <= nodes[i as int].layers.len() <= 255);
                let level: u8 = (self.nodes[i].neighbors.len() - 1) as u8;
                let better = match best {
                    None => true,
                    Some(e) => level >= e.level,
                };
                if better {
                    best = Some(EntryPoint { node: i as u32, level });
                }
            }
        }
        best
    }

    /// Removes node `id`. Its live neighbours at every layer lose their link
    /// to it and are linked to others. If it was the entry point, the last live
    /// node at the highest layer takes its place.
    pub fn delete<M: VectorMath>(&mut self, math: &M, id: NodeId) -> (r: Result<()>)
        requires
            old(self).wf(),
            math.ready(),
        ensures
            final(self).wf(),
            final(self).spec_params() == old(self).spec_params(),
            final(self).spec_dim() == old(self).spec_dim(),
            final(self).spec_draws() == old(self).spec_draws(),
            match r {
                Ok(_) => {
                    let nodes = old(self).nodes();
                    let dead = marked(nodes, id as int);
                    let after = final(self).nodes();
                    &&& deletes(math, *old(self), id, *final(self))
                    &&& kept(dead, after, id)
                    &&& cut_off(dead, after, id, nodes[id as int].layers.len() as int)
                    &&& graph::live_count(after) + 1 == graph::live_count(nodes)
                },
                Err(e) => {
                    &&& e is InvalidArgument
                    &&& !graph::is_live(old(self).nodes(), id as int)
                    &&& final(self).nodes() == old(self).nodes()
                    &&& final(self).entry() == old(self).entry()
                },
            },
            graph::within_caps(old(self).nodes(), old(self).spec_params()) ==> graph::within_caps(
                final(self).nodes(),
                old(self).spec_params(),
            ),
            graph::entry_leads(old(self).nodes(), old(self).entry()) ==> graph::entry_leads(
                final(self).nodes(),
                final(self).entry(),
            ),
    {
        if id as usize >= self.nodes.len() {
            return Err(invalid_argument("delete: id out of range"));
        }
        if self.nodes[id as usize].deleted {
            return Err(invalid_argument("delete: id is already deleted"));
        }
        let ghost nodes0 = self.nodes();
        let ghost params = self.spec_params();
        let ghost entry = self.entry();
        self.nodes[id as usize].deleted = true;
        let ghost dead = self.nodes();
        proof {
            assert(dead =~= marked(nodes0, id as int));
            lemma_marked(nodes0, params, entry, id as int);
            lemma_marked_count(nodes0, id as int);
            lemma_kept_self(dead, id);
        }
        let count: usize = self.nodes[id as usize].neighbors.len();
        assert(count == nodes0[id as int].layers.len());
        let mut layer: usize = 0;
        while layer < count
            invariant
                layer <= count,
                count == nodes0[id as int].layers.len(),
                count == dead[id as int].layers.len(),
                count <= 255,
                math.ready(),
                id < dead.len(),
                dead[id as int].deleted,
                graph::shape_ok(dead),
                graph::links_ok(dead),
                params == self.spec_params(),
                params == old(self).spec_params(),
                self.entry() == entry,
                self.spec_dim() == old(self).spec_dim(),
                self.spec_draws() == old(self).spec_draws(),
                kept(dead, self.nodes(), id),
                graph::entry_ok(dead, entry),
                graph::entry_ok(self.nodes(), entry),
                graph::within_caps(dead, params) ==> graph::within_caps(self.nodes(), params),
                repaired_layers(math, params, dead, id, layer as int, self.nodes()),
                cut_off(dead, self.nodes(), id, layer as int),
            decreases count - layer,
        {
            let ghost now = self.nodes();
            proof {
                assert(now[id as int].layers.len() == dead[id as int].layers.len());
                assert(now[id as int].deleted == dead[id as int].deleted);
            }
            self.repair_layer_after_delete(math, id, layer as u8);
            proof {
                let after = self.nodes();
                lemma_kept_transitive(dead, now, after, id);
                insert::lemma_entry_same(dead, after, entry);
                assert(repaired_layer(math, params, now, id, (layer + 1) - 1, after));
                assert(repaired_layers(math, params, dead, id, layer + 1, after));
                assert forall|l: int, n: u32|
                    0 <= l < layer + 1 && #[trigger] graph::is_neighbor(dead, l, id, n)
                        && !dead[n as int].deleted implies !after[n as int].layers[l].contains(
                    id,
                ) by {
                    graph::lemma_neighbor_has_layer(dead, l, id, n);
                    assert(now[n as int].layers.len() == dead[n as int].layers.len());
                    assert(now[n as int].deleted == dead[n as int].deleted);
                    if l < layer {
                        assert(!now[n as int].layers[l].contains(id));
                        assert(graph::has_layer(now, n as int, l));
                        assert(after[n as int].layers[l] == after[n as int].layers[l]);
                    } else {
                        // The list of the deleted node itself has stayed.
                        assert(graph::has_layer(dead, id as int, l));
                        assert(now[id as int].layers[l] == dead[id as int].layers[l]);
                        assert(graph::is_neighbor(now, l, id, n));
                    }
                }
            }
            layer = layer + 1;
        }
        let ghost after = self.nodes();
        let moved = match self.entry {
            Some(e) => e.node == id,
            None => false,
        };
        if moved {
            let next = self.pick_new_entry();
            self.entry = next;
        }
        proof {
            assert(self.nodes() == after);
            insert::lemma_live_same(dead, after);
            if graph::entry_leads(nodes0, entry) && !moved {
                lemma_marked_leads(nodes0, entry, id as int);
                insert::lemma_entry_same(dead, after, entry);
            }
        }
        Ok(())
    }
}

/// One more node is repaired.
proof fn lemma_repaired_step<M: VectorMath>(
    math: &M,
    params: HnswParams,
    nodes: Nodes,
    all: Seq<u32>,
    i: int,
    layer: int,
    id: u32,
    now: Nodes,
    after: Nodes,
)
    requires
        0 <= i < all.len(),
        repaired_all(math, params, nodes, all.take(i), layer, id, now),
        repaired_node(math, params, now, all[i], layer, id, after),
    ensures
        repaired_all(math, params, nodes, all.take(i + 1), layer, id, after),
{
    assert(all.take(i + 1).drop_last() =~= all.take(i));
    assert(all.take(i + 1).last() == all[i]);
}

/// The nodes repaired so far have no link to `id`, and the next has none
/// either.
proof fn lemma_stays_cut(nodes: Nodes, id: u32, layer: int, now: Nodes, after: Nodes, i: int)
    requires
        graph::links_ok(nodes),
        graph::has_layer(nodes, id as int, layer),
        0 <= i < live_ids(nodes, nodes[id as int].layers[layer]).len(),
        insert::same_but_links(nodes, now),
        kept(now, after, id),
        forall|j: int|
            0 <= j < i ==> !now[(#[trigger] live_ids(
                nodes,
                nodes[id as int].layers[layer],
            )[j]) as int].layers[layer].contains(id),
        !after[live_ids(
            nodes,
            nodes[id as int].layers[layer],
        )[i] as int].layers[layer].contains(id),
    ensures
        forall|j: int|
            0 <= j < i + 1 ==> !after[(#[trigger] live_ids(
                nodes,
                nodes[id as int].layers[layer],
            )[j]) as int].layers[layer].contains(id),
{
    let all = live_ids(nodes, nodes[id as int].layers[layer]);
    assert forall|j: int| 0 <= j < i + 1 implies !after[(
    #[trigger] all[j]) as int].layers[layer].contains(id) by {
        if j < i {
            let x = all[j] as int;
            lemma_affected(nodes, id, layer, all[j], j);
            assert(now[x].layers.len() == nodes[x].layers.len());
            assert(graph::has_layer(now, x, layer));
            assert(after[x].layers[layer] == after[x].layers[layer]);
        }
    }
}

/// A live neighbour appears at the layer.
proof fn lemma_affected(nodes: Nodes, id: u32, layer: int, n: u32, i: int)
    requires
        graph::links_ok(nodes),
        graph::has_layer(nodes, id as int, layer),
        0 <= i < live_ids(nodes, nodes[id as int].layers[layer]).len(),
        n == live_ids(nodes, nodes[id as int].layers[layer])[i],
    ensures
        graph::has_layer(nodes, n as int, layer),
        !nodes[n as int].deleted,
{
    let list = nodes[id as int].layers[layer];
    lemma_live_ids(nodes, list);
    assert(list.contains(live_ids(nodes, list)[i]));
    graph::lemma_neighbor_has_layer(nodes, layer, id, n);
}

/// Marking a node as deleted keeps the graph.
proof fn lemma_marked(nodes: Nodes, params: HnswParams, entry: Option<EntryPoint>, id: int)
    requires
        graph::graph_ok(nodes, entry),
        0 <= id < nodes.len(),
    ensures
        graph::graph_ok(marked(nodes, id), entry),
        graph::within_caps(nodes, params) ==> graph::within_caps(marked(nodes, id), params),
{
    let t = marked(nodes, id);
    assert forall|i: int, l: int, j: int|
        #![trigger t[i].layers[l][j]]
        graph::has_layer(t, i, l) && 0 <= j < t[i].layers[l].len() implies graph::has_layer(
        t,
        t[i].layers[l][j] as int,
        l,
    ) by {
        assert(t[i].layers == nodes[i].layers);
        assert(graph::has_layer(nodes, nodes[i].layers[l][j] as int, l));
    }
    if graph::within_caps(nodes, params) {
        assert forall|i: int, l: int| graph::has_layer(t, i, l) implies (
        #[trigger] t[i].layers[l]).len() <= graph::degree_cap(params, l) by {
            assert(t[i].layers[l] == nodes[i].layers[l]);
        }
    }
}

/// Deleting another node leaves the entry point in the lead.
proof fn lemma_marked_leads(nodes: Nodes, entry: Option<EntryPoint>, id: int)
    requires
        graph::entry_leads(nodes, entry),
        0 <= id < nodes.len(),
        entry matches Some(e) ==> e.node != id,
    ensures
        graph::entry_leads(marked(nodes, id), entry),
{
    let t = marked(nodes, id);
    match entry {
        None => {
            assert forall|i: int| 0 <= i < t.len() implies (#[trigger] t[i]).deleted by {
                assert(nodes[i].deleted);
            }
        },
        Some(e) => {
            assert forall|i: int| graph::is_live(t, i) implies (#[trigger] t[i]).layers.len()
                <= e.level + 1 by {
                assert(graph::is_live(nodes, i));
                assert(nodes[i].layers.len() <= e.level + 1);
            }
        },
    }
}

/// True if `id` is in `list`.
fn list_holds(list: &Vec<NodeId>, id: NodeId) -> (r: bool)
    ensures
        r == list@.contains(id),
{
    let n = list.len();
    for i in 0..n
        invariant
            n == list@.len(),
            forall|j: int| 0 <= j < i ==> list@[j] != id,
    {
        if list[i] == id {
            assert(list@[i as int] == id);
            return true;
        }
    }
    false
}

} // verus!
