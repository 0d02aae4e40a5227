//! What a deletion promises: the node is gone from results, nothing else is, and
//! its neighbours are linked to others.

use crate::hnsw::delete;
use crate::hnsw::graph;
use crate::hnsw::graph::Nodes;
use crate::hnsw::insert;
use crate::hnsw::laws;
use crate::hnsw::math::VectorMath;
use crate::hnsw::search;
use crate::hnsw::search::Candidate;
use crate::hnsw::select;
use crate::hnsw::{HnswIndex, HnswParams};
use vstd::prelude::*;

verus! {

/// What a deletion of node `id` makes of an index: `id` is deleted and no other
/// node that was live; vectors and levels stay. Its live neighbours no longer
/// link to it, no node does that did not, and nodes that are deleted keep their
/// links. The entry point is live and as high as any live node, if it was.
pub proof fn lemma_delete<M: VectorMath>(math: &M, before: HnswIndex, id: u32, after: HnswIndex)
    requires
        before.wf(),
        delete::deletes(math, before, id, after),
        delete::kept(delete::marked(before.nodes(), id as int), after.nodes(), id),
        delete::cut_off(
            delete::marked(before.nodes(), id as int),
            after.nodes(),
            id,
            before.nodes()[id as int].layers.len() as int,
        ),
    ensures
        ({
            let a = before.nodes();
            let b = after.nodes();
            &&& id < a.len()
            &&& !a[id as int].deleted
            &&& b.len() == a.len()
            &&& forall|x: int|
                0 <= x < a.len() ==> (#[trigger] b[x]).deleted == (a[x].deleted || x == id)
                    && b[x].vector == a[x].vector && b[x].layers.len() == a[x].layers.len()
            &&& forall|x: int, l: int|
                #![trigger b[x].layers[l]]
                graph::has_layer(a, x, l) && b[x].deleted ==> b[x].layers[l] == a[x].layers[l]
            &&& forall|x: int, l: int|
                #![trigger b[x].layers[l]]
                graph::has_layer(a, x, l) && !a[x].layers[l].contains(id)
                    ==> !b[x].layers[l].contains(id)
            &&& forall|l: int, j: int|
                #![trigger a[id as int].layers[l][j]]
                0 <= l < a[id as int].layers.len() && 0 <= j < a[id as int].layers[l].len()
                    && !b[a[id as int].layers[l][j] as int].deleted
                    ==> !b[a[id as int].layers[l][j] as int].layers[l].contains(id)
            &&& before.entry() is None || before.entry()->0.node != id ==> after.entry()
                == before.entry()
            &&& before.entry() is Some && before.entry()->0.node == id ==> match after.entry() {
                None => forall|x: int| 0 <= x < b.len() ==> (#[trigger] b[x]).deleted,
                Some(e) => !b[e.node as int].deleted && e.node < b.len() && forall|x: int|
                    0 <= x < b.len() && !(#[trigger] b[x]).deleted ==> b[x].layers.len()
                        <= b[e.node as int].layers.len(),
            }
            &&& after.spec_params() == before.spec_params()
        }),
{
    let a = before.nodes();
    let b = after.nodes();
    let m = delete::marked(a, id as int);
    assert forall|x: int| 0 <= x < a.len() implies (#[trigger] b[x]).deleted == (a[x].deleted || x
        == id) && b[x].vector == a[x].vector && b[x].layers.len() == a[x].layers.len() by {
        assert(b[x].vector == m[x].vector);
    }
    assert forall|x: int, l: int| graph::has_layer(a, x, l) implies graph::has_layer(m, x, l)
        && m[x].layers[l] == a[x].layers[l] by {}
    assert forall|l: int, j: int|
        #![trigger a[id as int].layers[l][j]]
        0 <= l < a[id as int].layers.len() && 0 <= j < a[id as int].layers[l].len()
            && !b[a[id as int].layers[l][j] as int].deleted implies !b[a[id as int].layers[l][j] as int].layers[l].contains(
    id) by {
        let n = a[id as int].layers[l][j];
        assert(graph::has_layer(a, n as int, l));
        assert(m[id as int].layers[l].contains(n));
        assert(graph::is_neighbor(m, l, id, n));
    }
    if before.entry() matches Some(e) && e.node == id {
        match after.entry() {
            None => {},
            Some(e2) => {
                assert forall|x: int| 0 <= x < b.len() && !(#[trigger] b[x]).deleted implies b[x].layers.len()
                    <= b[e2.node as int].layers.len() by {
                    assert(graph::is_live(b, x));
                }
            },
        }
    }
}

/// At `layer`, each node of `list` links back to `n` in `t`, at the end of the
/// list that it has in `g`; of a list that was full, a good choice is kept. The
/// lists of the others are as they were, but for that of `n`.
pub open spec fn links_back<M: VectorMath>(
    math: &M,
    params: HnswParams,
    g: Nodes,
    n: u32,
    layer: int,
    list: Seq<u32>,
    t: Nodes,
) -> bool {
    forall|x: u32|
        #![trigger t[x as int].layers[layer]]
        x != n && graph::has_layer(g, x as int, layer) ==> if list.contains(x) {
            if g[x as int].layers[layer].len() < laws::cap(params, layer) {
                t[x as int].layers[layer] == g[x as int].layers[layer].push(n)
            } else {
                laws::well_chosen(
                    math,
                    params.metric,
                    g,
                    g[x as int].vector,
                    g[x as int].layers[layer].push(n),
                    t[x as int].layers[layer],
                    laws::cap(params, layer),
                )
            }
        } else {
            t[x as int].layers[layer] == g[x as int].layers[layer]
        }
}

/// Node `n` was linked anew at `layer`, in the graph `g`: from nodes that can be
/// reached from it and are close, the live ones that it does not link to yet
/// were candidates, and a good choice of them was added to its list; if it is
/// then over its cap, a good choice is kept. The chosen ones link back.
pub open spec fn relinks<M: VectorMath>(
    math: &M,
    params: HnswParams,
    g: Nodes,
    n: u32,
    layer: int,
    after: Nodes,
) -> bool {
    let own = g[n as int].layers[layer];
    let v = g[n as int].vector;
    exists|found: Seq<u32>, fresh: Seq<u32>, list: Seq<u32>|
        {
            &&& #[trigger] laws::well_found(
                math,
                params.metric,
                g,
                v,
                layer,
                params.ef_construction as int,
                found,
            )
            &&& found.contains(n) || found.len() >= params.ef_construction
            &&& forall|i: int|
                0 <= i < found.len() ==> graph::reachable(g, layer, n, #[trigger] found[i])
            &&& forall|x: u32| #[trigger]
                fresh.contains(x) <==> found.contains(x) && !g[x as int].deleted && x != n
                    && !own.contains(x)
            &&& #[trigger] laws::well_chosen(
                math,
                params.metric,
                g,
                v,
                fresh,
                list,
                params.m as int,
            )
            &&& if own.len() + list.len() <= laws::cap(params, layer) {
                after[n as int].layers[layer] == own + list
            } else {
                laws::well_chosen(
                    math,
                    params.metric,
                    g,
                    v,
                    own + list,
                    after[n as int].layers[layer],
                    laws::cap(params, layer),
                )
            }
            &&& list.no_duplicates()
            &&& links_back(math, params, g, n, layer, list, after)
        }
}

/// Linking `n` to `list`, and back, puts `list` at the end of its own list, `n`
/// at the ends of the others, and leaves other layers.
proof fn lemma_wired_own<M: VectorMath>(
    math: &M,
    params: HnswParams,
    nodes: Nodes,
    n: u32,
    layer: int,
    list: Seq<u32>,
)
    requires
        graph::links_ok(nodes),
        graph::has_layer(nodes, n as int, layer),
        list.no_duplicates(),
        forall|i: int| 0 <= i < list.len() ==> (#[trigger] list[i]) != n && graph::has_layer(
            nodes,
            list[i] as int,
            layer,
        ),
    ensures
        ({
            let t = delete::wired(math, params, nodes, n, layer, list);
            &&& insert::same_but_links(nodes, t)
            &&& t[n as int].layers[layer] == nodes[n as int].layers[layer] + list
            &&& links_back(math, params, nodes, n, layer, list, t)
            &&& forall|l: int| l != layer ==> #[trigger] laws::same_at(nodes, t, l)
        }),
    decreases list.len(),
{
    let t = delete::wired(math, params, nodes, n, layer, list);
    if list.len() == 0 {
        assert(t[n as int].layers[layer] =~= nodes[n as int].layers[layer] + list);
    } else {
        let d = list.drop_last();
        let c = list.last();
        assert forall|i: int| 0 <= i < d.len() implies (#[trigger] d[i]) != n && graph::has_layer(
            nodes,
            d[i] as int,
            layer,
        ) by {
            assert(d[i] == list[i]);
        }
        assert(d.no_duplicates());
        lemma_wired_own(math, params, nodes, n, layer, d);
        let before = delete::wired(math, params, nodes, n, layer, d);
        assert(list[list.len() - 1] == c);
        assert(before[n as int].layers.len() == nodes[n as int].layers.len());
        assert(before[c as int].layers.len() == nodes[c as int].layers.len());
        assert(t[n as int].layers[layer] =~= nodes[n as int].layers[layer] + list);
        assert(insert::same_but_links(nodes, t)) by {
            assert forall|i: int| 0 <= i < nodes.len() implies {
                &&& (#[trigger] t[i]).vector == nodes[i].vector
                &&& t[i].deleted == nodes[i].deleted
                &&& t[i].layers.len() == nodes[i].layers.len()
            } by {
                assert(before[i].vector == nodes[i].vector);
            }
        }
        assert forall|l: int| l != layer implies #[trigger] laws::same_at(nodes, t, l) by {
            assert(laws::same_at(nodes, before, l));
            assert forall|x: int|
                #![trigger t[x].layers[l]]
                graph::has_layer(nodes, x, l) implies t[x].layers[l] == nodes[x].layers[l] by {
                assert(before[x].layers[l] == nodes[x].layers[l]);
            }
        }
        lemma_wired_back(math, params, nodes, n, layer, list);
    }
}

/// The last of `list` links back as those before it do.
proof fn lemma_wired_back<M: VectorMath>(
    math: &M,
    params: HnswParams,
    nodes: Nodes,
    n: u32,
    layer: int,
    list: Seq<u32>,
)
    requires
        graph::links_ok(nodes),
        graph::has_layer(nodes, n as int, layer),
        list.no_duplicates(),
        list.len() > 0,
        forall|i: int| 0 <= i < list.len() ==> (#[trigger] list[i]) != n && graph::has_layer(
            nodes,
            list[i] as int,
            layer,
        ),
        ({
            let before = delete::wired(math, params, nodes, n, layer, list.drop_last());
            &&& insert::same_but_links(nodes, before)
            &&& links_back(math, params, nodes, n, layer, list.drop_last(), before)
        }),
    ensures
        links_back(
            math,
            params,
            nodes,
            n,
            layer,
            list,
            delete::wired(math, params, nodes, n, layer, list),
        ),
{
    let d = list.drop_last();
    let c = list.last();
    let before = delete::wired(math, params, nodes, n, layer, d);
    let t = delete::wired(math, params, nodes, n, layer, list);
    assert(list[list.len() - 1] == c);
    assert(!d.contains(c)) by {
        if d.contains(c) {
            let i = choose|i: int| 0 <= i < d.len() && d[i] == c;
            assert(list[i] == list[list.len() - 1]);
        }
    }
    let there = insert::push_layer(before, n as int, layer, c);
    let pushed = insert::push_layer(there, c as int, layer, n);
    let own = nodes[c as int].layers[layer].push(n);
    let cap = laws::cap(params, layer);
    assert(graph::has_layer(nodes, c as int, layer));
    assert(before[c as int].layers.len() == nodes[c as int].layers.len());
    assert(before[n as int].layers.len() == nodes[n as int].layers.len());
    assert(before[c as int].layers[layer] == nodes[c as int].layers[layer]);
    assert(pushed[c as int].layers[layer] == own);
    assert(pushed[c as int].vector == nodes[c as int].vector);
    assert(t[c as int].layers[layer] == select::trimmed(
        math,
        params.metric,
        pushed,
        nodes[c as int].vector,
        own,
        cap,
    ));
    if own.len() > cap {
        laws::lemma_trimmed_well(
            math,
            params.metric,
            pushed,
            nodes[c as int].vector,
            own,
            cap,
        );
        assert forall|x: u32| #[trigger] own.contains(x) implies nodes[x as int].vector
            == pushed[x as int].vector by {
            let i = choose|i: int| 0 <= i < own.len() && own[i] == x;
            if i < own.len() - 1 {
                assert(graph::has_layer(nodes, nodes[c as int].layers[layer][i] as int, layer));
            }
            assert(before[x as int].vector == nodes[x as int].vector);
        }
        laws::lemma_chosen_same(
            math,
            params.metric,
            pushed,
            nodes,
            nodes[c as int].vector,
            own,
            t[c as int].layers[layer],
            cap,
        );
    }
    assert forall|x: u32|
        #![trigger t[x as int].layers[layer]]
        x != n && x != c && graph::has_layer(nodes, x as int, layer) implies t[x as int].layers[layer]
        == before[x as int].layers[layer] && list.contains(x) == d.contains(x) by {
        if list.contains(x) {
            let i = choose|i: int| 0 <= i < list.len() && list[i] == x;
            assert(d[i] == x);
        }
        if d.contains(x) {
            let i = choose|i: int| 0 <= i < d.len() && d[i] == x;
            assert(list[i] == x);
        }
    }
    assert(list.contains(c));
}

/// The candidates for new links: live, others than `n`, and not linked yet.
proof fn lemma_novel_ids(nodes: Nodes, s: Seq<Candidate>, n: u32, own: Seq<u32>, x: u32)
    ensures
        select::ids(delete::novel(nodes, s, n, own)).contains(x) <==> select::ids(s).contains(x)
            && !nodes[x as int].deleted && x != n && !own.contains(x),
    decreases s.len(),
{
    let t = delete::novel(nodes, s, n, own);
    let a = select::ids(t);
    let b = select::ids(s);
    delete::lemma_novel(nodes, s, n, own);
    if a.contains(x) {
        let i = choose|i: int| 0 <= i < a.len() && a[i] == x;
        assert(s.contains(t[i]));
        let j = choose|j: int| 0 <= j < s.len() && s[j] == t[i];
        assert(b[j] == x);
    }
    if s.len() > 0 && b.contains(x) && !nodes[x as int].deleted && x != n && !own.contains(x) {
        let d = s.drop_last();
        let before = delete::novel(nodes, d, n, own);
        lemma_novel_ids(nodes, d, n, own, x);
        let i = choose|i: int| 0 <= i < b.len() && b[i] == x;
        if i < d.len() {
            assert(select::ids(d)[i] == x);
            assert(select::ids(d).contains(x));
            let j = choose|j: int|
                0 <= j < select::ids(before).len() && select::ids(before)[j] == x;
            assert(a[j] == x);
        } else {
            assert(s.last().id == x);
            assert(a[before.len() as int] == x);
        }
    }
}

/// Candidates that are distinct stay so.
proof fn lemma_novel_distinct(nodes: Nodes, s: Seq<Candidate>, n: u32, list: Seq<u32>)
    requires
        search::distinct(s),
    ensures
        search::distinct(delete::novel(nodes, s, n, list)),
    decreases s.len(),
{
    if s.len() > 0 {
        let d = s.drop_last();
        let before = delete::novel(nodes, d, n, list);
        let t = delete::novel(nodes, s, n, list);
        assert(search::distinct(d)) by {
            assert forall|i: int, j: int| 0 <= i < j < d.len() implies (#[trigger] d[i]).id != (
            #[trigger] d[j]).id by {
                assert(s[i].id != s[j].id);
            }
        }
        lemma_novel_distinct(nodes, d, n, list);
        delete::lemma_novel(nodes, d, n, list);
        assert forall|i: int, j: int| 0 <= i < j < t.len() implies (#[trigger] t[i]).id != (
        #[trigger] t[j]).id by {
            if j < before.len() {
                assert(before[i].id != before[j].id);
            } else {
                assert(d.contains(before[i]));
                let k = choose|k: int| 0 <= k < d.len() && d[k] == before[i];
                assert(s[k].id != s[s.len() - 1].id);
            }
        }
    }
}

/// A node that is repaired is linked anew, in the graph without its link to
/// `id`; other layers stay.
proof fn lemma_repaired_relinks<M: VectorMath>(
    math: &M,
    params: HnswParams,
    nodes: Nodes,
    n: u32,
    layer: int,
    id: u32,
    after: Nodes,
)
    requires
        graph::shape_ok(nodes),
        graph::links_ok(nodes),
        graph::has_layer(nodes, n as int, layer),
        !nodes[n as int].deleted,
        id < nodes.len(),
        nodes[id as int].deleted,
        delete::repaired_node(math, params, nodes, n, layer, id, after),
    ensures
        relinks(math, params, delete::unlinked(nodes, n, layer, id), n, layer, after),
        delete::kept(nodes, after, id),
        forall|l: int| l != layer ==> #[trigger] laws::same_at(nodes, after, l),
{
    let g = delete::unlinked(nodes, n, layer, id);
    let own = g[n as int].layers[layer];
    let v = g[n as int].vector;
    delete::lemma_unlinked(nodes, params, n, layer, id);
    let s = choose|s: Seq<Candidate>|
        #[trigger] search::is_beam(
            math,
            params.metric,
            g,
            v,
            n,
            layer,
            params.ef_construction as int,
            s,
        ) && after == delete::relinked(math, params, g, n, layer, s);
    assert forall|i: int| 0 <= i < s.len() implies graph::has_layer(
        g,
        (#[trigger] s[i]).id as int,
        layer,
    ) by {
        laws::lemma_reached_has_layer(g, layer, n, s[i].id);
    }
    delete::lemma_relinked(math, params, g, n, layer, s, id);
    delete::lemma_kept_transitive(nodes, g, after, id);
    delete::lemma_novel_linkable(math, params, g, n, layer, s);
    let cands = delete::novel(g, s, n, own);
    let list = insert::chosen(math, params, g, cands);
    let found = select::ids(s);
    let fresh = select::ids(cands);
    let w = delete::wired(math, params, g, n, layer, list);
    assert forall|i: int| 0 <= i < list.len() implies (#[trigger] list[i]) != n && graph::has_layer(
        g,
        list[i] as int,
        layer,
    ) by {}
    assert(list.no_duplicates()) by {
        let sorted = select::stable_sort(cands);
        let picked = select::select(math, params.metric, g, sorted, params.m as int);
        lemma_novel_distinct(g, s, n, own);
        select::lemma_sort_members(cands);
        select::lemma_select_members(math, params.metric, g, sorted, params.m as int);
        assert forall|i: int, j: int|
            0 <= i < list.len() && 0 <= j < list.len() && i != j implies list[i] != list[j] by {
            assert(list[i] == picked[i].id && list[j] == picked[j].id);
            if i < j {
                assert(picked[i].id != picked[j].id);
            } else {
                assert(picked[j].id != picked[i].id);
            }
        }
    }
    lemma_wired_own(math, params, g, n, layer, list);
    assert(links_back(math, params, g, n, layer, list, after)) by {
        assert forall|x: u32|
            #![trigger after[x as int].layers[layer]]
            x != n && graph::has_layer(g, x as int, layer) implies after[x as int].layers[layer]
            == w[x as int].layers[layer] by {}
    }
    laws::lemma_beam_well(math, params.metric, g, v, n, layer, params.ef_construction as int, s);
    delete::lemma_novel(g, s, n, own);
    assert forall|i: int| 0 <= i < cands.len() implies (#[trigger] cands[i]).dist
        == math.distance_of(params.metric, v, g[cands[i].id as int].vector) by {
        assert(s.contains(cands[i]));
        let j = choose|j: int| 0 <= j < s.len() && s[j] == cands[i];
        assert(s[j].dist == cands[i].dist);
    }
    laws::lemma_sorted_well(math, params.metric, g, v, cands, params.m as int);
    assert forall|x: u32| #[trigger]
        fresh.contains(x) <==> found.contains(x) && !g[x as int].deleted && x != n && !own.contains(
        x) by {
        lemma_novel_ids(g, s, n, own, x);
    }
    assert(found.contains(n) || found.len() >= params.ef_construction) by {
        assert(search::settled(
            math,
            params.metric,
            g,
            v,
            params.ef_construction as int,
            s,
            n,
        ));
        if search::holds(s, n) {
            let i = choose|i: int| 0 <= i < s.len() && (#[trigger] s[i]).id == n;
            assert(found[i] == n);
        }
    }
    assert forall|i: int| 0 <= i < found.len() implies graph::reachable(
        g,
        layer,
        n,
        #[trigger] found[i],
    ) by {
        assert(graph::reachable(g, layer, n, s[i].id));
    }
    let all = own + list;
    assert(w[n as int].layers[layer] == all);
    let cap = laws::cap(params, layer);
    assert(after[n as int].layers[layer] == select::trimmed(
        math,
        params.metric,
        w,
        w[n as int].vector,
        all,
        cap,
    ));
    if all.len() > cap {
        laws::lemma_trimmed_well(math, params.metric, w, v, all, cap);
        assert forall|x: u32| #[trigger] all.contains(x) implies g[x as int].vector
            == w[x as int].vector by {
            let i = choose|i: int| 0 <= i < all.len() && all[i] == x;
            if i < own.len() {
                assert(graph::has_layer(g, g[n as int].layers[layer][i] as int, layer));
            } else {
                assert(list[i - own.len()] == x);
            }
            assert(w[x as int].vector == g[x as int].vector);
        }
        laws::lemma_chosen_same(
            math,
            params.metric,
            w,
            g,
            v,
            all,
            after[n as int].layers[layer],
            cap,
        );
    }
    assert forall|l: int| l != layer implies #[trigger] laws::same_at(nodes, after, l) by {
        assert(laws::same_at(g, w, l));
        assert forall|x: int|
            #![trigger after[x].layers[l]]
            graph::has_layer(nodes, x, l) implies after[x].layers[l] == nodes[x].layers[l] by {
            assert(g[x].layers.len() == nodes[x].layers.len());
            assert(g[x].layers[l] == nodes[x].layers[l]);
            assert(w[x].layers[l] == g[x].layers[l]);
        }
    }
    assert(relinks(math, params, g, n, layer, after));
}

/// All of `list` are live and appear at `layer`.
spec fn all_live(nodes: Nodes, list: Seq<u32>, layer: int) -> bool {
    forall|i: int|
        0 <= i < list.len() ==> graph::has_layer(nodes, (#[trigger] list[i]) as int, layer)
            && !nodes[list[i] as int].deleted
}

/// `b` is `a` with `n` linked anew at `layer`, after it lost its link to `id`.
pub open spec fn relinks_without<M: VectorMath>(
    math: &M,
    params: HnswParams,
    a: Nodes,
    id: u32,
    n: u32,
    layer: int,
    b: Nodes,
) -> bool {
    exists|g: Nodes| #[trigger] loses(a, id, n, layer, g) && relinks(math, params, g, n, layer, b)
}

/// The link of `n` to `id` is all that `g` lacks of what `a` has at `layer`.
pub open spec fn loses(a: Nodes, id: u32, n: u32, layer: int, g: Nodes) -> bool {
    &&& g.len() == a.len()
    &&& forall|x: int|
        0 <= x < a.len() ==> (#[trigger] g[x]).vector == a[x].vector && g[x].deleted == a[x].deleted
            && g[x].layers.len() == a[x].layers.len()
    &&& forall|x: int|
        graph::has_layer(a, x, layer) && x != n ==> #[trigger] g[x].layers[layer]
            == a[x].layers[layer]
    &&& forall|y: u32| #[trigger]
        g[n as int].layers[layer].contains(y) <==> a[n as int].layers[layer].contains(y) && y != id
}

/// Each of `list` was linked anew at `layer`, in this order, after it lost its
/// link to `id`; `states` are the graphs in between, the first and the last
/// included.
pub open spec fn repairs<M: VectorMath>(
    math: &M,
    params: HnswParams,
    id: u32,
    layer: int,
    list: Seq<u32>,
    states: Seq<Nodes>,
) -> bool {
    &&& states.len() == list.len() + 1
    &&& forall|i: int|
        0 <= i < list.len() ==> relinks_without(
            math,
            params,
            states[i],
            id,
            #[trigger] list[i],
            layer,
            states[i + 1],
        )
}

/// Several repairs at a layer keep what one keeps, and each links its node anew.
proof fn lemma_all_relink<M: VectorMath>(
    math: &M,
    params: HnswParams,
    nodes: Nodes,
    affected: Seq<u32>,
    layer: int,
    id: u32,
    after: Nodes,
)
    requires
        graph::shape_ok(nodes),
        graph::links_ok(nodes),
        all_live(nodes, affected, layer),
        id < nodes.len(),
        nodes[id as int].deleted,
        delete::repaired_all(math, params, nodes, affected, layer, id, after),
    ensures
        delete::kept(nodes, after, id),
        forall|l: int| l != layer ==> #[trigger] laws::same_at(nodes, after, l),
        exists|states: Seq<Nodes>| #[trigger]
            repairs(math, params, id, layer, affected, states) && states[0] == nodes
                && states.last() == after,
    decreases affected.len(),
{
    if affected.len() == 0 {
        delete::lemma_kept_self(nodes, id);
        let states = seq![nodes];
        assert(repairs(math, params, id, layer, affected, states));
        assert(states[0] == nodes && states.last() == after);
    } else {
        let d = affected.drop_last();
        let n = affected.last();
        let mid = choose|mid: Nodes|
            delete::repaired_all(
                math,
                params,
                nodes,
                d,
                layer,
                id,
                mid,
            ) && #[trigger] delete::repaired_node(math, params, mid, n, layer, id, after);
        assert forall|i: int| 0 <= i < d.len() implies graph::has_layer(
            nodes,
            (#[trigger] d[i]) as int,
            layer,
        ) && !nodes[d[i] as int].deleted by {
            assert(d[i] == affected[i]);
        }
        lemma_all_relink(math, params, nodes, d, layer, id, mid);
        assert(graph::has_layer(nodes, affected[affected.len() - 1] as int, layer));
        assert(mid[n as int].layers.len() == nodes[n as int].layers.len());
        assert(mid[n as int].deleted == nodes[n as int].deleted);
        assert(mid[id as int].deleted == nodes[id as int].deleted);
        lemma_repaired_relinks(math, params, mid, n, layer, id, after);
        delete::lemma_kept_transitive(nodes, mid, after, id);
        assert forall|l: int| l != layer implies #[trigger] laws::same_at(nodes, after, l) by {
            assert(laws::same_at(nodes, mid, l));
            assert(laws::same_at(mid, after, l));
            assert forall|x: int|
                #![trigger after[x].layers[l]]
                graph::has_layer(nodes, x, l) implies after[x].layers[l] == nodes[x].layers[l] by {
                assert(mid[x].layers.len() == nodes[x].layers.len());
                assert(mid[x].layers[l] == nodes[x].layers[l]);
            }
        }
        let states = choose|states: Seq<Nodes>| #[trigger]
            repairs(math, params, id, layer, d, states) && states[0] == nodes && states.last()
                == mid;
        let g = delete::unlinked(mid, n, layer, id);
        assert(loses(mid, id, n, layer, g)) by {
            assert forall|y: u32| #[trigger]
                g[n as int].layers[layer].contains(y) <==> mid[n as int].layers[layer].contains(y)
                    && y != id by {
                lemma_drop_others(mid[n as int].layers[layer], id, y);
            }
        }
        let more = states.push(after);
        assert forall|i: int| 0 <= i < affected.len() implies relinks_without(
            math,
            params,
            more[i],
            id,
            #[trigger] affected[i],
            layer,
            more[i + 1],
        ) by {
            if i < d.len() {
                assert(d[i] == affected[i]);
            }
        }
        assert(repairs(math, params, id, layer, affected, more));
        assert(more[0] == nodes && more.last() == after);
    }
}

/// The live nodes of a list depend on what is deleted alone.
proof fn lemma_live_same(a: Nodes, b: Nodes, list: Seq<u32>)
    requires
        forall|i: int|
            0 <= i < list.len() ==> a[(#[trigger] list[i]) as int].deleted
                == b[list[i] as int].deleted,
    ensures
        delete::live_ids(a, list) == delete::live_ids(b, list),
    decreases list.len(),
{
    if list.len() > 0 {
        let d = list.drop_last();
        assert forall|i: int| 0 <= i < d.len() implies a[(#[trigger] d[i]) as int].deleted
            == b[d[i] as int].deleted by {
            assert(d[i] == list[i]);
        }
        lemma_live_same(a, b, d);
        assert(a[list[list.len() - 1] as int].deleted == b[list[list.len() - 1] as int].deleted);
    }
}

/// Without `id` a list has all its other nodes.
proof fn lemma_drop_others(list: Seq<u32>, id: u32, y: u32)
    ensures
        delete::drop_id(list, id).contains(y) <==> list.contains(y) && y != id,
    decreases list.len(),
{
    delete::lemma_drop_id(list, id);
    let t = delete::drop_id(list, id);
    if t.contains(y) {
        let i = choose|i: int| 0 <= i < t.len() && t[i] == y;
        assert(list.contains(t[i]));
    }
    if list.len() > 0 && list.contains(y) && y != id {
        let d = list.drop_last();
        let before = delete::drop_id(d, id);
        lemma_drop_others(d, id, y);
        let i = choose|i: int| 0 <= i < list.len() && list[i] == y;
        if i < d.len() {
            assert(d[i] == y);
            let k = choose|k: int| 0 <= k < before.len() && before[k] == y;
            assert(t[k] == y);
        } else {
            assert(t[before.len() as int] == y);
        }
    }
}

/// The live nodes of a list are those that are not deleted, in their order.
proof fn lemma_live_filter(nodes: Nodes, list: Seq<u32>, a: Nodes, id: u32)
    requires
        forall|i: int|
            0 <= i < list.len() ==> nodes[(#[trigger] list[i]) as int].deleted == (
            a[list[i] as int].deleted || list[i] == id),
    ensures
        delete::live_ids(nodes, list) == list.filter(
            |x: u32| x != id && !a[x as int].deleted,
        ),
    decreases list.len(),
{
    reveal(Seq::filter);
    if list.len() > 0 {
        let d = list.drop_last();
        assert forall|i: int| 0 <= i < d.len() implies nodes[(#[trigger] d[i]) as int].deleted == (
        a[d[i] as int].deleted || d[i] == id) by {
            assert(d[i] == list[i]);
        }
        lemma_live_filter(nodes, d, a, id);
        assert(nodes[list[list.len() - 1] as int].deleted == (
        a[list[list.len() - 1] as int].deleted || list[list.len() - 1] == id));
    }
}

/// At `layer`, the live nodes of `list` were repaired one after the other in a
/// graph that has the nodes of `a` and its lists there; the lists of `after`
/// are those that came of it.
spec fn repaired_at<M: VectorMath>(
    math: &M,
    params: HnswParams,
    a: Nodes,
    id: u32,
    layer: int,
    list: Seq<u32>,
    states: Seq<Nodes>,
    after: Nodes,
) -> bool {
    &&& repairs(math, params, id, layer, list, states)
    &&& insert::same_but_links(a, states[0])
    &&& laws::same_at(a, states[0], layer)
    &&& forall|x: int|
        #![trigger after[x].layers[layer]]
        graph::has_layer(a, x, layer) ==> after[x].layers[layer] == states.last()[x].layers[layer]
}

/// Repairs at several layers link the live neighbours at each anew.
proof fn lemma_layers_relink<M: VectorMath>(
    math: &M,
    params: HnswParams,
    nodes: Nodes,
    id: u32,
    count: int,
    after: Nodes,
    layer: int,
)
    requires
        graph::shape_ok(nodes),
        graph::links_ok(nodes),
        id < nodes.len(),
        nodes[id as int].deleted,
        count <= nodes[id as int].layers.len(),
        delete::repaired_layers(math, params, nodes, id, count, after),
    ensures
        delete::kept(nodes, after, id),
        forall|l: int| l >= count ==> #[trigger] laws::same_at(nodes, after, l),
        0 <= layer < count ==> exists|states: Seq<Nodes>| #[trigger]
            repaired_at(
                math,
                params,
                nodes,
                id,
                layer,
                delete::live_ids(nodes, nodes[id as int].layers[layer]),
                states,
                after,
            ),
    decreases count,
{
    if count <= 0 {
        delete::lemma_kept_self(nodes, id);
    } else {
        let top = count - 1;
        let mid = choose|mid: Nodes|
            delete::repaired_layers(math, params, nodes, id, top, mid)
                && #[trigger] delete::repaired_layer(math, params, mid, id, top, after);
        lemma_layers_relink(math, params, nodes, id, top, mid, layer);
        assert(graph::has_layer(nodes, id as int, top));
        assert(mid[id as int].layers[top] == nodes[id as int].layers[top]);
        assert(mid[id as int].deleted);
        let list = nodes[id as int].layers[top];
        let affected = delete::live_ids(mid, list);
        delete::lemma_live_ids(mid, list);
        assert(all_live(mid, affected, top)) by {
            assert forall|i: int| 0 <= i < affected.len() implies graph::has_layer(
                mid,
                (#[trigger] affected[i]) as int,
                top,
            ) && !mid[affected[i] as int].deleted by {
                assert(list.contains(affected[i]));
                let k = choose|k: int| 0 <= k < list.len() && list[k] == affected[i];
                assert(graph::has_layer(nodes, nodes[id as int].layers[top][k] as int, top));
                assert(mid[affected[i] as int].layers.len()
                    == nodes[affected[i] as int].layers.len());
            }
        }
        lemma_all_relink(math, params, mid, affected, top, id, after);
        delete::lemma_kept_transitive(nodes, mid, after, id);
        assert forall|l: int| l >= count implies #[trigger] laws::same_at(nodes, after, l) by {
            assert(laws::same_at(nodes, mid, l));
            assert(laws::same_at(mid, after, l));
            assert forall|x: int|
                #![trigger after[x].layers[l]]
                graph::has_layer(nodes, x, l) implies after[x].layers[l] == nodes[x].layers[l] by {
                assert(mid[x].layers.len() == nodes[x].layers.len());
                assert(mid[x].layers[l] == nodes[x].layers[l]);
            }
        }
        if 0 <= layer < top {
            let live = delete::live_ids(nodes, nodes[id as int].layers[layer]);
            let states = choose|states: Seq<Nodes>| #[trigger]
                repaired_at(math, params, nodes, id, layer, live, states, mid);
            assert(laws::same_at(mid, after, layer));
            assert forall|x: int|
                #![trigger after[x].layers[layer]]
                graph::has_layer(nodes, x, layer) implies after[x].layers[layer]
                == states.last()[x].layers[layer] by {
                assert(mid[x].layers.len() == nodes[x].layers.len());
                assert(mid[x].layers[layer] == states.last()[x].layers[layer]);
            }
            assert(repaired_at(math, params, nodes, id, layer, live, states, after));
        } else if layer == top {
            assert forall|i: int| 0 <= i < list.len() implies nodes[(
            #[trigger] list[i]) as int].deleted == mid[list[i] as int].deleted by {
                assert(graph::has_layer(nodes, nodes[id as int].layers[top][i] as int, top));
            }
            lemma_live_same(nodes, mid, list);
            let states = choose|states: Seq<Nodes>| #[trigger]
                repairs(math, params, id, top, affected, states) && states[0] == mid
                    && states.last() == after;
            assert(laws::same_at(nodes, mid, top));
            assert(repaired_at(math, params, nodes, id, layer, affected, states, after));
        }
    }
}

/// All live neighbours of a deleted node are linked to others in its place: at
/// each of its layers, one after the other in the order of its list. They start
/// from the lists before the deletion, and end at those after it.
pub proof fn lemma_delete_relinks<M: VectorMath>(
    math: &M,
    before: HnswIndex,
    id: u32,
    after: HnswIndex,
    layer: int,
)
    requires
        before.wf(),
        delete::deletes(math, before, id, after),
        0 <= layer < before.nodes()[id as int].layers.len(),
    ensures
        exists|states: Seq<Nodes>|
            {
                &&& repairs(
                    math,
                    before.spec_params(),
                    id,
                    layer,
                    before.nodes()[id as int].layers[layer].filter(
                        |x: u32| x != id && !before.nodes()[x as int].deleted,
                    ),
                    states,
                )
                &&& #[trigger] starts_as(before.nodes(), id, layer, states[0])
                &&& forall|x: int|
                    graph::has_layer(before.nodes(), x, layer)
                        ==> #[trigger] after.nodes()[x].layers[layer]
                        == states.last()[x].layers[layer]
            },
{
    let a = before.nodes();
    let params = before.spec_params();
    let m = delete::marked(a, id as int);
    let list = a[id as int].layers[layer];
    assert(m[id as int].layers == a[id as int].layers);
    assert(graph::links_ok(m)) by {
        assert forall|i: int, l: int, k: int|
            #![trigger m[i].layers[l][k]]
            graph::has_layer(m, i, l) && 0 <= k < m[i].layers[l].len() implies graph::has_layer(
            m,
            m[i].layers[l][k] as int,
            l,
        ) by {
            assert(m[i].layers == a[i].layers);
            assert(graph::has_layer(a, a[i].layers[l][k] as int, l));
        }
    }
    assert forall|i: int| 0 <= i < list.len() implies m[(#[trigger] list[i]) as int].deleted == (
    a[list[i] as int].deleted || list[i] == id) by {
        assert(graph::has_layer(a, a[id as int].layers[layer][i] as int, layer));
    }
    lemma_live_filter(m, list, a, id);
    lemma_layers_relink(
        math,
        params,
        m,
        id,
        a[id as int].layers.len() as int,
        after.nodes(),
        layer,
    );
    let live = delete::live_ids(m, list);
    let states = choose|states: Seq<Nodes>| #[trigger]
        repaired_at(math, params, m, id, layer, live, states, after.nodes());
    assert(starts_as(a, id, layer, states[0])) by {
        assert forall|x: int| 0 <= x < a.len() implies (#[trigger] states[0][x]).vector
            == a[x].vector && states[0][x].deleted == (a[x].deleted || x == id) by {
            assert(states[0][x].vector == m[x].vector);
        }
        assert forall|x: int|
            #![trigger states[0][x].layers[layer]]
            graph::has_layer(a, x, layer) implies states[0][x].layers[layer] == a[x].layers[layer] by {
            assert(graph::has_layer(m, x, layer));
        }
    }
    assert forall|x: int| graph::has_layer(a, x, layer) implies
        #[trigger] after.nodes()[x].layers[layer] == states.last()[x].layers[layer] by {
        assert(graph::has_layer(m, x, layer));
    }
}

/// `g` has the nodes of `a` with `id` deleted, and the lists of `a` at `layer`.
pub open spec fn starts_as(a: Nodes, id: u32, layer: int, g: Nodes) -> bool {
    &&& g.len() == a.len()
    &&& forall|x: int|
        0 <= x < a.len() ==> (#[trigger] g[x]).vector == a[x].vector && g[x].deleted == (
        a[x].deleted || x == id)
    &&& laws::same_at(a, g, layer)
}

} // verus!
