//! The choice of neighbours.
//!
//! Candidates are taken closest first, and only if no chosen one is closer to
//! the candidate than the node itself is: links go in different directions.

use crate::hnsw::float;
use crate::hnsw::float::is_below;
use crate::hnsw::graph;
use crate::hnsw::graph::{NodeView, Nodes};
use crate::hnsw::math::VectorMath;
use crate::hnsw::search;
use crate::hnsw::search::{insert_ascending, Candidate};
use crate::hnsw::{DistanceMetric, HnswIndex, NodeId};
use vstd::prelude::*;

verus! {

/// `s` by ascending distance; equals stay in order.
pub open spec fn stable_sort(s: Seq<Candidate>) -> Seq<Candidate>
    decreases s.len(),
{
    if s.len() == 0 {
        s
    } else {
        search::insert_stable(stable_sort(s.drop_last()), s.last())
    }
}

/// No chosen node is closer to `c` than `c` is to the node that links.
pub open spec fn admits<M: VectorMath>(
    math: &M,
    metric: DistanceMetric,
    nodes: Nodes,
    chosen: Seq<Candidate>,
    c: Candidate,
) -> bool {
    forall|i: int|
        0 <= i < chosen.len() ==> !float::below(
            math.distance_of(
                metric,
                nodes[c.id as int].vector,
                nodes[(#[trigger] chosen[i]).id as int].vector,
            ),
            c.dist,
        )
}

/// The candidates chosen from `sorted`, at most `m`.
pub open spec fn select<M: VectorMath>(
    math: &M,
    metric: DistanceMetric,
    nodes: Nodes,
    sorted: Seq<Candidate>,
    m: int,
) -> Seq<Candidate>
    decreases sorted.len(),
{
    if sorted.len() == 0 {
        sorted
    } else {
        let before = select(math, metric, nodes, sorted.drop_last(), m);
        if before.len() < m && admits(math, metric, nodes, before, sorted.last()) {
            before.push(sorted.last())
        } else {
            before
        }
    }
}

/// The ids of `s`.
pub open spec fn ids(s: Seq<Candidate>) -> Seq<u32> {
    s.map_values(|c: Candidate| c.id)
}

/// The nodes of `list` with their distances to `v`.
pub open spec fn measure<M: VectorMath>(
    math: &M,
    metric: DistanceMetric,
    nodes: Nodes,
    v: Seq<u32>,
    list: Seq<u32>,
) -> Seq<Candidate> {
    list.map_values(
        |n: u32| Candidate { id: n, dist: math.distance_of(metric, v, nodes[n as int].vector) },
    )
}

/// The neighbour list `list` of a node with vector `v`, cut to `max`.
pub open spec fn trimmed<M: VectorMath>(
    math: &M,
    metric: DistanceMetric,
    nodes: Nodes,
    v: Seq<u32>,
    list: Seq<u32>,
    max: int,
) -> Seq<u32> {
    if list.len() <= max {
        list
    } else {
        ids(select(math, metric, nodes, stable_sort(measure(math, metric, nodes, v, list)), max))
    }
}

/// The nodes with the list of node `id` at `layer` replaced.
pub open spec fn set_layer(nodes: Nodes, id: int, layer: int, list: Seq<u32>) -> Nodes {
    nodes.update(
        id,
        NodeView {
            vector: nodes[id].vector,
            layers: nodes[id].layers.update(layer, list),
            deleted: nodes[id].deleted,
        },
    )
}

/// All of `s` are in `t`.
pub open spec fn all_in(s: Seq<Candidate>, t: Seq<Candidate>) -> bool {
    forall|i: int| 0 <= i < s.len() ==> t.contains(#[trigger] s[i])
}

proof fn lemma_insert_stable_members(s: Seq<Candidate>, c: Candidate)
    ensures
        search::insert_stable(s, c).len() == s.len() + 1,
        exists|p: int|
            0 <= p <= s.len() && search::insert_stable(s, c) == #[trigger] s.insert(p, c),
    decreases s.len(),
{
    let t = search::insert_stable(s, c);
    if s.len() > 0 && float::rank(c.dist) < float::rank(s.last().dist) {
        let d = s.drop_last();
        lemma_insert_stable_members(d, c);
        let p = choose|p: int|
            0 <= p <= d.len() && search::insert_stable(d, c) == #[trigger] d.insert(p, c);
        assert(t =~= s.insert(p, c));
    } else {
        assert(t =~= s.insert(s.len() as int, c));
    }
}

/// Sorting keeps the elements.
pub proof fn lemma_sort_members(s: Seq<Candidate>)
    ensures
        stable_sort(s).len() == s.len(),
        all_in(stable_sort(s), s),
        all_in(s, stable_sort(s)),
        search::distinct(s) ==> search::distinct(stable_sort(s)),
    decreases s.len(),
{
    if s.len() > 0 {
        let d = s.drop_last();
        let c = s.last();
        let before = stable_sort(d);
        lemma_sort_members(d);
        lemma_insert_stable_members(before, c);
        let t = stable_sort(s);
        let p = choose|p: int| 0 <= p <= before.len() && t == #[trigger] before.insert(p, c);
        assert(t == before.insert(p, c));
        assert forall|i: int| 0 <= i < t.len() implies s.contains(#[trigger] t[i]) by {
            if i == p {
                assert(s[s.len() - 1] == c);
            } else {
                let a = if i < p {
                    i
                } else {
                    i - 1
                };
                assert(t[i] == before[a]);
                assert(d.contains(before[a]));
                let j = choose|j: int| 0 <= j < d.len() && d[j] == before[a];
                assert(s[j] == before[a]);
            }
        }
        assert forall|i: int| 0 <= i < s.len() implies t.contains(#[trigger] s[i]) by {
            if i == s.len() - 1 {
                assert(t[p] == c);
            } else {
                assert(d[i] == s[i]);
                assert(before.contains(d[i]));
                let j = choose|j: int| 0 <= j < before.len() && before[j] == d[i];
                let b = if j < p {
                    j
                } else {
                    j + 1
                };
                assert(t[b] == before[j]);
            }
        }
        if search::distinct(s) {
            assert(search::distinct(d)) by {
                assert forall|i: int, j: int| 0 <= i < j < d.len() implies (#[trigger] d[i]).id != (
                #[trigger] d[j]).id by {
                    assert(d[i] == s[i]);
                    assert(d[j] == s[j]);
                }
            }
            assert forall|i: int, j: int| 0 <= i < j < t.len() implies (#[trigger] t[i]).id != (
            #[trigger] t[j]).id by {
                let a = if i < p {
                    i
                } else {
                    i - 1
                };
                let b = if j < p {
                    j
                } else {
                    j - 1
                };
                if i != p && j != p {
                    assert(t[i] == before[a]);
                    assert(t[j] == before[b]);
                } else {
                    let o = if i == p {
                        b
                    } else {
                        a
                    };
                    assert(d.contains(before[o]));
                    let k = choose|k: int| 0 <= k < d.len() && d[k] == before[o];
                    assert(s[k].id != s[s.len() - 1].id);
                }
            }
        }
    }
}

/// Sorting puts the distances in order.
pub proof fn lemma_sort_ascending(s: Seq<Candidate>)
    ensures
        search::ascending(stable_sort(s)),
    decreases s.len(),
{
    if s.len() > 0 {
        lemma_sort_ascending(s.drop_last());
        lemma_insert_ascending(stable_sort(s.drop_last()), s.last());
    }
}

proof fn lemma_insert_ascending(s: Seq<Candidate>, c: Candidate)
    requires
        search::ascending(s),
    ensures
        search::ascending(search::insert_stable(s, c)),
    decreases s.len(),
{
    let t = search::insert_stable(s, c);
    if s.len() > 0 && float::rank(c.dist) < float::rank(s.last().dist) {
        let d = s.drop_last();
        assert(search::ascending(d)) by {
            assert forall|i: int, j: int| 0 <= i < j < d.len() implies float::rank(
                (#[trigger] d[i]).dist,
            ) <= float::rank((#[trigger] d[j]).dist) by {
                assert(d[i] == s[i]);
                assert(d[j] == s[j]);
            }
        }
        lemma_insert_ascending(d, c);
        lemma_insert_stable_members(d, c);
        let u = search::insert_stable(d, c);
        let p = choose|p: int| 0 <= p <= d.len() && u == #[trigger] d.insert(p, c);
        assert forall|i: int, j: int| 0 <= i < j < t.len() implies float::rank(
            (#[trigger] t[i]).dist,
        ) <= float::rank((#[trigger] t[j]).dist) by {
            assert(t[i] == u[i]);
            if j < t.len() - 1 {
                assert(t[j] == u[j]);
            } else {
                assert(t[j] == s.last());
                if i != p {
                    let a = if i < p {
                        i
                    } else {
                        i - 1
                    };
                    assert(u[i] == d[a]);
                    assert(d[a] == s[a]);
                    assert(s[s.len() - 1] == s.last());
                }
            }
        }
    } else {
        assert forall|i: int, j: int| 0 <= i < j < t.len() implies float::rank(
            (#[trigger] t[i]).dist,
        ) <= float::rank((#[trigger] t[j]).dist) by {
            if j == s.len() && i < s.len() - 1 {
                assert(float::rank(s[i].dist) <= float::rank(s[s.len() - 1].dist));
            }
        }
    }
}

/// What is chosen comes from the candidates, at most `m`, none twice.
pub proof fn lemma_select_members<M: VectorMath>(
    math: &M,
    metric: DistanceMetric,
    nodes: Nodes,
    sorted: Seq<Candidate>,
    m: int,
)
    ensures
        ({
            let r = select(math, metric, nodes, sorted, m);
            &&& all_in(r, sorted)
            &&& 0 <= m ==> r.len() <= m
            &&& r.len() <= sorted.len()
            &&& search::distinct(sorted) ==> search::distinct(r)
            &&& m > 0 && sorted.len() > 0 ==> r.len() > 0 && r[0] == sorted[0]
        }),
    decreases sorted.len(),
{
    if sorted.len() > 0 {
        let d = sorted.drop_last();
        let c = sorted.last();
        let before = select(math, metric, nodes, d, m);
        let r = select(math, metric, nodes, sorted, m);
        lemma_select_members(math, metric, nodes, d, m);
        assert forall|i: int| 0 <= i < r.len() implies sorted.contains(#[trigger] r[i]) by {
            if i < before.len() {
                assert(r[i] == before[i]);
                let j = choose|j: int| 0 <= j < d.len() && d[j] == before[i];
                assert(sorted[j] == before[i]);
            } else {
                assert(sorted[sorted.len() - 1] == c);
            }
        }
        if search::distinct(sorted) {
            assert(search::distinct(d)) by {
                assert forall|i: int, j: int| 0 <= i < j < d.len() implies (#[trigger] d[i]).id != (
                #[trigger] d[j]).id by {
                    assert(d[i] == sorted[i]);
                    assert(d[j] == sorted[j]);
                }
            }
            assert forall|i: int, j: int| 0 <= i < j < r.len() implies (#[trigger] r[i]).id != (
            #[trigger] r[j]).id by {
                assert(r[i] == before[i]);
                if j < before.len() {
                    assert(r[j] == before[j]);
                } else {
                    let k = choose|k: int| 0 <= k < d.len() && d[k] == before[i];
                    assert(sorted[k].id != sorted[sorted.len() - 1].id);
                }
            }
        }
        if m > 0 && d.len() == 0 {
            assert(before.len() == 0);
            assert(admits(math, metric, nodes, before, c));
        }
    }
}

/// A trimmed list holds nothing that was not in the list, and at most `max`.
pub proof fn lemma_trimmed_members<M: VectorMath>(
    math: &M,
    metric: DistanceMetric,
    nodes: Nodes,
    v: Seq<u32>,
    list: Seq<u32>,
    max: int,
)
    requires
        max >= 0,
    ensures
        trimmed(math, metric, nodes, v, list, max).len() <= max,
        forall|i: int|
            0 <= i < trimmed(math, metric, nodes, v, list, max).len() ==> list.contains(
                #[trigger] trimmed(math, metric, nodes, v, list, max)[i],
            ),
{
    let t = trimmed(math, metric, nodes, v, list, max);
    if list.len() > max {
        let cands = measure(math, metric, nodes, v, list);
        let sorted = stable_sort(cands);
        lemma_sort_members(cands);
        lemma_select_members(math, metric, nodes, sorted, max);
        let r = select(math, metric, nodes, sorted, max);
        assert forall|i: int| 0 <= i < t.len() implies list.contains(#[trigger] t[i]) by {
            assert(sorted.contains(r[i]));
            let j = choose|j: int| 0 <= j < sorted.len() && sorted[j] == r[i];
            assert(cands.contains(sorted[j]));
            let k = choose|k: int| 0 <= k < cands.len() && cands[k] == sorted[j];
            assert(list[k] == t[i]);
        }
    } else {
        assert forall|i: int| 0 <= i < t.len() implies list.contains(#[trigger] t[i]) by {
            assert(list[i] == t[i]);
        }
    }
}

/// Sorts by ascending distance; equals stay in order.
pub(crate) fn sort_candidates(v: &Vec<Candidate>) -> (r: Vec<Candidate>)
    ensures
        r@ == stable_sort(v@),
{
    let mut out: Vec<Candidate> = Vec::new();
    let n = v.len();
    for i in 0..n
        invariant
            n == v@.len(),
            out@ == stable_sort(v@.take(i as int)),
            search::ascending(out@),
    {
        proof {
            assert(v@.take(i + 1).drop_last() =~= v@.take(i as int));
            assert(v@.take(i + 1).last() == v@[i as int]);
        }
        insert_ascending(&mut out, v[i]);
    }
    assert(v@.take(n as int) =~= v@);
    out
}

impl HnswIndex {
    /// Chooses at most `m` of `candidates`.
    pub(crate) fn select_neighbors_heuristic<M: VectorMath>(
        &self,
        math: &M,
        candidates: &Vec<Candidate>,
        m: usize,
    ) -> (r: Vec<Candidate>)
        requires
            math.ready(),
            forall|i: int|
                0 <= i < candidates@.len() ==> (#[trigger] candidates@[i]).id < self.nodes().len(),
        ensures
            r@ == select(
                math,
                self.spec_params().metric,
                self.nodes(),
                stable_sort(candidates@),
                m as int,
            ),
    {
        let ghost nodes = self.nodes();
        let ghost metric = self.spec_params().metric;
        let sorted = sort_candidates(candidates);
        proof {
            lemma_sort_members(candidates@);
        }
        let mut chosen: Vec<Candidate> = Vec::new();
        let n = sorted.len();
        for i in 0..n
            invariant
                math.ready(),
                n == sorted@.len(),
                nodes == self.nodes(),
                metric == self.spec_params().metric,
                sorted@ == stable_sort(candidates@),
                all_in(sorted@, candidates@),
                forall|j: int|
                    0 <= j < candidates@.len() ==> (#[trigger] candidates@[j]).id
                        < self.nodes().len(),
                chosen@ == select(math, metric, nodes, sorted@.take(i as int), m as int),
        {
            proof {
                assert(sorted@.take(i + 1).drop_last() =~= sorted@.take(i as int));
                assert(sorted@.take(i + 1).last() == sorted@[i as int]);
                lemma_select_members(math, metric, nodes, sorted@.take(i as int), m as int);
            }
            if chosen.len() < m {
                let cand = sorted[i];
                assert(candidates@.contains(sorted@[i as int]));
                proof {
                    assert forall|j: int| 0 <= j < chosen@.len() implies (
                    #[trigger] chosen@[j]).id < nodes.len() by {
                        let some = sorted@.take(i as int);
                        assert(some.contains(chosen@[j]));
                        let k = choose|k: int| 0 <= k < some.len() && some[k] == chosen@[j];
                        assert(candidates@.contains(sorted@[k]));
                    }
                }
                if self.admitted(math, &chosen, cand) {
                    chosen.push(cand);
                }
            }
        }
        assert(sorted@.take(n as int) =~= sorted@);
        chosen
    }

    /// True if no chosen node is closer to `cand` than `cand.dist`.
    fn admitted<M: VectorMath>(
        &self,
        math: &M,
        chosen: &Vec<Candidate>,
        cand: Candidate,
    ) -> (r: bool)
        requires
            math.ready(),
            cand.id < self.nodes().len(),
            forall|j: int|
                0 <= j < chosen@.len() ==> (#[trigger] chosen@[j]).id < self.nodes().len(),
        ensures
            r == admits(math, self.spec_params().metric, self.nodes(), chosen@, cand),
    {
        let n = chosen.len();
        let ghost nodes = self.nodes();
        let ghost metric = self.spec_params().metric;
        for i in 0..n
            invariant
                math.ready(),
                n == chosen@.len(),
                nodes == self.nodes(),
                metric == self.spec_params().metric,
                cand.id < nodes.len(),
                forall|j: int|
                    0 <= j < chosen@.len() ==> (#[trigger] chosen@[j]).id < self.nodes().len(),
                forall|j: int|
                    0 <= j < i ==> !float::below(
                        math.distance_of(
                            metric,
                            nodes[cand.id as int].vector,
                            nodes[(#[trigger] chosen@[j]).id as int].vector,
                        ),
                        cand.dist,
                    ),
        {
            let c = chosen[i];
            assert(chosen@[i as int] == c);
            let d = math.distance(
                self.params.metric,
                self.nodes[cand.id as usize].vector.as_slice(),
                self.nodes[c.id as usize].vector.as_slice(),
            );
            if is_below(d, cand.dist) {
                assert(!admits(math, metric, nodes, chosen@, cand)) by {
                    assert(chosen@[i as int] == c);
                }
                return false;
            }
        }
        true
    }

    /// Replaces the list of node `id` at `layer`.
    pub(crate) fn set_list(&mut self, id: NodeId, layer: u8, list: Vec<NodeId>)
        requires
            graph::has_layer(old(self).nodes(), id as int, layer as int),
        ensures
            final(self).nodes() == set_layer(old(self).nodes(), id as int, layer as int, list@),
            final(self).entry() == old(self).entry(),
            final(self).spec_params() == old(self).spec_params(),
            final(self).spec_dim() == old(self).spec_dim(),
            final(self).spec_draws() == old(self).spec_draws(),
            final(self).spec_draws() == old(self).spec_draws(),
    {
        let ghost l = list@;
        self.nodes[id as usize].neighbors[layer as usize] = list;
        proof {
            let t = set_layer(old(self).nodes(), id as int, layer as int, l);
            assert(self.nodes()[id as int].layers =~= t[id as int].layers);
            assert(self.nodes() =~= t);
        }
    }

    /// A copy of the list of node `id` at `layer`.
    pub(crate) fn copy_list(&self, id: NodeId, layer: u8) -> (r: Vec<NodeId>)
        requires
            graph::has_layer(self.nodes(), id as int, layer as int),
        ensures
            r@ == self.nodes()[id as int].layers[layer as int],
    {
        vstd::slice::slice_to_vec(self.nodes[id as usize].neighbors[layer as usize].as_slice())
    }

    /// A copy of the vector of node `id`.
    pub(crate) fn copy_vector(&self, id: NodeId) -> (r: Vec<u32>)
        requires
            id < self.nodes().len(),
        ensures
            r@ == self.nodes()[id as int].vector,
    {
        vstd::slice::slice_to_vec(self.nodes[id as usize].vector.as_slice())
    }

    /// Cuts the list of node `id` at `layer` to `max`.
    pub(crate) fn trim_neighbors<M: VectorMath>(
        &mut self,
        math: &M,
        id: NodeId,
        layer: u8,
        max: usize,
    )
        requires
            math.ready(),
            graph::has_layer(old(self).nodes(), id as int, layer as int),
            forall|i: int|
                0 <= i < old(self).nodes()[id as int].layers[layer as int].len() ==> (
                #[trigger] old(self).nodes()[id as int].layers[layer as int][i]) < old(
                    self,
                ).nodes().len(),
        ensures
            final(self).nodes() == set_layer(
                old(self).nodes(),
                id as int,
                layer as int,
                trimmed(
                    math,
                    old(self).spec_params().metric,
                    old(self).nodes(),
                    old(self).nodes()[id as int].vector,
                    old(self).nodes()[id as int].layers[layer as int],
                    max as int,
                ),
            ),
            final(self).entry() == old(self).entry(),
            final(self).spec_params() == old(self).spec_params(),
            final(self).spec_dim() == old(self).spec_dim(),
            final(self).spec_draws() == old(self).spec_draws(),
            final(self).spec_draws() == old(self).spec_draws(),
    {
        let ghost nodes = self.nodes();
        let ghost metric = self.spec_params().metric;
        let list = self.copy_list(id, layer);
        if list.len() <= max {
            proof {
                assert(nodes[id as int].layers.update(layer as int, list@)
                    =~= nodes[id as int].layers);
                assert(set_layer(nodes, id as int, layer as int, list@) =~= nodes);
            }
            return ;
        }
        let v = self.copy_vector(id);
        let mut cands: Vec<Candidate> = Vec::new();
        let n = list.len();
        for i in 0..n
            invariant
                math.ready(),
                n == list@.len(),
                nodes == self.nodes(),
                metric == self.spec_params().metric,
                v@ == nodes[id as int].vector,
                forall|j: int| 0 <= j < list@.len() ==> (#[trigger] list@[j]) < nodes.len(),
                cands@ == measure(math, metric, nodes, v@, list@).take(i as int),
        {
            assert(list@[i as int] < nodes.len());
            let d = self.distance(math, v.as_slice(), list[i]);
            cands.push(Candidate { id: list[i], dist: d });
            assert(cands@ =~= measure(math, metric, nodes, v@, list@).take(i + 1));
        }
        assert(cands@ =~= measure(math, metric, nodes, v@, list@));
        let kept = self.select_neighbors_heuristic(math, &cands, max);
        let new_list = candidate_ids(&kept);
        self.set_list(id, layer, new_list);
    }
}

/// The ids of `v`.
pub(crate) fn candidate_ids(v: &Vec<Candidate>) -> (r: Vec<NodeId>)
    ensures
        r@ == ids(v@),
{
    let mut out: Vec<NodeId> = Vec::new();
    let n = v.len();
    for i in 0..n
        invariant
            n == v@.len(),
            out@ == ids(v@).take(i as int),
    {
        out.push(v[i].id);
        assert(out@ =~= ids(v@).take(i + 1));
    }
    assert(out@ =~= ids(v@));
    out
}

} // verus!
