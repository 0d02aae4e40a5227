//! Greedy descent and beam search.

use crate::hnsw::float;
use crate::hnsw::float::{is_below, less};
use crate::hnsw::graph;
use crate::hnsw::graph::Nodes;
use crate::hnsw::math::VectorMath;
use crate::hnsw::walk;
use crate::hnsw::walk::Beam;
use crate::hnsw::{DistanceMetric, HnswIndex, NodeId};
use std::collections::HashSet;
use vstd::prelude::*;

verus! {

/// A node and its distance to a query.
#[derive(Debug, Clone, Copy, PartialEq, Eq, Structural)]
pub struct Candidate {
    pub id: NodeId,
    pub dist: u32,
}

/// The distance of node `id` to `query`.
pub open spec fn dist_to<M: VectorMath>(
    math: &M,
    metric: DistanceMetric,
    nodes: Nodes,
    query: Seq<u32>,
    id: u32,
) -> u32 {
    math.distance_of(metric, query, nodes[id as int].vector)
}

/// Distances ascend.
pub open spec fn ascending(s: Seq<Candidate>) -> bool {
    forall|i: int, j: int|
        0 <= i < j < s.len() ==> float::rank((#[trigger] s[i]).dist) <= float::rank(
            (#[trigger] s[j]).dist,
        )
}

/// No id occurs twice.
pub open spec fn distinct(s: Seq<Candidate>) -> bool {
    forall|i: int, j: int| 0 <= i < j < s.len() ==> (#[trigger] s[i]).id != (#[trigger] s[j]).id
}

/// `id` is among `s`.
pub open spec fn holds(s: Seq<Candidate>, id: u32) -> bool {
    exists|i: int| 0 <= i < s.len() && (#[trigger] s[i]).id == id
}

/// Each candidate has its distance to `query`.
pub open spec fn measured<M: VectorMath>(
    math: &M,
    metric: DistanceMetric,
    nodes: Nodes,
    query: Seq<u32>,
    s: Seq<Candidate>,
) -> bool {
    forall|i: int|
        0 <= i < s.len() ==> (#[trigger] s[i]).dist == dist_to(math, metric, nodes, query, s[i].id)
}

/// Largest number of results of a beam of width `ef`.
pub open spec fn beam_limit(ef: int) -> int {
    if ef < 1 {
        1
    } else {
        ef
    }
}

/// `id` is among the results `s`, or these are as many as the beam allows
/// and `id` is not closer than the last.
pub open spec fn settled<M: VectorMath>(
    math: &M,
    metric: DistanceMetric,
    nodes: Nodes,
    query: Seq<u32>,
    ef: int,
    s: Seq<Candidate>,
    id: u32,
) -> bool {
    holds(s, id) || (s.len() == beam_limit(ef) && !float::below(
        dist_to(math, metric, nodes, query, id),
        s.last().dist,
    ))
}

/// `s` is the result of a beam search of width `ef` from `start`: nodes that
/// can be reached from `start`, closest first, such that no neighbour of a
/// result would improve it, nor `start` itself.
pub open spec fn is_beam<M: VectorMath>(
    math: &M,
    metric: DistanceMetric,
    nodes: Nodes,
    query: Seq<u32>,
    start: u32,
    layer: int,
    ef: int,
    s: Seq<Candidate>,
) -> bool {
    &&& walk::beam_ends(math, metric, nodes, query, start, layer, ef, s)
    &&& 0 < s.len() <= beam_limit(ef)
    &&& ascending(s)
    &&& distinct(s)
    &&& measured(math, metric, nodes, query, s)
    &&& forall|i: int|
        0 <= i < s.len() ==> graph::reachable(nodes, layer, start, (#[trigger] s[i]).id)
    &&& settled(math, metric, nodes, query, ef, s, start)
    &&& forall|i: int, n: u32|
        0 <= i < s.len() && #[trigger] graph::is_neighbor(nodes, layer, s[i].id, n) ==> settled(
            math,
            metric,
            nodes,
            query,
            ef,
            s,
            n,
        )
}

/// `r` is where a greedy walk from `start` ends: no farther than `start`, and
/// no neighbour is closer.
pub open spec fn is_greedy_end<M: VectorMath>(
    math: &M,
    metric: DistanceMetric,
    nodes: Nodes,
    query: Seq<u32>,
    start: u32,
    layer: int,
    r: u32,
) -> bool {
    let here = dist_to(math, metric, nodes, query, r);
    &&& walk::greedy_ends(math, metric, nodes, query, start, layer, r)
    &&& graph::reachable(nodes, layer, start, r)
    &&& float::rank(here) <= float::rank(dist_to(math, metric, nodes, query, start))
    &&& forall|n: u32| #[trigger]
        graph::is_neighbor(nodes, layer, r, n) ==> !float::below(
            dist_to(math, metric, nodes, query, n),
            here,
        )
}

/// Puts `c` into the ascending list `v`, behind its equals.
pub(crate) fn insert_ascending(v: &mut Vec<Candidate>, c: Candidate)
    requires
        ascending(old(v)@),
    ensures
        ascending(final(v)@),
        exists|p: int| 0 <= p <= old(v)@.len() && final(v)@ == #[trigger] old(v)@.insert(p, c),
        final(v)@ == insert_stable(old(v)@, c),
{
    let ghost s = v@;
    let mut p: usize = v.len();
    while p > 0 && less(c.dist, v[p - 1].dist)
        invariant
            p <= v@.len(),
            v@ == s,
            forall|j: int|
                p <= j < s.len() ==> float::rank(c.dist) < float::rank((#[trigger] s[j]).dist),
        decreases p,
    {
        p = p - 1;
    }
    v.insert(p, c);
    proof {
        let t = v@;
        assert(t == s.insert(p as int, c));
        assert forall|i: int, j: int| 0 <= i < j < t.len() implies float::rank(
            (#[trigger] t[i]).dist,
        ) <= float::rank((#[trigger] t[j]).dist) by {
            let a = if i < p {
                i
            } else {
                i - 1
            };
            let b = if j < p {
                j
            } else {
                j - 1
            };
            if i != p {
                assert(t[i] == s[a]);
            }
            if j != p {
                assert(t[j] == s[b]);
            }
            if i < p - 1 && j == p {
                assert(float::rank(s[i].dist) <= float::rank(s[p - 1].dist));
            }
        }
        lemma_insert_stable(s, c, p as int);
    }
}

/// `s` with `c` put behind the last candidate that is not farther.
pub open spec fn insert_stable(s: Seq<Candidate>, c: Candidate) -> Seq<Candidate>
    decreases s.len(),
{
    if s.len() > 0 && float::rank(c.dist) < float::rank(s.last().dist) {
        insert_stable(s.drop_last(), c).push(s.last())
    } else {
        s.push(c)
    }
}

proof fn lemma_insert_stable(s: Seq<Candidate>, c: Candidate, p: int)
    requires
        0 <= p <= s.len(),
        forall|j: int|
            p <= j < s.len() ==> float::rank(c.dist) < float::rank((#[trigger] s[j]).dist),
        p > 0 ==> float::rank(s[p - 1].dist) <= float::rank(c.dist),
    ensures
        insert_stable(s, c) == s.insert(p, c),
    decreases s.len(),
{
    if p == s.len() {
        assert(s.insert(p, c) =~= s.push(c));
    } else {
        lemma_insert_stable(s.drop_last(), c, p);
        assert(s.insert(p, c) =~= s.drop_last().insert(p, c).push(s.last()));
    }
}

/// Puts `c` into the descending list `v`, behind its equals.
fn insert_descending(v: &mut Vec<Candidate>, c: Candidate)
    requires
        ascending(old(v)@.reverse()),
    ensures
        ascending(final(v)@.reverse()),
        final(v)@ == walk::insert_waiting(old(v)@, c),
        exists|p: int| 0 <= p <= old(v)@.len() && final(v)@ == #[trigger] old(v)@.insert(p, c),
{
    let ghost s = v@;
    let mut p: usize = v.len();
    while p > 0 && less(v[p - 1].dist, c.dist)
        invariant
            p <= v@.len(),
            v@ == s,
            forall|j: int|
                p <= j < s.len() ==> float::rank((#[trigger] s[j]).dist) < float::rank(c.dist),
        decreases p,
    {
        p = p - 1;
    }
    v.insert(p, c);
    proof {
        let t = v@;
        assert(t == s.insert(p as int, c));
        let r = s.reverse();
        assert forall|i: int, j: int| 0 <= i < j < s.len() implies float::rank(
            (#[trigger] s[j]).dist,
        ) <= float::rank((#[trigger] s[i]).dist) by {
            assert(r[s.len() - 1 - j] == s[j]);
            assert(r[s.len() - 1 - i] == s[i]);
        }
        let q = t.reverse();
        assert forall|i: int, j: int| 0 <= i < j < q.len() implies float::rank(
            (#[trigger] q[i]).dist,
        ) <= float::rank((#[trigger] q[j]).dist) by {
            let x = t.len() - 1 - j;
            let y = t.len() - 1 - i;
            assert(q[i] == t[y]);
            assert(q[j] == t[x]);
            let a = if x < p {
                x
            } else {
                x - 1
            };
            let b = if y < p {
                y
            } else {
                y - 1
            };
            if x != p {
                assert(t[x] == s[a]);
            }
            if y != p {
                assert(t[y] == s[b]);
            }
            if x < p - 1 && y == p {
                assert(float::rank(s[p - 1].dist) <= float::rank(s[x].dist));
            }
        }
        walk::lemma_insert_waiting(s, c, p as int);
    }
}

impl HnswIndex {
    /// The distance of node `id` to `query`.
    pub(crate) fn distance<M: VectorMath>(&self, math: &M, query: &[u32], id: NodeId) -> (d: u32)
        requires
            math.ready(),
            id < self.nodes().len(),
        ensures
            d == dist_to(math, self.spec_params().metric, self.nodes(), query@, id),
    {
        math.distance(self.params.metric, query, self.nodes[id as usize].vector.as_slice())
    }

    /// Walks from `start` along `layer`, always to the neighbour closest to
    /// `query`, until none is closer.
    pub(crate) fn greedy_search_layer<M: VectorMath>(
        &self,
        math: &M,
        query: &[u32],
        start: NodeId,
        layer: u8,
    ) -> (r: NodeId)
        requires
            self.wf(),
            math.ready(),
            graph::has_layer(self.nodes(), start as int, layer as int),
        ensures
            graph::has_layer(self.nodes(), r as int, layer as int),
            is_greedy_end(
                math,
                self.spec_params().metric,
                self.nodes(),
                query@,
                start,
                layer as int,
                r,
            ),
    {
        let ghost nodes = self.nodes();
        let ghost metric = self.spec_params().metric;
        let mut current = start;
        let mut current_dist = self.distance(math, query, current);
        let ghost mut steps: nat = 0;
        proof {
            graph::lemma_reach_self(nodes, layer as int, start);
        }
        loop
            invariant
                current == walk::greedy_after(
                    math,
                    metric,
                    nodes,
                    query@,
                    start,
                    layer as int,
                    steps,
                ),
                forall|q: nat|
                    q < steps ==> {
                        let x = #[trigger] walk::greedy_after(
                            math,
                            metric,
                            nodes,
                            query@,
                            start,
                            layer as int,
                            q,
                        );
                        walk::greedy_next(math, metric, nodes, query@, layer as int, x) != x
                    },
                self.wf(),
                math.ready(),
                nodes == self.nodes(),
                metric == self.spec_params().metric,
                graph::has_layer(nodes, current as int, layer as int),
                graph::reachable(nodes, layer as int, start, current),
                current_dist == dist_to(math, metric, nodes, query@, current),
                float::rank(current_dist) <= float::rank(
                    dist_to(math, metric, nodes, query@, start),
                ),
            decreases float::rank(current_dist) + 0x8000_0000,
        {
            let mut best_id = current;
            let mut best_dist = current_dist;
            let list = &self.nodes[current as usize].neighbors[layer as usize];
            let ghost seen = nodes[current as int].layers[layer as int];
            assert(list@ == seen);
            let n = list.len();
            assert(seen.take(0) =~= Seq::empty());
            for i in 0..n
                invariant
                    self.wf(),
                    math.ready(),
                    nodes == self.nodes(),
                    metric == self.spec_params().metric,
                    n == list@.len(),
                    list@ == seen,
                    best_id == walk::closest(
                        math,
                        metric,
                        nodes,
                        query@,
                        current,
                        seen.take(i as int),
                    ),
                    graph::has_layer(nodes, current as int, layer as int),
                    seen == nodes[current as int].layers[layer as int],
                    current_dist == dist_to(math, metric, nodes, query@, current),
                    best_dist == dist_to(math, metric, nodes, query@, best_id),
                    best_id == current || graph::is_neighbor(
                        nodes,
                        layer as int,
                        current,
                        best_id,
                    ),
                    best_id != current ==> float::rank(best_dist) < float::rank(current_dist),
                    float::rank(best_dist) <= float::rank(current_dist),
                    forall|j: int|
                        0 <= j < i ==> !float::below(
                            dist_to(math, metric, nodes, query@, #[trigger] seen[j]),
                            best_dist,
                        ),
            {
                let neighbor = list[i];
                assert(seen[i as int] == neighbor);
                assert(graph::has_layer(
                    nodes,
                    nodes[current as int].layers[layer as int][i as int] as int,
                    layer as int,
                ));
                assert(seen.take(i + 1).drop_last() =~= seen.take(i as int));
                assert(seen.take(i + 1).last() == neighbor);
                let d = self.distance(math, query, neighbor);
                if is_below(d, best_dist) {
                    best_dist = d;
                    best_id = neighbor;
                    assert(seen.contains(neighbor));
                }
            }
            assert(seen.take(n as int) =~= seen);
            if best_id == current {
                assert forall|x: u32| #[trigger]
                    graph::is_neighbor(nodes, layer as int, current, x) implies !float::below(
                    dist_to(math, metric, nodes, query@, x),
                    current_dist,
                ) by {
                    let j = choose|j: int| 0 <= j < seen.len() && seen[j] == x;
                    assert(seen[j] == x);
                }
                return current;
            }
            proof {
                graph::lemma_reach_step(nodes, layer as int, start, current, best_id);
                graph::lemma_neighbor_has_layer(nodes, layer as int, current, best_id);
                steps = steps + 1;
            }
            current = best_id;
            current_dist = best_dist;
        }
    }

    /// Beam search from `start` along `layer`: up to `ef` nodes close to
    /// `query`, closest first.
    pub(crate) fn search_layer<M: VectorMath>(
        &self,
        math: &M,
        query: &[u32],
        start: NodeId,
        layer: u8,
        ef: usize,
    ) -> (r: Vec<Candidate>)
        requires
            self.wf(),
            math.ready(),
            graph::has_layer(self.nodes(), start as int, layer as int),
        ensures
            is_beam(
                math,
                self.spec_params().metric,
                self.nodes(),
                query@,
                start,
                layer as int,
                ef as int,
                r@,
            ),
            forall|i: int|
                0 <= i < r@.len() ==> graph::has_layer(
                    self.nodes(),
                    (#[trigger] r@[i]).id as int,
                    layer as int,
                ),
    {
        broadcast use vstd::std_specs::hash::group_hash_axioms;

        let ghost nodes = self.nodes();
        let ghost metric = self.spec_params().metric;
        let ghost lay = layer as int;
        let ghost lim = beam_limit(ef as int);
        let mut visited: HashSet<u32> = HashSet::new();
        let mut candidates: Vec<Candidate> = Vec::new();
        let mut results: Vec<Candidate> = Vec::new();
        let start_dist = self.distance(math, query, start);
        let first = Candidate { id: start, dist: start_dist };
        candidates.push(first);
        results.push(first);
        visited.insert(start);
        proof {
            graph::lemma_reach_self(nodes, lay, start);
            assert(visited@ =~= Set::empty().insert(start));
            assert(candidates@.reverse() =~= candidates@);
            lemma_visited_bound(visited@, nodes.len());
            assert(results@[0] == first);
        }
        let ghost mut steps: nat = 0;
        proof {
            assert(walk::beam_after(
                math,
                metric,
                nodes,
                query@,
                start,
                lay,
                ef as int,
                0,
            ) =~= (Beam { seen: visited@, waiting: candidates@, found: results@ }));
        }
        while candidates.len() > 0
            invariant_except_break
                walk::beam_after(math, metric, nodes, query@, start, lay, ef as int, steps) == (
                Beam { seen: visited@, waiting: candidates@, found: results@ }),
                visit_ok(
                    math,
                    metric,
                    nodes,
                    query@,
                    start,
                    lay,
                    ef as int,
                    visited@,
                    candidates@,
                    results@,
                ),
                all_expanded_or_waiting(nodes, lay, visited@, candidates@, results@),
            invariant
                self.wf(),
                math.ready(),
                nodes == self.nodes(),
                metric == self.spec_params().metric,
                lay == layer as int,
                vstd::std_specs::hash::obeys_key_model::<u32>(),
                vstd::std_specs::hash::builds_valid_hashers::<std::hash::RandomState>(),
                forall|q: nat|
                    q < steps ==> walk::beam_goes_on(
                        #[trigger] walk::beam_after(
                            math,
                            metric,
                            nodes,
                            query@,
                            start,
                            lay,
                            ef as int,
                            q,
                        ),
                    ),
            ensures
                ({
                    let b = walk::beam_after(
                        math,
                        metric,
                        nodes,
                        query@,
                        start,
                        lay,
                        ef as int,
                        steps,
                    );
                    b.found == results@ && !walk::beam_goes_on(b)
                }),
                visit_ok(
                    math,
                    metric,
                    nodes,
                    query@,
                    start,
                    lay,
                    ef as int,
                    visited@,
                    candidates@,
                    results@,
                ),
                all_expanded(nodes, lay, visited@, results@),
            decreases 2 * (nodes.len() - visited@.len()) + candidates@.len(),
        {
            let ghost cands0 = candidates@;
            let ghost results0 = results@;
            let ghost visited0 = visited@;
            let ghost bare = Beam {
                seen: visited0,
                waiting: cands0.drop_last(),
                found: results0,
            };
            let c = match candidates.pop() {
                Some(c) => c,
                None => first,
            };
            proof {
                assert(c == cands0.last());
                assert(candidates@ == cands0.drop_last());
                lemma_drop_descending(cands0);
                lemma_visit_pop(
                    math,
                    metric,
                    nodes,
                    query@,
                    start,
                    lay,
                    ef as int,
                    visited@,
                    cands0,
                    results@,
                );
            }
            let worst = results[results.len() - 1].dist;
            if is_below(worst, c.dist) {
                proof {
                    lemma_all_expanded_at_break(nodes, lay, visited@, cands0, results@);
                }
                break;
            }
            let list = &self.nodes[c.id as usize].neighbors[layer as usize];
            let ghost seen = nodes[c.id as int].layers[lay];
            assert(list@ == seen);
            let n = list.len();
            proof {
                lemma_waiting_pop(nodes, lay, visited@, cands0, results@);
                assert(seen.take(0) =~= Seq::empty());
            }
            for i in 0..n
                invariant
                    walk::beam_meets_all(
                        math,
                        metric,
                        nodes,
                        query@,
                        ef as int,
                        bare,
                        seen.take(i as int),
                    ) == (Beam { seen: visited@, waiting: candidates@, found: results@ }),
                    self.wf(),
                    math.ready(),
                    nodes == self.nodes(),
                    metric == self.spec_params().metric,
                    lay == layer as int,
                    n == list@.len(),
                    list@ == seen,
                    graph::has_layer(nodes, c.id as int, lay),
                    seen == nodes[c.id as int].layers[lay],
                    graph::reachable(nodes, lay, start, c.id),
                    vstd::std_specs::hash::obeys_key_model::<u32>(),
                    vstd::std_specs::hash::builds_valid_hashers::<std::hash::RandomState>(),
                    visit_ok(
                        math,
                        metric,
                        nodes,
                        query@,
                        start,
                        lay,
                        ef as int,
                        visited@,
                        candidates@,
                        results@,
                    ),
                    waiting_but(nodes, lay, visited@, candidates@, results@, c.id),
                    visited@.contains(c.id),
                    forall|j: int| 0 <= j < i ==> visited@.contains(#[trigger] seen[j]),
                    2 * (nodes.len() - visited@.len()) + candidates@.len() < 2 * (nodes.len()
                        - visited0.len()) + cands0.len(),
            {
                let x = list[i];
                assert(seen[i as int] == x);
                assert(graph::has_layer(nodes, nodes[c.id as int].layers[lay][i as int] as int, lay));
                let ghost before = visited@;
                proof {
                    assert(seen.take(i + 1).drop_last() =~= seen.take(i as int));
                    assert(seen.take(i + 1).last() == x);
                }
                let fresh = visited.insert(x);
                if fresh {
                    proof {
                        assert(seen.contains(x));
                        graph::lemma_reach_step(nodes, lay, start, c.id, x);
                        assert(visited@ == before.insert(x));
                        lemma_visited_bound(visited@, nodes.len());
                    }
                    let nd = self.distance(math, query, x);
                    let worst = results[results.len() - 1].dist;
                    let ghost r0 = results@;
                    let ghost c0 = candidates@;
                    let added = Candidate { id: x, dist: nd };
                    if is_below(nd, worst) || results.len() < ef {
                        insert_descending(&mut candidates, added);
                        insert_ascending(&mut results, added);
                        let ghost grown = results@;
                        if results.len() > ef {
                            results.pop();
                        }
                        proof {
                            lemma_visit_accept(
                                math,
                                metric,
                                nodes,
                                query@,
                                start,
                                lay,
                                ef as int,
                                before,
                                c0,
                                r0,
                                added,
                                candidates@,
                                grown,
                                results@,
                            );
                            lemma_waiting_accept(
                                nodes,
                                lay,
                                before,
                                c0,
                                r0,
                                c.id,
                                added,
                                candidates@,
                                grown,
                                results@,
                            );
                        }
                    } else {
                        proof {
                            lemma_visit_reject(
                                math,
                                metric,
                                nodes,
                                query@,
                                start,
                                lay,
                                ef as int,
                                before,
                                c0,
                                r0,
                                x,
                            );
                            lemma_waiting_grow(nodes, lay, before, c0, r0, c.id, x);
                        }
                    }
                } else {
                    assert(visited@ =~= before);
                }
            }
            proof {
                lemma_waiting_done(nodes, lay, visited@, candidates@, results@, c.id, seen);
                assert(seen.take(n as int) =~= seen);
                steps = steps + 1;
            }
        }
        proof {
            assert(walk::beam_ends(
                math,
                metric,
                nodes,
                query@,
                start,
                lay,
                ef as int,
                results@,
            ));
            lemma_beam(
                math,
                metric,
                nodes,
                query@,
                start,
                lay,
                ef as int,
                visited@,
                candidates@,
                results@,
            );
        }
        results
    }
}

/// What holds throughout a beam search.
spec fn visit_ok<M: VectorMath>(
    math: &M,
    metric: DistanceMetric,
    nodes: Nodes,
    query: Seq<u32>,
    start: u32,
    layer: int,
    ef: int,
    visited: Set<u32>,
    cands: Seq<Candidate>,
    results: Seq<Candidate>,
) -> bool {
    &&& visited.finite()
    &&& visited.len() <= nodes.len()
    &&& visited.contains(start)
    &&& forall|v: u32| #[trigger]
        visited.contains(v) ==> {
            &&& graph::has_layer(nodes, v as int, layer)
            &&& graph::reachable(nodes, layer, start, v)
            &&& settled(math, metric, nodes, query, ef, results, v)
        }
    &&& 0 < results.len() <= beam_limit(ef)
    &&& ascending(results)
    &&& distinct(results)
    &&& measured(math, metric, nodes, query, results)
    &&& forall|i: int| 0 <= i < results.len() ==> visited.contains((#[trigger] results[i]).id)
    &&& ascending(cands.reverse())
    &&& measured(math, metric, nodes, query, cands)
    &&& forall|i: int| 0 <= i < cands.len() ==> visited.contains((#[trigger] cands[i]).id)
}

/// All neighbours of `id` were visited.
spec fn expanded(nodes: Nodes, layer: int, visited: Set<u32>, id: u32) -> bool {
    forall|n: u32| #[trigger] graph::is_neighbor(nodes, layer, id, n) ==> visited.contains(n)
}

/// Each result is expanded.
spec fn all_expanded(
    nodes: Nodes,
    layer: int,
    visited: Set<u32>,
    results: Seq<Candidate>,
) -> bool {
    forall|i: int|
        0 <= i < results.len() ==> expanded(nodes, layer, visited, (#[trigger] results[i]).id)
}

/// Each result is expanded or waits to be.
spec fn all_expanded_or_waiting(
    nodes: Nodes,
    layer: int,
    visited: Set<u32>,
    cands: Seq<Candidate>,
    results: Seq<Candidate>,
) -> bool {
    forall|i: int|
        0 <= i < results.len() ==> (cands.contains(#[trigger] results[i]) || expanded(
            nodes,
            layer,
            visited,
            results[i].id,
        ))
}

/// Each result but `id` is expanded or waits to be.
spec fn waiting_but(
    nodes: Nodes,
    layer: int,
    visited: Set<u32>,
    cands: Seq<Candidate>,
    results: Seq<Candidate>,
    id: u32,
) -> bool {
    forall|i: int|
        0 <= i < results.len() ==> ((#[trigger] results[i]).id == id || cands.contains(results[i])
            || expanded(nodes, layer, visited, results[i].id))
}

proof fn lemma_visited_bound(visited: Set<u32>, n: nat)
    requires
        visited.finite(),
        n <= u32::MAX,
        forall|v: u32| #[trigger] visited.contains(v) ==> v < n,
    ensures
        visited.len() <= n,
{
    let ints = visited.map(|v: u32| v as int);
    let range = vstd::set_lib::set_int_range(0, n as int);
    vstd::set_lib::lemma_int_range(0, n as int);
    vstd::set_lib::lemma_map_size(visited, ints, |v: u32| v as int);
    assert(ints.subset_of(range));
    vstd::set_lib::lemma_len_subset(ints, range);
}

proof fn lemma_drop_descending(cands: Seq<Candidate>)
    requires
        ascending(cands.reverse()),
        cands.len() > 0,
    ensures
        ascending(cands.drop_last().reverse()),
        forall|i: int|
            0 <= i < cands.len() ==> float::rank(cands.last().dist) <= float::rank(
                (#[trigger] cands[i]).dist,
            ),
{
    let r = cands.reverse();
    let d = cands.drop_last().reverse();
    assert forall|i: int, j: int| 0 <= i < j < d.len() implies float::rank(
        (#[trigger] d[i]).dist,
    ) <= float::rank((#[trigger] d[j]).dist) by {
        assert(d[i] == r[i + 1]);
        assert(d[j] == r[j + 1]);
    }
    assert forall|i: int| 0 <= i < cands.len() implies float::rank(cands.last().dist)
        <= float::rank((#[trigger] cands[i]).dist) by {
        assert(r[0] == cands.last());
        assert(r[cands.len() - 1 - i] == cands[i]);
    }
}

proof fn lemma_visit_pop<M: VectorMath>(
    math: &M,
    metric: DistanceMetric,
    nodes: Nodes,
    query: Seq<u32>,
    start: u32,
    layer: int,
    ef: int,
    visited: Set<u32>,
    cands: Seq<Candidate>,
    results: Seq<Candidate>,
)
    requires
        visit_ok(math, metric, nodes, query, start, layer, ef, visited, cands, results),
        cands.len() > 0,
    ensures
        visit_ok(
            math,
            metric,
            nodes,
            query,
            start,
            layer,
            ef,
            visited,
            cands.drop_last(),
            results,
        ),
        visited.contains(cands.last().id),
{
    lemma_drop_descending(cands);
    let d = cands.drop_last();
    assert forall|i: int| 0 <= i < d.len() implies (#[trigger] d[i]).dist == dist_to(
        math,
        metric,
        nodes,
        query,
        d[i].id,
    ) by {
        assert(d[i] == cands[i]);
    }
    assert forall|i: int| 0 <= i < d.len() implies visited.contains((#[trigger] d[i]).id) by {
        assert(d[i] == cands[i]);
    }
    assert(cands[cands.len() - 1] == cands.last());
}

/// At the end of a search no result waits any more: those that wait are
/// farther than every result.
proof fn lemma_all_expanded_at_break(
    nodes: Nodes,
    layer: int,
    visited: Set<u32>,
    cands: Seq<Candidate>,
    results: Seq<Candidate>,
)
    requires
        all_expanded_or_waiting(nodes, layer, visited, cands, results),
        ascending(cands.reverse()),
        ascending(results),
        cands.len() > 0,
        results.len() > 0,
        float::below(results.last().dist, cands.last().dist),
    ensures
        all_expanded(nodes, layer, visited, results),
{
    lemma_drop_descending(cands);
    assert forall|i: int| 0 <= i < results.len() implies expanded(
        nodes,
        layer,
        visited,
        (#[trigger] results[i]).id,
    ) by {
        if cands.contains(results[i]) {
            let j = choose|j: int| 0 <= j < cands.len() && cands[j] == results[i];
            assert(float::rank(cands.last().dist) <= float::rank(cands[j].dist));
            if i < results.len() - 1 {
                assert(float::rank(results[i].dist) <= float::rank(
                    results[results.len() - 1].dist,
                ));
            }
        }
    }
}

proof fn lemma_waiting_pop(
    nodes: Nodes,
    layer: int,
    visited: Set<u32>,
    cands: Seq<Candidate>,
    results: Seq<Candidate>,
)
    requires
        all_expanded_or_waiting(nodes, layer, visited, cands, results),
        cands.len() > 0,
    ensures
        waiting_but(nodes, layer, visited, cands.drop_last(), results, cands.last().id),
{
    let d = cands.drop_last();
    assert forall|i: int| 0 <= i < results.len() implies ((#[trigger] results[i]).id
        == cands.last().id || d.contains(results[i]) || expanded(
        nodes,
        layer,
        visited,
        results[i].id,
    )) by {
        if cands.contains(results[i]) {
            let j = choose|j: int| 0 <= j < cands.len() && cands[j] == results[i];
            if j < d.len() {
                assert(d[j] == results[i]);
            }
        }
    }
}

proof fn lemma_expanded_grow(nodes: Nodes, layer: int, visited: Set<u32>, x: u32, id: u32)
    requires
        expanded(nodes, layer, visited, id),
    ensures
        expanded(nodes, layer, visited.insert(x), id),
{
}

proof fn lemma_waiting_grow(
    nodes: Nodes,
    layer: int,
    visited: Set<u32>,
    cands: Seq<Candidate>,
    results: Seq<Candidate>,
    id: u32,
    x: u32,
)
    requires
        waiting_but(nodes, layer, visited, cands, results, id),
    ensures
        waiting_but(nodes, layer, visited.insert(x), cands, results, id),
{
    assert forall|i: int| 0 <= i < results.len() implies ((#[trigger] results[i]).id == id
        || cands.contains(results[i]) || expanded(
        nodes,
        layer,
        visited.insert(x),
        results[i].id,
    )) by {
        if expanded(nodes, layer, visited, results[i].id) {
            lemma_expanded_grow(nodes, layer, visited, x, results[i].id);
        }
    }
}

/// Where the elements of a sequence with one inserted come from.
proof fn lemma_inserted(s: Seq<Candidate>, c: Candidate, t: Seq<Candidate>)
    requires
        exists|p: int| 0 <= p <= s.len() && t == #[trigger] s.insert(p, c),
    ensures
        t.len() == s.len() + 1,
        t.contains(c),
        forall|i: int| 0 <= i < s.len() ==> t.contains(#[trigger] s[i]),
        forall|i: int| 0 <= i < t.len() ==> (#[trigger] t[i] == c || s.contains(t[i])),
{
    let p = choose|p: int| 0 <= p <= s.len() && t == #[trigger] s.insert(p, c);
    assert(t[p] == c);
    assert forall|i: int| 0 <= i < s.len() implies t.contains(#[trigger] s[i]) by {
        let j = if i < p {
            i
        } else {
            i + 1
        };
        assert(t[j] == s[i]);
    }
    assert forall|i: int| 0 <= i < t.len() implies (#[trigger] t[i] == c || s.contains(t[i])) by {
        if i < p {
            assert(t[i] == s[i]);
        } else if i > p {
            assert(t[i] == s[i - 1]);
        }
    }
}

proof fn lemma_waiting_accept(
    nodes: Nodes,
    layer: int,
    visited: Set<u32>,
    c0: Seq<Candidate>,
    r0: Seq<Candidate>,
    id: u32,
    added: Candidate,
    c1: Seq<Candidate>,
    grown: Seq<Candidate>,
    r1: Seq<Candidate>,
)
    requires
        waiting_but(nodes, layer, visited, c0, r0, id),
        exists|p: int| 0 <= p <= c0.len() && c1 == #[trigger] c0.insert(p, added),
        exists|p: int| 0 <= p <= r0.len() && grown == #[trigger] r0.insert(p, added),
        r1 == grown || r1 == grown.drop_last(),
    ensures
        waiting_but(nodes, layer, visited.insert(added.id), c1, r1, id),
{
    lemma_inserted(c0, added, c1);
    lemma_inserted(r0, added, grown);
    lemma_waiting_grow(nodes, layer, visited, c0, r0, id, added.id);
    let vis = visited.insert(added.id);
    assert forall|i: int| 0 <= i < r1.len() implies ((#[trigger] r1[i]).id == id || c1.contains(
        r1[i],
    ) || expanded(nodes, layer, vis, r1[i].id)) by {
        assert(r1[i] == grown[i]);
        if grown[i] != added {
            let j = choose|j: int| 0 <= j < r0.len() && r0[j] == grown[i];
            assert(r0[j].id == id || c0.contains(r0[j]) || expanded(nodes, layer, vis, r0[j].id));
            if c0.contains(r0[j]) {
                let k = choose|k: int| 0 <= k < c0.len() && c0[k] == r0[j];
                assert(c1.contains(c0[k]));
            }
        }
    }
}

proof fn lemma_waiting_done(
    nodes: Nodes,
    layer: int,
    visited: Set<u32>,
    cands: Seq<Candidate>,
    results: Seq<Candidate>,
    id: u32,
    seen: Seq<u32>,
)
    requires
        waiting_but(nodes, layer, visited, cands, results, id),
        graph::has_layer(nodes, id as int, layer),
        seen == nodes[id as int].layers[layer],
        forall|j: int| 0 <= j < seen.len() ==> visited.contains(#[trigger] seen[j]),
    ensures
        all_expanded_or_waiting(nodes, layer, visited, cands, results),
{
    assert(expanded(nodes, layer, visited, id)) by {
        assert forall|n: u32| #[trigger] graph::is_neighbor(
            nodes,
            layer,
            id,
            n,
        ) implies visited.contains(n) by {
            let j = choose|j: int| 0 <= j < seen.len() && seen[j] == n;
            assert(visited.contains(seen[j]));
        }
    }
}

/// A node that is not taken is settled: the results are full, and it is not
/// closer than the last.
proof fn lemma_visit_reject<M: VectorMath>(
    math: &M,
    metric: DistanceMetric,
    nodes: Nodes,
    query: Seq<u32>,
    start: u32,
    layer: int,
    ef: int,
    visited: Set<u32>,
    cands: Seq<Candidate>,
    results: Seq<Candidate>,
    x: u32,
)
    requires
        visit_ok(math, metric, nodes, query, start, layer, ef, visited, cands, results),
        !visited.contains(x),
        visited.insert(x).len() <= nodes.len(),
        graph::has_layer(nodes, x as int, layer),
        graph::reachable(nodes, layer, start, x),
        results.len() >= ef,
        !float::below(dist_to(math, metric, nodes, query, x), results.last().dist),
    ensures
        visit_ok(math, metric, nodes, query, start, layer, ef, visited.insert(x), cands, results),
{
    let vis = visited.insert(x);
    assert(settled(math, metric, nodes, query, ef, results, x));
    assert forall|v: u32| #[trigger] vis.contains(v) implies {
        &&& graph::has_layer(nodes, v as int, layer)
        &&& graph::reachable(nodes, layer, start, v)
        &&& settled(math, metric, nodes, query, ef, results, v)
    } by {
        if v != x {
            assert(visited.contains(v));
        }
    }
}

/// A node that is taken may push the farthest result out; that one is then
/// settled too.
proof fn lemma_visit_accept<M: VectorMath>(
    math: &M,
    metric: DistanceMetric,
    nodes: Nodes,
    query: Seq<u32>,
    start: u32,
    layer: int,
    ef: int,
    visited: Set<u32>,
    c0: Seq<Candidate>,
    r0: Seq<Candidate>,
    added: Candidate,
    c1: Seq<Candidate>,
    grown: Seq<Candidate>,
    r1: Seq<Candidate>,
)
    requires
        visit_ok(math, metric, nodes, query, start, layer, ef, visited, c0, r0),
        !visited.contains(added.id),
        visited.insert(added.id).len() <= nodes.len(),
        graph::has_layer(nodes, added.id as int, layer),
        graph::reachable(nodes, layer, start, added.id),
        added.dist == dist_to(math, metric, nodes, query, added.id),
        ef >= 0,
        float::below(added.dist, r0.last().dist) || r0.len() < ef,
        exists|p: int| 0 <= p <= c0.len() && c1 == #[trigger] c0.insert(p, added),
        ascending(c1.reverse()),
        exists|p: int| 0 <= p <= r0.len() && grown == #[trigger] r0.insert(p, added),
        ascending(grown),
        r1 == (if grown.len() > ef {
            grown.drop_last()
        } else {
            grown
        }),
    ensures
        visit_ok(
            math,
            metric,
            nodes,
            query,
            start,
            layer,
            ef,
            visited.insert(added.id),
            c1,
            r1,
        ),
{
    lemma_accept_results(math, metric, nodes, query, visited, r0, added, grown, r1);
    lemma_accept_waiting(math, metric, nodes, query, visited, c0, added, c1);
    let vis = visited.insert(added.id);
    assert forall|v: u32| #[trigger] vis.contains(v) implies {
        &&& graph::has_layer(nodes, v as int, layer)
        &&& graph::reachable(nodes, layer, start, v)
        &&& settled(math, metric, nodes, query, ef, r1, v)
    } by {
        if v != added.id {
            assert(visited.contains(v));
        }
        lemma_still_settled(math, metric, nodes, query, ef, r0, added, grown, r1, v);
    }
}

/// The results with the new node, and without the farthest.
proof fn lemma_accept_results<M: VectorMath>(
    math: &M,
    metric: DistanceMetric,
    nodes: Nodes,
    query: Seq<u32>,
    visited: Set<u32>,
    r0: Seq<Candidate>,
    added: Candidate,
    grown: Seq<Candidate>,
    r1: Seq<Candidate>,
)
    requires
        distinct(r0),
        measured(math, metric, nodes, query, r0),
        forall|i: int| 0 <= i < r0.len() ==> visited.contains((#[trigger] r0[i]).id),
        !visited.contains(added.id),
        added.dist == dist_to(math, metric, nodes, query, added.id),
        exists|p: int| 0 <= p <= r0.len() && grown == #[trigger] r0.insert(p, added),
        ascending(grown),
        r1 == grown || r1 == grown.drop_last(),
    ensures
        measured(math, metric, nodes, query, grown),
        measured(math, metric, nodes, query, r1),
        distinct(r1),
        ascending(r1),
        forall|i: int|
            0 <= i < r1.len() ==> visited.insert(added.id).contains((#[trigger] r1[i]).id),
{
    lemma_inserted(r0, added, grown);
    let vis = visited.insert(added.id);
    let p = choose|p: int| 0 <= p <= r0.len() && grown == #[trigger] r0.insert(p, added);
    assert(distinct(grown)) by {
        assert forall|i: int, j: int| 0 <= i < j < grown.len() implies (#[trigger] grown[i]).id
            != (#[trigger] grown[j]).id by {
            let a = if i < p {
                i
            } else {
                i - 1
            };
            let b = if j < p {
                j
            } else {
                j - 1
            };
            if i != p {
                assert(grown[i] == r0[a]);
                assert(visited.contains(r0[a].id));
            }
            if j != p {
                assert(grown[j] == r0[b]);
                assert(visited.contains(r0[b].id));
            }
        }
    }
    assert forall|i: int| 0 <= i < grown.len() implies vis.contains((#[trigger] grown[i]).id)
        && grown[i].dist == dist_to(math, metric, nodes, query, grown[i].id) by {
        if grown[i] != added {
            let j = choose|j: int| 0 <= j < r0.len() && r0[j] == grown[i];
            assert(visited.contains(r0[j].id));
        }
    }
    assert forall|i: int| 0 <= i < r1.len() implies vis.contains((#[trigger] r1[i]).id)
        && r1[i].dist == dist_to(math, metric, nodes, query, r1[i].id) by {
        assert(r1[i] == grown[i]);
    }
    assert(ascending(r1)) by {
        assert forall|i: int, j: int| 0 <= i < j < r1.len() implies float::rank(
            (#[trigger] r1[i]).dist,
        ) <= float::rank((#[trigger] r1[j]).dist) by {
            assert(r1[i] == grown[i]);
            assert(r1[j] == grown[j]);
        }
    }
    assert(distinct(r1)) by {
        assert forall|i: int, j: int| 0 <= i < j < r1.len() implies (#[trigger] r1[i]).id != (
        #[trigger] r1[j]).id by {
            assert(r1[i] == grown[i]);
            assert(r1[j] == grown[j]);
        }
    }
}

/// The waiting candidates with the new node.
proof fn lemma_accept_waiting<M: VectorMath>(
    math: &M,
    metric: DistanceMetric,
    nodes: Nodes,
    query: Seq<u32>,
    visited: Set<u32>,
    c0: Seq<Candidate>,
    added: Candidate,
    c1: Seq<Candidate>,
)
    requires
        measured(math, metric, nodes, query, c0),
        forall|i: int| 0 <= i < c0.len() ==> visited.contains((#[trigger] c0[i]).id),
        added.dist == dist_to(math, metric, nodes, query, added.id),
        exists|p: int| 0 <= p <= c0.len() && c1 == #[trigger] c0.insert(p, added),
    ensures
        measured(math, metric, nodes, query, c1),
        forall|i: int|
            0 <= i < c1.len() ==> visited.insert(added.id).contains((#[trigger] c1[i]).id),
{
    lemma_inserted(c0, added, c1);
    let vis = visited.insert(added.id);
    assert forall|i: int| 0 <= i < c1.len() implies vis.contains((#[trigger] c1[i]).id)
        && c1[i].dist == dist_to(math, metric, nodes, query, c1[i].id) by {
        if c1[i] != added {
            let j = choose|j: int| 0 <= j < c0.len() && c0[j] == c1[i];
            assert(visited.contains(c0[j].id));
        }
    }
}

/// Taking a closer node keeps every visited node settled.
proof fn lemma_still_settled<M: VectorMath>(
    math: &M,
    metric: DistanceMetric,
    nodes: Nodes,
    query: Seq<u32>,
    ef: int,
    r0: Seq<Candidate>,
    added: Candidate,
    grown: Seq<Candidate>,
    r1: Seq<Candidate>,
    v: u32,
)
    requires
        v == added.id || settled(math, metric, nodes, query, ef, r0, v),
        measured(math, metric, nodes, query, grown),
        ef >= 0,
        0 < r0.len() <= beam_limit(ef),
        ascending(r0),
        float::below(added.dist, r0.last().dist) || r0.len() < ef,
        exists|p: int| 0 <= p <= r0.len() && grown == #[trigger] r0.insert(p, added),
        ascending(grown),
        r1 == (if grown.len() > ef {
            grown.drop_last()
        } else {
            grown
        }),
    ensures
        settled(math, metric, nodes, query, ef, r1, v),
{
    let lim = beam_limit(ef);
    let p = choose|p: int| 0 <= p <= r0.len() && grown == #[trigger] r0.insert(p, added);
    if v == added.id || holds(r0, v) {
        let j = if v == added.id {
            p
        } else {
            let i = choose|i: int| 0 <= i < r0.len() && (#[trigger] r0[i]).id == v;
            if i < p {
                i
            } else {
                i + 1
            }
        };
        assert(grown[j].id == v);
        if grown.len() > ef && j == grown.len() - 1 {
            // It leaves, and is no closer than those that stay.
            assert(float::rank(grown[r1.len() - 1].dist) <= float::rank(grown[j].dist));
            assert(r1.last() == grown[r1.len() - 1]);
        } else {
            assert(r1[j] == grown[j]);
        }
    } else {
        // The results were full, so the new one was closer than their
        // farthest, which leaves.
        assert(r1.last() == grown[lim - 1]);
        if p < lim - 1 {
            assert(grown[lim - 1] == r0[lim - 2]);
            assert(float::rank(r0[lim - 2].dist) <= float::rank(r0[lim - 1].dist));
        } else if p == lim - 1 {
            assert(grown[lim - 1] == added);
        } else {
            assert(grown[lim - 1] == r0[lim - 1]);
        }
    }
}

proof fn lemma_beam<M: VectorMath>(
    math: &M,
    metric: DistanceMetric,
    nodes: Nodes,
    query: Seq<u32>,
    start: u32,
    layer: int,
    ef: int,
    visited: Set<u32>,
    cands: Seq<Candidate>,
    results: Seq<Candidate>,
)
    requires
        visit_ok(math, metric, nodes, query, start, layer, ef, visited, cands, results),
        all_expanded(nodes, layer, visited, results),
        walk::beam_ends(math, metric, nodes, query, start, layer, ef, results),
    ensures
        is_beam(math, metric, nodes, query, start, layer, ef, results),
        forall|i: int|
            0 <= i < results.len() ==> graph::has_layer(
                nodes,
                (#[trigger] results[i]).id as int,
                layer,
            ),
{
    assert forall|i: int| 0 <= i < results.len() implies graph::reachable(
        nodes,
        layer,
        start,
        (#[trigger] results[i]).id,
    ) && graph::has_layer(nodes, results[i].id as int, layer) by {
        assert(visited.contains(results[i].id));
    }
    assert forall|i: int, n: u32|
        0 <= i < results.len() && #[trigger] graph::is_neighbor(
            nodes,
            layer,
            results[i].id,
            n,
        ) implies settled(math, metric, nodes, query, ef, results, n) by {
        assert(expanded(nodes, layer, visited, results[i].id));
        assert(visited.contains(n));
    }
}

} // verus!
