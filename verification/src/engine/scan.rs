//! Filtered queries by a scan of all keys, for what no walk of the graph
//! reaches.

use crate::engine::query;
use crate::engine::vector::VectorIndex;
use crate::hnsw::float;
use crate::hnsw::float::less;
use crate::hnsw::graph;
use crate::hnsw::graph::Nodes;
use crate::hnsw::math::VectorMath;
use crate::hnsw::search;
use crate::hnsw::DistanceMetric;
use vstd::prelude::*;

verus! {

/// The live nodes.
spec fn live_set(nodes: Nodes) -> Set<int> {
    Set::new(|id: int| graph::is_live(nodes, id))
}

proof fn lemma_live_set(nodes: Nodes)
    ensures
        live_set(nodes).finite(),
        live_set(nodes).len() == graph::live_count(nodes),
    decreases nodes.len(),
{
    if nodes.len() == 0 {
        assert(live_set(nodes) =~= Set::empty());
    } else {
        let d = nodes.drop_last();
        let last = nodes.len() - 1;
        lemma_live_set(d);
        if nodes.last().deleted {
            assert(live_set(nodes) =~= live_set(d));
        } else {
            assert(live_set(nodes) =~= live_set(d).insert(last));
        }
    }
}

/// The nodes of `hits`.
spec fn node_set(hits: Seq<(u32, u32)>) -> Set<int> {
    Set::new(|id: int| exists|i: int| 0 <= i < hits.len() && (#[trigger] hits[i]).0 == id)
}

proof fn lemma_node_set(hits: Seq<(u32, u32)>)
    requires
        forall|i: int, j: int|
            0 <= i < j < hits.len() ==> (#[trigger] hits[i]).0 != (#[trigger] hits[j]).0,
    ensures
        node_set(hits).finite(),
        node_set(hits).len() == hits.len(),
    decreases hits.len(),
{
    if hits.len() == 0 {
        assert(node_set(hits) =~= Set::empty());
    } else {
        let d = hits.drop_last();
        let last = hits.last().0 as int;
        assert forall|i: int, j: int| 0 <= i < j < d.len() implies (#[trigger] d[i]).0 != (
        #[trigger] d[j]).0 by {
            assert(d[i] == hits[i] && d[j] == hits[j]);
        }
        lemma_node_set(d);
        assert(!node_set(d).contains(last)) by {
            if node_set(d).contains(last) {
                let i = choose|i: int| 0 <= i < d.len() && (#[trigger] d[i]).0 == last;
                assert(hits[i].0 != hits[hits.len() - 1].0);
            }
        }
        assert(node_set(hits) =~= node_set(d).insert(last)) by {
            assert forall|id: int| node_set(hits).contains(id) implies node_set(d).insert(
                last,
            ).contains(id) by {
                let i = choose|i: int| 0 <= i < hits.len() && (#[trigger] hits[i]).0 == id;
                if i < d.len() {
                    assert(d[i].0 == id);
                }
            }
            assert forall|id: int| node_set(d).insert(last).contains(id) implies node_set(
                hits,
            ).contains(id) by {
                if id == last {
                    assert(hits[hits.len() - 1].0 == id);
                } else {
                    let i = choose|i: int| 0 <= i < d.len() && (#[trigger] d[i]).0 == id;
                    assert(hits[i].0 == id);
                }
            }
        }
    }
}

/// As many live nodes as there are, none twice, are all of them.
pub(crate) proof fn lemma_hits_are_all(nodes: Nodes, hits: Seq<(u32, u32)>, id: int)
    requires
        forall|i: int|
            0 <= i < hits.len() ==> graph::is_live(nodes, (#[trigger] hits[i]).0 as int),
        forall|i: int, j: int|
            0 <= i < j < hits.len() ==> (#[trigger] hits[i]).0 != (#[trigger] hits[j]).0,
        hits.len() == graph::live_count(nodes),
        graph::is_live(nodes, id),
    ensures
        exists|i: int| 0 <= i < hits.len() && (#[trigger] hits[i]).0 == id,
{
    lemma_live_set(nodes);
    lemma_node_set(hits);
    assert(node_set(hits).subset_of(live_set(nodes)));
    vstd::set_lib::lemma_subset_equality(node_set(hits), live_set(nodes));
    assert(node_set(hits).contains(id));
}

/// `hits` are live nodes with their distances from `p`, closest first, none
/// twice.
pub open spec fn are_measured<M: VectorMath>(
    math: &M,
    metric: DistanceMetric,
    nodes: Nodes,
    p: Seq<u32>,
    hits: Seq<(u32, u32)>,
) -> bool {
    &&& forall|i: int|
        0 <= i < hits.len() ==> {
            &&& graph::is_live(nodes, (#[trigger] hits[i]).0 as int)
            &&& hits[i].1 == search::dist_to(math, metric, nodes, p, hits[i].0)
        }
    &&& forall|i: int, j: int|
        0 <= i < j < hits.len() ==> {
            &&& float::rank((#[trigger] hits[i]).1) <= float::rank((#[trigger] hits[j]).1)
            &&& hits[i].0 != hits[j].0
        }
}

impl VectorIndex {
    /// Node `id` is among `hits`, or `predicate` says no to its key, or there
    /// are `k` hits and none is further away.
    pub open spec fn is_settled<M: VectorMath, F: Fn(&[u8]) -> bool>(
        &self,
        math: &M,
        p: Seq<u32>,
        k: usize,
        predicate: F,
        hits: Seq<(u32, u32)>,
        id: u32,
    ) -> bool {
        let metric = self.graph().spec_params().metric;
        ||| exists|i: int| 0 <= i < hits.len() && (#[trigger] hits[i]).0 == id
        ||| query::says(predicate, self.reverse()[id]@, false)
        ||| hits.len() == k && k > 0 && float::rank(hits.last().1) <= float::rank(
            search::dist_to(math, metric, self.graph().nodes(), p, id),
        )
    }

    /// `hits` are the `k` nodes closest to `p`, of all live ones to whose keys
    /// `predicate` says yes, or all of these if there are fewer.
    pub open spec fn is_scan<M: VectorMath, F: Fn(&[u8]) -> bool>(
        &self,
        math: &M,
        p: Seq<u32>,
        k: usize,
        predicate: F,
        hits: Seq<(u32, u32)>,
    ) -> bool {
        let metric = self.graph().spec_params().metric;
        &&& hits.len() <= k
        &&& are_measured(math, metric, self.graph().nodes(), p, hits)
        &&& forall|i: int|
            0 <= i < hits.len() ==> query::says(
                predicate,
                self.reverse()[(#[trigger] hits[i]).0]@,
                true,
            )
        &&& forall|id: u32|
            graph::is_live(self.graph().nodes(), id as int) ==> #[trigger] self.is_settled(
                math,
                p,
                k,
                predicate,
                hits,
                id,
            )
    }

    /// Finds the `k` nodes closest to `query`, as it is compared, of all live
    /// ones to whose keys `predicate` says yes.
    pub(crate) fn scan<M: VectorMath, F: Fn(&[u8]) -> bool>(
        &self,
        math: &M,
        query: &[u32],
        k: usize,
        predicate: &F,
    ) -> (hits: Vec<(u32, u32)>)
        requires
            self.wf(),
            math.ready(),
            k > 0,
            forall|key: &[u8]| #[trigger] call_requires(*predicate, (key,)),
        ensures
            self.is_scan(math, query@, k, *predicate, hits@),
    {
        let ghost nodes = self.graph().nodes();
        let ghost metric = self.graph().spec_params().metric;
        let mut hits: Vec<(u32, u32)> = Vec::new();
        let n = self.hnsw().len();
        let mut id: u32 = 0;
        while (id as usize) < n
            invariant
                self.wf(),
                math.ready(),
                k > 0,
                forall|key: &[u8]| #[trigger] call_requires(*predicate, (key,)),
                nodes == self.graph().nodes(),
                metric == self.graph().spec_params().metric,
                n == nodes.len(),
                n <= u32::MAX,
                id <= n,
                hits@.len() <= k,
                are_measured(math, metric, nodes, query@, hits@),
                forall|i: int| 0 <= i < hits@.len() ==> (#[trigger] hits@[i]).0 < id,
                forall|i: int|
                    0 <= i < hits@.len() ==> query::says(
                        *predicate,
                        self.reverse()[(#[trigger] hits@[i]).0]@,
                        true,
                    ),
                forall|x: u32|
                    x < id && graph::is_live(nodes, x as int) ==> #[trigger] self.is_settled(
                        math,
                        query@,
                        k,
                        *predicate,
                        hits@,
                        x,
                    ),
            decreases n - id,
        {
            let ghost before = hits@;
            match self.key_for_node(id) {
                None => {
                    assert(!graph::is_live(nodes, id as int));
                },
                Some(key) => {
                    let yes = predicate(key.as_slice());
                    assert(query::says(*predicate, self.reverse()[id]@, yes));
                    if yes {
                        let d = self.hnsw().distance(math, query, id);
                        place(&mut hits, k, id, d);
                        proof {
                            self.lemma_placed(
                                math,
                                query@,
                                k,
                                *predicate,
                                before,
                                hits@,
                                id,
                                d,
                            );
                        }
                    }
                },
            }
            proof {
                assert forall|x: u32|
                    x < id + 1 && graph::is_live(
                        nodes,
                        x as int,
                    ) implies #[trigger] self.is_settled(
                    math,
                    query@,
                    k,
                    *predicate,
                    hits@,
                    x,
                ) by {
                    if x < id {
                        assert(self.is_settled(math, query@, k, *predicate, before, x));
                    }
                }
            }
            id = id + 1;
        }
        hits
    }

    /// A hit that was placed leaves the others settled.
    proof fn lemma_placed<M: VectorMath, F: Fn(&[u8]) -> bool>(
        &self,
        math: &M,
        p: Seq<u32>,
        k: usize,
        predicate: F,
        before: Seq<(u32, u32)>,
        after: Seq<(u32, u32)>,
        id: u32,
        d: u32,
    )
        requires
            k > 0,
            before.len() <= k,
            graph::is_live(self.graph().nodes(), id as int),
            d == search::dist_to(
                math,
                self.graph().spec_params().metric,
                self.graph().nodes(),
                p,
                id,
            ),
            query::says(predicate, self.reverse()[id]@, true),
            are_measured(
                math,
                self.graph().spec_params().metric,
                self.graph().nodes(),
                p,
                before,
            ),
            forall|i: int| 0 <= i < before.len() ==> (#[trigger] before[i]).0 < id,
            forall|i: int|
                0 <= i < before.len() ==> query::says(
                    predicate,
                    self.reverse()[(#[trigger] before[i]).0]@,
                    true,
                ),
            exists|at: int| #[trigger] is_placed(before, k, id, d, at, after),
        ensures
            after.len() <= k,
            are_measured(
                math,
                self.graph().spec_params().metric,
                self.graph().nodes(),
                p,
                after,
            ),
            forall|i: int| 0 <= i < after.len() ==> (#[trigger] after[i]).0 <= id,
            forall|i: int|
                0 <= i < after.len() ==> query::says(
                    predicate,
                    self.reverse()[(#[trigger] after[i]).0]@,
                    true,
                ),
            self.is_settled(math, p, k, predicate, after, id),
            forall|x: u32| #[trigger]
                self.is_settled(math, p, k, predicate, before, x) && graph::is_live(
                    self.graph().nodes(),
                    x as int,
                ) ==> self.is_settled(math, p, k, predicate, after, x),
    {
        let metric = self.graph().spec_params().metric;
        let nodes = self.graph().nodes();
        let at = choose|at: int| #[trigger] is_placed(before, k, id, d, at, after);
        let whole = before.insert(at, (id, d));
        assert forall|i: int| 0 <= i < whole.len() implies {
            &&& graph::is_live(nodes, (#[trigger] whole[i]).0 as int)
            &&& whole[i].1 == search::dist_to(math, metric, nodes, p, whole[i].0)
            &&& whole[i].0 <= id
            &&& query::says(predicate, self.reverse()[whole[i].0]@, true)
        } by {
            if i < at {
                assert(whole[i] == before[i]);
            } else if i > at {
                assert(whole[i] == before[i - 1]);
            }
        }
        assert forall|i: int, j: int| 0 <= i < j < whole.len() implies {
            &&& float::rank((#[trigger] whole[i]).1) <= float::rank((#[trigger] whole[j]).1)
            &&& whole[i].0 != whole[j].0
        } by {
            let a = if i < at {
                i
            } else {
                i - 1
            };
            let b = if j < at {
                j
            } else {
                j - 1
            };
            if i == at {
                assert(whole[j] == before[b]);
                assert(before[at].1 == before[at].1);
                if at < b {
                    assert(float::rank(before[at].1) <= float::rank(before[b].1));
                }
            } else if j == at {
                assert(whole[i] == before[a]);
                if a < at - 1 {
                    assert(float::rank(before[a].1) <= float::rank(before[at - 1].1));
                }
            } else {
                assert(whole[i] == before[a] && whole[j] == before[b]);
            }
        }
        assert forall|i: int| 0 <= i < after.len() implies #[trigger] after[i] == whole[i] by {}
        assert(whole[at] == (id, d));
        if at < after.len() {
            assert(after[at].0 == id);
        }
        assert forall|x: u32| #[trigger]
            self.is_settled(math, p, k, predicate, before, x) && graph::is_live(
                nodes,
                x as int,
            ) implies self.is_settled(math, p, k, predicate, after, x) by {
            if exists|i: int| 0 <= i < before.len() && (#[trigger] before[i]).0 == x {
                let i = choose|i: int| 0 <= i < before.len() && (#[trigger] before[i]).0 == x;
                let j = if i < at {
                    i
                } else {
                    i + 1
                };
                assert(whole[j] == before[i]);
                if j < after.len() {
                    assert(after[j].0 == x);
                } else {
                    assert(after.last() == whole[after.len() - 1]);
                    assert(float::rank(whole[after.len() - 1].1) <= float::rank(whole[j].1));
                }
            } else if before.len() == k {
                assert(after.last() == whole[k - 1]);
                assert(whole[k as int] == before[k - 1] || at == k);
                if at == k {
                    assert(whole[k - 1] == before[k - 1]);
                } else {
                    assert(float::rank(whole[k - 1].1) <= float::rank(whole[k as int].1));
                }
            }
        }
    }
}

/// `after` is `before` with the node `id` at distance `d` in place `at`, and
/// without what exceeds `k`.
spec fn is_placed(
    before: Seq<(u32, u32)>,
    k: usize,
    id: u32,
    d: u32,
    at: int,
    after: Seq<(u32, u32)>,
) -> bool {
    let whole = before.insert(at, (id, d));
    &&& 0 <= at <= before.len()
    &&& at > 0 ==> float::rank(before[at - 1].1) <= float::rank(d)
    &&& at < before.len() ==> float::rank(d) < float::rank(before[at].1)
    &&& after == (if whole.len() <= k {
        whole
    } else {
        whole.take(k as int)
    })
}

/// Puts the node `id` at distance `d` behind those that are not further away,
/// and drops the last if there are more than `k`.
fn place(hits: &mut Vec<(u32, u32)>, k: usize, id: u32, d: u32)
    requires
        old(hits)@.len() <= k,
        k > 0,
    ensures
        exists|at: int| #[trigger] is_placed(old(hits)@, k, id, d, at, final(hits)@),
{
    let ghost before = hits@;
    let mut at: usize = hits.len();
    while at > 0 && less(d, hits[at - 1].1)
        invariant
            at <= hits@.len(),
            hits@ == before,
            at < before.len() ==> float::rank(d) < float::rank(before[at as int].1),
        decreases at,
    {
        at = at - 1;
    }
    let ghost whole = before.insert(at as int, (id, d));
    if at == k {
        assert(whole.take(k as int) =~= before);
        assert(is_placed(before, k, id, d, at as int, hits@));
        return;
    }
    if hits.len() == k {
        hits.pop();
        hits.insert(at, (id, d));
        assert(hits@ =~= whole.take(k as int));
    } else {
        hits.insert(at, (id, d));
    }
    assert(is_placed(before, k, id, d, at as int, hits@));
}

} // verus!
