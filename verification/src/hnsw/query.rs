//! Search for nearest neighbours.

use crate::error::{invalid_argument, Result};
use crate::hnsw::float;
use crate::hnsw::graph;
use crate::hnsw::graph::Nodes;
use crate::hnsw::insert;
use crate::hnsw::math::VectorMath;
use crate::hnsw::search;
use crate::hnsw::search::Candidate;
use crate::hnsw::select;
use crate::hnsw::select::sort_candidates;
use crate::hnsw::{HnswIndex, NodeId};
use vstd::prelude::*;

verus! {

/// The candidates of `s` whose nodes are live.
pub open spec fn live_only(nodes: Nodes, s: Seq<Candidate>) -> Seq<Candidate>
    decreases s.len(),
{
    if s.len() == 0 {
        s
    } else {
        let before = live_only(nodes, s.drop_last());
        if nodes[s.last().id as int].deleted {
            before
        } else {
            before.push(s.last())
        }
    }
}

/// The `k` closest live candidates of the beam `s`.
pub open spec fn hits(nodes: Nodes, s: Seq<Candidate>, k: int) -> Seq<Candidate> {
    let sorted = select::stable_sort(live_only(nodes, s));
    if sorted.len() <= k {
        sorted
    } else {
        sorted.take(k)
    }
}

/// Ids and distances of `s`.
pub open spec fn id_dists(s: Seq<Candidate>) -> Seq<(u32, u32)> {
    s.map_values(|c: Candidate| (c.id, c.dist))
}

/// Beam width of a search for `k` neighbours: twice `k`, since deleted nodes
/// take places too, and at least the configured width.
pub open spec fn search_width(ef_search: int, k: int) -> int {
    let twice = if 2 * k > usize::MAX {
        usize::MAX as int
    } else {
        2 * k
    };
    if ef_search < twice {
        twice
    } else {
        ef_search
    }
}

/// What is live comes from the candidates, in order.
pub proof fn lemma_live_only(nodes: Nodes, s: Seq<Candidate>)
    ensures
        select::all_in(live_only(nodes, s), s),
        live_only(nodes, s).len() <= s.len(),
        search::distinct(s) ==> search::distinct(live_only(nodes, s)),
        forall|i: int|
            0 <= i < live_only(nodes, s).len() ==> !nodes[(#[trigger] live_only(
                nodes,
                s,
            )[i]).id as int].deleted,
        forall|i: int|
            0 <= i < s.len() && !nodes[(#[trigger] s[i]).id as int].deleted ==> live_only(
                nodes,
                s,
            ).contains(s[i]),
    decreases s.len(),
{
    if s.len() > 0 {
        let d = s.drop_last();
        let c = s.last();
        let before = live_only(nodes, d);
        let t = live_only(nodes, s);
        lemma_live_only(nodes, d);
        assert forall|i: int| 0 <= i < t.len() implies s.contains(#[trigger] t[i]) by {
            if i < before.len() {
                assert(t[i] == before[i]);
                assert(d.contains(before[i]));
                let j = choose|j: int| 0 <= j < d.len() && d[j] == before[i];
                assert(s[j] == before[i]);
            } else {
                assert(s[s.len() - 1] == c);
            }
        }
        assert forall|i: int| 0 <= i < t.len() implies !nodes[(
        #[trigger] t[i]).id as int].deleted by {
            if i < before.len() {
                assert(t[i] == before[i]);
            }
        }
        assert forall|i: int|
            0 <= i < s.len() && !nodes[(#[trigger] s[i]).id as int].deleted implies t.contains(
            s[i],
        ) by {
            if i < d.len() {
                assert(d[i] == s[i]);
                assert(before.contains(d[i]));
                let j = choose|j: int| 0 <= j < before.len() && before[j] == d[i];
                assert(t[j] == before[j]);
            } else {
                assert(t[before.len() as int] == c);
            }
        }
        if search::distinct(s) {
            assert(search::distinct(d)) by {
                assert forall|i: int, j: int| 0 <= i < j < d.len() implies (#[trigger] d[i]).id != (
                #[trigger] d[j]).id by {
                    assert(d[i] == s[i]);
                    assert(d[j] == s[j]);
                }
            }
            assert forall|i: int, j: int| 0 <= i < j < t.len() implies (#[trigger] t[i]).id != (
            #[trigger] t[j]).id by {
                assert(t[i] == before[i]);
                if j < before.len() {
                    assert(t[j] == before[j]);
                } else {
                    assert(d.contains(before[i]));
                    let k = choose|k: int| 0 <= k < d.len() && d[k] == before[i];
                    assert(s[k].id != s[s.len() - 1].id);
                }
            }
        }
    }
}

/// Hits are live, closest first, none twice, at most `k`.
pub proof fn lemma_hits(nodes: Nodes, s: Seq<Candidate>, k: int)
    requires
        k >= 0,
        search::distinct(s),
    ensures
        ({
            let h = hits(nodes, s, k);
            &&& h.len() <= k
            &&& search::ascending(h)
            &&& search::distinct(h)
            &&& select::all_in(h, s)
            &&& forall|i: int| 0 <= i < h.len() ==> !nodes[(#[trigger] h[i]).id as int].deleted
        }),
{
    let live = live_only(nodes, s);
    let sorted = select::stable_sort(live);
    let h = hits(nodes, s, k);
    lemma_live_only(nodes, s);
    select::lemma_sort_members(live);
    select::lemma_sort_ascending(live);
    assert forall|i: int| 0 <= i < h.len() implies s.contains(#[trigger] h[i]) && !nodes[(
    h[i]).id as int].deleted by {
        assert(h[i] == sorted[i]);
        assert(live.contains(sorted[i]));
        let j = choose|j: int| 0 <= j < live.len() && live[j] == sorted[i];
        assert(s.contains(live[j]));
        assert(!nodes[live[j].id as int].deleted);
    }
    assert forall|i: int, j: int| 0 <= i < j < h.len() implies float::rank(
        (#[trigger] h[i]).dist,
    ) <= float::rank((#[trigger] h[j]).dist) && h[i].id != h[j].id by {
        assert(h[i] == sorted[i]);
        assert(h[j] == sorted[j]);
    }
}

impl HnswIndex {
    /// A search for `k` neighbours has nothing to find.
    pub open spec fn nothing_to_find(&self, k: usize) -> bool {
        self.nodes().len() == 0 || k == 0 || self.entry() is None
    }

    /// `out` is a result of a search for the `k` neighbours of `query`, as it
    /// is compared: the closest live nodes of a beam at layer 0 that starts
    /// where greedy walks from the entry point lead.
    pub open spec fn is_result<M: VectorMath>(
        &self,
        math: &M,
        query: Seq<u32>,
        k: usize,
        out: Seq<(u32, u32)>,
    ) -> bool {
        let params = self.spec_params();
        let e = self.entry()->0;
        exists|start: u32, s: Seq<Candidate>|
            insert::descends(
                math,
                params.metric,
                self.nodes(),
                query,
                e.node,
                e.level as int,
                0,
                start,
            ) && #[trigger] search::is_beam(
                math,
                params.metric,
                self.nodes(),
                query,
                start,
                0,
                search_width(params.ef_search as int, k as int),
                s,
            ) && out == id_dists(hits(self.nodes(), s, k as int))
    }

    /// Finds up to `k` live nodes close to `query`, closest first, with their
    /// distances.
    pub fn search<M: VectorMath>(&self, math: &M, query: &[u32], k: usize) -> (r: Result<
        Vec<(NodeId, u32)>,
    >)
        requires
            self.wf(),
            math.ready(),
        ensures
            match r {
                Ok(out) => {
                    let p = insert::prepared(math, self.spec_params().metric, query@);
                    if self.nothing_to_find(k) {
                        out@.len() == 0
                    } else {
                        &&& query@.len() == self.spec_dim()
                        &&& p is Some
                        &&& self.is_result(math, p->0, k, out@)
                        &&& out@.len() <= k
                        &&& forall|i: int|
                            0 <= i < out@.len() ==> {
                                &&& graph::is_live(self.nodes(), (#[trigger] out@[i]).0 as int)
                                &&& out@[i].1 == search::dist_to(
                                    math,
                                    self.spec_params().metric,
                                    self.nodes(),
                                    p->0,
                                    out@[i].0,
                                )
                            }
                        &&& forall|i: int, j: int|
                            0 <= i < j < out@.len() ==> {
                                &&& float::rank((#[trigger] out@[i]).1) <= float::rank(
                                    (#[trigger] out@[j]).1,
                                )
                                &&& out@[i].0 != out@[j].0
                            }
                    }
                },
                Err(e) => {
                    &&& e is InvalidArgument
                    &&& !self.nothing_to_find(k)
                    &&& query@.len() != self.spec_dim() || insert::prepared(
                        math,
                        self.spec_params().metric,
                        query@,
                    ) is None
                },
            },
    {
        if self.nodes.len() == 0 || k == 0 {
            return Ok(Vec::new());
        }
        let entry = match self.entry {
            Some(e) => e,
            None => {
                return Ok(Vec::new());
            },
        };
        if query.len() != self.dim {
            return Err(invalid_argument("query dimension mismatch"));
        }
        let processed = match self.prepare(math, query) {
            Some(v) => v,
            None => {
                return Err(
                    invalid_argument(
                        "cannot search for invalid query vector (zero-norm for cosine, or contains non-finite values)",
                    ),
                );
            },
        };
        let current = self.descend(math, processed.as_slice(), entry, 0);
        let twice: usize = if k > usize::MAX / 2 {
            usize::MAX
        } else {
            k * 2
        };
        let ef: usize = if self.params.ef_search < twice {
            twice
        } else {
            self.params.ef_search
        };
        let raw = self.search_layer(math, processed.as_slice(), current, 0, ef);
        let live = self.keep_live(&raw);
        let sorted = sort_candidates(&live);
        let n: usize = if sorted.len() < k {
            sorted.len()
        } else {
            k
        };
        let mut out: Vec<(NodeId, u32)> = Vec::new();
        let ghost h = hits(self.nodes(), raw@, k as int);
        proof {
            assert(h =~= sorted@.take(n as int));
        }
        for i in 0..n
            invariant
                n <= sorted@.len(),
                h == sorted@.take(n as int),
                out@ == id_dists(h).take(i as int),
        {
            out.push((sorted[i].id, sorted[i].dist));
            assert(out@ =~= id_dists(h).take(i + 1));
        }
        proof {
            let params = self.spec_params();
            assert(out@ =~= id_dists(h));
            lemma_hits(self.nodes(), raw@, k as int);
            assert(search::is_beam(
                math,
                params.metric,
                self.nodes(),
                processed@,
                current,
                0,
                search_width(params.ef_search as int, k as int),
                raw@,
            ));
            assert(self.is_result(math, processed@, k, out@));
            assert forall|i: int| 0 <= i < out@.len() implies {
                &&& graph::is_live(self.nodes(), (#[trigger] out@[i]).0 as int)
                &&& out@[i].1 == search::dist_to(
                    math,
                    params.metric,
                    self.nodes(),
                    processed@,
                    out@[i].0,
                )
            } by {
                assert(raw@.contains(h[i]));
                let j = choose|j: int| 0 <= j < raw@.len() && raw@[j] == h[i];
                assert(graph::has_layer(self.nodes(), raw@[j].id as int, 0));
                assert(out@[i] == (h[i].id, h[i].dist));
            }
            assert forall|i: int, j: int| 0 <= i < j < out@.len() implies {
                &&& float::rank((#[trigger] out@[i]).1) <= float::rank((#[trigger] out@[j]).1)
                &&& out@[i].0 != out@[j].0
            } by {
                assert(out@[i] == (h[i].id, h[i].dist));
                assert(out@[j] == (h[j].id, h[j].dist));
            }
        }
        Ok(out)
    }

    /// The candidates whose nodes are live.
    pub(crate) fn keep_live(&self, s: &Vec<Candidate>) -> (r: Vec<Candidate>)
        requires
            forall|i: int| 0 <= i < s@.len() ==> (#[trigger] s@[i]).id < self.nodes().len(),
        ensures
            r@ == live_only(self.nodes(), s@),
    {
        let mut out: Vec<Candidate> = Vec::new();
        let n = s.len();
        for i in 0..n
            invariant
                n == s@.len(),
                forall|j: int| 0 <= j < s@.len() ==> (#[trigger] s@[j]).id < self.nodes().len(),
                out@ == live_only(self.nodes(), s@.take(i as int)),
        {
            let c = s[i];
            proof {
                assert(s@[i as int].id < self.nodes().len());
                assert(s@.take(i + 1).drop_last() =~= s@.take(i as int));
                assert(s@.take(i + 1).last() == c);
            }
            if !self.nodes[c.id as usize].deleted {
                out.push(c);
            }
        }
        assert(s@.take(n as int) =~= s@);
        out
    }
}

} // verus!
