//! Queries of the vector index by key.

use crate::codec::copy_bytes;
use crate::engine::scan;
use crate::engine::vector::VectorIndex;
use crate::error::Result;
use crate::hnsw::float;
use crate::hnsw::graph;
use crate::hnsw::insert;
use crate::hnsw::math::VectorMath;
use crate::hnsw::search;
use vstd::arithmetic::power2::{lemma2_to64, lemma_pow2_unfold, pow2};
use vstd::prelude::*;

verus! {

/// A key that a query found.
#[derive(Debug, Clone, PartialEq, Eq)]
pub struct NearestResult {
    /// The key.
    pub key: Vec<u8>,
    /// Its distance from the query under the metric of the index, as the bits
    /// of a float. Smaller is closer.
    pub distance: u32,
}

impl VectorIndex {
    /// `r` is the hit `h` with the key of its node.
    pub open spec fn names_hit(&self, h: (u32, u32), r: NearestResult) -> bool {
        &&& self.reverse().contains_key(h.0)
        &&& r.key@ == self.reverse()[h.0]@
        &&& r.distance == h.1
    }

    /// `hits` answer a search for the `k` neighbours of `query`.
    pub open spec fn are_hits<M: VectorMath>(
        &self,
        math: &M,
        query: Seq<u32>,
        k: usize,
        hits: Seq<(u32, u32)>,
    ) -> bool {
        let p = insert::prepared(math, self.graph().spec_params().metric, query);
        if self.graph().nothing_to_find(k) {
            hits.len() == 0
        } else {
            &&& query.len() == self.graph().spec_dim()
            &&& p is Some
            &&& self.graph().is_result(math, p->0, k, hits)
        }
    }

    /// `query` has the dimension of the index, and can be compared.
    pub open spec fn fits_query<M: VectorMath>(&self, math: &M, query: Seq<u32>) -> bool {
        &&& query.len() == self.graph().spec_dim()
        &&& insert::prepared(math, self.graph().spec_params().metric, query) is Some
    }

    /// A search for the `k` neighbours of `query` is refused: it has another
    /// dimension, or cannot be compared.
    pub open spec fn refuses_query<M: VectorMath>(&self, math: &M, query: Seq<u32>, k: usize) -> bool {
        &&& !self.graph().nothing_to_find(k)
        &&& !self.fits_query(math, query)
    }

    /// `out` are keys of the index with their distances from `query`, closest
    /// first, none twice.
    pub open spec fn are_keys_by_distance<M: VectorMath>(
        &self,
        math: &M,
        query: Seq<u32>,
        out: Seq<NearestResult>,
    ) -> bool {
        let metric = self.graph().spec_params().metric;
        &&& forall|i: int|
            0 <= i < out.len() ==> {
                &&& self.indexed((#[trigger] out[i]).key@) is Some
                &&& out[i].distance == math.distance_of(
                    metric,
                    insert::prepared(math, metric, query)->0,
                    self.indexed(out[i].key@)->0,
                )
            }
        &&& forall|i: int, j: int|
            0 <= i < j < out.len() ==> {
                &&& float::rank((#[trigger] out[i]).distance) <= float::rank(
                    (#[trigger] out[j]).distance,
                )
                &&& out[i].key@ != out[j].key@
            }
    }

    /// Finds the keys of the `k` nearest neighbours of `query`, closest first.
    pub(crate) fn nearest<M: VectorMath>(&self, math: &M, query: &[u32], k: usize) -> (r: Result<
        Vec<NearestResult>,
    >)
        requires
            self.wf(),
            math.ready(),
        ensures
            match r {
                Ok(out) => {
                    &&& exists|hits: Seq<(u32, u32)>| #[trigger]
                        self.are_hits(math, query@, k, hits) && out@.len() == hits.len()
                            && forall|i: int|
                            0 <= i < out@.len() ==> self.names_hit(hits[i], #[trigger] out@[i])
                    &&& out@.len() <= k
                    &&& self.are_keys_by_distance(math, query@, out@)
                },
                Err(e) => e is InvalidArgument && self.refuses_query(math, query@, k),
            },
    {
        let hits = match self.hnsw().search(math, query, k) {
            Ok(h) => h,
            Err(e) => {
                return Err(e);
            },
        };
        let out = self.name_hits(&hits);
        proof {
            assert(self.are_hits(math, query@, k, hits@));
            self.lemma_hits_are_keys(math, query@, hits@, out@);
        }
        Ok(out)
    }

    /// Hits with their keys are keys by distance.
    proof fn lemma_hits_are_keys<M: VectorMath>(
        &self,
        math: &M,
        query: Seq<u32>,
        hits: Seq<(u32, u32)>,
        out: Seq<NearestResult>,
    )
        requires
            self.wf(),
            out.len() == hits.len(),
            forall|i: int| 0 <= i < out.len() ==> self.names_hit(hits[i], #[trigger] out[i]),
            hits.len() > 0 ==> {
                let metric = self.graph().spec_params().metric;
                let p = insert::prepared(math, metric, query);
                &&& forall|i: int|
                    0 <= i < hits.len() ==> {
                        &&& graph::is_live(self.graph().nodes(), (#[trigger] hits[i]).0 as int)
                        &&& hits[i].1 == search::dist_to(
                            math,
                            metric,
                            self.graph().nodes(),
                            p->0,
                            hits[i].0,
                        )
                    }
                &&& forall|i: int, j: int|
                    0 <= i < j < hits.len() ==> {
                        &&& float::rank((#[trigger] hits[i]).1) <= float::rank(
                            (#[trigger] hits[j]).1,
                        )
                        &&& hits[i].0 != hits[j].0
                    }
            },
        ensures
            self.are_keys_by_distance(math, query, out),
    {
        assert forall|i: int| 0 <= i < out.len() implies self.node_of((#[trigger] out[i]).key@)
            == Some(hits[i].0) by {
            assert(self.names_hit(hits[i], out[i]));
        }
        assert forall|i: int, j: int| 0 <= i < j < out.len() implies {
            &&& float::rank((#[trigger] out[i]).distance) <= float::rank(
                (#[trigger] out[j]).distance,
            )
            &&& out[i].key@ != out[j].key@
        } by {
            assert(self.names_hit(hits[i], out[i]));
            assert(self.names_hit(hits[j], out[j]));
            assert(hits[i].0 != hits[j].0);
            assert(self.node_of(out[i].key@) == Some(hits[i].0));
            assert(self.node_of(out[j].key@) == Some(hits[j].0));
        }
    }
}

/// The hits among `hits` for which the answer is yes.
pub open spec fn chosen(hits: Seq<(u32, u32)>, answers: Seq<bool>) -> Seq<(u32, u32)>
    decreases hits.len(),
{
    if hits.len() == 0 {
        hits
    } else {
        let before = chosen(hits.drop_last(), answers);
        if answers[hits.len() - 1] {
            before.push(hits.last())
        } else {
            before
        }
    }
}

/// `h` is one of `hits` for which the answer is yes.
pub open spec fn is_chosen(hits: Seq<(u32, u32)>, answers: Seq<bool>, h: (u32, u32)) -> bool {
    exists|j: int| 0 <= j < hits.len() && #[trigger] hits[j] == h && answers[j]
}

/// `predicate` may answer `b` for `key`.
pub open spec fn says<F: Fn(&[u8]) -> bool>(predicate: F, key: Seq<u8>, b: bool) -> bool {
    exists|s: &[u8]| s@ == key && #[trigger] call_ensures(predicate, (s,), b)
}

/// Closest first, and no node twice.
pub open spec fn hits_ascend(hits: Seq<(u32, u32)>) -> bool {
    forall|i: int, j: int|
        0 <= i < j < hits.len() ==> {
            &&& float::rank((#[trigger] hits[i]).1) <= float::rank((#[trigger] hits[j]).1)
            &&& hits[i].0 != hits[j].0
        }
}

/// What is chosen comes from the hits, in their order.
pub(crate) proof fn lemma_chosen(hits: Seq<(u32, u32)>, answers: Seq<bool>)
    ensures
        forall|i: int|
            0 <= i < chosen(hits, answers).len() ==> hits.contains(
                #[trigger] chosen(hits, answers)[i],
            ),
        forall|i: int|
            0 <= i < chosen(hits, answers).len() ==> is_chosen(
                hits,
                answers,
                #[trigger] chosen(hits, answers)[i],
            ),
        hits_ascend(hits) ==> hits_ascend(chosen(hits, answers)),
    decreases hits.len(),
{
    if hits.len() > 0 {
        let d = hits.drop_last();
        let before = chosen(d, answers);
        let all = chosen(hits, answers);
        lemma_chosen(d, answers);
        assert forall|i: int| 0 <= i < all.len() implies hits.contains(#[trigger] all[i]) by {
            if i < before.len() {
                assert(d.contains(before[i]));
                let j = choose|j: int| 0 <= j < d.len() && d[j] == before[i];
                assert(hits[j] == all[i]);
            } else {
                assert(hits[hits.len() - 1] == all[i]);
            }
        }
        assert forall|i: int| 0 <= i < all.len() implies is_chosen(
            hits,
            answers,
            #[trigger] all[i],
        ) by {
            if i < before.len() {
                assert(is_chosen(d, answers, before[i]));
                let j = choose|j: int| 0 <= j < d.len() && #[trigger] d[j] == before[i] && answers[j];
                assert(hits[j] == all[i]);
            } else {
                assert(hits[hits.len() - 1] == all[i]);
            }
        }
        if hits_ascend(hits) {
            assert(hits_ascend(d)) by {
                assert forall|i: int, j: int| 0 <= i < j < d.len() implies {
                    &&& float::rank((#[trigger] d[i]).1) <= float::rank((#[trigger] d[j]).1)
                    &&& d[i].0 != d[j].0
                } by {
                    assert(d[i] == hits[i]);
                    assert(d[j] == hits[j]);
                }
            }
            assert forall|i: int, j: int| 0 <= i < j < all.len() implies {
                &&& float::rank((#[trigger] all[i]).1) <= float::rank((#[trigger] all[j]).1)
                &&& all[i].0 != all[j].0
            } by {
                assert(all[i] == before[i]);
                if j < before.len() {
                    assert(all[j] == before[j]);
                } else {
                    assert(d.contains(before[i]));
                    let x = choose|x: int| 0 <= x < d.len() && d[x] == before[i];
                    assert(d[x] == hits[x]);
                    assert(all[j] == hits[hits.len() - 1]);
                }
            }
        }
    }
}

/// What is answered with yes is chosen.
pub(crate) proof fn lemma_chosen_has(hits: Seq<(u32, u32)>, answers: Seq<bool>, j: int)
    requires
        0 <= j < hits.len(),
        answers[j],
    ensures
        exists|x: int|
            0 <= x < chosen(hits, answers).len() && #[trigger] chosen(hits, answers)[x] == hits[j],
    decreases hits.len(),
{
    let d = hits.drop_last();
    let before = chosen(d, answers);
    let all = chosen(hits, answers);
    if j < d.len() {
        lemma_chosen_has(d, answers, j);
        let x = choose|x: int|
            0 <= x < before.len() && #[trigger] before[x] == d[j];
        assert(all[x] == hits[j]);
    } else {
        assert(all[before.len() as int] == hits[j]);
    }
}

/// By how much pass `pass` of a filtered search is wider than what is asked
/// for.
pub open spec fn factor_at(pass: nat) -> int
    decreases pass,
{
    if pass == 0 {
        10
    } else {
        let f = 2 * factor_at((pass - 1) as nat);
        if f < usize::MAX {
            f
        } else {
            usize::MAX as int
        }
    }
}

/// A pass looks for ten times as many as are asked for at least, and for twice as
/// many as the pass before.
pub proof fn lemma_factor(pass: nat)
    ensures
        factor_at(pass) == (if 10 * pow2(pass) < usize::MAX {
            10int * pow2(pass)
        } else {
            usize::MAX as int
        }),
        factor_at(pass) >= 10 || factor_at(pass) == usize::MAX,
        factor_at(pass) >= 1,
    decreases pass,
{
    if pass > 0 {
        lemma_factor((pass - 1) as nat);
        lemma_pow2_unfold(pass);
    } else {
        lemma2_to64();
    }
}

/// How many neighbours pass `pass` of a filtered search for `k` of `live` keys
/// looks for.
pub open spec fn width_at(k: usize, live: int, pass: nat) -> int {
    let wide = k * factor_at(pass);
    if wide < live {
        wide
    } else {
        live
    }
}

/// The first pass looks for ten times as many as are asked for, the next for
/// twenty times as many, and so on; but for no more than there are.
pub proof fn lemma_width(k: usize, live: int, pass: nat)
    requires
        10 * pow2(pass) <= usize::MAX,
    ensures
        k * (10 * pow2(pass)) < live ==> width_at(k, live, pass) == k * (10 * pow2(pass)),
        k * (10 * pow2(pass)) >= live ==> width_at(k, live, pass) == live,
{
    lemma_factor(pass);
    assert(factor_at(pass) == 10 * pow2(pass));
}

impl VectorIndex {
    /// A search for `width` neighbours gives fewer than `k` for which
    /// `predicate` says yes.
    pub open spec fn falls_short<M: VectorMath, F: Fn(&[u8]) -> bool>(
        &self,
        math: &M,
        query: Seq<u32>,
        k: usize,
        predicate: F,
        width: int,
    ) -> bool {
        exists|hits: Seq<(u32, u32)>, answers: Seq<bool>|
            {
                &&& #[trigger] self.are_hits(math, query, width as usize, hits)
                &&& #[trigger] self.are_answers(predicate, hits, answers)
                &&& chosen(hits, answers).len() < k
            }
    }

    /// Asked for the keys of `hits`, `predicate` gave the answers `answers`.
    pub open spec fn are_answers<F: Fn(&[u8]) -> bool>(
        &self,
        predicate: F,
        hits: Seq<(u32, u32)>,
        answers: Seq<bool>,
    ) -> bool {
        &&& answers.len() == hits.len()
        &&& forall|i: int|
            0 <= i < hits.len() ==> says(
                predicate,
                self.reverse()[(#[trigger] hits[i]).0]@,
                answers[i],
            )
    }

    /// `out` are the first `k` of `hits` for which `predicate` says yes: asked
    /// for the first `m` of them, it gave the answers `answers`.
    pub open spec fn picks<F: Fn(&[u8]) -> bool>(
        &self,
        k: usize,
        predicate: F,
        hits: Seq<(u32, u32)>,
        answers: Seq<bool>,
        m: int,
        out: Seq<NearestResult>,
    ) -> bool {
        let picked = chosen(hits.take(m), answers);
        &&& 0 <= m <= hits.len()
        &&& self.are_answers(predicate, hits.take(m), answers)
        &&& m == hits.len() || out.len() == k
        &&& out.len() == picked.len()
        &&& out.len() <= k
        &&& forall|i: int| 0 <= i < out.len() ==> self.names_hit(picked[i], #[trigger] out[i])
    }

    /// `out` are the first `k` of the hits of pass `pass` for which
    /// `predicate` says yes: asked for the first `m` of them, it gave the
    /// answers `answers`. There are `k`, or all live nodes were found, or the
    /// query does not fit. All passes before fell short.
    pub open spec fn filters<M: VectorMath, F: Fn(&[u8]) -> bool>(
        &self,
        math: &M,
        query: Seq<u32>,
        k: usize,
        predicate: F,
        pass: nat,
        hits: Seq<(u32, u32)>,
        answers: Seq<bool>,
        m: int,
        out: Seq<NearestResult>,
    ) -> bool {
        let live = graph::live_count(self.graph().nodes()) as int;
        let width = width_at(k, live, pass);
        &&& forall|q: nat|
            q < pass ==> #[trigger] width_at(k, live, q) < live && self.falls_short(
                math,
                query,
                k,
                predicate,
                width_at(k, live, q),
            )
        &&& self.are_hits(math, query, width as usize, hits)
        &&& self.picks(k, predicate, hits, answers, m, out)
        &&& out.len() == k || width == live && (hits.len() == live || !self.fits_query(math, query))
    }

    /// `out` are the keys of `hits`, which a scan of all live nodes gave, after
    /// all passes fell short, up to pass `pass`, which searched for all.
    pub open spec fn scans<M: VectorMath, F: Fn(&[u8]) -> bool>(
        &self,
        math: &M,
        query: Seq<u32>,
        k: usize,
        predicate: F,
        pass: nat,
        hits: Seq<(u32, u32)>,
        out: Seq<NearestResult>,
    ) -> bool {
        let p = insert::prepared(math, self.graph().spec_params().metric, query);
        let live = graph::live_count(self.graph().nodes()) as int;
        &&& width_at(k, live, pass) == live
        &&& forall|q: nat|
            q <= pass ==> self.falls_short(
                math,
                query,
                k,
                predicate,
                #[trigger] width_at(k, live, q),
            )
        &&& query.len() == self.graph().spec_dim()
        &&& p is Some
        &&& self.is_scan(math, p->0, k, predicate, hits)
        &&& self.names_hits(hits, out)
    }

    /// `out` are `hits` with the keys of their nodes.
    pub open spec fn names_hits(&self, hits: Seq<(u32, u32)>, out: Seq<NearestResult>) -> bool {
        &&& out.len() == hits.len()
        &&& forall|i: int| 0 <= i < out.len() ==> self.names_hit(hits[i], #[trigger] out[i])
    }

    /// `out` answers a filtered search: a pass of the search gave it, or a scan
    /// after all passes fell short.
    pub open spec fn is_filtered<M: VectorMath, F: Fn(&[u8]) -> bool>(
        &self,
        math: &M,
        query: Seq<u32>,
        k: usize,
        predicate: F,
        out: Seq<NearestResult>,
    ) -> bool {
        ||| exists|pass: nat, hits: Seq<(u32, u32)>, answers: Seq<bool>, m: int| #[trigger]
            self.filters(math, query, k, predicate, pass, hits, answers, m, out)
        ||| exists|pass: nat, hits: Seq<(u32, u32)>| #[trigger]
            self.scans(math, query, k, predicate, pass, hits, out)
    }

    /// Every key of the index is in `out`, or `predicate` says no to it.
    pub open spec fn takes_all<F: Fn(&[u8]) -> bool>(
        &self,
        predicate: F,
        out: Seq<NearestResult>,
    ) -> bool {
        forall|key: Seq<u8>| #[trigger]
            self.indexed(key) is Some ==> says(predicate, key, false) || exists|i: int|
                0 <= i < out.len() && (#[trigger] out[i]).key@ == key
    }

    /// Finds the keys of the `k` nearest neighbours of `query` for which
    /// `predicate` says yes. The search is wider than `k` from the start, and
    /// widened while it does not yield enough. What it does not reach then is
    /// found by a scan.
    pub(crate) fn nearest_filtered<M: VectorMath, F: Fn(&[u8]) -> bool>(
        &self,
        math: &M,
        query: &[u32],
        k: usize,
        predicate: F,
    ) -> (r: Result<Vec<NearestResult>>)
        requires
            self.wf(),
            math.ready(),
            forall|key: &[u8]| #[trigger] call_requires(predicate, (key,)),
        ensures
            match r {
                Ok(out) => {
                    &&& out@.len() <= k
                    &&& self.are_keys_by_distance(math, query@, out@)
                    &&& forall|i: int|
                        0 <= i < out@.len() ==> says(predicate, (#[trigger] out@[i]).key@, true)
                    &&& if k == 0 || graph::live_count(self.graph().nodes()) == 0 {
                        out@.len() == 0
                    } else {
                        self.is_filtered(math, query@, k, predicate, out@)
                    }
                    &&& out@.len() < k && self.fits_query(math, query@) ==> self.takes_all(
                        predicate,
                        out@,
                    )
                },
                Err(e) => {
                    &&& e is InvalidArgument
                    &&& graph::live_count(self.graph().nodes()) > 0
                    &&& self.refuses_query(math, query@, k)
                },
            },
    {
        if k == 0 {
            return Ok(Vec::new());
        }
        let live = self.live_count();
        if live == 0 {
            proof {
                self.lemma_none_indexed();
            }
            return Ok(Vec::new());
        }
        let mut factor: usize = 10;
        let ghost mut pass: nat = 0;
        loop
            invariant
                self.wf(),
                math.ready(),
                forall|key: &[u8]| #[trigger] call_requires(predicate, (key,)),
                k > 0,
                live > 0,
                live == graph::live_count(self.graph().nodes()),
                factor > 0,
                factor == factor_at(pass),
                forall|q: nat|
                    q < pass ==> #[trigger] width_at(k, live as int, q) < live && self.falls_short(
                        math,
                        query@,
                        k,
                        predicate,
                        width_at(k, live as int, q),
                    ),
            decreases
                    if factor < live {
                        live - factor
                    } else {
                        0
                    },
        {
            let wide: usize = match k.checked_mul(factor) {
                Some(n) => n,
                None => usize::MAX,
            };
            proof {
                assert(wide >= factor) by {
                    assert(k * factor >= factor) by (nonlinear_arith)
                        requires
                            k >= 1,
                            factor >= 0,
                    ;
                }
            }
            let search_k: usize = if wide < live {
                wide
            } else {
                live
            };
            assert(search_k == width_at(k, live as int, pass));
            let hits = match self.hnsw().search(math, query, search_k) {
                Ok(h) => h,
                Err(e) => {
                    return Err(e);
                },
            };
            let out = self.pick(&hits, k, &predicate);
            let ghost (answers, m) = choose|answers: Seq<bool>, m: int| #[trigger]
                self.picks(k, predicate, hits@, answers, m, out@);
            proof {
                self.lemma_picked_are_keys(math, query@, hits@, m, answers, out@);
                self.lemma_picked_pass(k, predicate, hits@, answers, m, out@);
                assert(self.are_hits(math, query@, search_k, hits@));
            }
            let searched_all = search_k >= live;
            if out.len() == k || searched_all && (hits.len() == live || !self.accepts(math, query)) {
                proof {
                    assert(self.filters(
                        math,
                        query@,
                        k,
                        predicate,
                        pass,
                        hits@,
                        answers,
                        m,
                        out@,
                    ));
                    if out@.len() < k && self.fits_query(math, query@) {
                        assert(hits@.take(m) =~= hits@);
                        self.lemma_filters_all(predicate, hits@, answers, out@);
                    }
                    assert(self.is_filtered(math, query@, k, predicate, out@));
                }
                return Ok(out);
            }
            proof {
                assert(hits@.take(m) =~= hits@);
                assert(self.are_answers(predicate, hits@, answers));
                assert(chosen(hits@, answers).len() < k);
                assert(self.are_hits(math, query@, (search_k as int) as usize, hits@));
                assert(self.falls_short(math, query@, k, predicate, search_k as int));
            }
            if searched_all {
                let named = self.scan_keys(math, query, k, &predicate);
                proof {
                    let p = insert::prepared(math, self.graph().spec_params().metric, query@);
                    let found = choose|found: Seq<(u32, u32)>|
                        self.is_scan(math, p->0, k, predicate, found) && #[trigger] self.names_hits(
                            found,
                            named@,
                        );
                    assert(self.scans(math, query@, k, predicate, pass, found, named@));
                    assert(self.is_filtered(math, query@, k, predicate, named@));
                }
                return Ok(named);
            }
            proof {
                pass = pass + 1;
            }
            factor =
            match factor.checked_mul(2) {
                Some(n) => n,
                None => usize::MAX,
            };
        }
    }

    /// True if `query` has the dimension of the index and can be compared.
    fn accepts<M: VectorMath>(&self, math: &M, query: &[u32]) -> (r: bool)
        requires
            self.wf(),
            math.ready(),
        ensures
            r == self.fits_query(math, query@),
    {
        query.len() == self.hnsw().dim() && self.hnsw().prepare(math, query).is_some()
    }

    /// The first `k` of `hits` to whose keys `predicate` says yes.
    fn pick<F: Fn(&[u8]) -> bool>(
        &self,
        hits: &Vec<(u32, u32)>,
        k: usize,
        predicate: &F,
    ) -> (out: Vec<NearestResult>)
        requires
            self.wf(),
            forall|key: &[u8]| #[trigger] call_requires(*predicate, (key,)),
            forall|j: int|
                0 <= j < hits@.len() ==> graph::is_live(
                    self.graph().nodes(),
                    (#[trigger] hits@[j]).0 as int,
                ),
        ensures
            exists|answers: Seq<bool>, m: int| #[trigger]
                self.picks(k, *predicate, hits@, answers, m, out@),
    {
        let mut out: Vec<NearestResult> = Vec::new();
        let ghost mut answers: Seq<bool> = Seq::empty();
        let ghost mut picked: Seq<(u32, u32)> = Seq::empty();
        let mut i: usize = 0;
        assert(hits@.take(0) =~= Seq::empty());
        while i < hits.len() && out.len() < k
            invariant
                self.wf(),
                forall|key: &[u8]| #[trigger] call_requires(*predicate, (key,)),
                i <= hits@.len(),
                forall|j: int|
                    0 <= j < hits@.len() ==> graph::is_live(
                        self.graph().nodes(),
                        (#[trigger] hits@[j]).0 as int,
                    ),
                answers.len() == i,
                forall|j: int|
                    0 <= j < i ==> says(
                        *predicate,
                        self.reverse()[(#[trigger] hits@[j]).0]@,
                        answers[j],
                    ),
                picked == chosen(hits@.take(i as int), answers),
                out@.len() == picked.len(),
                out@.len() <= k,
                forall|j: int|
                    0 <= j < out@.len() ==> self.names_hit(picked[j], #[trigger] out@[j]),
            decreases hits@.len() - i,
        {
            let (node_id, distance) = hits[i];
            let ghost before = answers;
            let key = match self.key_for_node(node_id) {
                Some(key) => key,
                None => {
                    proof {
                        assert(graph::is_live(self.graph().nodes(), hits@[i as int].0 as int));
                        assert(false);
                    }
                    return Vec::new();
                },
            };
            let yes = predicate(key.as_slice());
            proof {
                answers = before.push(yes);
                picked = chosen(hits@.take(i + 1), answers);
                assert(says(*predicate, self.reverse()[hits@[i as int].0]@, yes));
                assert(hits@.take(i + 1).drop_last() =~= hits@.take(i as int));
                lemma_answers_extend(hits@.take(i as int), before, yes);
                assert forall|j: int| 0 <= j < i + 1 implies says(
                    *predicate,
                    self.reverse()[(#[trigger] hits@[j]).0]@,
                    answers[j],
                ) by {
                    if j < i {
                        assert(answers[j] == before[j]);
                    }
                }
            }
            if yes {
                out.push(NearestResult { key: copy_bytes(key.as_slice()), distance });
            }
            i = i + 1;
        }
        proof {
            assert(self.are_answers(*predicate, hits@.take(i as int), answers)) by {
                assert forall|j: int| 0 <= j < i implies says(
                    *predicate,
                    self.reverse()[(#[trigger] hits@.take(i as int)[j]).0]@,
                    answers[j],
                ) by {
                    assert(hits@.take(i as int)[j] == hits@[j]);
                }
            }
            assert(self.picks(k, *predicate, hits@, answers, i as int, out@));
        }
        out
    }

    /// What is picked passes.
    proof fn lemma_picked_pass<F: Fn(&[u8]) -> bool>(
        &self,
        k: usize,
        predicate: F,
        hits: Seq<(u32, u32)>,
        answers: Seq<bool>,
        m: int,
        out: Seq<NearestResult>,
    )
        requires
            self.picks(k, predicate, hits, answers, m, out),
        ensures
            forall|i: int|
                0 <= i < out.len() ==> says(predicate, (#[trigger] out[i]).key@, true),
    {
        let h = hits.take(m);
        let picked = chosen(h, answers);
        lemma_chosen(h, answers);
        assert forall|x: int| 0 <= x < out.len() implies says(
            predicate,
            (#[trigger] out[x]).key@,
            true,
        ) by {
            assert(is_chosen(h, answers, picked[x]));
            let j = choose|j: int| 0 <= j < h.len() && #[trigger] h[j] == picked[x] && answers[j];
            assert(self.names_hit(picked[x], out[x]));
            assert(says(predicate, self.reverse()[h[j].0]@, answers[j]));
        }
    }

    /// The keys of the `k` nodes closest to `query`, of all live ones to whose
    /// keys `predicate` says yes.
    fn scan_keys<M: VectorMath, F: Fn(&[u8]) -> bool>(
        &self,
        math: &M,
        query: &[u32],
        k: usize,
        predicate: &F,
    ) -> (out: Vec<NearestResult>)
        requires
            self.wf(),
            math.ready(),
            k > 0,
            forall|key: &[u8]| #[trigger] call_requires(*predicate, (key,)),
            insert::prepared(math, self.graph().spec_params().metric, query@) is Some,
        ensures
            ({
                let p = insert::prepared(math, self.graph().spec_params().metric, query@);
                exists|hits: Seq<(u32, u32)>|
                    self.is_scan(math, p->0, k, *predicate, hits) && #[trigger] self.names_hits(
                        hits,
                        out@,
                    )
            }),
            out@.len() <= k,
            self.are_keys_by_distance(math, query@, out@),
            forall|i: int|
                0 <= i < out@.len() ==> says(*predicate, (#[trigger] out@[i]).key@, true),
            out@.len() < k ==> self.takes_all(*predicate, out@),
    {
        let processed = match self.hnsw().prepare(math, query) {
            Some(p) => p,
            None => {
                assert(false);
                return Vec::new();
            },
        };
        let found = self.scan(math, processed.as_slice(), k, predicate);
        let named = self.name_hits(&found);
        proof {
            assert(self.names_hits(found@, named@));
            self.lemma_hits_are_keys(math, query@, found@, named@);
            assert forall|x: int| 0 <= x < named@.len() implies says(
                *predicate,
                (#[trigger] named@[x]).key@,
                true,
            ) by {
                assert(self.names_hit(found@[x], named@[x]));
            }
            if named@.len() < k {
                self.lemma_scan_all(math, processed@, k, *predicate, found@, named@);
            }
        }
        named
    }

    /// The hits `hits` with the keys of their nodes.
    fn name_hits(&self, hits: &Vec<(u32, u32)>) -> (out: Vec<NearestResult>)
        requires
            self.wf(),
            forall|j: int|
                0 <= j < hits@.len() ==> graph::is_live(
                    self.graph().nodes(),
                    (#[trigger] hits@[j]).0 as int,
                ),
        ensures
            out@.len() == hits@.len(),
            forall|j: int| 0 <= j < out@.len() ==> self.names_hit(hits@[j], #[trigger] out@[j]),
    {
        let mut out: Vec<NearestResult> = Vec::new();
        let mut i: usize = 0;
        while i < hits.len()
            invariant
                i <= hits@.len(),
                self.wf(),
                forall|j: int|
                    0 <= j < hits@.len() ==> graph::is_live(
                        self.graph().nodes(),
                        (#[trigger] hits@[j]).0 as int,
                    ),
                out@.len() == i,
                forall|j: int| 0 <= j < i ==> self.names_hit(hits@[j], #[trigger] out@[j]),
            decreases hits@.len() - i,
        {
            let (node_id, distance) = hits[i];
            match self.key_for_node(node_id) {
                Some(key) => {
                    out.push(NearestResult { key: copy_bytes(key.as_slice()), distance });
                },
                None => {
                    assert(graph::is_live(self.graph().nodes(), hits@[i as int].0 as int));
                    assert(false);
                },
            }
            i = i + 1;
        }
        out
    }

    /// Without live nodes there are no keys.
    proof fn lemma_none_indexed(&self)
        requires
            self.wf(),
            graph::live_count(self.graph().nodes()) == 0,
        ensures
            forall|key: Seq<u8>| (#[trigger] self.indexed(key)) is None,
    {
        assert forall|key: Seq<u8>| (#[trigger] self.indexed(key)) is None by {
            if self.node_of(key) is Some {
                let id = self.node_of(key)->0;
                assert(self.reverse().contains_key(id));
                scan::lemma_hits_are_all(self.graph().nodes(), Seq::empty(), id as int);
            }
        }
    }

    /// If all live nodes were found, those to which `predicate` says yes are
    /// all there.
    proof fn lemma_filters_all<F: Fn(&[u8]) -> bool>(
        &self,
        predicate: F,
        hits: Seq<(u32, u32)>,
        answers: Seq<bool>,
        out: Seq<NearestResult>,
    )
        requires
            self.wf(),
            hits.len() == graph::live_count(self.graph().nodes()),
            forall|i: int|
                0 <= i < hits.len() ==> graph::is_live(
                    self.graph().nodes(),
                    (#[trigger] hits[i]).0 as int,
                ),
            forall|i: int, j: int|
                0 <= i < j < hits.len() ==> (#[trigger] hits[i]).0 != (#[trigger] hits[j]).0,
            self.are_answers(predicate, hits, answers),
            out.len() == chosen(hits, answers).len(),
            forall|i: int|
                0 <= i < out.len() ==> self.names_hit(chosen(hits, answers)[i], #[trigger] out[i]),
        ensures
            self.takes_all(predicate, out),
    {
        assert forall|key: Seq<u8>| #[trigger] self.indexed(key) is Some implies says(
            predicate,
            key,
            false,
        ) || exists|i: int| 0 <= i < out.len() && (#[trigger] out[i]).key@ == key by {
            let id = self.node_of(key)->0;
            assert(self.reverse().contains_key(id));
            scan::lemma_hits_are_all(self.graph().nodes(), hits, id as int);
            let j = choose|j: int| 0 <= j < hits.len() && (#[trigger] hits[j]).0 == id;
            assert(says(predicate, self.reverse()[hits[j].0]@, answers[j]));
            if answers[j] {
                lemma_chosen_has(hits, answers, j);
                let x = choose|x: int|
                    0 <= x < chosen(hits, answers).len() && #[trigger] chosen(hits, answers)[x]
                        == hits[j];
                assert(self.names_hit(chosen(hits, answers)[x], out[x]));
                assert(out[x].key@ == key);
            }
        }
    }

    /// A scan that gives fewer than `k` gives all to which `predicate` says
    /// yes.
    proof fn lemma_scan_all<M: VectorMath, F: Fn(&[u8]) -> bool>(
        &self,
        math: &M,
        p: Seq<u32>,
        k: usize,
        predicate: F,
        hits: Seq<(u32, u32)>,
        out: Seq<NearestResult>,
    )
        requires
            self.wf(),
            self.is_scan(math, p, k, predicate, hits),
            hits.len() < k,
            out.len() == hits.len(),
            forall|i: int| 0 <= i < out.len() ==> self.names_hit(hits[i], #[trigger] out[i]),
        ensures
            self.takes_all(predicate, out),
    {
        assert forall|key: Seq<u8>| #[trigger] self.indexed(key) is Some implies says(
            predicate,
            key,
            false,
        ) || exists|i: int| 0 <= i < out.len() && (#[trigger] out[i]).key@ == key by {
            let id = self.node_of(key)->0;
            assert(self.reverse().contains_key(id));
            assert(self.is_settled(math, p, k, predicate, hits, id));
            if exists|i: int| 0 <= i < hits.len() && (#[trigger] hits[i]).0 == id {
                let i = choose|i: int| 0 <= i < hits.len() && (#[trigger] hits[i]).0 == id;
                assert(self.names_hit(hits[i], out[i]));
                assert(out[i].key@ == key);
            }
        }
    }

    /// Chosen hits with their keys are keys by distance.
    proof fn lemma_picked_are_keys<M: VectorMath>(
        &self,
        math: &M,
        query: Seq<u32>,
        hits: Seq<(u32, u32)>,
        m: int,
        answers: Seq<bool>,
        out: Seq<NearestResult>,
    )
        requires
            self.wf(),
            0 <= m <= hits.len(),
            out.len() == chosen(hits.take(m), answers).len(),
            forall|i: int|
                0 <= i < out.len() ==> self.names_hit(
                    chosen(hits.take(m), answers)[i],
                    #[trigger] out[i],
                ),
            hits.len() > 0 ==> {
                let metric = self.graph().spec_params().metric;
                let p = insert::prepared(math, metric, query);
                &&& forall|i: int|
                    0 <= i < hits.len() ==> {
                        &&& graph::is_live(self.graph().nodes(), (#[trigger] hits[i]).0 as int)
                        &&& hits[i].1 == search::dist_to(
                            math,
                            metric,
                            self.graph().nodes(),
                            p->0,
                            hits[i].0,
                        )
                    }
                &&& forall|i: int, j: int|
                    0 <= i < j < hits.len() ==> {
                        &&& float::rank((#[trigger] hits[i]).1) <= float::rank(
                            (#[trigger] hits[j]).1,
                        )
                        &&& hits[i].0 != hits[j].0
                    }
            },
        ensures
            self.are_keys_by_distance(math, query, out),
    {
        let h = hits.take(m);
        let picked = chosen(h, answers);
        lemma_chosen(h, answers);
        assert(hits_ascend(h)) by {
            assert forall|i: int, j: int| 0 <= i < j < h.len() implies {
                &&& float::rank((#[trigger] h[i]).1) <= float::rank((#[trigger] h[j]).1)
                &&& h[i].0 != h[j].0
            } by {
                assert(h[i] == hits[i]);
                assert(h[j] == hits[j]);
            }
        }
        assert forall|i: int| 0 <= i < picked.len() implies {
            &&& graph::is_live(self.graph().nodes(), (#[trigger] picked[i]).0 as int)
            &&& picked[i].1 == search::dist_to(
                math,
                self.graph().spec_params().metric,
                self.graph().nodes(),
                insert::prepared(math, self.graph().spec_params().metric, query)->0,
                picked[i].0,
            )
        } by {
            assert(h.contains(picked[i]));
            let j = choose|j: int| 0 <= j < h.len() && h[j] == picked[i];
            assert(hits[j] == picked[i]);
        }
        self.lemma_hits_are_keys(math, query, picked, out);
    }
}

/// An answer for a further hit does not matter to those before.
proof fn lemma_answers_extend(hits: Seq<(u32, u32)>, answers: Seq<bool>, yes: bool)
    requires
        answers.len() == hits.len(),
    ensures
        chosen(hits, answers.push(yes)) == chosen(hits, answers),
{
    lemma_answers_prefix(hits, answers, answers.push(yes));
}

proof fn lemma_answers_prefix(hits: Seq<(u32, u32)>, a: Seq<bool>, b: Seq<bool>)
    requires
        hits.len() <= a.len(),
        hits.len() <= b.len(),
        forall|i: int| 0 <= i < hits.len() ==> #[trigger] a[i] == b[i],
    ensures
        chosen(hits, a) == chosen(hits, b),
    decreases hits.len(),
{
    if hits.len() > 0 {
        lemma_answers_prefix(hits.drop_last(), a, b);
        assert(a[hits.len() - 1] == b[hits.len() - 1]);
    }
}

} // verus!
