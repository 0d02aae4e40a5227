//! The steps of greedy descent and of beam search.

use crate::hnsw::float;
use crate::hnsw::graph::Nodes;
use crate::hnsw::math::VectorMath;
use crate::hnsw::search;
use crate::hnsw::search::Candidate;
use crate::hnsw::DistanceMetric;
use vstd::prelude::*;

verus! {

/// `current`, or the first of those in `list` that are closest to `query` if
/// these are closer.
pub open spec fn closest<M: VectorMath>(
    math: &M,
    metric: DistanceMetric,
    nodes: Nodes,
    query: Seq<u32>,
    current: u32,
    list: Seq<u32>,
) -> u32
    decreases list.len(),
{
    if list.len() == 0 {
        current
    } else {
        let best = closest(math, metric, nodes, query, current, list.drop_last());
        let last = list.last();
        if float::below(
            search::dist_to(math, metric, nodes, query, last),
            search::dist_to(math, metric, nodes, query, best),
        ) {
            last
        } else {
            best
        }
    }
}

/// Where a greedy walk goes from `x`: to the closest neighbour, or nowhere.
pub open spec fn greedy_next<M: VectorMath>(
    math: &M,
    metric: DistanceMetric,
    nodes: Nodes,
    query: Seq<u32>,
    layer: int,
    x: u32,
) -> u32 {
    closest(math, metric, nodes, query, x, nodes[x as int].layers[layer])
}

/// Where a greedy walk from `start` is after `steps` steps.
pub open spec fn greedy_after<M: VectorMath>(
    math: &M,
    metric: DistanceMetric,
    nodes: Nodes,
    query: Seq<u32>,
    start: u32,
    layer: int,
    steps: nat,
) -> u32
    decreases steps,
{
    if steps == 0 {
        start
    } else {
        greedy_next(
            math,
            metric,
            nodes,
            query,
            layer,
            greedy_after(math, metric, nodes, query, start, layer, (steps - 1) as nat),
        )
    }
}

/// A greedy walk from `start` ends at `r`: there it goes nowhere for the first
/// time.
pub open spec fn greedy_ends<M: VectorMath>(
    math: &M,
    metric: DistanceMetric,
    nodes: Nodes,
    query: Seq<u32>,
    start: u32,
    layer: int,
    r: u32,
) -> bool {
    exists|steps: nat|
        {
            &&& #[trigger] greedy_after(math, metric, nodes, query, start, layer, steps) == r
            &&& greedy_next(math, metric, nodes, query, layer, r) == r
            &&& forall|q: nat|
                q < steps ==> {
                    let x = #[trigger] greedy_after(math, metric, nodes, query, start, layer, q);
                    greedy_next(math, metric, nodes, query, layer, x) != x
                }
        }
}

/// How far a beam search has come: the nodes that it has seen, those that wait
/// to be walked from, farthest first, and the closest that it has found,
/// closest first.
#[verifier::ext_equal]
pub struct Beam {
    pub seen: Set<u32>,
    pub waiting: Seq<Candidate>,
    pub found: Seq<Candidate>,
}

/// `s`, farthest first, with `c` put behind the last candidate that is not
/// closer.
pub open spec fn insert_waiting(s: Seq<Candidate>, c: Candidate) -> Seq<Candidate>
    decreases s.len(),
{
    if s.len() > 0 && float::rank(s.last().dist) < float::rank(c.dist) {
        insert_waiting(s.drop_last(), c).push(s.last())
    } else {
        s.push(c)
    }
}

pub(crate) proof fn lemma_insert_waiting(s: Seq<Candidate>, c: Candidate, p: int)
    requires
        0 <= p <= s.len(),
        forall|j: int|
            p <= j < s.len() ==> float::rank((#[trigger] s[j]).dist) < float::rank(c.dist),
        p > 0 ==> float::rank(c.dist) <= float::rank(s[p - 1].dist),
    ensures
        insert_waiting(s, c) == s.insert(p, c),
    decreases s.len(),
{
    if p == s.len() {
        assert(s.insert(p, c) =~= s.push(c));
    } else {
        lemma_insert_waiting(s.drop_last(), c, p);
        assert(s.insert(p, c) =~= s.drop_last().insert(p, c).push(s.last()));
    }
}

/// A beam search of width `ef` that comes across `n`: if it is new, and closer
/// than the farthest that was found or there is room, it is found and waits.
pub open spec fn beam_meets<M: VectorMath>(
    math: &M,
    metric: DistanceMetric,
    nodes: Nodes,
    query: Seq<u32>,
    ef: int,
    b: Beam,
    n: u32,
) -> Beam {
    let c = Candidate { id: n, dist: search::dist_to(math, metric, nodes, query, n) };
    if b.seen.contains(n) {
        b
    } else if float::below(c.dist, b.found.last().dist) || b.found.len() < ef {
        let grown = search::insert_stable(b.found, c);
        Beam {
            seen: b.seen.insert(n),
            waiting: insert_waiting(b.waiting, c),
            found: if grown.len() > ef {
                grown.drop_last()
            } else {
                grown
            },
        }
    } else {
        Beam { seen: b.seen.insert(n), waiting: b.waiting, found: b.found }
    }
}

/// A beam search that comes across the nodes of `list`.
pub open spec fn beam_meets_all<M: VectorMath>(
    math: &M,
    metric: DistanceMetric,
    nodes: Nodes,
    query: Seq<u32>,
    ef: int,
    b: Beam,
    list: Seq<u32>,
) -> Beam
    decreases list.len(),
{
    if list.len() == 0 {
        b
    } else {
        beam_meets(
            math,
            metric,
            nodes,
            query,
            ef,
            beam_meets_all(math, metric, nodes, query, ef, b, list.drop_last()),
            list.last(),
        )
    }
}

/// The search goes on: a node waits that is not farther than all that were
/// found.
pub open spec fn beam_goes_on(b: Beam) -> bool {
    b.waiting.len() > 0 && !float::below(b.found.last().dist, b.waiting.last().dist)
}

/// The search after it has walked from the closest node that waits.
pub open spec fn beam_next<M: VectorMath>(
    math: &M,
    metric: DistanceMetric,
    nodes: Nodes,
    query: Seq<u32>,
    layer: int,
    ef: int,
    b: Beam,
) -> Beam {
    beam_meets_all(
        math,
        metric,
        nodes,
        query,
        ef,
        Beam { seen: b.seen, waiting: b.waiting.drop_last(), found: b.found },
        nodes[b.waiting.last().id as int].layers[layer],
    )
}

/// How far a beam search of width `ef` from `start` has come after `steps`
/// steps.
pub open spec fn beam_after<M: VectorMath>(
    math: &M,
    metric: DistanceMetric,
    nodes: Nodes,
    query: Seq<u32>,
    start: u32,
    layer: int,
    ef: int,
    steps: nat,
) -> Beam
    decreases steps,
{
    if steps == 0 {
        let first = Candidate {
            id: start,
            dist: search::dist_to(math, metric, nodes, query, start),
        };
        Beam { seen: Set::empty().insert(start), waiting: seq![first], found: seq![first] }
    } else {
        beam_next(
            math,
            metric,
            nodes,
            query,
            layer,
            ef,
            beam_after(math, metric, nodes, query, start, layer, ef, (steps - 1) as nat),
        )
    }
}

/// A beam search of width `ef` from `start` ends with `s`: when it does not go
/// on for the first time, these are found.
pub open spec fn beam_ends<M: VectorMath>(
    math: &M,
    metric: DistanceMetric,
    nodes: Nodes,
    query: Seq<u32>,
    start: u32,
    layer: int,
    ef: int,
    s: Seq<Candidate>,
) -> bool {
    exists|steps: nat|
        {
            let b = #[trigger] beam_after(math, metric, nodes, query, start, layer, ef, steps);
            &&& b.found == s
            &&& !beam_goes_on(b)
            &&& forall|q: nat|
                q < steps ==> beam_goes_on(
                    #[trigger] beam_after(math, metric, nodes, query, start, layer, ef, q),
                )
        }
}

/// A greedy walk ends at one place only.
pub proof fn lemma_greedy_is_unique<M: VectorMath>(
    math: &M,
    metric: DistanceMetric,
    nodes: Nodes,
    query: Seq<u32>,
    start: u32,
    layer: int,
    a: u32,
    b: u32,
)
    requires
        greedy_ends(math, metric, nodes, query, start, layer, a),
        greedy_ends(math, metric, nodes, query, start, layer, b),
    ensures
        a == b,
{
    let i = choose|steps: nat|
        {
            &&& #[trigger] greedy_after(math, metric, nodes, query, start, layer, steps) == a
            &&& greedy_next(math, metric, nodes, query, layer, a) == a
            &&& forall|q: nat|
                q < steps ==> {
                    let x = #[trigger] greedy_after(math, metric, nodes, query, start, layer, q);
                    greedy_next(math, metric, nodes, query, layer, x) != x
                }
        };
    let j = choose|steps: nat|
        {
            &&& #[trigger] greedy_after(math, metric, nodes, query, start, layer, steps) == b
            &&& greedy_next(math, metric, nodes, query, layer, b) == b
            &&& forall|q: nat|
                q < steps ==> {
                    let x = #[trigger] greedy_after(math, metric, nodes, query, start, layer, q);
                    greedy_next(math, metric, nodes, query, layer, x) != x
                }
        };
    assert(!(i < j) && !(j < i));
}

/// A beam search ends in one way only.
pub proof fn lemma_beam_is_unique<M: VectorMath>(
    math: &M,
    metric: DistanceMetric,
    nodes: Nodes,
    query: Seq<u32>,
    start: u32,
    layer: int,
    ef: int,
    s: Seq<Candidate>,
    t: Seq<Candidate>,
)
    requires
        beam_ends(math, metric, nodes, query, start, layer, ef, s),
        beam_ends(math, metric, nodes, query, start, layer, ef, t),
    ensures
        s == t,
{
    let i = choose|steps: nat|
        {
            let b = #[trigger] beam_after(math, metric, nodes, query, start, layer, ef, steps);
            &&& b.found == s
            &&& !beam_goes_on(b)
            &&& forall|q: nat|
                q < steps ==> beam_goes_on(
                    #[trigger] beam_after(math, metric, nodes, query, start, layer, ef, q),
                )
        };
    let j = choose|steps: nat|
        {
            let b = #[trigger] beam_after(math, metric, nodes, query, start, layer, ef, steps);
            &&& b.found == t
            &&& !beam_goes_on(b)
            &&& forall|q: nat|
                q < steps ==> beam_goes_on(
                    #[trigger] beam_after(math, metric, nodes, query, start, layer, ef, q),
                )
        };
    assert(!(i < j) && !(j < i));
}

} // verus!
