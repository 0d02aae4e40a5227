//! Arithmetic on embeddings, as the index needs it.
//!
//! The index decides by distances; what a distance is, it takes from a
//! [`VectorMath`]. [`VectorFns`] makes one of three functions.

use crate::hnsw::DistanceMetric;
use vstd::prelude::*;

verus! {

/// Distances, unit vectors and levels.
pub trait VectorMath {
    /// The functions may be called.
    spec fn ready(&self) -> bool;

    /// The distance of two vectors; smaller is closer.
    spec fn distance_of(&self, metric: DistanceMetric, a: Seq<u32>, b: Seq<u32>) -> u32;

    /// The unit vector in the direction of `v`; none if `v` has no direction.
    spec fn normalized(&self, v: Seq<u32>) -> Option<Seq<u32>>;

    /// The sample number `draw` of the generator with seed `seed`, as the level
    /// of a node where about one in `m` nodes has a level higher.
    spec fn level_of(&self, seed: u64, m: usize, draw: u64) -> u8;

    /// The distance of two vectors.
    fn distance(&self, metric: DistanceMetric, a: &[u32], b: &[u32]) -> (d: u32)
        requires
            self.ready(),
        ensures
            d == self.distance_of(metric, a@, b@),
    ;

    /// The unit vector in the direction of `v`.
    fn normalize(&self, v: &[u32]) -> (r: Option<Vec<u32>>)
        requires
            self.ready(),
        ensures
            match r {
                Some(u) => self.normalized(v@) == Some(u@) && u@.len() == v@.len(),
                None => self.normalized(v@) is None,
            },
    ;

    /// The level of a new node.
    fn level(&self, seed: u64, m: usize, draw: u64) -> (level: u8)
        requires
            self.ready(),
        ensures
            level == self.level_of(seed, m, draw),
    ;
}

/// A [`VectorMath`] made of functions.
pub struct VectorFns<D, N, L> {
    pub distance: D,
    pub normalize: N,
    pub level: L,
}

impl<D, N, L> VectorFns<D, N, L> where
    D: Fn(DistanceMetric, &[u32], &[u32]) -> u32,
    N: Fn(&[u32]) -> Option<Vec<u32>>,
    L: Fn(u64, usize, u64) -> u8,
 {
    /// `d` is a distance that the function gives for `a` and `b`.
    pub open spec fn gives_distance(
        &self,
        metric: DistanceMetric,
        a: Seq<u32>,
        b: Seq<u32>,
        d: u32,
    ) -> bool {
        exists|x: &[u32], y: &[u32]|
            x@ == a && y@ == b && #[trigger] call_ensures(self.distance, (metric, x, y), d)
    }

    /// `u` is a unit vector that the function gives for `v`.
    pub open spec fn gives_unit(&self, v: Seq<u32>, u: Option<Seq<u32>>) -> bool {
        exists|x: &[u32], r: Option<Vec<u32>>|
            x@ == v && #[trigger] call_ensures(self.normalize, (x,), r) && (match r {
                Some(w) => u == Some(w@),
                None => u is None,
            })
    }
}

impl<D, N, L> VectorMath for VectorFns<D, N, L> where
    D: Fn(DistanceMetric, &[u32], &[u32]) -> u32,
    N: Fn(&[u32]) -> Option<Vec<u32>>,
    L: Fn(u64, usize, u64) -> u8,
 {
    /// Each function can be called on all inputs, gives one result for one
    /// input, and a unit vector has as many components as its vector.
    open spec fn ready(&self) -> bool {
        &&& forall|m: DistanceMetric, a: &[u32], b: &[u32]| #[trigger]
            call_requires(self.distance, (m, a, b))
        &&& forall|m: DistanceMetric, a: Seq<u32>, b: Seq<u32>, d: u32, e: u32|
            #[trigger] self.gives_distance(m, a, b, d) && #[trigger] self.gives_distance(
                m,
                a,
                b,
                e,
            ) ==> d == e
        &&& forall|v: &[u32]| #[trigger] call_requires(self.normalize, (v,))
        &&& forall|v: Seq<u32>, a: Option<Seq<u32>>, b: Option<Seq<u32>>|
            #[trigger] self.gives_unit(v, a) && #[trigger] self.gives_unit(v, b) ==> a == b
        &&& forall|v: Seq<u32>, u: Option<Seq<u32>>| #[trigger]
            self.gives_unit(v, u) ==> (u is Some ==> u->0.len() == v.len())
        &&& forall|s: u64, m: usize, n: u64| #[trigger] call_requires(self.level, (s, m, n))
        &&& forall|s: u64, m: usize, n: u64, a: u8, b: u8|
            #[trigger] call_ensures(self.level, (s, m, n), a) && #[trigger] call_ensures(
                self.level,
                (s, m, n),
                b,
            ) ==> a == b
    }

    open spec fn distance_of(&self, metric: DistanceMetric, a: Seq<u32>, b: Seq<u32>) -> u32 {
        choose|d: u32| self.gives_distance(metric, a, b, d)
    }

    open spec fn normalized(&self, v: Seq<u32>) -> Option<Seq<u32>> {
        choose|u: Option<Seq<u32>>| self.gives_unit(v, u)
    }

    open spec fn level_of(&self, seed: u64, m: usize, draw: u64) -> u8 {
        choose|l: u8| call_ensures(self.level, (seed, m, draw), l)
    }

    fn distance(&self, metric: DistanceMetric, a: &[u32], b: &[u32]) -> (d: u32) {
        let d = (self.distance)(metric, a, b);
        assert(self.gives_distance(metric, a@, b@, d));
        d
    }

    fn normalize(&self, v: &[u32]) -> (r: Option<Vec<u32>>) {
        let r = (self.normalize)(v);
        proof {
            let u = if r is Some {
                Some(r->0@)
            } else {
                None
            };
            assert(self.gives_unit(v@, u));
        }
        r
    }

    fn level(&self, seed: u64, m: usize, draw: u64) -> (level: u8) {
        (self.level)(seed, m, draw)
    }
}

} // verus!
